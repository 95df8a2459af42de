use vstd::prelude::*;
use vstd::string::*;

verus! {

// ---------------------------------------------------------------------------
// Decimal digits
// ---------------------------------------------------------------------------

/// Whether `c` is a decimal digit (`'0'..='9'`).
pub open spec fn is_digit(c: char) -> bool {
    48 <= c as u32 && c as u32 <= 57
}

/// The numeric value of a digit character.
pub open spec fn digit_val(c: char) -> int {
    c as u32 - 48
}

/// The digit character for a value in `0..=9`.
pub open spec fn digit_char(d: int) -> char {
    if d == 0 {
        '0'
    } else if d == 1 {
        '1'
    } else if d == 2 {
        '2'
    } else if d == 3 {
        '3'
    } else if d == 4 {
        '4'
    } else if d == 5 {
        '5'
    } else if d == 6 {
        '6'
    } else if d == 7 {
        '7'
    } else if d == 8 {
        '8'
    } else {
        '9'
    }
}

/// The decimal representation of a non-negative integer, most significant
/// digit first, without leading zeros (except for `0` itself).
pub open spec fn spec_udec(n: int) -> Seq<char>
    decreases n,
{
    if n < 10 {
        seq![digit_char(n)]
    } else {
        spec_udec(n / 10).push(digit_char(n % 10))
    }
}

/// The decimal representation of an integer, with a leading `'-'` when
/// negative.
pub open spec fn spec_dec(n: int) -> Seq<char> {
    if n < 0 {
        seq!['-'] + spec_udec(-n)
    } else {
        spec_udec(n)
    }
}

pub open spec fn all_digits(s: Seq<char>) -> bool {
    forall|i: int| 0 <= i < s.len() ==> is_digit(#[trigger] s[i])
}

/// The value of a digit string, most significant digit first.
pub open spec fn digits_val(s: Seq<char>) -> int
    decreases s.len(),
{
    if s.len() == 0 {
        0
    } else {
        digits_val(s.drop_last()) * 10 + digit_val(s.last())
    }
}

/// What `str::parse::<i32>` accepts, without the range check: an optional
/// sign followed by at least one digit.
pub open spec fn spec_parse_int(s: Seq<char>) -> Option<int> {
    if s.len() > 0 && (s[0] == '-' || s[0] == '+') {
        let rest = s.subrange(1, s.len() as int);
        if rest.len() > 0 && all_digits(rest) {
            if s[0] == '-' {
                Some(-digits_val(rest))
            } else {
                Some(digits_val(rest))
            }
        } else {
            None
        }
    } else {
        if s.len() > 0 && all_digits(s) {
            Some(digits_val(s))
        } else {
            None
        }
    }
}

/// What `str::parse::<i32>` returns: the parsed value when it exists and
/// fits in an `i32`.
pub open spec fn spec_parse_i32(s: Seq<char>) -> Option<int> {
    match spec_parse_int(s) {
        Some(v) => if i32::MIN <= v <= i32::MAX {
            Some(v)
        } else {
            None
        },
        None => None,
    }
}

proof fn lemma_digits_val_nonneg(s: Seq<char>)
    requires
        all_digits(s),
    ensures
        digits_val(s) >= 0,
    decreases s.len(),
{
    if s.len() > 0 {
        assert(forall|i: int| 0 <= i < s.drop_last().len() ==> is_digit(#[trigger] s.drop_last()[i]));
        lemma_digits_val_nonneg(s.drop_last());
    }
}

/// Extending a digit string with further digits never lowers its value.
proof fn lemma_digits_val_prefix(s: Seq<char>, k: int)
    requires
        all_digits(s),
        0 <= k <= s.len(),
    ensures
        digits_val(s) >= digits_val(s.take(k)),
    decreases s.len() - k,
{
    if k < s.len() {
        let t = s.take(k + 1);
        assert(t.drop_last() =~= s.take(k));
        assert(t.last() == s[k]);
        assert(forall|i: int| 0 <= i < t.len() ==> is_digit(#[trigger] t[i]));
        assert(forall|i: int| 0 <= i < s.take(k).len() ==> is_digit(#[trigger] s.take(k)[i]));
        lemma_digits_val_nonneg(s.take(k));
        assert(digits_val(t) == digits_val(s.take(k)) * 10 + digit_val(s[k]));
        assert(digits_val(s.take(k)) * 10 >= digits_val(s.take(k)));
        lemma_digits_val_prefix(s, k + 1);
    } else {
        assert(s.take(k) =~= s);
    }
}

proof fn lemma_udec_digits(n: int)
    requires
        n >= 0,
    ensures
        all_digits(spec_udec(n)),
        spec_udec(n).len() >= 1,
    decreases n,
{
    if n < 10 {
        assert(is_digit(digit_char(n)));
    } else {
        lemma_udec_digits(n / 10);
        assert(spec_udec(n) == spec_udec(n / 10).push(digit_char(n % 10)));
        assert(is_digit(digit_char(n % 10)));
        assert(forall|i: int|
            0 <= i < spec_udec(n).len() ==> is_digit(#[trigger] spec_udec(n)[i]));
    }
}

proof fn lemma_udec_val(n: int)
    requires
        n >= 0,
    ensures
        digits_val(spec_udec(n)) == n,
    decreases n,
{
    if n < 10 {
        let s = seq![digit_char(n)];
        assert(s.drop_last() =~= Seq::<char>::empty());
        assert(digits_val(Seq::<char>::empty()) == 0);
        assert(digits_val(s) == 0 * 10 + digit_val(s.last()));
        assert(s.last() == digit_char(n));
        assert(digit_val(digit_char(n)) == n);
    } else {
        lemma_udec_val(n / 10);
        let s = spec_udec(n / 10).push(digit_char(n % 10));
        assert(s.drop_last() =~= spec_udec(n / 10));
        assert(s.last() == digit_char(n % 10));
        assert(digits_val(s) == (n / 10) * 10 + digit_val(digit_char(n % 10)));
    }
}

/// Formatting an `i32` and parsing the result yields the value again.
pub proof fn lemma_parse_format_int(n: int)
    requires
        i32::MIN <= n <= i32::MAX,
    ensures
        spec_parse_i32(spec_dec(n)) == Some(n),
{
    if n >= 0 {
        lemma_udec_digits(n);
        lemma_udec_val(n);
        let s = spec_udec(n);
        assert(is_digit(s[0]));
        assert(s[0] != '-' && s[0] != '+') by {
            if s[0] == '-' {
                assert(s[0] as u32 == 45);
            }
            if s[0] == '+' {
                assert(s[0] as u32 == 43);
            }
        }
        assert(spec_parse_int(s) == Some(n));
    } else {
        lemma_udec_digits(-n);
        lemma_udec_val(-n);
        let s = spec_dec(n);
        assert(s[0] == '-');
        assert(s.subrange(1, s.len() as int) =~= spec_udec(-n));
        assert(spec_parse_int(s) == Some(-digits_val(spec_udec(-n))));
    }
}

// ---------------------------------------------------------------------------
// Executable decimal formatting
// ---------------------------------------------------------------------------

fn digit_str(d: u32) -> (r: &'static str)
    requires
        d < 10,
    ensures
        r@ =~= seq![digit_char(d as int)],
{
    proof {
        reveal_strlit("0");
        reveal_strlit("1");
        reveal_strlit("2");
        reveal_strlit("3");
        reveal_strlit("4");
        reveal_strlit("5");
        reveal_strlit("6");
        reveal_strlit("7");
        reveal_strlit("8");
        reveal_strlit("9");
    }
    if d == 0 {
        "0"
    } else if d == 1 {
        "1"
    } else if d == 2 {
        "2"
    } else if d == 3 {
        "3"
    } else if d == 4 {
        "4"
    } else if d == 5 {
        "5"
    } else if d == 6 {
        "6"
    } else if d == 7 {
        "7"
    } else if d == 8 {
        "8"
    } else {
        "9"
    }
}

fn push_udec(n: u32, out: &mut String)
    ensures
        final(out)@ == old(out)@ + spec_udec(n as int),
    decreases n,
{
    if n >= 10 {
        push_udec(n / 10, out);
        out.append(digit_str(n % 10));
        assert(final(out)@ =~= old(out)@ + spec_udec(n as int));
    } else {
        out.append(digit_str(n));
        assert(final(out)@ =~= old(out)@ + spec_udec(n as int));
    }
}

/// Renders an integer in decimal, as `format!("{}", n)` would.
pub fn format_i32(n: i32) -> (r: String)
    ensures
        r@ == spec_dec(n as int),
{
    let mut out = String::new();
    if n < 0 {
        proof {
            reveal_strlit("-");
        }
        out.append("-");
        let mag: u32 = if n == i32::MIN {
            2147483648u32
        } else {
            (-n) as u32
        };
        assert(mag as int == -(n as int));
        push_udec(mag, &mut out);
        assert(out@ =~= spec_dec(n as int));
    } else {
        push_udec(n as u32, &mut out);
        assert(out@ =~= spec_dec(n as int));
    }
    out
}

// ---------------------------------------------------------------------------
// Executable decimal parsing
// ---------------------------------------------------------------------------

/// Relates `spec_parse_int` on a whole string to the digit part behind an
/// optional sign.
proof fn lemma_parse_shape(s: Seq<char>, start: int, digits: Seq<char>)
    requires
        start < s.len(),
        start == if s[0] == '-' || s[0] == '+' {
            1int
        } else {
            0int
        },
        digits == s.subrange(start, s.len() as int),
    ensures
        all_digits(digits) ==> spec_parse_int(s) == Some(
            if s[0] == '-' {
                -digits_val(digits)
            } else {
                digits_val(digits)
            },
        ),
        !all_digits(digits) ==> spec_parse_int(s) is None,
{
    if s[0] == '-' || s[0] == '+' {
        assert(s.subrange(1, s.len() as int) == digits);
    } else {
        assert(digits =~= s);
        if all_digits(digits) {
            assert(is_digit(s[0]));
        }
    }
}

/// Parses an optionally signed decimal integer, as `str::parse::<i32>`
/// does: absence means the string is not a well-formed `i32`.
pub fn parse_i32(s: &str) -> (r: Option<i32>)
    ensures
        match r {
            Some(v) => spec_parse_i32(s@) == Some(v as int),
            None => spec_parse_i32(s@) is None,
        },
{
    let n = s.unicode_len();
    if n == 0 {
        return None;
    }
    let first = s.get_char(0);
    let neg = first == '-';
    let start: usize = if first == '-' || first == '+' {
        1
    } else {
        0
    };
    if start == n {
        return None;
    }
    let ghost digits = s@.subrange(start as int, n as int);
    let mut acc: u64 = 0;
    let mut i: usize = start;
    while i < n
        invariant
            start <= i <= n,
            n == s@.len(),
            start == if s@[0] == '-' || s@[0] == '+' { 1int } else { 0int },
            neg == (s@[0] == '-'),
            start < n,
            digits == s@.subrange(start as int, n as int),
            all_digits(s@.subrange(start as int, i as int)),
            acc == digits_val(s@.subrange(start as int, i as int)),
            acc <= 0x8000_0000,
        decreases n - i,
    {
        let c = s.get_char(i);
        let u = c as u32;
        if u < 48 || u > 57 {
            proof {
                assert(!is_digit(s@[i as int]));
                assert(!all_digits(digits)) by {
                    assert(digits[i - start] == s@[i as int]);
                }
                lemma_parse_shape(s@, start as int, digits);
            }
            return None;
        }
        let ghost prev = s@.subrange(start as int, i as int);
        let ghost cur = s@.subrange(start as int, i + 1);
        proof {
            assert(cur.drop_last() =~= prev);
            assert(cur.last() == s@[i as int]);
            assert(forall|j: int| 0 <= j < cur.len() ==> is_digit(#[trigger] cur[j]));
        }
        acc = acc * 10 + (u - 48) as u64;
        i = i + 1;
        if acc > 0x8000_0000 {
            proof {
                lemma_parse_shape(s@, start as int, digits);
                if all_digits(digits) {
                    lemma_digits_val_prefix(digits, i - start);
                    assert(digits.take(i - start) =~= cur);
                    assert(digits_val(digits) >= digits_val(cur));
                    assert(digits_val(digits) > 0x8000_0000);
                }
            }
            return None;
        }
    }
    proof {
        assert(s@.subrange(start as int, i as int) =~= digits);
        assert(all_digits(digits));
        assert(acc == digits_val(digits));
        lemma_parse_shape(s@, start as int, digits);
    }
    if neg {
        let v: i32 = if acc == 0x8000_0000 {
            i32::MIN
        } else {
            -((acc as i64) as i32)
        };
        assert(v as int == -(acc as int));
        assert(spec_parse_int(s@) == Some(-digits_val(digits)));
        Some(v)
    } else {
        if acc > 0x7fff_ffff {
            assert(spec_parse_int(s@) == Some(digits_val(digits)));
            None
        } else {
            assert(spec_parse_int(s@) == Some(digits_val(digits)));
            Some(acc as i32)
        }
    }
}

// ---------------------------------------------------------------------------
// Splitting and joining on a separator character
// ---------------------------------------------------------------------------

/// The views of a sequence of owned strings.
pub open spec fn str_views(v: Seq<String>) -> Seq<Seq<char>> {
    v.map_values(|t: String| t@)
}

/// What `str::split(sep)` yields: the (possibly empty) segments between
/// occurrences of `sep`. An empty string yields one empty segment.
pub open spec fn spec_split(s: Seq<char>, sep: char) -> Seq<Seq<char>>
    decreases s.len(),
{
    if s.len() == 0 {
        seq![Seq::<char>::empty()]
    } else if s[0] == sep {
        seq![Seq::<char>::empty()] + spec_split(s.skip(1), sep)
    } else {
        let rest = spec_split(s.skip(1), sep);
        seq![seq![s[0]] + rest[0]] + rest.skip(1)
    }
}

pub proof fn lemma_split_len(s: Seq<char>, sep: char)
    ensures
        spec_split(s, sep).len() >= 1,
    decreases s.len(),
{
    if s.len() > 0 {
        lemma_split_len(s.skip(1), sep);
    }
}

/// A string without the separator is one single segment.
pub proof fn lemma_split_no_sep(s: Seq<char>, sep: char)
    requires
        forall|i: int| 0 <= i < s.len() ==> s[i] != sep,
    ensures
        spec_split(s, sep) =~~= seq![s],
    decreases s.len(),
{
    if s.len() > 0 {
        assert(forall|i: int| 0 <= i < s.skip(1).len() ==> s.skip(1)[i] != sep) by {
            assert(forall|i: int| 0 <= i < s.skip(1).len() ==> s.skip(1)[i] == s[i + 1]);
        }
        lemma_split_no_sep(s.skip(1), sep);
        assert(seq![s[0]] + s.skip(1) =~= s);
    }
}

/// Splitting at the first separator occurrence peels off the first
/// segment.
pub proof fn lemma_split_at_first(s: Seq<char>, sep: char, k: int)
    requires
        0 <= k < s.len(),
        s[k] == sep,
        forall|i: int| 0 <= i < k ==> s[i] != sep,
    ensures
        spec_split(s, sep) =~~= seq![s.take(k)] + spec_split(s.skip(k + 1), sep),
    decreases k,
{
    if k == 0 {
        assert(s.take(0) =~= Seq::<char>::empty());
    } else {
        assert(s[0] != sep);
        let t = s.skip(1);
        assert(t[k - 1] == sep);
        assert(forall|i: int| 0 <= i < k - 1 ==> t[i] != sep) by {
            assert(forall|i: int| 0 <= i < t.len() ==> t[i] == s[i + 1]);
        }
        lemma_split_at_first(t, sep, k - 1);
        assert(t.skip(k) =~= s.skip(k + 1));
        assert(seq![s[0]] + t.take(k - 1) =~= s.take(k));
        lemma_split_len(s.skip(k + 1), sep);
    }
}

/// Joins segments with a separator between them; the inverse of
/// `spec_split` for separator-free segments.
pub open spec fn spec_join(parts: Seq<Seq<char>>, sep: char) -> Seq<char>
    decreases parts.len(),
{
    if parts.len() == 0 {
        Seq::<char>::empty()
    } else if parts.len() == 1 {
        parts[0]
    } else {
        parts[0] + seq![sep] + spec_join(parts.skip(1), sep)
    }
}

pub proof fn lemma_join_push(parts: Seq<Seq<char>>, x: Seq<char>, sep: char)
    requires
        parts.len() >= 1,
    ensures
        spec_join(parts.push(x), sep) =~~= spec_join(parts, sep) + seq![sep] + x,
    decreases parts.len(),
{
    if parts.len() == 1 {
        let p = parts.push(x);
        assert(p.skip(1) =~= seq![x]);
        assert(spec_join(seq![x], sep) == x);
    } else {
        lemma_join_push(parts.skip(1), x, sep);
        let p = parts.push(x);
        assert(p.skip(1) =~= parts.skip(1).push(x));
        assert(p[0] == parts[0]);
    }
}

/// A character other than the separator that occurs in no segment does
/// not occur in the joined string.
pub proof fn lemma_join_no_char(parts: Seq<Seq<char>>, sep: char, c: char)
    requires
        c != sep,
        forall|i: int, j: int|
            0 <= i < parts.len() && 0 <= j < parts[i].len() ==> #[trigger] parts[i][j] != c,
    ensures
        forall|j: int| 0 <= j < spec_join(parts, sep).len() ==> spec_join(parts, sep)[j] != c,
    decreases parts.len(),
{
    if parts.len() == 0 {
    } else if parts.len() == 1 {
        assert(forall|j: int| 0 <= j < parts[0].len() ==> parts[0][j] != c);
    } else {
        lemma_join_no_char(parts.skip(1), sep, c);
        let s = parts[0] + seq![sep] + spec_join(parts.skip(1), sep);
        assert(forall|j: int| 0 <= j < s.len() ==> s[j] != c) by {
            assert(forall|j: int| 0 <= j < parts[0].len() ==> s[j] == parts[0][j]);
            assert(s[parts[0].len() as int] == sep);
            assert(forall|j: int|
                parts[0].len() + 1 <= j < s.len() ==> s[j] == spec_join(parts.skip(1), sep)[j
                    - parts[0].len() - 1]);
        }
    }
}

/// Splitting a join of separator-free segments yields the segments again.
pub proof fn lemma_split_join(parts: Seq<Seq<char>>, sep: char)
    requires
        parts.len() >= 1,
        forall|i: int, j: int|
            0 <= i < parts.len() && 0 <= j < parts[i].len() ==> #[trigger] parts[i][j] != sep,
    ensures
        spec_split(spec_join(parts, sep), sep) =~~= parts,
    decreases parts.len(),
{
    if parts.len() == 1 {
        assert(forall|j: int| 0 <= j < parts[0].len() ==> parts[0][j] != sep);
        lemma_split_no_sep(parts[0], sep);
    } else {
        let s = spec_join(parts, sep);
        let p0 = parts[0];
        let rest = spec_join(parts.skip(1), sep);
        assert(s == p0 + seq![sep] + rest);
        assert(s.take(p0.len() as int) =~= p0);
        assert(s[p0.len() as int] == sep);
        assert(forall|i: int| 0 <= i < p0.len() ==> s[i] != sep) by {
            assert(forall|i: int| 0 <= i < p0.len() ==> s[i] == p0[i]);
        }
        lemma_split_at_first(s, sep, p0.len() as int);
        assert(s.skip(p0.len() as int + 1) =~= rest);
        lemma_split_join(parts.skip(1), sep);
    }
}

/// Splits a string on every occurrence of `sep`, as `str::split` does.
pub fn split_char(s: &str, sep: char) -> (r: Vec<String>)
    ensures
        str_views(r@) =~~= spec_split(s@, sep),
{
    let n = s.unicode_len();
    let mut r: Vec<String> = Vec::new();
    proof {
        assert(str_views(r@) =~= Seq::<Seq<char>>::empty());
        assert(s@.skip(0) =~= s@);
    }
    let mut start: usize = 0;
    let mut i: usize = 0;
    while i < n
        invariant
            0 <= start <= i <= n,
            n == s@.len(),
            forall|j: int| start <= j < i ==> s@[j] != sep,
            spec_split(s@, sep) =~~= str_views(r@) + spec_split(s@.skip(start as int), sep),
        decreases n - i,
    {
        let c = s.get_char(i);
        if c == sep {
            let seg = s.substring_char(start, i);
            let owned = String::from_str(seg);
            proof {
                let tail = s@.skip(start as int);
                assert(tail[i - start] == sep);
                assert(forall|j: int| 0 <= j < i - start ==> tail[j] != sep) by {
                    assert(forall|j: int| 0 <= j < tail.len() ==> tail[j] == s@[j + start]);
                }
                lemma_split_at_first(tail, sep, i - start);
                assert(tail.take(i - start) =~= s@.subrange(start as int, i as int));
                assert(tail.skip(i - start + 1) =~= s@.skip(i + 1));
                assert(str_views(r@.push(owned)) =~= str_views(r@).push(owned@));
            }
            r.push(owned);
            start = i + 1;
        }
        i = i + 1;
    }
    let seg = s.substring_char(start, n);
    let owned = String::from_str(seg);
    proof {
        let tail = s@.skip(start as int);
        assert(forall|j: int| 0 <= j < tail.len() ==> tail[j] != sep) by {
            assert(forall|j: int| 0 <= j < tail.len() ==> tail[j] == s@[j + start]);
        }
        lemma_split_no_sep(tail, sep);
        assert(tail =~= s@.subrange(start as int, n as int));
        assert(str_views(r@.push(owned)) =~= str_views(r@).push(owned@));
    }
    r.push(owned);
    r
}

// ---------------------------------------------------------------------------
// Chunk keys: `array_name/c0.c1...cN-1`
// ---------------------------------------------------------------------------

/// The coordinates of a `Vec<i32>` as mathematical integers.
pub open spec fn int_coords(v: Seq<i32>) -> Seq<int> {
    v.map_values(|x: i32| x as int)
}

/// The views of a sequence of coordinate vectors.
pub open spec fn coord_views(v: Seq<Vec<i32>>) -> Seq<Seq<int>> {
    v.map_values(|c: Vec<i32>| int_coords(c@))
}

/// What parsing a chunk key yields: the array name before the single `/`
/// and the `.`-separated signed decimal coordinates after it. Any other
/// shape is not a chunk key.
pub open spec fn spec_parse_chunk_key(s: Seq<char>) -> Option<(Seq<char>, Seq<int>)> {
    let parts = spec_split(s, '/');
    if parts.len() != 2 {
        None
    } else {
        let segs = spec_split(parts[1], '.');
        if forall|i: int| 0 <= i < segs.len() ==> (#[trigger] spec_parse_i32(segs[i])) is Some {
            Some((parts[0], Seq::new(segs.len(), |i: int| spec_parse_i32(segs[i]).unwrap())))
        } else {
            None
        }
    }
}

/// The chunk key built from an array name and coordinates.
pub open spec fn spec_chunk_key(array: Seq<char>, coords: Seq<int>) -> Seq<char> {
    array + seq!['/'] + spec_join(coords.map_values(|n: int| spec_dec(n)), '.')
}

/// Parses a chunk key of the form `array_name/c0.c1...cN-1`; absence
/// means the key has some other shape and is passed through by callers.
pub fn parse_zarr_chunk_key(key: &str) -> (r: Option<(String, Vec<i32>)>)
    ensures
        match r {
            Some(p) => spec_parse_chunk_key(key@) == Some((p.0@, int_coords(p.1@))),
            None => spec_parse_chunk_key(key@) is None,
        },
{
    let parts = split_char(key, '/');
    if parts.len() != 2 {
        return None;
    }
    let ghost segs_spec = spec_split(parts@[1]@, '.');
    let segs = split_char(parts[1].as_str(), '.');
    let mut coords: Vec<i32> = Vec::new();
    let mut j: usize = 0;
    while j < segs.len()
        invariant
            0 <= j <= segs@.len(),
            parts@.len() == 2,
            str_views(parts@) == spec_split(key@, '/'),
            segs_spec == str_views(segs@),
            segs_spec == spec_split(parts@[1]@, '.'),
            coords@.len() == j,
            forall|i: int|
                0 <= i < j ==> spec_parse_i32(segs_spec[i]) == Some(
                    #[trigger] coords@[i] as int,
                ),
        decreases segs@.len() - j,
    {
        match parse_i32(segs[j].as_str()) {
            Some(v) => {
                coords.push(v);
            },
            None => {
                proof {
                    assert(spec_split(key@, '/').len() == 2);
                    assert(spec_split(key@, '/')[1] == parts@[1]@);
                    assert(spec_parse_i32(segs_spec[j as int]) is None);
                    assert(!(forall|i: int|
                        0 <= i < segs_spec.len() ==> (#[trigger] spec_parse_i32(
                            segs_spec[i],
                        )) is Some));
                }
                return None;
            },
        }
        j = j + 1;
    }
    proof {
        assert(spec_split(key@, '/').len() == 2);
        assert(spec_split(key@, '/')[1] == parts@[1]@);
        assert(spec_split(key@, '/')[0] == parts@[0]@);
        assert(forall|i: int|
            0 <= i < segs_spec.len() ==> (#[trigger] spec_parse_i32(segs_spec[i])) is Some) by {
            assert forall|i: int|
                0 <= i < segs_spec.len() implies (#[trigger] spec_parse_i32(
                segs_spec[i],
            )) is Some by {
                assert(spec_parse_i32(segs_spec[i]) == Some(coords@[i] as int));
            }
        }
        assert(Seq::new(segs_spec.len(), |i: int| spec_parse_i32(segs_spec[i]).unwrap())
            =~= int_coords(coords@)) by {
            assert(forall|i: int|
                0 <= i < segs_spec.len() ==> spec_parse_i32(segs_spec[i]) == Some(
                    #[trigger] coords@[i] as int,
                ));
        }
    }
    Some((parts[0].clone(), coords))
}

proof fn lemma_dec_chars(n: int)
    ensures
        spec_dec(n).len() >= 1,
        forall|j: int|
            0 <= j < spec_dec(n).len() ==> (#[trigger] spec_dec(n)[j] == '-' || is_digit(
                spec_dec(n)[j],
            )),
{
    if n < 0 {
        lemma_udec_digits(-n);
        let s = seq!['-'] + spec_udec(-n);
        assert(forall|j: int| 1 <= j < s.len() ==> s[j] == spec_udec(-n)[j - 1]);
        assert(s[0] == '-');
    } else {
        lemma_udec_digits(n);
    }
}

/// Formats coordinates back into a chunk key, `array/c0.c1...cN-1`.
pub fn coordinates_to_zarr_key(array_name: &str, coords: &Vec<i32>) -> (r: String)
    ensures
        r@ == spec_chunk_key(array_name@, int_coords(coords@)),
{
    let mut out = String::from_str(array_name);
    proof {
        reveal_strlit("/");
        reveal_strlit(".");
    }
    out.append("/");
    let ghost decs = int_coords(coords@).map_values(|n: int| spec_dec(n));
    proof {
        assert(out@ =~= array_name@ + seq!['/'] + spec_join(decs.take(0), '.'));
    }
    let n = coords.len();
    let mut i: usize = 0;
    while i < n
        invariant
            0 <= i <= n,
            n == coords@.len(),
            decs == int_coords(coords@).map_values(|n_: int| spec_dec(n_)),
            out@ == array_name@ + seq!['/'] + spec_join(decs.take(i as int), '.'),
        decreases n - i,
    {
        if i > 0 {
            out.append(".");
        }
        let d = format_i32(coords[i]);
        out.append(d.as_str());
        proof {
            reveal_strlit(".");
            if i == 0 {
                assert(decs.take(1) =~= seq![decs[0]]);
                assert(spec_join(seq![decs[0]], '.') == decs[0]);
                assert(out@ =~= array_name@ + seq!['/'] + spec_join(decs.take(1), '.'));
            } else {
                lemma_join_push(decs.take(i as int), decs[i as int], '.');
                assert(decs.take(i as int).push(decs[i as int]) =~= decs.take(i + 1));
                assert(out@ =~= array_name@ + seq!['/'] + spec_join(decs.take(i + 1), '.'));
            }
        }
        i = i + 1;
    }
    proof {
        assert(decs.take(n as int) =~= decs);
    }
    out
}

/// Formats a coordinate list alone, `c0.c1...cN-1`.
pub fn format_coordinates(coords: &Vec<i32>) -> (r: String)
    ensures
        r@ == spec_join(int_coords(coords@).map_values(|n_: int| spec_dec(n_)), '.'),
{
    let mut out = String::new();
    proof {
        reveal_strlit(".");
    }
    let ghost decs = int_coords(coords@).map_values(|n_: int| spec_dec(n_));
    proof {
        assert(out@ =~= spec_join(decs.take(0), '.'));
    }
    let n = coords.len();
    let mut i: usize = 0;
    while i < n
        invariant
            0 <= i <= n,
            n == coords@.len(),
            decs == int_coords(coords@).map_values(|n_: int| spec_dec(n_)),
            out@ == spec_join(decs.take(i as int), '.'),
        decreases n - i,
    {
        if i > 0 {
            out.append(".");
        }
        let d = format_i32(coords[i]);
        out.append(d.as_str());
        proof {
            reveal_strlit(".");
            if i == 0 {
                assert(decs.take(1) =~= seq![decs[0]]);
                assert(spec_join(seq![decs[0]], '.') == decs[0]);
                assert(out@ =~= spec_join(decs.take(1), '.'));
            } else {
                lemma_join_push(decs.take(i as int), decs[i as int], '.');
                assert(decs.take(i as int).push(decs[i as int]) =~= decs.take(i + 1));
                assert(out@ =~= spec_join(decs.take(i + 1), '.'));
            }
        }
        i = i + 1;
    }
    proof {
        assert(decs.take(n as int) =~= decs);
    }
    out
}

/// Parsing the formatted key of any well-formed components yields the
/// components again: the codec round trip. The array name may not contain
/// `/`, and at least one coordinate must be present.
pub proof fn lemma_chunk_key_round_trip(array: Seq<char>, coords: Seq<int>)
    requires
        forall|i: int| 0 <= i < array.len() ==> array[i] != '/',
        coords.len() >= 1,
        forall|i: int| 0 <= i < coords.len() ==> i32::MIN <= #[trigger] coords[i] <= i32::MAX,
    ensures
        spec_parse_chunk_key(spec_chunk_key(array, coords)) == Some((array, coords)),
{
    let decs = coords.map_values(|n: int| spec_dec(n));
    let joined = spec_join(decs, '.');
    let s = spec_chunk_key(array, coords);
    assert(forall|i: int, j: int|
        0 <= i < decs.len() && 0 <= j < decs[i].len() ==> #[trigger] decs[i][j] != '.') by {
        assert forall|i: int, j: int|
            0 <= i < decs.len() && 0 <= j < decs[i].len() implies #[trigger] decs[i][j]
            != '.' by {
            lemma_dec_chars(coords[i]);
            assert(decs[i] == spec_dec(coords[i]));
            assert(decs[i][j] == '-' || is_digit(decs[i][j]));
            if decs[i][j] == '.' {
                assert(decs[i][j] as u32 == 46);
            }
        }
    }
    assert(forall|i: int, j: int|
        0 <= i < decs.len() && 0 <= j < decs[i].len() ==> #[trigger] decs[i][j] != '/') by {
        assert forall|i: int, j: int|
            0 <= i < decs.len() && 0 <= j < decs[i].len() implies #[trigger] decs[i][j]
            != '/' by {
            lemma_dec_chars(coords[i]);
            assert(decs[i][j] == '-' || is_digit(decs[i][j]));
            if decs[i][j] == '/' {
                assert(decs[i][j] as u32 == 47);
            }
        }
    }
    lemma_split_join(decs, '.');
    lemma_join_no_char(decs, '.', '/');
    assert(s.take(array.len() as int) =~= array);
    assert(s[array.len() as int] == '/');
    assert(forall|i: int| 0 <= i < array.len() ==> s[i] != '/') by {
        assert(forall|i: int| 0 <= i < array.len() ==> s[i] == array[i]);
    }
    lemma_split_at_first(s, '/', array.len() as int);
    assert(s.skip(array.len() as int + 1) =~= joined);
    assert(forall|j: int| 0 <= j < joined.len() ==> joined[j] != '/');
    lemma_split_no_sep(joined, '/');
    let parts = spec_split(s, '/');
    assert(parts =~= seq![array, joined]);
    assert(parts[1] == joined);
    assert(spec_split(parts[1], '.') == decs);
    assert(forall|i: int| 0 <= i < decs.len() ==> (#[trigger] spec_parse_i32(decs[i])) is Some)
        by {
        assert forall|i: int| 0 <= i < decs.len() implies (#[trigger] spec_parse_i32(
            decs[i],
        )) is Some by {
            lemma_parse_format_int(coords[i]);
        }
    }
    assert(Seq::new(decs.len(), |i: int| spec_parse_i32(decs[i]).unwrap()) =~= coords) by {
        assert forall|i: int| 0 <= i < decs.len() implies spec_parse_i32(decs[i]) == Some(
            coords[i],
        ) by {
            lemma_parse_format_int(coords[i]);
        }
    }
}

// ---------------------------------------------------------------------------
// Neighbor coordinate generation
// ---------------------------------------------------------------------------

/// No coordinate is negative.
pub open spec fn all_nonneg(c: Seq<int>) -> bool {
    forall|i: int| 0 <= i < c.len() ==> #[trigger] c[i] >= 0
}

/// The neighbors emitted for one dimension and one offset: the positive
/// direction first, then the negative one, each kept only when the
/// result contains no negative coordinate (and, for the positive
/// direction, stays within `i32`).
pub open spec fn one_dim_neighbors(coords: Seq<int>, d: int, o: int) -> Seq<Seq<int>> {
    let pos = coords.update(d, coords[d] + o);
    let neg = coords.update(d, coords[d] - o);
    (if coords[d] + o <= i32::MAX && all_nonneg(pos) {
        seq![pos]
    } else {
        Seq::<Seq<int>>::empty()
    }) + (if all_nonneg(neg) {
        seq![neg]
    } else {
        Seq::<Seq<int>>::empty()
    })
}

/// The neighbors of dimension `d` for offsets `o..=count`, in offset
/// order.
pub open spec fn dim_neighbors_from(coords: Seq<int>, d: int, o: int, count: int) -> Seq<
    Seq<int>,
>
    decreases count + 1 - o,
{
    if o > count || o < 1 {
        Seq::<Seq<int>>::empty()
    } else {
        one_dim_neighbors(coords, d, o) + dim_neighbors_from(coords, d, o + 1, count)
    }
}

/// The neighbors of dimensions `d..`, dimension-major.
pub open spec fn neighbors_from_dim(coords: Seq<int>, d: int, count: int) -> Seq<Seq<int>>
    decreases coords.len() - d,
{
    if d < 0 || d >= coords.len() {
        Seq::<Seq<int>>::empty()
    } else {
        dim_neighbors_from(coords, d, 1, count) + neighbors_from_dim(coords, d + 1, count)
    }
}

/// All neighbors of `coords` within `count` steps along one axis:
/// dimension-major, positive before negative, no deduplication.
pub open spec fn spec_neighbors(coords: Seq<int>, count: int) -> Seq<Seq<int>> {
    neighbors_from_dim(coords, 0, count)
}

/// `nb` differs from `coords` exactly in dimension `d`, by at most
/// `count`, and the changed coordinate is non-negative.
pub open spec fn is_axis_neighbor(coords: Seq<int>, nb: Seq<int>, d: int, count: int) -> bool {
    &&& nb.len() == coords.len()
    &&& 0 <= d < coords.len()
    &&& nb[d] != coords[d]
    &&& -count <= nb[d] - coords[d] <= count
    &&& nb[d] >= 0
    &&& forall|k: int| 0 <= k < coords.len() && k != d ==> nb[k] == coords[k]
}

/// `nb` differs from `coords` in exactly one dimension, within `count`.
pub open spec fn is_some_axis_neighbor(coords: Seq<int>, nb: Seq<int>, count: int) -> bool {
    exists|d: int| #[trigger] is_axis_neighbor(coords, nb, d, count)
}

proof fn lemma_dim_from_props(coords: Seq<int>, d: int, o: int, count: int)
    requires
        0 <= d < coords.len(),
        1 <= o,
    ensures
        dim_neighbors_from(coords, d, o, count).len() <= if o <= count {
            2 * (count + 1 - o)
        } else {
            0
        },
        forall|j: int|
            0 <= j < dim_neighbors_from(coords, d, o, count).len() ==> is_axis_neighbor(
                coords,
                #[trigger] dim_neighbors_from(coords, d, o, count)[j],
                d,
                count,
            ),
        forall|j: int|
            0 <= j < dim_neighbors_from(coords, d, o, count).len() ==> all_nonneg(
                #[trigger] dim_neighbors_from(coords, d, o, count)[j],
            ),
    decreases count + 1 - o,
{
    if o > count {
    } else {
        lemma_dim_from_props(coords, d, o + 1, count);
        let head = one_dim_neighbors(coords, d, o);
        let tail = dim_neighbors_from(coords, d, o + 1, count);
        assert(head.len() <= 2);
        assert(forall|j: int|
            0 <= j < head.len() ==> is_axis_neighbor(coords, #[trigger] head[j], d, count));
        assert(forall|j: int| 0 <= j < head.len() ==> all_nonneg(#[trigger] head[j]));
        assert(forall|j: int|
            0 <= j < dim_neighbors_from(coords, d, o, count).len()
                ==> #[trigger] dim_neighbors_from(coords, d, o, count)[j] == if j < head.len() {
                head[j]
            } else {
                tail[j - head.len()]
            });
    }
}

proof fn lemma_from_dim_props(coords: Seq<int>, d: int, count: int)
    requires
        0 <= d <= coords.len(),
        count >= 0,
    ensures
        neighbors_from_dim(coords, d, count).len() <= 2 * count * (coords.len() - d),
        forall|j: int|
            0 <= j < neighbors_from_dim(coords, d, count).len() ==> is_some_axis_neighbor(
                coords,
                #[trigger] neighbors_from_dim(coords, d, count)[j],
                count,
            ),
        forall|j: int|
            0 <= j < neighbors_from_dim(coords, d, count).len() ==> all_nonneg(
                #[trigger] neighbors_from_dim(coords, d, count)[j],
            ),
    decreases coords.len() - d,
{
    if d < coords.len() {
        lemma_from_dim_props(coords, d + 1, count);
        lemma_dim_from_props(coords, d, 1, count);
        let head = dim_neighbors_from(coords, d, 1, count);
        let tail = neighbors_from_dim(coords, d + 1, count);
        assert(head.len() <= 2 * count);
        assert(2 * count + 2 * count * (coords.len() - d - 1) == 2 * count * (coords.len() - d))
            by (nonlinear_arith);
        assert(forall|j: int|
            0 <= j < neighbors_from_dim(coords, d, count).len()
                ==> #[trigger] neighbors_from_dim(coords, d, count)[j] == if j < head.len() {
                head[j]
            } else {
                tail[j - head.len()]
            });
        assert(forall|j: int|
            0 <= j < head.len() ==> is_some_axis_neighbor(coords, #[trigger] head[j], count)) by {
            assert(forall|j: int|
                0 <= j < head.len() ==> is_axis_neighbor(coords, #[trigger] head[j], d, count));
        }
    }
}

/// The neighbor generator's guarantees: at most `2 * count * dim`
/// outputs, each differing from the input in exactly one dimension by at
/// most `count`, and no output contains a negative coordinate.
pub proof fn lemma_neighbors_properties(coords: Seq<int>, count: int)
    requires
        count >= 0,
    ensures
        spec_neighbors(coords, count).len() <= 2 * count * coords.len(),
        forall|j: int|
            0 <= j < spec_neighbors(coords, count).len() ==> is_some_axis_neighbor(
                coords,
                #[trigger] spec_neighbors(coords, count)[j],
                count,
            ),
        forall|j: int, k: int|
            0 <= j < spec_neighbors(coords, count).len() && 0 <= k < coords.len()
                ==> #[trigger] spec_neighbors(coords, count)[j][k] >= 0,
{
    lemma_from_dim_props(coords, 0, count);
    assert forall|j: int, k: int|
        0 <= j < spec_neighbors(coords, count).len() && 0 <= k
            < coords.len() implies #[trigger] spec_neighbors(coords, count)[j][k] >= 0 by {
        let nb = spec_neighbors(coords, count)[j];
        assert(all_nonneg(nb));
        assert(is_some_axis_neighbor(coords, nb, count));
        let d = choose|d: int| #[trigger] is_axis_neighbor(coords, nb, d, count);
        assert(nb.len() == coords.len());
        assert(nb[k] >= 0);
    }
}

/// Whether every coordinate of the vector is non-negative.
fn vec_all_nonneg(v: &Vec<i32>) -> (r: bool)
    ensures
        r == all_nonneg(int_coords(v@)),
{
    let n = v.len();
    let mut i: usize = 0;
    while i < n
        invariant
            0 <= i <= n,
            n == v@.len(),
            forall|t: int| 0 <= t < i ==> #[trigger] int_coords(v@)[t] >= 0,
        decreases n - i,
    {
        if v[i] < 0 {
            proof {
                assert(int_coords(v@)[i as int] < 0);
            }
            return false;
        }
        i = i + 1;
    }
    true
}

/// Generates the axis neighbors of `coords` out to `neighbor_count`
/// steps: for each dimension the positive offset first, then the negative
/// one, keeping only results that contain no negative coordinate.
pub fn generate_neighbor_coordinates(coords: &Vec<i32>, neighbor_count: usize) -> (r: Vec<
    Vec<i32>,
>)
    ensures
        coord_views(r@) == spec_neighbors(
            int_coords(coords@),
            if neighbor_count > i32::MAX as usize {
                i32::MAX as int
            } else {
                neighbor_count as int
            },
        ),
{
    let ghost c = int_coords(coords@);
    let cap: u32 = if neighbor_count > i32::MAX as usize {
        i32::MAX as u32
    } else {
        neighbor_count as u32
    };
    let c_len = coords.len();
    let mut r: Vec<Vec<i32>> = Vec::new();
    proof {
        assert(coord_views(r@) + neighbors_from_dim(c, 0, cap as int) =~~= spec_neighbors(
            c,
            cap as int,
        ));
    }
    let mut d: usize = 0;
    while d < c_len
        invariant
            0 <= d <= c_len,
            c_len == coords@.len(),
            c == int_coords(coords@),
            cap <= i32::MAX as u32,
            coord_views(r@) + neighbors_from_dim(c, d as int, cap as int) =~~= spec_neighbors(
                c,
                cap as int,
            ),
        decreases c_len - d,
    {
        let base = coords[d];
        let mut o: u32 = 1;
        while o <= cap
            invariant
                1 <= o <= cap + 1,
                0 <= d < c_len,
                c_len == coords@.len(),
                c == int_coords(coords@),
                cap <= i32::MAX as u32,
                base == coords@[d as int],
                coord_views(r@) + dim_neighbors_from(c, d as int, o as int, cap as int)
                    + neighbors_from_dim(c, d as int + 1, cap as int) =~~= spec_neighbors(
                    c,
                    cap as int,
                ),
            decreases cap + 1 - o,
        {
            proof {
                assert(dim_neighbors_from(c, d as int, o as int, cap as int)
                    == one_dim_neighbors(c, d as int, o as int) + dim_neighbors_from(
                    c,
                    d as int,
                    o as int + 1,
                    cap as int,
                ));
            }
            let nd: i64 = base as i64 + o as i64;
            if nd >= 0 && nd <= i32::MAX as i64 {
                let mut nv = coords.clone();
                proof {
                    assert(int_coords(nv@) =~= c);
                }
                nv[d] = nd as i32;
                proof {
                    assert(int_coords(nv@) =~= c.update(d as int, c[d as int] + o as int));
                }
                if vec_all_nonneg(&nv) {
                    r.push(nv);
                }
            } else {
                proof {
                    let pos = c.update(d as int, c[d as int] + o as int);
                    if nd < 0 {
                        assert(pos[d as int] < 0);
                        assert(!all_nonneg(pos));
                    }
                }
            }
            let md: i64 = base as i64 - o as i64;
            if md >= 0 {
                let mut nv = coords.clone();
                proof {
                    assert(int_coords(nv@) =~= c);
                }
                nv[d] = md as i32;
                proof {
                    assert(int_coords(nv@) =~= c.update(d as int, c[d as int] - o as int));
                }
                if vec_all_nonneg(&nv) {
                    r.push(nv);
                }
            } else {
                proof {
                    let neg = c.update(d as int, c[d as int] - o as int);
                    assert(neg[d as int] < 0);
                    assert(!all_nonneg(neg));
                }
            }
            proof {
                assert(coord_views(r@) + dim_neighbors_from(c, d as int, o as int + 1, cap as int)
                    + neighbors_from_dim(c, d as int + 1, cap as int) =~~= spec_neighbors(
                    c,
                    cap as int,
                ));
            }
            o = o + 1;
        }
        proof {
            assert(dim_neighbors_from(c, d as int, o as int, cap as int)
                == Seq::<Seq<int>>::empty());
            assert(coord_views(r@) + neighbors_from_dim(c, d as int + 1, cap as int)
                =~~= spec_neighbors(c, cap as int));
        }
        d = d + 1;
    }
    proof {
        assert(neighbors_from_dim(c, d as int, cap as int) == Seq::<Seq<int>>::empty());
        assert(coord_views(r@) =~~= spec_neighbors(c, cap as int));
    }
    r
}

// ---------------------------------------------------------------------------
// Sequential successor keys
// ---------------------------------------------------------------------------

/// The keys produced by incrementing the last coordinate by `1..=lookahead`,
/// cut short where the increment would leave `i32`.
pub open spec fn spec_sequential_keys(array: Seq<char>, coords: Seq<int>, lookahead: int) -> Seq<
    Seq<char>,
> {
    if coords.len() == 0 {
        Seq::<Seq<char>>::empty()
    } else {
        let room = i32::MAX - coords.last();
        let cap = if lookahead <= room {
            lookahead
        } else {
            room
        };
        Seq::new(
            cap as nat,
            |i: int|
                spec_chunk_key(
                    array,
                    coords.update(coords.len() - 1, coords.last() + i + 1),
                ),
        )
    }
}

/// Generates successor keys by stepping the last coordinate forward by
/// `1..=lookahead`.
pub fn generate_sequential_keys(array_name: &str, coords: &Vec<i32>, lookahead: usize) -> (r: Vec<
    String,
>)
    ensures
        str_views(r@) == spec_sequential_keys(array_name@, int_coords(coords@), lookahead as int),
{
    let ghost c = int_coords(coords@);
    let mut r: Vec<String> = Vec::new();
    if coords.len() == 0 {
        proof {
            assert(str_views(r@) =~~= spec_sequential_keys(array_name@, c, lookahead as int));
        }
        return r;
    }
    let last = coords[coords.len() - 1];
    let room: u64 = (i32::MAX as i64 - last as i64) as u64;
    let cap: u64 = if lookahead as u64 <= room {
        lookahead as u64
    } else {
        room
    };
    let mut i: u64 = 0;
    while i < cap
        invariant
            0 <= i <= cap,
            coords@.len() >= 1,
            c == int_coords(coords@),
            last == coords@[coords@.len() - 1],
            room == i32::MAX - c.last(),
            cap == if lookahead as int <= room as int {
                lookahead as int
            } else {
                room as int
            },
            str_views(r@) =~~= spec_sequential_keys(
                array_name@,
                c,
                lookahead as int,
            ).take(i as int),
        decreases cap - i,
    {
        let mut nv = coords.clone();
        proof {
            assert(int_coords(nv@) =~= c);
        }
        let step: i64 = last as i64 + i as i64 + 1;
        let li = nv.len() - 1;
        nv[li] = step as i32;
        proof {
            assert(int_coords(nv@) =~= c.update(c.len() - 1, c.last() + i + 1));
        }
        let key = coordinates_to_zarr_key(array_name, &nv);
        r.push(key);
        proof {
            let full = spec_sequential_keys(array_name@, c, lookahead as int);
            assert(full.len() == cap);
            assert(full[i as int] == key@);
            assert(full.take(i as int).push(key@) =~= full.take(i as int + 1));
            assert(str_views(r@) =~~= full.take(i as int + 1));
        }
        i = i + 1;
    }
    proof {
        let full = spec_sequential_keys(array_name@, c, lookahead as int);
        assert(full.take(cap as int) =~= full);
    }
    r
}

} // verus!
