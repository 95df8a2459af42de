use vstd::prelude::*;
use crate::error::CacheError;
use crate::memory::evict_to_fit;
use crate::memory::has_key;
use crate::memory::key_index;
use crate::memory::live_entries;
use crate::memory::remove_key;
use crate::memory::LruMemoryCache;
use crate::stats::CacheStats;

verus! {

// ---------------------------------------------------------------------------
// The deflate codec, named for the verifier
// ---------------------------------------------------------------------------

/// The raw-deflate encoding of `data` at a compression level: a function
/// of its arguments alone.
pub uninterp spec fn deflate_of(level: u32, data: Seq<u8>) -> Seq<u8>;

/// The raw-deflate decoding of `data`, or absence when `data` is not a
/// well-formed deflate stream.
pub uninterp spec fn inflate_of(data: Seq<u8>) -> Option<Seq<u8>>;

/// Relies on flate2's `DeflateEncoder` over a `Vec` sink: raw-deflate
/// compression at the given level, a deterministic function of level and
/// input, and lossless — its output decodes back to the input. The call
/// cannot fail: writing to a `Vec` is infallible, and the compressor
/// reports errors only for preset-dictionary or invalid-parameter use,
/// neither of which this call makes.
#[verifier::external_body]
fn deflate_compress(level: u32, data: &Vec<u8>) -> (r: Result<Vec<u8>, String>)
    requires
        level <= 9,
    ensures
        r is Ok,
        r matches Ok(c) ==> c@ == deflate_of(level, data@) && inflate_of(c@) == Some(data@),
{
    let mut encoder = flate2::write::DeflateEncoder::new(
        Vec::new(),
        flate2::Compression::new(level),
    );
    match std::io::Write::write_all(&mut encoder, data.as_slice()) {
        Ok(()) => match encoder.finish() {
            Ok(v) => Ok(v),
            Err(e) => Err(e.to_string()),
        },
        Err(e) => Err(e.to_string()),
    }
}

/// Relies on flate2's `DeflateDecoder`: raw-deflate decompression, which
/// succeeds exactly on well-formed deflate streams and yields the encoded
/// bytes.
#[verifier::external_body]
fn deflate_decompress(data: &Vec<u8>) -> (r: Result<Vec<u8>, String>)
    ensures
        r is Ok <==> inflate_of(data@) is Some,
        r matches Ok(v) ==> inflate_of(data@) == Some(v@),
{
    let mut decoder = flate2::read::DeflateDecoder::new(data.as_slice());
    let mut out = Vec::new();
    match std::io::Read::read_to_end(&mut decoder, &mut out) {
        Ok(_) => Ok(out),
        Err(e) => Err(e.to_string()),
    }
}

// ---------------------------------------------------------------------------
// The compression capability
// ---------------------------------------------------------------------------

/// A compression capability for cached bytes. `spec_compress` is what
/// `compress` produces when it succeeds; `spec_decompress` is the partial
/// inverse that `decompress` computes; `spec_compress_ok` says whether
/// compression is infallible — it is for both implementations here.
/// Every implementation is lossless: decompressing a compressed value
/// yields the value again.
pub trait Compression: Sized {
    spec fn spec_compress(&self, data: Seq<u8>) -> Seq<u8>;

    spec fn spec_decompress(&self, data: Seq<u8>) -> Option<Seq<u8>>;

    spec fn spec_compress_ok(&self) -> bool;

    fn compress(&self, data: &Vec<u8>) -> (r: Result<Vec<u8>, CacheError>)
        ensures
            self.spec_compress_ok() ==> r is Ok,
            r matches Ok(c) ==> c@ == self.spec_compress(data@) && self.spec_decompress(c@)
                == Some(data@),
    ;

    fn decompress(&self, data: &Vec<u8>) -> (r: Result<Vec<u8>, CacheError>)
        ensures
            r matches Ok(v) ==> self.spec_decompress(data@) == Some(v@),
            self.spec_decompress(data@) matches Some(v) ==> r matches Ok(rv) && rv@ == v,
    ;
}

/// Pass-through compression: bytes are stored as they are.
#[derive(Debug, Clone)]
pub struct NoCompression;

impl Compression for NoCompression {
    open spec fn spec_compress(&self, data: Seq<u8>) -> Seq<u8> {
        data
    }

    open spec fn spec_decompress(&self, data: Seq<u8>) -> Option<Seq<u8>> {
        Some(data)
    }

    open spec fn spec_compress_ok(&self) -> bool {
        true
    }

    fn compress(&self, data: &Vec<u8>) -> (r: Result<Vec<u8>, CacheError>) {
        Ok(data.clone())
    }

    fn decompress(&self, data: &Vec<u8>) -> (r: Result<Vec<u8>, CacheError>) {
        Ok(data.clone())
    }
}

/// Deflate compression through flate2, at a level in `0..=9`.
#[derive(Debug, Clone)]
pub struct DeflateCompression {
    pub level: u32,
}

impl DeflateCompression {
    /// The default compression level.
    pub fn new() -> (r: Self)
        ensures
            r.level == 6,
    {
        DeflateCompression { level: 6 }
    }

    /// A chosen level, clamped into `0..=9`.
    pub fn with_level(level: u32) -> (r: Self)
        ensures
            r.level == if level <= 9 {
                level as int
            } else {
                9
            },
    {
        DeflateCompression { level: if level < 9 {
            level
        } else {
            9
        } }
    }
}

impl Default for DeflateCompression {
    fn default() -> (r: Self)
        ensures
            r.level == 6,
    {
        DeflateCompression::new()
    }
}

impl Compression for DeflateCompression {
    open spec fn spec_compress(&self, data: Seq<u8>) -> Seq<u8> {
        deflate_of(if self.level <= 9 {
            self.level
        } else {
            9
        }, data)
    }

    open spec fn spec_decompress(&self, data: Seq<u8>) -> Option<Seq<u8>> {
        inflate_of(data)
    }

    open spec fn spec_compress_ok(&self) -> bool {
        true
    }

    fn compress(&self, data: &Vec<u8>) -> (r: Result<Vec<u8>, CacheError>) {
        let level = if self.level < 9 {
            self.level
        } else {
            9
        };
        match deflate_compress(level, data) {
            Ok(c) => Ok(c),
            Err(m) => Err(CacheError::Compression(m)),
        }
    }

    fn decompress(&self, data: &Vec<u8>) -> (r: Result<Vec<u8>, CacheError>) {
        match deflate_decompress(data) {
            Ok(v) => Ok(v),
            Err(m) => Err(CacheError::Compression(m)),
        }
    }
}

// ---------------------------------------------------------------------------
// A compressing wrapper around the memory tier
// ---------------------------------------------------------------------------

/// Wraps the memory tier so that values are compressed before they are
/// stored and decompressed on the way out. A value that fails to
/// compress is stored as it is; a held value that fails to decompress is
/// reported absent and left in place.
pub struct CompressedCache<Comp> {
    pub inner: LruMemoryCache,
    pub compression: Comp,
}

impl<Comp: Compression> CompressedCache<Comp> {
    pub open spec fn wf(&self) -> bool {
        self.inner.wf()
    }

    pub fn new(cache: LruMemoryCache, compression: Comp) -> (r: Self)
        requires
            cache.wf(),
        ensures
            r.wf(),
            r.inner == cache,
            r.compression == compression,
    {
        CompressedCache { inner: cache, compression }
    }

    /// Looks a key up and decompresses the stored bytes; a value that no
    /// longer decodes is reported absent — and its entry is left in
    /// place, as the inner tier's transition below shows.
    pub fn get(&mut self, key: &String, now_ms: u64) -> (r: Option<Vec<u8>>)
        requires
            old(self).wf(),
        ensures
            final(self).wf(),
            final(self).compression == old(self).compression,
            final(self).inner.spec_max_size() == old(self).inner.spec_max_size(),
            final(self).inner.spec_ttl_ms() == old(self).inner.spec_ttl_ms(),
            ({
                let live = live_entries(
                    old(self).inner.entries(),
                    old(self).inner.spec_ttl_ms(),
                    now_ms,
                );
                let fi = final(self).inner;
                if has_key(live, key@) {
                    let i = key_index(live, key@);
                    let stored = live[i].1;
                    &&& fi.entries() == live.remove(i).push(live[i])
                    &&& fi.spec_hits() == crate::memory::inc64(old(self).inner.spec_hits())
                    &&& fi.spec_misses() == old(self).inner.spec_misses()
                    &&& match old(self).compression.spec_decompress(stored) {
                        Some(v) => r matches Some(rv) && rv@ == v,
                        None => r is None,
                    }
                } else {
                    &&& r is None
                    &&& fi.entries() == live
                    &&& fi.spec_misses() == crate::memory::inc64(old(self).inner.spec_misses())
                    &&& fi.spec_hits() == old(self).inner.spec_hits()
                }
            }),
    {
        match self.inner.get(key, now_ms) {
            Some(c) => match self.compression.decompress(&c) {
                Ok(v) => Some(v),
                Err(_) => None,
            },
            None => None,
        }
    }

    /// Compresses and stores a value; should compression itself ever
    /// fail (neither implementation here can), the plain bytes are
    /// stored instead. `CacheFull` comes exactly when no storable form
    /// fits the bound.
    pub fn set(&mut self, key: &String, value: Vec<u8>, now_ms: u64) -> (r: Result<
        (),
        CacheError,
    >)
        requires
            old(self).wf(),
        ensures
            final(self).wf(),
            final(self).compression == old(self).compression,
            final(self).inner.spec_max_size() == old(self).inner.spec_max_size(),
            final(self).inner.spec_ttl_ms() == old(self).inner.spec_ttl_ms(),
            final(self).inner.spec_hits() == old(self).inner.spec_hits(),
            final(self).inner.spec_misses() == old(self).inner.spec_misses(),
            ({
                let comp = old(self).compression.spec_compress(value@);
                let max = old(self).inner.spec_max_size() as int;
                let fe = final(self).inner.entries();
                let base_c = evict_to_fit(
                    remove_key(old(self).inner.entries(), key@),
                    comp.len() as int,
                    max,
                );
                let base_p = evict_to_fit(
                    remove_key(old(self).inner.entries(), key@),
                    value@.len() as int,
                    max,
                );
                &&& (old(self).compression.spec_compress_ok() ==> match r {
                    Ok(()) => fe == base_c.push((key@, comp, now_ms)) && old(
                        self,
                    ).compression.spec_decompress(comp) == Some(value@) && comp.len() <= max,
                    Err(e) => e == CacheError::CacheFull && comp.len() > max && fe == Seq::<
                        (Seq<char>, Seq<u8>, u64),
                    >::empty(),
                })
                &&& match r {
                    Ok(()) => (fe == base_c.push((key@, comp, now_ms)) && old(
                        self,
                    ).compression.spec_decompress(comp) == Some(value@)) || fe == base_p.push(
                        (key@, value@, now_ms),
                    ),
                    Err(e) => e == CacheError::CacheFull && (comp.len() > max || value@.len()
                        > max) && fe == Seq::<(Seq<char>, Seq<u8>, u64)>::empty(),
                }
                &&& (comp.len() <= max && value@.len() <= max) ==> r is Ok
            }),
    {
        match self.compression.compress(&value) {
            Ok(c) => self.inner.set(key, c, now_ms),
            Err(_) => self.inner.set(key, value, now_ms),
        }
    }

    /// Removes the key's entry if present.
    pub fn remove(&mut self, key: &String) -> (r: Result<(), CacheError>)
        requires
            old(self).wf(),
        ensures
            final(self).wf(),
            r is Ok,
            final(self).inner.entries() == remove_key(old(self).inner.entries(), key@),
            final(self).compression == old(self).compression,
    {
        self.inner.remove(key)
    }

    /// Drops every entry.
    pub fn clear(&mut self) -> (r: Result<(), CacheError>)
        requires
            old(self).wf(),
        ensures
            final(self).wf(),
            r is Ok,
            final(self).inner.entries() == Seq::<(Seq<char>, Seq<u8>, u64)>::empty(),
            final(self).compression == old(self).compression,
    {
        self.inner.clear()
    }

    /// The inner tier's byte total (of the stored, compressed bytes).
    pub fn size(&self) -> (r: usize)
        requires
            self.wf(),
        ensures
            r == crate::memory::sum_sizes(self.inner.entries()),
    {
        self.inner.size()
    }

    /// The inner tier's counters.
    pub fn stats(&self) -> (r: CacheStats)
        requires
            self.wf(),
        ensures
            r.hits == self.inner.spec_hits(),
            r.misses == self.inner.spec_misses(),
            r.size_bytes == crate::memory::sum_sizes(self.inner.entries()),
            r.entry_count == self.inner.entries().len(),
    {
        self.inner.stats()
    }
}

} // verus!
