use vstd::prelude::*;
use crate::codec::generate_neighbor_coordinates;
use crate::codec::generate_sequential_keys;
use crate::codec::coordinates_to_zarr_key;
use crate::codec::int_coords;
use crate::codec::parse_zarr_chunk_key;
use crate::codec::spec_chunk_key;
use crate::codec::spec_neighbors;
use crate::codec::spec_parse_chunk_key;
use crate::codec::spec_sequential_keys;
use crate::codec::str_views;
use crate::config::PrefetchConfig;

verus! {

/// The keys the neighbor strategy derives from one accessed key: every
/// axis neighbor of the parsed coordinates, formatted back; a key that is
/// not a chunk key yields nothing.
pub open spec fn spec_neighbor_prefetch_keys(key: Seq<char>, count: int) -> Seq<Seq<char>> {
    match spec_parse_chunk_key(key) {
        Some(p) => spec_neighbors(p.1, count).map_values(|c: Seq<int>| spec_chunk_key(p.0, c)),
        None => Seq::<Seq<char>>::empty(),
    }
}

/// The keys the sequential strategy derives: the successors of the last
/// coordinate; a key that is not a chunk key yields nothing.
pub open spec fn spec_sequential_prefetch_keys(key: Seq<char>, lookahead: int) -> Seq<Seq<char>> {
    match spec_parse_chunk_key(key) {
        Some(p) => spec_sequential_keys(p.0, p.1, lookahead),
        None => Seq::<Seq<char>>::empty(),
    }
}

/// A prefetch strategy derives, from one accessed key, the keys worth
/// loading next; `spec_prefetch_keys` names exactly which.
pub trait PrefetchStrategy: Sized {
    spec fn spec_prefetch_keys(&self, key: Seq<char>) -> Seq<Seq<char>>;

    fn generate_prefetch_keys(&self, accessed_key: &str) -> (r: Vec<String>)
        ensures
            str_views(r@) == self.spec_prefetch_keys(accessed_key@),
    ;
}

/// Prefetches the axis neighbors of each accessed chunk, through a
/// bounded drop-oldest queue that the caller drains against its loader.
pub struct NeighborChunkPrefetch {
    pub neighbor_count: usize,
    pub max_queue_size: usize,
    pub prefetch_queue: Vec<String>,
}

impl NeighborChunkPrefetch {
    pub fn new(config: &PrefetchConfig) -> (r: Self)
        ensures
            r.neighbor_count == config.neighbor_chunks,
            r.max_queue_size == config.max_queue_size,
            r.prefetch_queue@ == Seq::<String>::empty(),
    {
        NeighborChunkPrefetch {
            neighbor_count: config.neighbor_chunks,
            max_queue_size: config.max_queue_size,
            prefetch_queue: Vec::new(),
        }
    }

    /// Queues one derived key: when the queue is full the oldest entry
    /// is dropped first, and a key that is already cached is not queued.
    pub fn enqueue(&mut self, key: String, already_cached: bool)
        ensures
            final(self).neighbor_count == old(self).neighbor_count,
            final(self).max_queue_size == old(self).max_queue_size,
            ({
                let q = old(self).prefetch_queue@;
                let base = if q.len() >= old(self).max_queue_size && q.len() > 0 {
                    q.skip(1)
                } else {
                    q
                };
                str_views(final(self).prefetch_queue@) == if already_cached {
                    str_views(base)
                } else {
                    str_views(base).push(key@)
                }
            }),
    {
        if self.prefetch_queue.len() >= self.max_queue_size && self.prefetch_queue.len() > 0 {
            let ghost q0 = self.prefetch_queue@;
            self.prefetch_queue.remove(0);
            proof {
                assert(self.prefetch_queue@ =~= q0.skip(1));
                assert(str_views(self.prefetch_queue@) =~= str_views(q0.skip(1)));
            }
        }
        let ghost base = self.prefetch_queue@;
        if !already_cached {
            self.prefetch_queue.push(key);
            proof {
                assert(str_views(self.prefetch_queue@) =~= str_views(base).push(
                    self.prefetch_queue@.last()@,
                ));
            }
        }
    }

    /// Takes up to the queue bound's worth of keys out for loading; the
    /// rest of the queue is discarded, as a fresh batch supersedes it.
    pub fn drain(&mut self) -> (r: Vec<String>)
        ensures
            final(self).neighbor_count == old(self).neighbor_count,
            final(self).max_queue_size == old(self).max_queue_size,
            final(self).prefetch_queue@ == Seq::<String>::empty(),
            r@ == if old(self).prefetch_queue@.len() <= old(self).max_queue_size {
                old(self).prefetch_queue@
            } else {
                old(self).prefetch_queue@.take(old(self).max_queue_size as int)
            },
    {
        let mut q = std::vec::Vec::new();
        std::mem::swap(&mut q, &mut self.prefetch_queue);
        if q.len() > self.max_queue_size {
            q.truncate(self.max_queue_size);
        }
        q
    }
}

impl PrefetchStrategy for NeighborChunkPrefetch {
    open spec fn spec_prefetch_keys(&self, key: Seq<char>) -> Seq<Seq<char>> {
        spec_neighbor_prefetch_keys(
            key,
            if self.neighbor_count > i32::MAX as usize {
                i32::MAX as int
            } else {
                self.neighbor_count as int
            },
        )
    }

    fn generate_prefetch_keys(&self, accessed_key: &str) -> (r: Vec<String>) {
        match parse_zarr_chunk_key(accessed_key) {
            None => {
                let r: Vec<String> = Vec::new();
                proof {
                    assert(str_views(r@) =~= self.spec_prefetch_keys(accessed_key@));
                }
                r
            },
            Some((array_name, coords)) => {
                let neighbors = generate_neighbor_coordinates(&coords, self.neighbor_count);
                let mut r: Vec<String> = Vec::new();
                let n = neighbors.len();
                let ghost nbv = crate::codec::coord_views(neighbors@);
                let mut i: usize = 0;
                while i < n
                    invariant
                        0 <= i <= n,
                        n == neighbors@.len(),
                        nbv == crate::codec::coord_views(neighbors@),
                        str_views(r@) =~~= nbv.map_values(
                            |nc: Seq<int>| spec_chunk_key(array_name@, nc),
                        ).take(i as int),
                    decreases n - i,
                {
                    let key = coordinates_to_zarr_key(array_name.as_str(), &neighbors[i]);
                    r.push(key);
                    proof {
                        let mapped = nbv.map_values(
                            |nc: Seq<int>| spec_chunk_key(array_name@, nc),
                        );
                        assert(mapped[i as int] == spec_chunk_key(array_name@, nbv[i as int]));
                        assert(nbv[i as int] == int_coords(neighbors@[i as int]@));
                        assert(r@.last()@ == spec_chunk_key(array_name@, nbv[i as int]));
                        assert(mapped.take(i as int).push(mapped[i as int]) =~= mapped.take(
                            i + 1,
                        ));
                        assert(str_views(r@) =~~= mapped.take(i + 1));
                    }
                    i = i + 1;
                }
                proof {
                    let mapped = nbv.map_values(
                        |nc: Seq<int>| spec_chunk_key(array_name@, nc),
                    );
                    assert(mapped.take(n as int) =~= mapped);
                    assert(str_views(r@) =~~= self.spec_prefetch_keys(accessed_key@));
                }
                r
            },
        }
    }
}

/// Prefetches the successors along the last coordinate of each accessed
/// chunk. The caller drives loading, skipping keys that are cached.
pub struct SequentialPrefetch {
    pub lookahead: usize,
    pub max_queue_size: usize,
}

impl SequentialPrefetch {
    pub fn new(config: &PrefetchConfig) -> (r: Self)
        ensures
            r.lookahead == config.neighbor_chunks,
            r.max_queue_size == config.max_queue_size,
    {
        SequentialPrefetch {
            lookahead: config.neighbor_chunks,
            max_queue_size: config.max_queue_size,
        }
    }
}

impl PrefetchStrategy for SequentialPrefetch {
    open spec fn spec_prefetch_keys(&self, key: Seq<char>) -> Seq<Seq<char>> {
        spec_sequential_prefetch_keys(key, self.lookahead as int)
    }

    fn generate_prefetch_keys(&self, accessed_key: &str) -> (r: Vec<String>) {
        match parse_zarr_chunk_key(accessed_key) {
            None => {
                let r: Vec<String> = Vec::new();
                proof {
                    assert(str_views(r@) =~= self.spec_prefetch_keys(accessed_key@));
                }
                r
            },
            Some((array_name, coords)) => {
                generate_sequential_keys(array_name.as_str(), &coords, self.lookahead)
            },
        }
    }
}

/// The strategy that never prefetches.
pub struct NoPrefetch;

impl PrefetchStrategy for NoPrefetch {
    open spec fn spec_prefetch_keys(&self, key: Seq<char>) -> Seq<Seq<char>> {
        Seq::<Seq<char>>::empty()
    }

    fn generate_prefetch_keys(&self, accessed_key: &str) -> (r: Vec<String>) {
        let r: Vec<String> = Vec::new();
        proof {
            assert(str_views(r@) =~= Seq::<Seq<char>>::empty());
        }
        r
    }
}

} // verus!
