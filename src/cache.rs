use vstd::prelude::*;
use std::collections::HashMap;
use crate::pixel::Pixel;
use crate::pool::{CandidatePool, nearest_spec};

verus! {

broadcast use vstd::std_specs::hash::group_hash_axioms;

/// A pixel packed into one word, red in the most significant byte.
pub open spec fn pack(p: Pixel) -> u32 {
    ((p.r as u32) << 24u32) | ((p.g as u32) << 16u32) | ((p.b as u32) << 8u32) | (p.a as u32)
}

pub proof fn lemma_pack_injective(p: Pixel, q: Pixel)
    requires
        pack(p) == pack(q),
    ensures
        p == q,
{
    let (r1, g1, b1, a1) = (p.r as u32, p.g as u32, p.b as u32, p.a as u32);
    let (r2, g2, b2, a2) = (q.r as u32, q.g as u32, q.b as u32, q.a as u32);
    assert(r1 == r2 && g1 == g2 && b1 == b2 && a1 == a2) by (bit_vector)
        requires
            r1 < 256 && g1 < 256 && b1 < 256 && a1 < 256,
            r2 < 256 && g2 < 256 && b2 < 256 && a2 < 256,
            (r1 << 24u32) | (g1 << 16u32) | (b1 << 8u32) | a1 == (r2 << 24u32) | (g2 << 16u32) | (
            b2 << 8u32) | a2,
    ;
}

fn pack_pixel(p: Pixel) -> (k: u32)
    ensures
        k == pack(p),
{
    ((p.r as u32) << 24u32) | ((p.g as u32) << 16u32) | ((p.b as u32) << 8u32) | (p.a as u32)
}

/// The result of looking `key` up in a cache over a pool: the candidate, and
/// the cache afterwards. A hit returns the stored candidate and leaves the
/// cache unchanged; a miss searches the whole pool and stores what it found.
pub open spec fn lookup_spec(cache: Map<Pixel, Pixel>, key: Pixel, pool: Seq<Pixel>) -> (Pixel, Map<
    Pixel,
    Pixel,
>) {
    if cache.contains_key(key) {
        (cache[key], cache)
    } else {
        (nearest_spec(key, pool), cache.insert(key, nearest_spec(key, pool)))
    }
}

/// Once a key has been looked up, a later lookup of it returns the same
/// candidate and leaves the cache as it was, whatever the pool holds by then.
pub proof fn lemma_cache_hit_repeats(
    cache: Map<Pixel, Pixel>,
    key: Pixel,
    pool: Seq<Pixel>,
    later_pool: Seq<Pixel>,
)
    ensures
        lookup_spec(lookup_spec(cache, key, pool).1, key, later_pool) == lookup_spec(
            cache,
            key,
            pool,
        ),
{
}

/// Memoises, per average colour, the candidate first chosen for it.
pub struct MatchCache {
    map: HashMap<u32, Pixel>,
}

impl View for MatchCache {
    type V = Map<Pixel, Pixel>;

    closed spec fn view(&self) -> Map<Pixel, Pixel> {
        Map::new(|k: Pixel| self.map@.contains_key(pack(k)), |k: Pixel| self.map@[pack(k)])
    }
}

impl MatchCache {
    pub fn new() -> (c: MatchCache)
        ensures
            c@ == Map::<Pixel, Pixel>::empty(),
    {
        let c = MatchCache { map: HashMap::new() };
        assert(c@ =~= Map::<Pixel, Pixel>::empty());
        c
    }

    /// The candidate stored for `key`, if any.
    pub fn get(&self, key: Pixel) -> (r: Option<Pixel>)
        ensures
            r == (if self@.contains_key(key) {
                Some(self@[key])
            } else {
                None::<Pixel>
            }),
    {
        match self.map.get(&pack_pixel(key)) {
            Some(p) => Some(*p),
            None => None,
        }
    }

    /// The candidate stored for `key`; on a miss, the candidate of `pool`
    /// nearest to `key`, which is then stored.
    pub fn lookup_or_compute(&mut self, key: Pixel, pool: &CandidatePool) -> (r: Pixel)
        ensures
            (r, final(self)@) == lookup_spec(old(self)@, key, pool@),
    {
        let k = pack_pixel(key);
        match self.map.get(&k) {
            Some(p) => *p,
            None => {
                let p = pool.find_closest(key);
                let ghost before = self@;
                self.map.insert(k, p);
                proof {
                    assert forall|q: Pixel| #[trigger] self.map@.contains_key(pack(q)) implies q
                        == key || before.contains_key(q) by {
                        if pack(q) == k {
                            lemma_pack_injective(q, key);
                        }
                    }
                    assert forall|q: Pixel| q != key implies pack(q) != k by {
                        if pack(q) == k {
                            lemma_pack_injective(q, key);
                        }
                    }
                    assert(self@ =~= before.insert(key, p));
                }
                p
            },
        }
    }
}

} // verus!
