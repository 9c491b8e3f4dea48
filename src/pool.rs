use vstd::prelude::*;
use crate::pixel::{Pixel, zero_pixel, distance_spec, calculate_distance};

verus! {

/// `i` is the first position in `s` whose pixel is at minimal distance from `key`.
pub open spec fn is_first_nearest(key: Pixel, s: Seq<Pixel>, i: int) -> bool {
    &&& 0 <= i < s.len()
    &&& forall|j: int| 0 <= j < s.len() ==> distance_spec(key, s[i]) <= distance_spec(key, s[j])
    &&& forall|j: int| 0 <= j < i ==> distance_spec(key, s[i]) < distance_spec(key, s[j])
}

/// The pixel of `s` nearest to `key`, the earliest among equally near ones;
/// the zero pixel when `s` is empty.
pub open spec fn nearest_spec(key: Pixel, s: Seq<Pixel>) -> Pixel {
    if s.len() == 0 {
        zero_pixel()
    } else {
        s[choose|i: int| is_first_nearest(key, s, i)]
    }
}

pub proof fn lemma_first_nearest_unique(key: Pixel, s: Seq<Pixel>, i: int, k: int)
    requires
        is_first_nearest(key, s, i),
        is_first_nearest(key, s, k),
    ensures
        i == k,
{
    if i < k {
        assert(distance_spec(key, s[k]) < distance_spec(key, s[i]));
    }
    if k < i {
        assert(distance_spec(key, s[i]) < distance_spec(key, s[k]));
    }
}

/// The first position of `p` in `s`, where `s` holds it.
pub open spec fn first_index(s: Seq<Pixel>, p: Pixel) -> int {
    choose|i: int| 0 <= i < s.len() && s[i] == p && forall|j: int| 0 <= j < i ==> s[j] != p
}

/// `s` without its first occurrence of `p`; `s` itself where `p` is absent.
pub open spec fn remove_one(s: Seq<Pixel>, p: Pixel) -> Seq<Pixel> {
    if s.contains(p) {
        s.remove(first_index(s, p))
    } else {
        s
    }
}

/// `s` after removing each pixel of `rs` in turn.
pub open spec fn remove_each(s: Seq<Pixel>, rs: Seq<Pixel>) -> Seq<Pixel>
    decreases rs.len(),
{
    if rs.len() == 0 {
        s
    } else {
        remove_one(remove_each(s, rs.drop_last()), rs.last())
    }
}

/// Each removal of `rs`, made in turn on `s`, finds the pixel it removes.
pub open spec fn each_found(s: Seq<Pixel>, rs: Seq<Pixel>) -> bool {
    forall|k: int| 0 <= k < rs.len() ==> #[trigger] remove_each(s, rs.subrange(0, k)).contains(rs[k])
}

/// After `n` removals that each find their pixel, a pool of `N` candidates
/// holds `N - n`.
pub proof fn lemma_pool_shrinks(s: Seq<Pixel>, rs: Seq<Pixel>)
    requires
        each_found(s, rs),
    ensures
        remove_each(s, rs).len() == s.len() - rs.len(),
    decreases rs.len(),
{
    if rs.len() > 0 {
        let head = rs.drop_last();
        assert forall|k: int| 0 <= k < head.len() implies #[trigger] remove_each(
            s,
            head.subrange(0, k),
        ).contains(head[k]) by {
            assert(head.subrange(0, k) =~= rs.subrange(0, k));
            assert(remove_each(s, rs.subrange(0, k)).contains(rs[k]));
        }
        lemma_pool_shrinks(s, head);
        let k = rs.len() - 1;
        assert(rs.subrange(0, k) =~= head);
        assert(remove_each(s, rs.subrange(0, k)).contains(rs[k]));
        let t = remove_each(s, head);
        let p = rs.last();
        let w = choose|i: int| 0 <= i < t.len() && t[i] == p;
        lemma_first_index_exists(t, p, w);
    }
}

/// Where `s` holds `p`, its first position is well defined.
pub proof fn lemma_first_index_exists(s: Seq<Pixel>, p: Pixel, w: int)
    requires
        0 <= w < s.len(),
        s[w] == p,
    ensures
        0 <= first_index(s, p) < s.len(),
        s[first_index(s, p)] == p,
        forall|j: int| 0 <= j < first_index(s, p) ==> s[j] != p,
    decreases w,
{
    if exists|j: int| 0 <= j < w && s[j] == p {
        let v = choose|j: int| 0 <= j < w && s[j] == p;
        lemma_first_index_exists(s, p, v);
    } else {
        assert(0 <= w < s.len() && s[w] == p && forall|j: int| 0 <= j < w ==> s[j] != p);
    }
}

/// The pixel of `pixels` nearest to `pixel`, the earliest among equally near
/// ones; the zero pixel when `pixels` is empty.
pub fn find_closest_pixel(pixel: Pixel, pixels: &Vec<Pixel>) -> (r: Pixel)
    ensures
        r == nearest_spec(pixel, pixels@),
{
    if pixels.len() == 0 {
        return Pixel { r: 0, g: 0, b: 0, a: 0 };
    }
    let mut best: usize = 0;
    let mut best_distance: u32 = calculate_distance(pixel, pixels[0]);
    let mut i: usize = 1;
    while i < pixels.len()
        invariant
            1 <= i <= pixels@.len(),
            best < i,
            best_distance == distance_spec(pixel, pixels@[best as int]),
            forall|j: int| 0 <= j < i ==> best_distance <= distance_spec(pixel, pixels@[j]),
            forall|j: int| 0 <= j < best ==> best_distance < distance_spec(pixel, pixels@[j]),
        decreases pixels@.len() - i,
    {
        let d = calculate_distance(pixel, pixels[i]);
        if d < best_distance {
            best = i;
            best_distance = d;
        }
        i = i + 1;
    }
    proof {
        assert(is_first_nearest(pixel, pixels@, best as int));
        let c = choose|k: int| is_first_nearest(pixel, pixels@, k);
        lemma_first_nearest_unique(pixel, pixels@, best as int, c);
    }
    pixels[best]
}

/// The pixel that a random 32-bit word stands for: its bytes from the most
/// significant down are red, green, blue and alpha.
pub open spec fn word_pixel(w: u32) -> Pixel {
    Pixel { r: (w >> 24u32) as u8, g: (w >> 16u32) as u8, b: (w >> 8u32) as u8, a: w as u8 }
}

/// Splits a 32-bit word into a pixel, most significant byte first.
pub fn pixel_from_word(w: u32) -> (p: Pixel)
    ensures
        p == word_pixel(w),
{
    Pixel { r: (w >> 24u32) as u8, g: (w >> 16u32) as u8, b: (w >> 8u32) as u8, a: w as u8 }
}

/// The pixels that a sequence of random words stands for, in order.
pub fn pixels_from_words(words: &Vec<u32>) -> (pixels: Vec<Pixel>)
    ensures
        pixels@ == words@.map_values(|w: u32| word_pixel(w)),
{
    let mut pixels: Vec<Pixel> = Vec::with_capacity(words.len());
    let mut i: usize = 0;
    while i < words.len()
        invariant
            i <= words@.len(),
            pixels@ == words@.subrange(0, i as int).map_values(|w: u32| word_pixel(w)),
        decreases words@.len() - i,
    {
        pixels.push(pixel_from_word(words[i]));
        i = i + 1;
        assert(pixels@ =~= words@.subrange(0, i as int).map_values(|w: u32| word_pixel(w)));
    }
    assert(words@.subrange(0, i as int) =~= words@);
    pixels
}

/// Relies on rand::random::<u32>: a word drawn from the thread-local generator,
/// which is seeded from the system's entropy. Nothing is known of its value.
#[verifier::external_body]
fn random_word() -> (w: u32) {
    rand::random::<u32>()
}

/// `n` random pixels, each from one random 32-bit word.
pub fn generate_random_pixels(n: usize) -> (pixels: Vec<Pixel>)
    ensures
        pixels@.len() == n,
{
    let mut pixels: Vec<Pixel> = Vec::with_capacity(n);
    let mut i: usize = 0;
    while i < n
        invariant
            i <= n,
            pixels@.len() == i,
        decreases n - i,
    {
        let w = random_word();
        pixels.push(pixel_from_word(w));
        i = i + 1;
    }
    pixels
}

/// A consumable pool of candidate colours.
pub struct CandidatePool {
    pixels: Vec<Pixel>,
}

impl View for CandidatePool {
    type V = Seq<Pixel>;

    closed spec fn view(&self) -> Seq<Pixel> {
        self.pixels@
    }
}

impl CandidatePool {
    /// A pool holding the given candidates, in order.
    pub fn new(pixels: Vec<Pixel>) -> (pool: CandidatePool)
        ensures
            pool@ == pixels@,
    {
        CandidatePool { pixels }
    }

    /// A pool of `count` random candidates.
    pub fn generate(count: usize) -> (pool: CandidatePool)
        ensures
            pool@.len() == count,
    {
        CandidatePool { pixels: generate_random_pixels(count) }
    }

    pub fn len(&self) -> (n: usize)
        ensures
            n == self@.len(),
    {
        self.pixels.len()
    }

    pub fn get(&self, i: usize) -> (p: Pixel)
        requires
            i < self@.len(),
        ensures
            p == self@[i as int],
    {
        self.pixels[i]
    }

    /// The candidate nearest to `key`, the earliest among equally near ones;
    /// the zero pixel when the pool is empty.
    pub fn find_closest(&self, key: Pixel) -> (p: Pixel)
        ensures
            p == nearest_spec(key, self@),
    {
        find_closest_pixel(key, &self.pixels)
    }

    /// Removes the first candidate equal to `p`; does nothing if there is none.
    pub fn remove(&mut self, p: Pixel)
        ensures
            final(self)@ == remove_one(old(self)@, p),
            old(self)@.contains(p) ==> final(self)@.len() == old(self)@.len() - 1,
    {
        let mut i: usize = 0;
        while i < self.pixels.len()
            invariant
                i <= self.pixels@.len(),
                self.pixels@ == old(self).pixels@,
                forall|j: int| 0 <= j < i ==> self.pixels@[j] != p,
            decreases self.pixels@.len() - i,
        {
            if self.pixels[i] == p {
                proof {
                    let s = self.pixels@;
                    lemma_first_index_exists(s, p, i as int);
                    let f = first_index(s, p);
                    assert(s.contains(p));
                    if f < i {
                        assert(s[f] != p);
                    }
                    if f > i {
                        assert(s[i as int] != p);
                    }
                }
                self.pixels.remove(i);
                return;
            }
            i = i + 1;
        }
    }
}

} // verus!
