use vstd::prelude::*;

verus! {

/// An RGBA colour with 8-bit channels.
#[derive(Clone, Copy, Debug, PartialEq, Eq, Structural, Hash)]
pub struct Pixel {
    pub r: u8,
    pub g: u8,
    pub b: u8,
    pub a: u8,
}

impl Pixel {
    pub fn new(r: u8, g: u8, b: u8, a: u8) -> (p: Pixel)
        ensures
            p == (Pixel { r, g, b, a }),
    {
        Pixel { r, g, b, a }
    }
}

/// The fully transparent black pixel, used wherever no colour is available.
pub open spec fn zero_pixel() -> Pixel {
    Pixel { r: 0, g: 0, b: 0, a: 0 }
}

/// Square of the difference of two channel values.
pub open spec fn sq_diff(x: u8, y: u8) -> int {
    (x as int - y as int) * (x as int - y as int)
}

/// Squared Euclidean distance of two pixels over all four channels.
pub open spec fn dist_sq(p: Pixel, q: Pixel) -> int {
    sq_diff(p.r, q.r) + sq_diff(p.g, q.g) + sq_diff(p.b, q.b) + sq_diff(p.a, q.a)
}

/// `r` is the square root of `s`, truncated to an integer.
pub open spec fn is_floor_sqrt(r: int, s: int) -> bool {
    0 <= r && r * r <= s && s < (r + 1) * (r + 1)
}

/// The Euclidean distance of two pixels, truncated to an integer.
pub open spec fn distance_spec(p: Pixel, q: Pixel) -> int {
    choose|r: int| is_floor_sqrt(r, dist_sq(p, q))
}

pub proof fn lemma_floor_sqrt_unique(r1: int, r2: int, s: int)
    requires
        is_floor_sqrt(r1, s),
        is_floor_sqrt(r2, s),
    ensures
        r1 == r2,
{
    if r1 < r2 {
        assert((r1 + 1) * (r1 + 1) <= r2 * r2) by (nonlinear_arith)
            requires
                0 <= r1 + 1 <= r2,
        ;
    }
    if r2 < r1 {
        assert((r2 + 1) * (r2 + 1) <= r1 * r1) by (nonlinear_arith)
            requires
                0 <= r2 + 1 <= r1,
        ;
    }
}

/// Once some `r` is the truncated root of `dist_sq(p, q)`, it is the distance.
pub proof fn lemma_distance_is(p: Pixel, q: Pixel, r: int)
    requires
        is_floor_sqrt(r, dist_sq(p, q)),
    ensures
        distance_spec(p, q) == r,
{
    let d = distance_spec(p, q);
    assert(is_floor_sqrt(d, dist_sq(p, q)));
    lemma_floor_sqrt_unique(d, r, dist_sq(p, q));
}

/// Every non-negative integer has a truncated square root.
pub proof fn lemma_floor_sqrt_exists(s: int) -> (r: int)
    requires
        0 <= s,
    ensures
        is_floor_sqrt(r, s),
    decreases s,
{
    if s == 0 {
        0
    } else {
        let q = lemma_floor_sqrt_exists(s - 1);
        let r = q + 1;
        assert(r * r < (r + 1) * (r + 1)) by (nonlinear_arith)
            requires
                0 <= r,
        ;
        if r * r <= s {
            r
        } else {
            q
        }
    }
}

proof fn lemma_sq_diff(x: u8, y: u8)
    ensures
        sq_diff(x, y) == sq_diff(y, x),
        0 <= sq_diff(x, y) <= 65025,
        x != y ==> sq_diff(x, y) >= 1,
{
    let d = x as int - y as int;
    assert(d * d == (-d) * (-d)) by (nonlinear_arith);
    assert(0 <= d * d <= 65025) by (nonlinear_arith)
        requires
            -255 <= d <= 255,
    ;
    assert(d != 0 ==> d * d >= 1) by (nonlinear_arith);
}

/// The distance of a pixel to itself is zero, the distance is symmetric, and
/// it is zero only between equal pixels.
pub proof fn lemma_distance_laws(p: Pixel, q: Pixel)
    ensures
        distance_spec(p, p) == 0,
        distance_spec(p, q) == distance_spec(q, p),
        distance_spec(p, q) == 0 <==> p == q,
{
    lemma_sq_diff(p.r, q.r);
    lemma_sq_diff(p.g, q.g);
    lemma_sq_diff(p.b, q.b);
    lemma_sq_diff(p.a, q.a);
    lemma_sq_diff(p.r, p.r);
    lemma_sq_diff(p.g, p.g);
    lemma_sq_diff(p.b, p.b);
    lemma_sq_diff(p.a, p.a);
    lemma_distance_is(p, p, 0);
    assert(dist_sq(p, q) == dist_sq(q, p));
    if p == q {
        lemma_distance_is(p, q, 0);
    } else {
        lemma_floor_sqrt_exists(dist_sq(p, q));
        let d = distance_spec(p, q);
        assert(is_floor_sqrt(d, dist_sq(p, q)));
        assert(dist_sq(p, q) >= 1);
        let t = dist_sq(p, q);
        assert(d != 0) by (nonlinear_arith)
            requires
                t >= 1,
                t < (d + 1) * (d + 1),
        ;
    }
}

/// Truncated square root of `s`, by bisection.
fn floor_sqrt(s: u32) -> (r: u32)
    requires
        s <= 260100,
    ensures
        is_floor_sqrt(r as int, s as int),
{
    let mut lo: u32 = 0;
    let mut hi: u32 = 511;
    while hi - lo > 1
        invariant
            lo < hi <= 511,
            lo * lo <= s,
            s < hi * hi,
        decreases hi - lo,
    {
        let mid: u32 = lo + (hi - lo) / 2;
        assert(mid * mid <= 511 * 511) by (nonlinear_arith)
            requires
                mid <= 511,
        ;
        if mid * mid <= s {
            lo = mid;
        } else {
            hi = mid;
        }
    }
    assert(hi == lo + 1);
    lo
}

/// Square of the difference of two channel values, as an integer.
fn channel_sq_diff(x: u8, y: u8) -> (d: u32)
    ensures
        d == sq_diff(x, y),
        d <= 65025,
{
    let e: u32 = if x >= y {
        (x - y) as u32
    } else {
        (y - x) as u32
    };
    assert(e * e <= 255 * 255) by (nonlinear_arith)
        requires
            e <= 255,
    ;
    proof {
        lemma_sq_diff(x, y);
        let d = x as int - y as int;
        assert(e * e == d * d) by (nonlinear_arith)
            requires
                e == d || e == -d,
        ;
    }
    e * e
}

/// Euclidean distance of two pixels over R, G, B and A, truncated to an integer.
pub fn calculate_distance(p1: Pixel, p2: Pixel) -> (r: u32)
    ensures
        r == distance_spec(p1, p2),
{
    let s: u32 = channel_sq_diff(p1.r, p2.r) + channel_sq_diff(p1.g, p2.g) + channel_sq_diff(
        p1.b,
        p2.b,
    ) + channel_sq_diff(p1.a, p2.a);
    let r = floor_sqrt(s);
    proof {
        lemma_distance_is(p1, p2, r as int);
    }
    r
}

} // verus!
