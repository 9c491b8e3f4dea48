use vstd::prelude::*;
use vstd::arithmetic::div_mod::{lemma_div_is_ordered, lemma_fundamental_div_mod_converse};
use crate::pixel::{Pixel, zero_pixel};

verus! {

/// Channel `c` of a pixel: 0 is red, 1 green, 2 blue, anything else alpha.
pub open spec fn channel(p: Pixel, c: int) -> int {
    if c == 0 {
        p.r as int
    } else if c == 1 {
        p.g as int
    } else if c == 2 {
        p.b as int
    } else {
        p.a as int
    }
}

/// Sum of channel `c` over a sequence of pixels.
pub open spec fn channel_sum(s: Seq<Pixel>, c: int) -> int
    decreases s.len(),
{
    if s.len() == 0 {
        0
    } else {
        channel_sum(s.drop_last(), c) + channel(s.last(), c)
    }
}

/// Mean of channel `c` over a non-empty sequence, truncated.
pub open spec fn channel_mean(s: Seq<Pixel>, c: int) -> u8 {
    (channel_sum(s, c) / (s.len() as int)) as u8
}

/// The average colour of a sequence of pixels; the zero pixel for an empty one.
pub open spec fn average_spec(s: Seq<Pixel>) -> Pixel {
    if s.len() == 0 {
        zero_pixel()
    } else {
        Pixel {
            r: channel_mean(s, 0),
            g: channel_mean(s, 1),
            b: channel_mean(s, 2),
            a: channel_mean(s, 3),
        }
    }
}

proof fn lemma_channel_sum_bounds(s: Seq<Pixel>, c: int)
    ensures
        0 <= channel_sum(s, c) <= 255 * s.len(),
    decreases s.len(),
{
    if s.len() > 0 {
        lemma_channel_sum_bounds(s.drop_last(), c);
    }
}

proof fn lemma_channel_sum_uniform(s: Seq<Pixel>, p: Pixel, c: int)
    requires
        forall|i: int| 0 <= i < s.len() ==> s[i] == p,
    ensures
        channel_sum(s, c) == channel(p, c) * s.len(),
    decreases s.len(),
{
    if s.len() > 0 {
        lemma_channel_sum_uniform(s.drop_last(), p, c);
        assert(channel(p, c) * s.len() == channel(p, c) * (s.len() - 1) + channel(p, c))
            by (nonlinear_arith);
    }
}

/// The average of a non-empty sequence that repeats one pixel is that pixel.
pub proof fn lemma_average_uniform(s: Seq<Pixel>, p: Pixel)
    requires
        s.len() > 0,
        forall|i: int| 0 <= i < s.len() ==> s[i] == p,
    ensures
        average_spec(s) == p,
{
    let n = s.len() as int;
    lemma_channel_sum_uniform(s, p, 0);
    lemma_channel_sum_uniform(s, p, 1);
    lemma_channel_sum_uniform(s, p, 2);
    lemma_channel_sum_uniform(s, p, 3);
    lemma_fundamental_div_mod_converse(channel(p, 0) * n, n, channel(p, 0), 0);
    lemma_fundamental_div_mod_converse(channel(p, 1) * n, n, channel(p, 1), 0);
    lemma_fundamental_div_mod_converse(channel(p, 2) * n, n, channel(p, 2), 0);
    lemma_fundamental_div_mod_converse(channel(p, 3) * n, n, channel(p, 3), 0);
}

/// Truncated mean of a channel sum; it fits a channel because the sum is at
/// most 255 per pixel.
fn mean_of(sum: u128, n: u128) -> (m: u8)
    requires
        n > 0,
        sum <= 255 * n,
    ensures
        m as int == sum as int / n as int,
{
    proof {
        lemma_div_is_ordered(sum as int, 255 * n, n as int);
        lemma_fundamental_div_mod_converse(255 * n, n as int, 255, 0);
    }
    (sum / n) as u8
}

/// Average colour of a group of pixels, each channel the truncated mean of that
/// channel; the zero pixel for an empty group.
pub fn calculate_average_color(pixels: &Vec<Pixel>) -> (avg: Pixel)
    ensures
        avg == average_spec(pixels@),
{
    let mut r: u128 = 0;
    let mut g: u128 = 0;
    let mut b: u128 = 0;
    let mut a: u128 = 0;
    let mut i: usize = 0;
    while i < pixels.len()
        invariant
            i <= pixels@.len(),
            r == channel_sum(pixels@.subrange(0, i as int), 0),
            g == channel_sum(pixels@.subrange(0, i as int), 1),
            b == channel_sum(pixels@.subrange(0, i as int), 2),
            a == channel_sum(pixels@.subrange(0, i as int), 3),
            r <= 255 * i,
            g <= 255 * i,
            b <= 255 * i,
            a <= 255 * i,
        decreases pixels@.len() - i,
    {
        let p = pixels[i];
        assert(pixels@.subrange(0, i + 1).drop_last() =~= pixels@.subrange(0, i as int));
        r = r + p.r as u128;
        g = g + p.g as u128;
        b = b + p.b as u128;
        a = a + p.a as u128;
        i = i + 1;
    }
    assert(pixels@.subrange(0, i as int) =~= pixels@);
    if i == 0 {
        return Pixel { r: 0, g: 0, b: 0, a: 0 };
    }
    let n = i as u128;
    Pixel { r: mean_of(r, n), g: mean_of(g, n), b: mean_of(b, n), a: mean_of(a, n) }
}

} // verus!
