use vstd::prelude::*;
use vstd::arithmetic::div_mod::{lemma_fundamental_div_mod, lemma_fundamental_div_mod_converse};
use crate::pixel::Pixel;
use crate::average::{average_spec, calculate_average_color};
use crate::pool::{CandidatePool, remove_one, generate_random_pixels};
use crate::cache::{MatchCache, lookup_spec};

verus! {

/// Side of the square blocks that the mosaic is made of.
pub const BLOCK_SIZE: u32 = 2;

/// A raster of pixels stored row by row.
pub struct Raster {
    pub width: u32,
    pub height: u32,
    pub pixels: Vec<Pixel>,
}

impl Raster {
    /// The pixel buffer holds exactly one pixel per cell.
    pub open spec fn wf(&self) -> bool {
        self.pixels@.len() == self.width as int * self.height as int
    }

    /// The pixel in column `x` of row `y`.
    pub open spec fn at(&self, x: int, y: int) -> Pixel {
        self.pixels@[y * self.width + x]
    }

    pub fn get_pixel(&self, x: u32, y: u32) -> (p: Pixel)
        requires
            self.wf(),
            x < self.width,
            y < self.height,
        ensures
            p == self.at(x as int, y as int),
    {
        let len = self.pixels.len();
        proof {
            lemma_cell_index(x as int, y as int, self.width as int, self.height as int);
        }
        self.pixels[(y as usize) * (self.width as usize) + (x as usize)]
    }
}

/// Opaque black, the colour of cells that no block covers.
pub open spec fn background() -> Pixel {
    Pixel { r: 0, g: 0, b: 0, a: 255 }
}

proof fn lemma_cell_index(x: int, y: int, w: int, h: int)
    requires
        0 <= x < w,
        0 <= y < h,
    ensures
        0 <= y * w <= y * w + x < w * h,
        w * h == h * w,
{
    assert(0 <= y * w <= y * w + x < w * h) by (nonlinear_arith)
        requires
            0 <= x < w,
            0 <= y < h,
    ;
    assert(w * h == h * w) by (nonlinear_arith);
}

/// Offset `k` inside block `b` of size `n` stays below `m` when the block lies
/// in the first `m / n` blocks.
proof fn lemma_in_block(b: int, k: int, n: int, m: int)
    requires
        0 < n,
        0 <= m,
        0 <= b < m / n,
        0 <= k < n,
    ensures
        0 <= b * n <= b * n + k < m,
{
    lemma_fundamental_div_mod(m, n);
    let q = m / n;
    assert(0 <= b * n <= b * n + k < m) by (nonlinear_arith)
        requires
            0 < n,
            0 <= b < q,
            0 <= k < n,
            m == n * q + m % n,
            0 <= m % n,
    ;
}

/// The cells that whole blocks cover in a span of `m` fit in that span.
proof fn lemma_blocks_fit(m: int, n: int)
    requires
        0 < n,
        0 <= m,
    ensures
        0 <= (m / n) * n <= m,
        0 <= m / n,
{
    lemma_fundamental_div_mod(m, n);
    let q = m / n;
    assert(0 <= q * n <= m) by (nonlinear_arith)
        requires
            0 < n,
            m == n * q + m % n,
            0 <= m % n < n,
            0 <= m,
    ;
}

/// The `n * n` source pixels of block (`bx`, `by`), column offset outer and
/// row offset inner.
pub open spec fn block_pixels(src: Raster, n: int, bx: int, by: int) -> Seq<Pixel> {
    Seq::new((n * n) as nat, |t: int| src.at(bx * n + t / (n as int), by * n + t % n))
}

/// The number of whole blocks of size `n` in `src`.
pub open spec fn block_count(src: Raster, n: int) -> nat {
    ((src.width as int / n) * (src.height as int / n)) as nat
}

/// The state after the first `b` blocks, taken column of blocks by column of
/// blocks and top to bottom within each: the pool, the cache and the colour
/// chosen for each block so far. Each block looks its average colour up in the
/// cache, searching the pool on a miss, and then consumes the chosen candidate.
pub open spec fn run(src: Raster, n: int, pool: Seq<Pixel>, b: nat) -> (Seq<Pixel>, Map<
    Pixel,
    Pixel,
>, Seq<Pixel>)
    decreases b,
{
    if b == 0 {
        (pool, Map::empty(), Seq::empty())
    } else {
        let (rest, cache, colors) = run(src, n, pool, (b - 1) as nat);
        let bh = src.height as int / n;
        let key = average_spec(block_pixels(src, n, (b - 1) / bh, (b - 1) % bh));
        let (c, next_cache) = lookup_spec(cache, key, rest);
        (remove_one(rest, c), next_cache, colors.push(c))
    }
}

/// The colour of every whole block of `src`, in the order of `run`, drawing
/// on the candidates `pool`.
pub open spec fn mosaic_colors(src: Raster, n: int, pool: Seq<Pixel>) -> Seq<Pixel> {
    run(src, n, pool, block_count(src, n)).2
}

/// The colour of cell (`x`, `y`) of the output: that of its block where a
/// whole block covers it, the background elsewhere.
pub open spec fn cell(w: int, h: int, n: int, colors: Seq<Pixel>, x: int, y: int) -> Pixel {
    if x < (w / n) * n && y < (h / n) * n {
        colors[(x / n) * (h / n) + y / n]
    } else {
        background()
    }
}

/// `out` is the mosaic of `src` with blocks of size `n` drawn from `pool`.
pub open spec fn is_mosaic_of(out: Raster, src: Raster, n: int, pool: Seq<Pixel>) -> bool {
    &&& out.wf()
    &&& out.width == src.width
    &&& out.height == src.height
    &&& forall|x: int, y: int|
        0 <= x < src.width && 0 <= y < src.height ==> #[trigger] out.at(x, y) == cell(
            src.width as int,
            src.height as int,
            n,
            mosaic_colors(src, n, pool),
            x,
            y,
        )
}

/// The average colour of block (`bx`, `by`) of size `n`.
pub fn block_average(src: &Raster, n: u32, bx: u32, by: u32) -> (avg: Pixel)
    requires
        src.wf(),
        0 < n,
        bx < src.width / n,
        by < src.height / n,
    ensures
        avg == average_spec(block_pixels(*src, n as int, bx as int, by as int)),
{
    let mut group: Vec<Pixel> = Vec::new();
    let mut k: u32 = 0;
    while k < n
        invariant
            src.wf(),
            0 < n,
            bx < src.width / n,
            by < src.height / n,
            k <= n,
            group@.len() == k * n,
            forall|t: int|
                0 <= t < group@.len() ==> #[trigger] group@[t] == src.at(
                    bx * n + t / (n as int),
                    by * n + t % (n as int),
                ),
        decreases n - k,
    {
        let mut l: u32 = 0;
        while l < n
            invariant
                src.wf(),
                0 < n,
                bx < src.width / n,
                by < src.height / n,
                k < n,
                l <= n,
                group@.len() == k * n + l,
                forall|t: int|
                    0 <= t < group@.len() ==> #[trigger] group@[t] == src.at(
                        bx * n + t / (n as int),
                        by * n + t % (n as int),
                    ),
            decreases n - l,
        {
            proof {
                lemma_in_block(bx as int, k as int, n as int, src.width as int);
                lemma_in_block(by as int, l as int, n as int, src.height as int);
                lemma_fundamental_div_mod_converse(k * n + l, n as int, k as int, l as int);
            }
            let p = src.get_pixel(bx * n + k, by * n + l);
            group.push(p);
            l = l + 1;
        }
        assert((k + 1) * n == k * n + n) by (nonlinear_arith);
        k = k + 1;
    }
    assert(group@ =~= block_pixels(*src, n as int, bx as int, by as int));
    calculate_average_color(&group)
}

/// The colour of every whole block, chosen in the order of `run` from a pool
/// holding `candidates`.
pub fn block_colors(src: &Raster, n: u32, candidates: Vec<Pixel>) -> (colors: Vec<Pixel>)
    requires
        src.wf(),
        0 < n,
    ensures
        colors@ == mosaic_colors(*src, n as int, candidates@),
        colors@.len() == block_count(*src, n as int),
{
    let ghost start = candidates@;
    let bw = src.width / n;
    let bh = src.height / n;
    let mut pool = CandidatePool::new(candidates);
    let mut cache = MatchCache::new();
    let mut colors: Vec<Pixel> = Vec::new();
    let mut bx: u32 = 0;
    while bx < bw
        invariant
            src.wf(),
            0 < n,
            bw == src.width / n,
            bh == src.height / n,
            bx <= bw,
            colors@.len() == bx * bh,
            (pool@, cache@, colors@) == run(*src, n as int, start, (bx * bh) as nat),
        decreases bw - bx,
    {
        let mut by: u32 = 0;
        while by < bh
            invariant
                src.wf(),
                0 < n,
                bw == src.width / n,
                bh == src.height / n,
                bx < bw,
                by <= bh,
                colors@.len() == bx * bh + by,
                (pool@, cache@, colors@) == run(*src, n as int, start, (bx * bh + by) as nat),
            decreases bh - by,
        {
            let key = block_average(src, n, bx, by);
            let c = cache.lookup_or_compute(key, &pool);
            pool.remove(c);
            colors.push(c);
            proof {
                let b = bx * bh + by;
                lemma_fundamental_div_mod_converse(b, bh as int, bx as int, by as int);
                assert((pool@, cache@, colors@) == run(*src, n as int, start, (b + 1) as nat));
            }
            by = by + 1;
        }
        assert((bx + 1) * bh == bx * bh + bh) by (nonlinear_arith);
        bx = bx + 1;
    }
    colors
}

/// Paints each cell covered by a whole block with that block's colour and the
/// rest with the background.
pub fn paint(src: &Raster, n: u32, colors: &Vec<Pixel>) -> (out: Raster)
    requires
        src.wf(),
        0 < n,
        colors@.len() == block_count(*src, n as int),
    ensures
        out.wf(),
        out.width == src.width,
        out.height == src.height,
        forall|x: int, y: int|
            0 <= x < src.width && 0 <= y < src.height ==> #[trigger] out.at(x, y) == cell(
                src.width as int,
                src.height as int,
                n as int,
                colors@,
                x,
                y,
            ),
{
    let w = src.width;
    let h = src.height;
    let bw = w / n;
    let bh = h / n;
    proof {
        lemma_blocks_fit(w as int, n as int);
        lemma_blocks_fit(h as int, n as int);
    }
    let cw = bw * n;
    let ch = bh * n;
    let mut out: Vec<Pixel> = Vec::with_capacity(src.pixels.len());
    let mut y: u32 = 0;
    while y < h
        invariant
            src.wf(),
            0 < n,
            w == src.width,
            h == src.height,
            bw == w / n,
            bh == h / n,
            cw == bw * n,
            ch == bh * n,
            colors@.len() == bw * bh,
            y <= h,
            out@.len() == y * w,
            forall|i: int|
                0 <= i < out@.len() ==> #[trigger] out@[i] == cell(
                    w as int,
                    h as int,
                    n as int,
                    colors@,
                    i % w as int,
                    i / w as int,
                ),
        decreases h - y,
    {
        let mut x: u32 = 0;
        while x < w
            invariant
                src.wf(),
                0 < n,
                w == src.width,
                h == src.height,
                bw == w / n,
                bh == h / n,
                cw == bw * n,
                ch == bh * n,
                colors@.len() == bw * bh,
                y < h,
                x <= w,
                out@.len() == y * w + x,
                forall|i: int|
                    0 <= i < out@.len() ==> #[trigger] out@[i] == cell(
                        w as int,
                        h as int,
                        n as int,
                        colors@,
                        i % w as int,
                        i / w as int,
                    ),
            decreases w - x,
        {
            let p = if x < cw && y < ch {
                let ncolors = colors.len();
                proof {
                    lemma_block_of(x as int, n as int, bw as int);
                    lemma_block_of(y as int, n as int, bh as int);
                    lemma_cell_index((y / n) as int, (x / n) as int, bh as int, bw as int);
                }
                colors[((x / n) as usize) * (bh as usize) + ((y / n) as usize)]
            } else {
                Pixel { r: 0, g: 0, b: 0, a: 255 }
            };
            proof {
                lemma_fundamental_div_mod_converse(y * w + x, w as int, y as int, x as int);
            }
            out.push(p);
            x = x + 1;
        }
        assert((y + 1) * w == y * w + w) by (nonlinear_arith);
        y = y + 1;
    }
    let out = Raster { width: w, height: h, pixels: out };
    proof {
        assert forall|x: int, y: int|
            0 <= x < src.width && 0 <= y < src.height implies #[trigger] out.at(x, y) == cell(
            w as int,
            h as int,
            n as int,
            colors@,
            x,
            y,
        ) by {
            lemma_cell_index(x, y, w as int, h as int);
            lemma_fundamental_div_mod_converse(y * w + x, w as int, y, x);
        }
    }
    out
}

/// A cell inside the whole blocks of a span lies in one of its `q` blocks.
proof fn lemma_block_of(x: int, n: int, q: int)
    requires
        0 < n,
        0 <= x < q * n,
    ensures
        0 <= x / n < q,
{
    lemma_fundamental_div_mod(x, n);
    let d = x / n;
    assert(0 <= d < q) by (nonlinear_arith)
        requires
            0 < n,
            x == n * d + x % n,
            0 <= x % n < n,
            0 <= x < q * n,
    ;
}

/// The mosaic of `src` with blocks of size `n`, drawing on `candidates`:
/// each whole block is painted with the candidate chosen for its average
/// colour, and cells outside the whole blocks with the background.
pub fn mosaic(src: &Raster, n: u32, candidates: Vec<Pixel>) -> (out: Raster)
    requires
        src.wf(),
        0 < n,
    ensures
        is_mosaic_of(out, *src, n as int, candidates@),
{
    let colors = block_colors(src, n, candidates);
    paint(src, n, &colors)
}

/// The mosaic of `src` with blocks of `BLOCK_SIZE`, drawing on one random
/// candidate per source pixel.
pub fn color_output_image(src: &Raster) -> (out: Raster)
    requires
        src.wf(),
    ensures
        exists|pool: Seq<Pixel>|
            pool.len() == src.pixels@.len() && #[trigger] is_mosaic_of(
                out,
                *src,
                BLOCK_SIZE as int,
                pool,
            ),
{
    let candidates = generate_random_pixels(src.pixels.len());
    let ghost pool = candidates@;
    let out = mosaic(src, BLOCK_SIZE, candidates);
    assert(is_mosaic_of(out, *src, BLOCK_SIZE as int, pool));
    out
}

} // verus!
