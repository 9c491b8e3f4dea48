use mosaic::average::calculate_average_color;
use mosaic::cache::MatchCache;
use mosaic::engine::{block_average, block_colors, color_output_image, mosaic, paint, Raster, BLOCK_SIZE};
use mosaic::filetype::{is_image, is_image_extension};
use mosaic::pixel::{calculate_distance, Pixel};
use mosaic::pool::{
    find_closest_pixel, generate_random_pixels, pixel_from_word, pixels_from_words, CandidatePool,
};

fn px(r: u8, g: u8, b: u8, a: u8) -> Pixel {
    Pixel::new(r, g, b, a)
}

fn solid(width: u32, height: u32, p: Pixel) -> Raster {
    Raster { width, height, pixels: vec![p; (width * height) as usize] }
}

fn at(img: &Raster, x: u32, y: u32) -> Pixel {
    img.pixels[(y * img.width + x) as usize]
}

#[test]
fn distance_to_self_is_zero() {
    let p = px(12, 200, 7, 99);
    assert_eq!(calculate_distance(p, p), 0);
}

#[test]
fn distance_is_symmetric() {
    let a = px(1, 2, 3, 4);
    let b = px(250, 17, 90, 0);
    assert_eq!(calculate_distance(a, b), calculate_distance(b, a));
}

#[test]
fn distance_exact_values() {
    assert_eq!(calculate_distance(px(0, 0, 0, 0), px(3, 4, 0, 0)), 5);
    assert_eq!(calculate_distance(px(0, 0, 0, 0), px(1, 1, 0, 0)), 1);
    assert_eq!(calculate_distance(px(0, 0, 0, 0), px(2, 2, 2, 2)), 4);
    assert_eq!(calculate_distance(px(0, 0, 0, 0), px(255, 255, 255, 255)), 510);
    assert_eq!(calculate_distance(px(10, 10, 10, 10), px(10, 10, 10, 13)), 3);
}

#[test]
fn distance_truncates() {
    // sqrt(8) = 2.83, sqrt(99) = 9.95
    assert_eq!(calculate_distance(px(0, 0, 0, 0), px(2, 2, 0, 0)), 2);
    assert_eq!(calculate_distance(px(0, 0, 0, 0), px(9, 3, 3, 0)), 9);
}

#[test]
fn distance_counts_alpha() {
    assert!(calculate_distance(px(5, 5, 5, 0), px(5, 5, 5, 1)) > 0);
}

#[test]
fn average_of_uniform_is_the_pixel() {
    let p = px(13, 250, 0, 77);
    for n in 1..10 {
        assert_eq!(calculate_average_color(&vec![p; n]), p);
    }
}

#[test]
fn average_of_empty_is_zero() {
    assert_eq!(calculate_average_color(&Vec::new()), px(0, 0, 0, 0));
}

#[test]
fn average_truncates() {
    let v = vec![px(10, 0, 255, 1), px(21, 1, 255, 2)];
    assert_eq!(calculate_average_color(&v), px(15, 0, 255, 1));
    let w = vec![px(255, 255, 255, 255), px(255, 255, 255, 255), px(0, 1, 2, 3)];
    assert_eq!(calculate_average_color(&w), px(170, 170, 170, 171));
}

#[test]
fn closest_of_empty_is_zero() {
    assert_eq!(find_closest_pixel(px(9, 9, 9, 9), &Vec::new()), px(0, 0, 0, 0));
}

#[test]
fn closest_picks_minimum() {
    let pool = vec![px(200, 200, 200, 200), px(10, 10, 10, 10), px(100, 100, 100, 100)];
    assert_eq!(find_closest_pixel(px(0, 0, 0, 0), &pool), px(10, 10, 10, 10));
    assert_eq!(find_closest_pixel(px(190, 190, 190, 190), &pool), px(200, 200, 200, 200));
}

#[test]
fn closest_tie_keeps_first() {
    let pool = vec![px(20, 0, 0, 0), px(0, 20, 0, 0), px(0, 0, 20, 0)];
    assert_eq!(find_closest_pixel(px(0, 0, 0, 0), &pool), px(20, 0, 0, 0));
    let pool2 = vec![px(50, 0, 0, 0), px(0, 20, 0, 0), px(0, 0, 20, 0)];
    assert_eq!(find_closest_pixel(px(0, 0, 0, 0), &pool2), px(0, 20, 0, 0));
}

#[test]
fn word_splits_into_channels() {
    assert_eq!(pixel_from_word(0x11223344), px(0x11, 0x22, 0x33, 0x44));
    assert_eq!(pixel_from_word(0xff000080), px(0xff, 0, 0, 0x80));
    assert_eq!(
        pixels_from_words(&vec![0, 0x01020304]),
        vec![px(0, 0, 0, 0), px(1, 2, 3, 4)]
    );
}

#[test]
fn random_pixels_have_requested_count() {
    assert_eq!(generate_random_pixels(0).len(), 0);
    assert_eq!(generate_random_pixels(37).len(), 37);
    assert_eq!(CandidatePool::generate(12).len(), 12);
}

#[test]
fn pool_remove_takes_first_instance_only() {
    let a = px(1, 1, 1, 1);
    let b = px(2, 2, 2, 2);
    let mut pool = CandidatePool::new(vec![b, a, b, a]);
    pool.remove(a);
    assert_eq!(pool.len(), 3);
    assert_eq!(pool.get(0), b);
    assert_eq!(pool.get(1), b);
    assert_eq!(pool.get(2), a);
}

#[test]
fn pool_remove_absent_is_noop() {
    let mut pool = CandidatePool::new(vec![px(1, 1, 1, 1)]);
    pool.remove(px(9, 9, 9, 9));
    assert_eq!(pool.len(), 1);
    assert_eq!(pool.get(0), px(1, 1, 1, 1));
}

#[test]
fn pool_shrinks_by_one_per_removal() {
    let v: Vec<Pixel> = (0..10u8).map(|i| px(i, i, i, i)).collect();
    let mut pool = CandidatePool::new(v.clone());
    for (k, p) in v.iter().take(4).enumerate() {
        pool.remove(*p);
        assert_eq!(pool.len(), 10 - (k + 1));
    }
}

#[test]
fn cache_same_key_same_pool_same_answer() {
    let pool = CandidatePool::new(vec![px(200, 0, 0, 0), px(0, 200, 0, 0), px(5, 5, 5, 5)]);
    let mut cache = MatchCache::new();
    let key = px(0, 0, 0, 0);
    let first = cache.lookup_or_compute(key, &pool);
    let second = cache.lookup_or_compute(key, &pool);
    assert_eq!(first, px(5, 5, 5, 5));
    assert_eq!(first, second);
}

#[test]
fn cache_hit_skips_search() {
    let mut pool = CandidatePool::new(vec![px(200, 0, 0, 0), px(5, 5, 5, 5)]);
    let mut cache = MatchCache::new();
    let key = px(0, 0, 0, 0);
    assert_eq!(cache.get(key), None);
    let first = cache.lookup_or_compute(key, &pool);
    assert_eq!(first, px(5, 5, 5, 5));
    pool.remove(first);
    // a fresh search would now find the other candidate
    assert_eq!(pool.find_closest(key), px(200, 0, 0, 0));
    assert_eq!(cache.lookup_or_compute(key, &pool), first);
    // even an empty pool leaves the stored answer in place
    let empty = CandidatePool::new(Vec::new());
    assert_eq!(cache.lookup_or_compute(key, &empty), first);
    assert_eq!(cache.get(key), Some(first));
}

#[test]
fn cache_miss_on_empty_pool_stores_zero() {
    let empty = CandidatePool::new(Vec::new());
    let mut cache = MatchCache::new();
    let key = px(3, 3, 3, 3);
    assert_eq!(cache.lookup_or_compute(key, &empty), px(0, 0, 0, 0));
    assert_eq!(cache.get(key), Some(px(0, 0, 0, 0)));
    let full = CandidatePool::new(vec![px(3, 3, 3, 3)]);
    assert_eq!(cache.lookup_or_compute(key, &full), px(0, 0, 0, 0));
}

#[test]
fn cache_keys_are_exact() {
    let pool = CandidatePool::new(vec![px(0, 0, 0, 0), px(0, 0, 0, 255)]);
    let mut cache = MatchCache::new();
    assert_eq!(cache.lookup_or_compute(px(0, 0, 0, 1), &pool), px(0, 0, 0, 0));
    assert_eq!(cache.lookup_or_compute(px(0, 0, 0, 250), &pool), px(0, 0, 0, 255));
    assert_eq!(cache.get(px(0, 0, 0, 2)), None);
}

#[test]
fn image_extensions() {
    assert!(is_image("images/test.png"));
    assert!(is_image("a.jpg"));
    assert!(is_image("a.jpeg"));
    assert!(is_image("A.PNG"));
    assert!(is_image("photo.JpEg"));
    assert!(!is_image("a.gif"));
    assert!(!is_image("noextension"));
    assert!(!is_image("dir.png/file"));
    assert!(!is_image(".png"));
    assert!(!is_image("a.png.txt"));
}

#[test]
fn lower_case_extension_check() {
    assert!(is_image_extension(&"png".to_string()));
    assert!(is_image_extension(&"jpg".to_string()));
    assert!(is_image_extension(&"jpeg".to_string()));
    assert!(!is_image_extension(&"PNG".to_string()));
    assert!(!is_image_extension(&"gif".to_string()));
    assert!(!is_image_extension(&"".to_string()));
}

#[test]
fn block_average_reads_its_block() {
    let mut img = solid(4, 2, px(0, 0, 0, 0));
    img.pixels[2] = px(40, 0, 0, 0);
    img.pixels[3] = px(40, 0, 0, 0);
    img.pixels[6] = px(40, 8, 0, 0);
    img.pixels[7] = px(40, 0, 0, 4);
    assert_eq!(block_average(&img, 2, 0, 0), px(0, 0, 0, 0));
    assert_eq!(block_average(&img, 2, 1, 0), px(40, 2, 0, 1));
}

#[test]
fn all_black_two_by_two_is_one_block() {
    let src = solid(2, 2, px(0, 0, 0, 255));
    let out = color_output_image(&src);
    assert_eq!((out.width, out.height), (2, 2));
    assert_eq!(out.pixels.len(), 4);
    for p in &out.pixels {
        assert_eq!(*p, out.pixels[0]);
    }
}

#[test]
fn all_black_two_by_two_with_fixed_pool() {
    let src = solid(2, 2, px(0, 0, 0, 255));
    let pool = vec![px(200, 0, 0, 0), px(1, 2, 3, 250), px(0, 0, 0, 0), px(9, 9, 9, 9)];
    let out = mosaic(&src, BLOCK_SIZE, pool);
    assert_eq!(out.pixels, vec![px(1, 2, 3, 250); 4]);
}

fn quadrants() -> Raster {
    let colors = [px(250, 0, 0, 255), px(0, 250, 0, 255), px(0, 0, 250, 255), px(250, 250, 250, 255)];
    let mut img = solid(4, 4, px(0, 0, 0, 0));
    for y in 0..4u32 {
        for x in 0..4u32 {
            let q = (y / 2) * 2 + x / 2;
            img.pixels[(y * 4 + x) as usize] = colors[q as usize];
        }
    }
    img
}

#[test]
fn four_quadrants_get_four_colours() {
    let src = quadrants();
    let pool = vec![
        px(255, 255, 255, 255),
        px(0, 0, 255, 255),
        px(0, 255, 0, 255),
        px(255, 0, 0, 255),
    ];
    let out = mosaic(&src, 2, pool);
    let mut seen = Vec::new();
    for qy in 0..2u32 {
        for qx in 0..2u32 {
            let c = at(&out, qx * 2, qy * 2);
            for dy in 0..2 {
                for dx in 0..2 {
                    assert_eq!(at(&out, qx * 2 + dx, qy * 2 + dy), c);
                }
            }
            seen.push(c);
        }
    }
    assert_eq!(seen, vec![px(255, 0, 0, 255), px(0, 255, 0, 255), px(0, 0, 255, 255), px(255, 255, 255, 255)]);
}

#[test]
fn four_quadrants_random_pool_is_blockwise_uniform() {
    let src = quadrants();
    let out = color_output_image(&src);
    for qy in 0..2u32 {
        for qx in 0..2u32 {
            let c = at(&out, qx * 2, qy * 2);
            for dy in 0..2 {
                for dx in 0..2 {
                    assert_eq!(at(&out, qx * 2 + dx, qy * 2 + dy), c);
                }
            }
        }
    }
}

#[test]
fn blocks_go_column_by_column() {
    // two blocks side by side with one average colour: the cached answer serves both
    let src = solid(4, 2, px(0, 0, 0, 0));
    let out = mosaic(&src, 2, vec![px(50, 0, 0, 0), px(1, 0, 0, 0)]);
    assert_eq!(at(&out, 0, 0), px(1, 0, 0, 0));
    assert_eq!(at(&out, 3, 1), px(1, 0, 0, 0));
    // two blocks side by side, both nearest to the same candidate: the left one wins it
    let mut src2 = solid(4, 2, px(0, 0, 0, 0));
    src2.pixels[2] = px(4, 0, 0, 0);
    let out2 = mosaic(&src2, 2, vec![px(50, 0, 0, 0), px(1, 0, 0, 0)]);
    assert_eq!(at(&out2, 0, 0), px(1, 0, 0, 0));
    assert_eq!(at(&out2, 2, 0), px(50, 0, 0, 0));
}

#[test]
fn blocks_go_top_to_bottom_within_a_column() {
    let mut src = solid(2, 4, px(0, 0, 0, 0));
    src.pixels[4] = px(4, 0, 0, 0);
    let out = mosaic(&src, 2, vec![px(50, 0, 0, 0), px(1, 0, 0, 0)]);
    assert_eq!(at(&out, 0, 0), px(1, 0, 0, 0));
    assert_eq!(at(&out, 1, 3), px(50, 0, 0, 0));
}

#[test]
fn block_colours_in_order() {
    let mut src = solid(4, 4, px(0, 0, 0, 0));
    for x in 0..2u32 {
        for y in 2..4u32 {
            src.pixels[(y * 4 + x) as usize] = px(100, 0, 0, 0);
        }
    }
    let colors = block_colors(&src, 2, vec![px(0, 0, 0, 0), px(100, 0, 0, 0), px(1, 0, 0, 0), px(99, 0, 0, 0)]);
    // blocks (0,0), (0,1), (1,0), (1,1); the last two find their key in the cache
    assert_eq!(colors, vec![px(0, 0, 0, 0), px(100, 0, 0, 0), px(0, 0, 0, 0), px(0, 0, 0, 0)]);
}

#[test]
fn partial_blocks_keep_the_background() {
    let src = solid(3, 3, px(7, 7, 7, 7));
    let out = mosaic(&src, 2, vec![px(7, 7, 7, 7)]);
    assert_eq!(at(&out, 0, 0), px(7, 7, 7, 7));
    assert_eq!(at(&out, 1, 1), px(7, 7, 7, 7));
    for i in 0..3 {
        assert_eq!(at(&out, 2, i), px(0, 0, 0, 255));
        assert_eq!(at(&out, i, 2), px(0, 0, 0, 255));
    }
}

#[test]
fn image_smaller_than_a_block_is_background() {
    let src = solid(1, 5, px(7, 7, 7, 7));
    let out = mosaic(&src, 2, vec![px(7, 7, 7, 7)]);
    assert_eq!(out.pixels, vec![px(0, 0, 0, 255); 5]);
    let empty = Raster { width: 0, height: 0, pixels: Vec::new() };
    assert!(mosaic(&empty, 2, Vec::new()).pixels.is_empty());
}

#[test]
fn exhausted_pool_gives_zero_pixels() {
    let mut src = solid(4, 2, px(0, 0, 0, 0));
    src.pixels[2] = px(8, 0, 0, 0);
    let out = mosaic(&src, 2, vec![px(1, 1, 1, 1)]);
    assert_eq!(at(&out, 0, 0), px(1, 1, 1, 1));
    assert_eq!(at(&out, 2, 0), px(0, 0, 0, 0));
}

#[test]
fn block_size_one_recolours_every_pixel() {
    let src = solid(2, 1, px(0, 0, 0, 0));
    let out = mosaic(&src, 1, vec![px(3, 0, 0, 0), px(2, 0, 0, 0), px(9, 0, 0, 0)]);
    // both pixels share one key, so both get the cached candidate
    assert_eq!(out.pixels, vec![px(2, 0, 0, 0), px(2, 0, 0, 0)]);
}

#[test]
fn paint_fills_blocks() {
    let src = solid(4, 2, px(0, 0, 0, 0));
    let out = paint(&src, 2, &vec![px(1, 0, 0, 0), px(2, 0, 0, 0)]);
    assert_eq!(
        out.pixels,
        vec![
            px(1, 0, 0, 0), px(1, 0, 0, 0), px(2, 0, 0, 0), px(2, 0, 0, 0),
            px(1, 0, 0, 0), px(1, 0, 0, 0), px(2, 0, 0, 0), px(2, 0, 0, 0),
        ]
    );
}

#[test]
fn raster_get_pixel_is_row_major() {
    let img = Raster { width: 2, height: 2, pixels: vec![px(1, 0, 0, 0), px(2, 0, 0, 0), px(3, 0, 0, 0), px(4, 0, 0, 0)] };
    assert_eq!(img.get_pixel(1, 0), px(2, 0, 0, 0));
    assert_eq!(img.get_pixel(0, 1), px(3, 0, 0, 0));
}
