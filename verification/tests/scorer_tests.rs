use puzla::pixel::{Pixel, PixelBuffer};
use puzla::scorer::{
    compare_images_mse, compare_images_px, parallel_mse, score_lt, sq_diff_rows, Score,
};

fn px(r: u8, g: u8, b: u8) -> Pixel {
    Pixel { r, g, b }
}

fn buffer_from(w: u32, h: u32, samples: &[(u8, u8, u8)]) -> PixelBuffer {
    assert_eq!(samples.len(), (w * h) as usize);
    let mut data = Vec::new();
    for &(r, g, b) in samples {
        data.push(px(r, g, b));
    }
    PixelBuffer::from_pixels(w, h, data)
}

fn gradient(w: u32, h: u32) -> PixelBuffer {
    let mut data = Vec::new();
    for y in 0..h {
        for x in 0..w {
            data.push(px(
                (x * 13 % 256) as u8,
                (y * 29 % 256) as u8,
                ((x + y) * 7 % 256) as u8,
            ));
        }
    }
    PixelBuffer::from_pixels(w, h, data)
}

#[test]
fn identical_regions_score_zero() {
    let a = gradient(8, 6);
    let b = gradient(8, 6);
    assert_eq!(compare_images_mse(&a, &b), Score::Mse { num: 0, area: 48 });
}

#[test]
fn score_is_symmetric() {
    let a = gradient(7, 5);
    let mut data = Vec::new();
    for i in 0..35u32 {
        data.push(px((i * 3) as u8, (255 - i * 2) as u8, (i * i % 251) as u8));
    }
    let b = PixelBuffer::from_pixels(7, 5, data);
    assert_eq!(compare_images_mse(&a, &b), compare_images_mse(&b, &a));
}

#[test]
fn constant_offset_scores_delta_squared() {
    // every channel of every sample shifted by 10: num == 3 * 10^2 * area,
    // so the mean squared error num / (3 * area) is exactly 100
    let w = 6u32;
    let h = 4u32;
    let mut base = Vec::new();
    let mut shifted = Vec::new();
    for i in 0..(w * h) {
        let v = (i * 5 % 200) as u8;
        base.push(px(v, v + 20, v + 40));
        shifted.push(px(v + 10, v + 30, v + 50));
    }
    let a = PixelBuffer::from_pixels(w, h, base);
    let b = PixelBuffer::from_pixels(w, h, shifted);
    let area = (w * h) as u64;
    assert_eq!(
        compare_images_mse(&a, &b),
        Score::Mse { num: 3 * 100 * area as u128, area }
    );
}

#[test]
fn exact_squared_difference_sum() {
    // (0,0,0) vs (1,2,3) contributes 1 + 4 + 9 = 14; the second sample agrees
    let a = buffer_from(2, 1, &[(0, 0, 0), (10, 10, 10)]);
    let b = buffer_from(2, 1, &[(1, 2, 3), (10, 10, 10)]);
    assert_eq!(compare_images_mse(&a, &b), Score::Mse { num: 14, area: 2 });
}

#[test]
fn dimension_mismatch_yields_sentinel() {
    let a = gradient(4, 4);
    let b = gradient(4, 5);
    assert_eq!(compare_images_mse(&a, &b), Score::Mismatch);
    assert_eq!(parallel_mse(&a, &b, 2), Score::Mismatch);
}

#[test]
fn sentinel_loses_every_matching_round() {
    let measured = Score::Mse { num: 1_000_000, area: 1 };
    assert!(score_lt(&measured, &Score::Mismatch));
    assert!(!score_lt(&Score::Mismatch, &measured));
    assert!(!score_lt(&Score::Mismatch, &Score::Mismatch));
}

#[test]
fn score_order_is_exact_rational_order() {
    // 1/2 < 2/3
    let s1 = Score::Mse { num: 1, area: 2 };
    let s2 = Score::Mse { num: 2, area: 3 };
    assert!(score_lt(&s1, &s2));
    assert!(!score_lt(&s2, &s1));
    // 2/4 == 1/2: neither side is strictly smaller
    let s3 = Score::Mse { num: 2, area: 4 };
    assert!(!score_lt(&s1, &s3));
    assert!(!score_lt(&s3, &s1));
}

#[test]
fn row_partitions_sum_to_the_whole() {
    let a = gradient(9, 8);
    let mut data = Vec::new();
    for i in 0..72u32 {
        data.push(px((i * 11) as u8, (i * 17) as u8, (i * 23) as u8));
    }
    let b = PixelBuffer::from_pixels(9, 8, data);
    let whole = sq_diff_rows(&a, &b, 0, 8);
    for split in 0..9u32 {
        let first = sq_diff_rows(&a, &b, 0, split);
        let second = sq_diff_rows(&a, &b, split, 8);
        assert_eq!(first + second, whole);
    }
}

#[test]
fn chunked_scoring_matches_unchunked() {
    let a = gradient(10, 7);
    let mut data = Vec::new();
    for i in 0..70u32 {
        data.push(px((i * 3) as u8, (i * 5) as u8, (i * 7) as u8));
    }
    let b = PixelBuffer::from_pixels(10, 7, data);
    let reference = compare_images_mse(&a, &b);
    for chunks in 1..12u32 {
        assert_eq!(parallel_mse(&a, &b, chunks), reference);
    }
}

#[test]
fn pixel_compare_detects_equality_and_difference() {
    let a = gradient(5, 5);
    let b = gradient(5, 5);
    assert!(compare_images_px(&a, &b));
    let mut c = gradient(5, 5);
    c.set_pixel(3, 2, px(9, 9, 9));
    assert!(!compare_images_px(&a, &c));
    let d = gradient(5, 4);
    assert!(!compare_images_px(&a, &d));
}
