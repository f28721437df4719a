use puzla::engine::{filter_small_tiles, reconstruct_image, MIN_TILE_SIZE};
use puzla::menu::idx_to_image_path;
use puzla::pixel::{crop_image, Pixel, PixelBuffer};
use puzla::scorer::compare_images_px;

fn solid(w: u32, h: u32, r: u8, g: u8, b: u8) -> PixelBuffer {
    let mut data = Vec::new();
    for _ in 0..(w * h) {
        data.push(Pixel { r, g, b });
    }
    PixelBuffer::from_pixels(w, h, data)
}

/// A 12-by-12 checkerboard of 6-by-6 cells: top-left black, top-right white,
/// bottom-left white, bottom-right black.
fn checkerboard() -> PixelBuffer {
    let mut data = Vec::new();
    for y in 0..12u32 {
        for x in 0..12u32 {
            let dark = (x < 6) == (y < 6);
            let v = if dark { 0 } else { 255 };
            data.push(Pixel { r: v, g: v, b: v });
        }
    }
    PixelBuffer::from_pixels(12, 12, data)
}

fn quadrants(reference: &PixelBuffer) -> (PixelBuffer, PixelBuffer, PixelBuffer, PixelBuffer) {
    let tl = crop_image(reference, 0, 0, 6, 6);
    let tr = crop_image(reference, 6, 0, 6, 6);
    let bl = crop_image(reference, 0, 6, 6, 6);
    let br = crop_image(reference, 6, 6, 6, 6);
    (tl, tr, bl, br)
}

#[test]
fn tile_filter_boundary() {
    assert_eq!(MIN_TILE_SIZE, 5);
    let tiles = vec![
        solid(5, 8, 1, 1, 1),
        solid(8, 5, 2, 2, 2),
        solid(6, 6, 3, 3, 3),
        solid(12, 6, 4, 4, 4),
    ];
    let kept = filter_small_tiles(tiles);
    assert_eq!(kept.len(), 2);
    assert_eq!(kept[0].get_pixel(0, 0), Pixel { r: 3, g: 3, b: 3 });
    assert_eq!(kept[1].get_pixel(0, 0), Pixel { r: 4, g: 4, b: 4 });
}

#[test]
fn checkerboard_reassembles_from_shuffled_quadrants() {
    let reference = checkerboard();
    let (tl, tr, bl, br) = quadrants(&reference);
    let shuffled = vec![br, tl, bl, tr];
    let result = reconstruct_image(&reference, shuffled);
    assert!(compare_images_px(&result, &reference));
}

#[test]
fn distinct_tiles_reassemble_in_any_order() {
    let mut data = Vec::new();
    for y in 0..12u32 {
        for x in 0..12u32 {
            data.push(Pixel {
                r: (x * 20) as u8,
                g: (y * 20) as u8,
                b: ((x / 6) * 100 + (y / 6) * 50) as u8,
            });
        }
    }
    let reference = PixelBuffer::from_pixels(12, 12, data);
    let (tl, tr, bl, br) = quadrants(&reference);
    let order_a = vec![tr, bl, br, tl];
    let result_a = reconstruct_image(&reference, order_a);
    assert!(compare_images_px(&result_a, &reference));
    let (tl2, tr2, bl2, br2) = quadrants(&reference);
    let order_b = vec![bl2, br2, tl2, tr2];
    let result_b = reconstruct_image(&reference, order_b);
    assert!(compare_images_px(&result_b, &reference));
}

#[test]
fn three_column_grid_reassembles() {
    // 18-by-12 reference, six 6-by-6 blocks with distinct colours
    let mut data = Vec::new();
    for y in 0..12u32 {
        for x in 0..18u32 {
            let cell = (y / 6) * 3 + x / 6;
            data.push(Pixel {
                r: (cell * 40) as u8,
                g: (255 - cell * 30) as u8,
                b: (cell * cell * 5) as u8,
            });
        }
    }
    let reference = PixelBuffer::from_pixels(18, 12, data);
    let mut shuffled = Vec::new();
    for &(cx, cy) in &[(12, 6), (0, 0), (6, 6), (12, 0), (0, 6), (6, 0)] {
        shuffled.push(crop_image(&reference, cx, cy, 6, 6));
    }
    let result = reconstruct_image(&reference, shuffled);
    assert!(compare_images_px(&result, &reference));
}

#[test]
fn reconstruction_is_deterministic() {
    let reference = checkerboard();
    let (tl, tr, bl, br) = quadrants(&reference);
    let first = reconstruct_image(&reference, vec![tr, br, tl, bl]);
    let (tl2, tr2, bl2, br2) = quadrants(&reference);
    let second = reconstruct_image(&reference, vec![tr2, br2, tl2, bl2]);
    assert!(compare_images_px(&first, &second));
}

#[test]
fn empty_pool_returns_blank_canvas() {
    let reference = checkerboard();
    let result = reconstruct_image(&reference, Vec::new());
    assert_eq!(result.width(), 12);
    assert_eq!(result.height(), 12);
    for y in 0..12 {
        for x in 0..12 {
            assert_eq!(result.get_pixel(x, y), Pixel { r: 0, g: 0, b: 0 });
        }
    }
}

#[test]
fn undersized_tile_leaves_a_blank_gap() {
    // 16-by-6 reference in three vertical strips; the right strip is only
    // 4 samples wide, falls below the size floor, and leaves a black gap
    let mut data = Vec::new();
    for _y in 0..6u32 {
        for x in 0..16u32 {
            let p = if x < 6 {
                Pixel { r: 50, g: 60, b: 70 }
            } else if x < 12 {
                Pixel { r: 200, g: 10, b: 30 }
            } else {
                Pixel { r: 90, g: 90, b: 90 }
            };
            data.push(p);
        }
    }
    let reference = PixelBuffer::from_pixels(16, 6, data);
    let left = crop_image(&reference, 0, 0, 6, 6);
    let middle = crop_image(&reference, 6, 0, 6, 6);
    let right = crop_image(&reference, 12, 0, 4, 6);
    let kept = filter_small_tiles(vec![middle, right, left]);
    assert_eq!(kept.len(), 2);
    let result = reconstruct_image(&reference, kept);
    for y in 0..6 {
        for x in 0..16 {
            let expected = if x < 12 {
                reference.get_pixel(x, y)
            } else {
                Pixel { r: 0, g: 0, b: 0 }
            };
            assert_eq!(result.get_pixel(x, y), expected);
        }
    }
}

#[test]
fn image_paths_follow_the_catalogue() {
    assert_eq!(
        idx_to_image_path(0),
        ("../examples/picture1.jpg", "../examples/slika 1/")
    );
    assert_eq!(
        idx_to_image_path(3),
        ("../examples/picture2.jpg", "../examples/slika 2 - 1/")
    );
    assert_eq!(
        idx_to_image_path(6),
        ("../examples/picture5.jpg", "../examples/slika 5/")
    );
}
