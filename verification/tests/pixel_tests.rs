use puzla::pixel::{blank_image, crop_image, place_image, Pixel, PixelBuffer};

fn px(r: u8, g: u8, b: u8) -> Pixel {
    Pixel { r, g, b }
}

fn numbered(w: u32, h: u32) -> PixelBuffer {
    // every sample holds its own coordinates, so any misplacement is visible
    let mut data = Vec::new();
    for y in 0..h {
        for x in 0..w {
            data.push(px(x as u8, y as u8, 100));
        }
    }
    PixelBuffer::from_pixels(w, h, data)
}

#[test]
fn blank_matches_template_and_is_black() {
    let template = numbered(3, 2);
    let blank = blank_image(&template);
    assert_eq!(blank.width(), 3);
    assert_eq!(blank.height(), 2);
    for y in 0..2 {
        for x in 0..3 {
            assert_eq!(blank.get_pixel(x, y), px(0, 0, 0));
        }
    }
}

#[test]
fn accessors_roundtrip() {
    let mut buffer = PixelBuffer::new(4, 3);
    buffer.set_pixel(2, 1, px(7, 8, 9));
    assert_eq!(buffer.get_pixel(2, 1), px(7, 8, 9));
    assert_eq!(buffer.get_pixel(0, 0), px(0, 0, 0));
}

#[test]
fn crop_inside_bounds_copies_the_window() {
    let source = numbered(4, 4);
    let window = crop_image(&source, 1, 1, 2, 2);
    assert_eq!(window.width(), 2);
    assert_eq!(window.height(), 2);
    for y in 0..2 {
        for x in 0..2 {
            assert_eq!(window.get_pixel(x, y), px((x + 1) as u8, (y + 1) as u8, 100));
        }
    }
}

#[test]
fn crop_is_clipped_at_the_edges() {
    let source = numbered(4, 4);
    let corner = crop_image(&source, 3, 3, 5, 5);
    assert_eq!(corner.width(), 1);
    assert_eq!(corner.height(), 1);
    assert_eq!(corner.get_pixel(0, 0), px(3, 3, 100));
    let outside = crop_image(&source, 10, 0, 2, 2);
    assert_eq!(outside.width(), 0);
    assert_eq!(outside.height(), 2);
}

#[test]
fn blit_copies_and_silently_clips() {
    let mut canvas = PixelBuffer::new(4, 4);
    let stamp = numbered(3, 3);
    // bottom-right corner placement: only the 2-by-2 overlap lands
    place_image(&mut canvas, &stamp, 2, 2);
    assert_eq!(canvas.get_pixel(2, 2), px(0, 0, 100));
    assert_eq!(canvas.get_pixel(3, 3), px(1, 1, 100));
    assert_eq!(canvas.get_pixel(1, 1), px(0, 0, 0));
    // a fully out-of-bounds placement changes nothing
    let mut untouched = PixelBuffer::new(4, 4);
    place_image(&mut untouched, &stamp, 9, 9);
    for y in 0..4 {
        for x in 0..4 {
            assert_eq!(untouched.get_pixel(x, y), px(0, 0, 0));
        }
    }
}
