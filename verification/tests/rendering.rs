use railgrid::bitmap::Bitmap;
use railgrid::renderer::{clear_frame, draw_square, Glyph, Renderer, HIGHLIGHT_COLOR};
use railgrid::sprite::Sprite;

fn solid_bitmap(w: usize, h: usize, color: [u8; 4]) -> Bitmap {
    let mut b = Bitmap::new(w, h);
    for y in 0..h {
        for x in 0..w {
            b.put_pixel(x, y, color);
        }
    }
    b
}

fn px(r: &Renderer, x: usize, y: usize) -> [u8; 4] {
    let base = (y * r.width + x) * 4;
    [
        r.frame[base],
        r.frame[base + 1],
        r.frame[base + 2],
        r.frame[base + 3],
    ]
}

#[test]
fn fill_rect_touches_exactly_one_pixel_at_origin() {
    let mut r = Renderer::new(4, 4);
    r.draw_square(0, 0, 1, 1, [9, 8, 7, 6]);
    assert_eq!(&r.frame[0..4], &[9, 8, 7, 6]);
    for i in 4..r.frame.len() {
        assert_eq!(r.frame[i], 0, "byte {i} was touched");
    }
}

#[test]
fn fill_rect_clips_at_the_edges() {
    let mut r = Renderer::new(3, 3);
    r.draw_square(-1, -1, 2, 2, [1, 1, 1, 1]);
    assert_eq!(px(&r, 0, 0), [1, 1, 1, 1]);
    assert_eq!(px(&r, 1, 0), [0, 0, 0, 0]);
    assert_eq!(px(&r, 0, 1), [0, 0, 0, 0]);
    r.draw_square(2, 2, 5, 5, [2, 2, 2, 2]);
    assert_eq!(px(&r, 2, 2), [2, 2, 2, 2]);
    assert_eq!(px(&r, 1, 2), [0, 0, 0, 0]);
}

#[test]
fn fill_rect_honours_the_draw_offset() {
    let mut r = Renderer::new(4, 4);
    r.set_offset(2, 1);
    r.draw_square(0, 0, 1, 1, [5, 5, 5, 5]);
    assert_eq!(px(&r, 2, 1), [5, 5, 5, 5]);
    assert_eq!(px(&r, 0, 0), [0, 0, 0, 0]);
}

#[test]
fn fill_rect_zero_size_touches_nothing() {
    let mut r = Renderer::new(3, 3);
    let before = r.frame.clone();
    r.draw_square(1, 1, 0, 5, [9, 9, 9, 9]);
    r.draw_square(1, 1, 5, -1, [9, 9, 9, 9]);
    assert_eq!(before, r.frame);
}

#[test]
fn clear_frame_paints_every_pixel() {
    let mut r = Renderer::new(3, 2);
    r.clear_frame([1, 2, 3, 4]);
    for y in 0..2 {
        for x in 0..3 {
            assert_eq!(px(&r, x, y), [1, 2, 3, 4]);
        }
    }
}

#[test]
fn free_clear_frame_leaves_a_partial_chunk() {
    let mut frame: Vec<u8> = vec![7; 9];
    clear_frame([1, 2, 3, 4], &mut frame);
    assert_eq!(frame, vec![1, 2, 3, 4, 1, 2, 3, 4, 7]);
}

#[test]
fn transparent_sprite_blit_leaves_buffer_unchanged() {
    let mut r = Renderer::new(4, 4);
    r.clear_frame([3, 3, 3, 3]);
    let before = r.frame.clone();
    // an all-zero bitmap has zero alpha everywhere
    let sprite = Sprite::from_image(Bitmap::new(2, 2), Some(2));
    r.draw_sprite(1, 1, &sprite);
    assert_eq!(before, r.frame);
    r.draw_sprite_color(0, 0, &sprite, [9, 9, 9, 9]);
    assert_eq!(before, r.frame);
}

#[test]
fn opaque_sprite_blit_scales_and_writes() {
    let mut r = Renderer::new(4, 4);
    let sprite = Sprite::from_image(solid_bitmap(1, 1, [8, 7, 6, 255]), Some(2));
    r.draw_sprite(1, 1, &sprite);
    for (x, y) in [(1usize, 1usize), (2, 1), (1, 2), (2, 2)] {
        assert_eq!(px(&r, x, y), [8, 7, 6, 255]);
    }
    assert_eq!(px(&r, 0, 0), [0, 0, 0, 0]);
    assert_eq!(px(&r, 3, 3), [0, 0, 0, 0]);
}

#[test]
fn tinted_blit_replaces_the_sampled_color() {
    let mut r = Renderer::new(2, 2);
    let sprite = Sprite::from_image(solid_bitmap(1, 1, [8, 7, 6, 255]), Some(1));
    r.draw_sprite_color(0, 0, &sprite, [1, 2, 3, 4]);
    assert_eq!(px(&r, 0, 0), [1, 2, 3, 4]);
}

#[test]
fn sprite_blit_clips_silently() {
    let mut r = Renderer::new(2, 2);
    let sprite = Sprite::from_image(solid_bitmap(4, 4, [5, 5, 5, 255]), Some(1));
    r.draw_sprite(-2, -2, &sprite);
    assert_eq!(px(&r, 0, 0), [5, 5, 5, 255]);
    assert_eq!(px(&r, 1, 1), [5, 5, 5, 255]);
    // drawing fully outside the buffer changes nothing
    let before = r.frame.clone();
    r.draw_sprite(10, 10, &sprite);
    assert_eq!(before, r.frame);
}

#[test]
fn alpha_test_is_per_pixel() {
    let mut b = Bitmap::new(2, 1);
    b.put_pixel(0, 0, [1, 1, 1, 255]);
    // pixel (1,0) keeps zero alpha
    let sprite = Sprite::from_image(b, Some(1));
    let mut r = Renderer::new(2, 1);
    r.clear_frame([9, 9, 9, 9]);
    r.draw_sprite(0, 0, &sprite);
    assert_eq!(px(&r, 0, 0), [1, 1, 1, 255]);
    assert_eq!(px(&r, 1, 0), [9, 9, 9, 9]);
}

#[test]
fn animated_blit_selects_the_frame_slice() {
    let mut strip = Bitmap::new(2, 1);
    strip.put_pixel(0, 0, [1, 0, 0, 255]);
    strip.put_pixel(1, 0, [2, 0, 0, 255]);
    let sprite = Sprite::from_image_animated(strip, 2, Some(1));
    let mut r = Renderer::new(1, 1);
    r.draw_sprite_animated(0, 0, &sprite, 1);
    assert_eq!(px(&r, 0, 0), [2, 0, 0, 255]);
    r.draw_sprite_animated(0, 0, &sprite, 0);
    assert_eq!(px(&r, 0, 0), [1, 0, 0, 255]);
}

#[test]
fn glyph_blit_writes_color_at_covered_pixels() {
    let glyph = Glyph {
        width: 2,
        height: 2,
        coverage: vec![255, 0, 0, 128],
    };
    let mut r = Renderer::new(3, 3);
    r.draw_char(1, 1, &glyph, [4, 3, 2, 1]);
    assert_eq!(px(&r, 1, 1), [4, 3, 2, 1]);
    assert_eq!(px(&r, 2, 1), [0, 0, 0, 0]);
    assert_eq!(px(&r, 1, 2), [0, 0, 0, 0]);
    assert_eq!(px(&r, 2, 2), [4, 3, 2, 1]);
}

#[test]
fn glyph_blit_clips_silently() {
    let glyph = Glyph {
        width: 2,
        height: 2,
        coverage: vec![255, 255, 255, 255],
    };
    let mut r = Renderer::new(2, 2);
    r.draw_char(-1, -1, &glyph, [7, 7, 7, 7]);
    assert_eq!(px(&r, 0, 0), [7, 7, 7, 7]);
    assert_eq!(px(&r, 1, 1), [0, 0, 0, 0]);
}

#[test]
fn text_layout_advances_by_fixed_spacing() {
    let dot = Glyph {
        width: 1,
        height: 1,
        coverage: vec![255],
    };
    let glyphs = vec![
        Glyph { width: 1, height: 1, coverage: vec![255] },
        dot,
    ];
    let mut r = Renderer::new(5, 1);
    r.draw_text(0, 0, &glyphs, 3, [6, 6, 6, 6]);
    assert_eq!(px(&r, 0, 0), [6, 6, 6, 6]);
    assert_eq!(px(&r, 1, 0), [0, 0, 0, 0]);
    assert_eq!(px(&r, 2, 0), [0, 0, 0, 0]);
    assert_eq!(px(&r, 3, 0), [6, 6, 6, 6]);
    assert_eq!(px(&r, 4, 0), [0, 0, 0, 0]);
}

#[test]
fn renderer_starts_zeroed() {
    let r = Renderer::new(2, 2);
    assert_eq!(r.width, 2);
    assert_eq!(r.height, 2);
    assert_eq!(r.frame.len(), 16);
    assert!(r.frame.iter().all(|&b| b == 0));
    assert_eq!((r.offset_x, r.offset_y), (0, 0));
}

#[test]
fn raw_buffer_square_paints_the_highlight_color() {
    // a 3x2 pixel buffer written through the raw-buffer helper
    let mut frame: Vec<u8> = vec![0; 24];
    draw_square(1, 0, 2, 1, &mut frame, 3);
    let expect = HIGHLIGHT_COLOR;
    assert_eq!(&frame[0..4], &[0, 0, 0, 0]);
    assert_eq!(&frame[4..8], &expect);
    assert_eq!(&frame[8..12], &expect);
    assert_eq!(&frame[12..24], &[0u8; 12]);
    // coordinates outside the buffer rows change nothing further
    let before = frame.clone();
    draw_square(5, 5, 2, 2, &mut frame, 3);
    assert_eq!(before, frame);
}
