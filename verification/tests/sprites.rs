use railgrid::bitmap::Bitmap;
use railgrid::renderer::Renderer;
use railgrid::sprite::Sprite;

/// A bitmap whose every pixel encodes its own coordinates, fully opaque.
fn coordinate_bitmap(w: usize, h: usize) -> Bitmap {
    let mut b = Bitmap::new(w, h);
    for y in 0..h {
        for x in 0..w {
            b.put_pixel(x, y, [x as u8, y as u8, 7, 255]);
        }
    }
    b
}

#[test]
fn bitmap_put_and_get_round_trip() {
    let mut b = Bitmap::new(3, 2);
    b.put_pixel(2, 1, [1, 2, 3, 4]);
    assert_eq!(b.get_pixel(2, 1), [1, 2, 3, 4]);
    assert_eq!(b.get_pixel(0, 0), [0, 0, 0, 0]);
}

#[test]
fn from_pixels_checks_the_length() {
    assert!(Bitmap::from_pixels(2, 2, vec![0; 16]).is_some());
    assert!(Bitmap::from_pixels(2, 2, vec![0; 15]).is_none());
    assert!(Bitmap::from_pixels(2, 2, vec![0; 12]).is_none());
    let b = Bitmap::from_pixels(1, 1, vec![9, 8, 7, 6]).unwrap();
    assert_eq!(b.get_pixel(0, 0), [9, 8, 7, 6]);
}

#[test]
fn crop_copies_the_source_region() {
    let b = coordinate_bitmap(4, 4);
    let c = b.crop(1, 2, 2, 2);
    assert_eq!(c.width, 2);
    assert_eq!(c.height, 2);
    for y in 0..2usize {
        for x in 0..2usize {
            assert_eq!(c.get_pixel(x, y), [(x + 1) as u8, (y + 2) as u8, 7, 255]);
        }
    }
}

#[test]
fn atlas_slice_matches_direct_crop() {
    // a 6x4 atlas of 2x2 cells, 3 columns by 2 rows
    let atlas = coordinate_bitmap(6, 4);
    let sprite = Sprite::from_grid(&atlas, 2, 1, 3, 2, Some(1));
    assert_eq!(sprite.width, 2);
    assert_eq!(sprite.height, 2);
    let direct = atlas.crop(4, 2, 2, 2);
    for y in 0..2usize {
        for x in 0..2usize {
            assert_eq!(sprite.image.get_pixel(x, y), direct.get_pixel(x, y));
        }
    }
}

#[test]
fn atlas_slice_renders_identically_to_the_source_region() {
    let atlas = coordinate_bitmap(6, 4);
    let cell_x = 1u32;
    let cell_y = 1u32;
    let sprite = Sprite::from_grid(&atlas, cell_x, cell_y, 3, 2, Some(1));
    let mut r = Renderer::new(2, 2);
    r.draw_sprite(0, 0, &sprite);
    for y in 0..2usize {
        for x in 0..2usize {
            let src = atlas.get_pixel(cell_x as usize * 2 + x, cell_y as usize * 2 + y);
            let base = (y * r.width + x) * 4;
            assert_eq!(
                [r.frame[base], r.frame[base + 1], r.frame[base + 2], r.frame[base + 3]],
                src
            );
        }
    }
}

#[test]
fn flip_horizontal_mirrors_columns() {
    let mut s = Sprite::from_image(coordinate_bitmap(2, 2), Some(1));
    s.flip_horizontal();
    assert_eq!(s.image.get_pixel(0, 0), [1, 0, 7, 255]);
    assert_eq!(s.image.get_pixel(1, 0), [0, 0, 7, 255]);
    assert_eq!(s.image.get_pixel(0, 1), [1, 1, 7, 255]);
}

#[test]
fn flip_vertical_mirrors_rows() {
    let mut s = Sprite::from_image(coordinate_bitmap(2, 2), Some(1));
    s.flip_vertical();
    assert_eq!(s.image.get_pixel(0, 0), [0, 1, 7, 255]);
    assert_eq!(s.image.get_pixel(0, 1), [0, 0, 7, 255]);
}

#[test]
fn quarter_rotation_is_clockwise_and_swaps_dimensions() {
    let mut s = Sprite::from_image(coordinate_bitmap(3, 2), Some(1));
    s.rotate_quarter();
    assert_eq!(s.width, 2);
    assert_eq!(s.height, 3);
    // the source's top-left corner lands in the destination's top-right
    assert_eq!(s.image.get_pixel(1, 0), [0, 0, 7, 255]);
    assert_eq!(s.image.get_pixel(0, 0), [0, 1, 7, 255]);
    assert_eq!(s.image.get_pixel(1, 2), [2, 0, 7, 255]);
}

#[test]
fn half_rotation_mirrors_both_axes() {
    let mut s = Sprite::from_image(coordinate_bitmap(2, 2), Some(1));
    s.rotate_half();
    assert_eq!(s.image.get_pixel(0, 0), [1, 1, 7, 255]);
    assert_eq!(s.image.get_pixel(1, 1), [0, 0, 7, 255]);
}

#[test]
fn sprite_constructors_record_shape_and_scale() {
    let s = Sprite::from_image(Bitmap::new(4, 2), None);
    assert_eq!((s.width, s.height, s.scale, s.frame_num), (4, 2, 4, 1));
    let a = Sprite::from_image_animated(Bitmap::new(4, 2), 2, Some(3));
    assert_eq!((a.width, a.height, a.scale, a.frame_num), (4, 2, 3, 2));
}
