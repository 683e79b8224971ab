use tinydraw::image_rgb8::SampleLayout;
use tinydraw::{ImageError, ImageRGB8};

const BLACK: [u8; 3] = [0, 0, 0];
const WHITE: [u8; 3] = [255, 255, 255];

fn px(image: &ImageRGB8, x: usize, y: usize) -> [u8; 3] {
    image.get_pixel(x, y).unwrap()
}

#[test]
fn example_1() {
    let background_color: [u8; 3] = [255, 155, 0];
    let mut image: ImageRGB8 = ImageRGB8::new(640, 360, background_color);

    assert!(image.draw_line(0, 0, 639, 359, [255, 255, 255]).is_ok());
    assert!(image.draw_line(0, 359, 639, 0, [255, 255, 255]).is_ok());

    assert!(image.draw_rectangle(0, 0, 639, 359, [255, 255, 255], 3).is_ok());

    ImageRGB8::draw_circle();
    ImageRGB8::draw_circle_filled();

    let bytes: &[u8] = image.to_bytes();
    assert_eq!(bytes.len(), 640 * 360 * 3);
    assert_eq!(px(&image, 0, 0), [255, 255, 255]);
    assert_eq!(px(&image, 639, 359), [255, 255, 255]);
    assert_eq!(px(&image, 319, 100), background_color);
}

#[test]
fn set_then_get_one_pixel() {
    let mut image = ImageRGB8::new(4, 4, BLACK);
    assert_eq!(image.set_pixel(0, 0, [255, 0, 0]), Ok(()));
    assert_eq!(image.get_pixel(0, 0), Ok([255, 0, 0]));
    for x in 0..4 {
        for y in 0..4 {
            if (x, y) != (0, 0) {
                assert_eq!(px(&image, x, y), BLACK);
            }
        }
    }
}

#[test]
fn origin_is_bottom_left() {
    let mut image = ImageRGB8::new(2, 2, BLACK);
    image.set_pixel(0, 0, [9, 8, 7]).unwrap();
    assert_eq!(image.image_data[2], [9, 8, 7]);
    assert_eq!(&image.to_bytes()[6..9], &[9, 8, 7]);
}

#[test]
fn horizontal_line_paints_every_pixel() {
    let mut image = ImageRGB8::new(10, 1, BLACK);
    assert_eq!(image.draw_line(0, 0, 9, 0, WHITE), Ok(()));
    for x in 0..10 {
        assert_eq!(px(&image, x, 0), WHITE);
    }
}

#[test]
fn vertical_line_paints_column_exactly() {
    let mut image = ImageRGB8::new(3, 5, BLACK);
    assert_eq!(image.draw_line(1, 1, 1, 3, [10, 20, 30]), Ok(()));
    for y in 0..5 {
        let expected = if (1..=3).contains(&y) { [10, 20, 30] } else { BLACK };
        assert_eq!(px(&image, 1, y), expected);
        assert_eq!(px(&image, 0, y), BLACK);
        assert_eq!(px(&image, 2, y), BLACK);
    }
}

#[test]
fn shallow_line_splits_half_coverage() {
    let mut image = ImageRGB8::new(3, 2, BLACK);
    assert_eq!(image.draw_line(0, 0, 2, 1, WHITE), Ok(()));
    assert_eq!(px(&image, 0, 0), WHITE);
    assert_eq!(px(&image, 0, 1), BLACK);
    assert_eq!(px(&image, 1, 1), [128, 128, 128]);
    assert_eq!(px(&image, 1, 0), [128, 128, 128]);
    assert_eq!(px(&image, 2, 1), WHITE);
    assert_eq!(px(&image, 2, 0), BLACK);
}

#[test]
fn shallow_line_splits_thirds() {
    let mut image = ImageRGB8::new(4, 2, BLACK);
    assert_eq!(image.draw_line(0, 0, 3, 1, WHITE), Ok(()));
    assert_eq!(px(&image, 1, 1), [85, 85, 85]);
    assert_eq!(px(&image, 1, 0), [170, 170, 170]);
    assert_eq!(px(&image, 2, 1), [170, 170, 170]);
    assert_eq!(px(&image, 2, 0), [85, 85, 85]);
    assert_eq!(px(&image, 3, 1), WHITE);
}

#[test]
fn descending_line_blends_towards_lower_row() {
    let mut image = ImageRGB8::new(4, 2, BLACK);
    assert_eq!(image.draw_line(0, 1, 3, 0, WHITE), Ok(()));
    assert_eq!(px(&image, 0, 1), WHITE);
    assert_eq!(px(&image, 1, 1), [170, 170, 170]);
    assert_eq!(px(&image, 1, 0), [85, 85, 85]);
    assert_eq!(px(&image, 3, 0), WHITE);
}

#[test]
fn blending_mixes_with_what_is_there() {
    let mut image = ImageRGB8::new(3, 2, [100, 0, 200]);
    assert_eq!(image.draw_line(0, 0, 2, 1, [200, 100, 0]), Ok(()));
    assert_eq!(px(&image, 1, 1), [150, 50, 100]);
    assert_eq!(image.draw_line(0, 0, 2, 1, [200, 100, 0]), Ok(()));
    assert_eq!(px(&image, 1, 1), [175, 75, 50]);
}

#[test]
fn steep_line_splits_between_columns() {
    let mut image = ImageRGB8::new(2, 3, BLACK);
    assert_eq!(image.draw_line(0, 0, 1, 2, WHITE), Ok(()));
    assert_eq!(px(&image, 0, 0), WHITE);
    assert_eq!(px(&image, 0, 1), [128, 128, 128]);
    assert_eq!(px(&image, 1, 1), [128, 128, 128]);
    assert_eq!(px(&image, 1, 2), WHITE);
    assert_eq!(px(&image, 1, 0), BLACK);
}

#[test]
fn steep_line_thirds() {
    let mut image = ImageRGB8::new(2, 4, BLACK);
    assert_eq!(image.draw_line(0, 0, 1, 3, WHITE), Ok(()));
    assert_eq!(px(&image, 0, 1), [170, 170, 170]);
    assert_eq!(px(&image, 1, 1), [85, 85, 85]);
    assert_eq!(px(&image, 0, 2), [85, 85, 85]);
    assert_eq!(px(&image, 1, 2), [170, 170, 170]);
}

#[test]
fn line_in_reverse_order_paints_the_same() {
    let mut down = ImageRGB8::new(1, 2, BLACK);
    assert_eq!(down.draw_line(0, 1, 0, 0, WHITE), Ok(()));
    assert_eq!(px(&down, 0, 0), WHITE);
    assert_eq!(px(&down, 0, 1), WHITE);

    let ends = [(3, 0, 0, 0), (0, 3, 0, 0), (3, 1, 0, 0), (0, 1, 3, 0), (1, 3, 0, 0), (0, 3, 1, 0)];
    for (x1, y1, x2, y2) in ends {
        let mut forward = ImageRGB8::new(4, 4, [40, 80, 120]);
        let mut backward = ImageRGB8::new(4, 4, [40, 80, 120]);
        assert_eq!(forward.draw_line(x1, y1, x2, y2, WHITE), Ok(()));
        assert_eq!(backward.draw_line(x2, y2, x1, y1, WHITE), Ok(()));
        assert_eq!(forward.image_data, backward.image_data);
        assert_eq!(px(&forward, x1, y1), WHITE);
        assert_eq!(px(&forward, x2, y2), WHITE);
    }
}

#[test]
fn reversed_shallow_line_blends_thirds() {
    let mut image = ImageRGB8::new(4, 2, BLACK);
    assert_eq!(image.draw_line(3, 1, 0, 0, WHITE), Ok(()));
    assert_eq!(px(&image, 1, 1), [85, 85, 85]);
    assert_eq!(px(&image, 1, 0), [170, 170, 170]);
    assert_eq!(px(&image, 2, 1), [170, 170, 170]);
    assert_eq!(px(&image, 2, 0), [85, 85, 85]);
}

#[test]
fn diagonal_line_snaps_every_step() {
    let mut image = ImageRGB8::new(4, 4, BLACK);
    assert_eq!(image.draw_line(0, 0, 3, 3, WHITE), Ok(()));
    for x in 0..4 {
        for y in 0..4 {
            assert_eq!(px(&image, x, y), if x == y { WHITE } else { BLACK });
        }
    }
}

#[test]
fn filled_rectangle_paints_closed_box() {
    let mut image = ImageRGB8::new(5, 5, BLACK);
    assert_eq!(image.draw_rectangle_filled(1, 1, 3, 3, [10, 20, 30]), Ok(()));
    for x in 0..5 {
        for y in 0..5 {
            let inside = (1..=3).contains(&x) && (1..=3).contains(&y);
            assert_eq!(px(&image, x, y), if inside { [10, 20, 30] } else { BLACK });
        }
    }
}

#[test]
fn filled_rectangle_corners_in_any_order() {
    let mut a = ImageRGB8::new(6, 6, BLACK);
    let mut b = ImageRGB8::new(6, 6, BLACK);
    a.draw_rectangle_filled(4, 1, 2, 5, WHITE).unwrap();
    b.draw_rectangle_filled(2, 5, 4, 1, WHITE).unwrap();
    assert_eq!(a.image_data, b.image_data);
}

#[test]
fn thin_rectangle_paints_perimeter_only() {
    let mut image = ImageRGB8::new(6, 6, BLACK);
    assert_eq!(image.draw_rectangle(4, 4, 1, 1, WHITE, 1), Ok(()));
    for x in 0..6 {
        for y in 0..6 {
            let in_box = (1..=4).contains(&x) && (1..=4).contains(&y);
            let edge = x == 1 || x == 4 || y == 1 || y == 4;
            assert_eq!(px(&image, x, y), if in_box && edge { WHITE } else { BLACK });
        }
    }
}

#[test]
fn thickness_zero_draws_one_outline() {
    let mut a = ImageRGB8::new(6, 6, BLACK);
    let mut b = ImageRGB8::new(6, 6, BLACK);
    a.draw_rectangle(0, 0, 5, 5, WHITE, 0).unwrap();
    b.draw_rectangle(0, 0, 5, 5, WHITE, 1).unwrap();
    assert_eq!(a.image_data, b.image_data);
}

#[test]
fn thick_rectangle_paints_concentric_outlines() {
    let mut image = ImageRGB8::new(7, 7, BLACK);
    assert_eq!(image.draw_rectangle(0, 0, 6, 6, WHITE, 2), Ok(()));
    for x in 0..7usize {
        for y in 0..7usize {
            let ring = x.min(6 - x).min(y).min(6 - y);
            assert_eq!(px(&image, x, y), if ring < 2 { WHITE } else { BLACK });
        }
    }
}

#[test]
fn thickest_rectangle_fills_box() {
    let mut image = ImageRGB8::new(5, 5, BLACK);
    assert_eq!(image.draw_rectangle(0, 0, 4, 4, WHITE, 3), Ok(()));
    assert!(image.image_data.iter().all(|p| *p == WHITE));
}

#[test]
fn too_thick_rectangle_fails_unchanged() {
    let mut image = ImageRGB8::new(8, 8, [1, 2, 3]);
    image.set_pixel(3, 3, [7, 7, 7]).unwrap();
    let before = image.image_data.clone();
    assert_eq!(
        image.draw_rectangle(0, 0, 4, 7, WHITE, 4),
        Err(ImageError::ThicknessTooLarge)
    );
    assert_eq!(image.image_data, before);
    assert_eq!(
        image.draw_rectangle(0, 0, 7, 2, WHITE, 3),
        Err(ImageError::ThicknessTooLarge)
    );
    assert_eq!(image.image_data, before);
    assert_eq!(image.draw_rectangle(0, 0, 4, 7, WHITE, 3), Ok(()));
}

#[test]
fn out_of_bounds_fails_unchanged() {
    let mut image = ImageRGB8::new(4, 3, [5, 5, 5]);
    let before = image.image_data.clone();
    assert_eq!(image.get_pixel(4, 0), Err(ImageError::OutOfBounds));
    assert_eq!(image.get_pixel(0, 3), Err(ImageError::OutOfBounds));
    assert_eq!(image.set_pixel(4, 0, WHITE), Err(ImageError::OutOfBounds));
    assert_eq!(image.set_pixel(0, 3, WHITE), Err(ImageError::OutOfBounds));
    assert_eq!(image.draw_line(0, 0, 4, 0, WHITE), Err(ImageError::OutOfBounds));
    assert_eq!(image.draw_line(0, 3, 1, 1, WHITE), Err(ImageError::OutOfBounds));
    assert_eq!(image.draw_rectangle(0, 0, 3, 3, WHITE, 1), Err(ImageError::OutOfBounds));
    assert_eq!(image.draw_rectangle(9, 0, 3, 2, WHITE, 99), Err(ImageError::OutOfBounds));
    assert_eq!(image.draw_rectangle_filled(0, 0, 4, 2, WHITE), Err(ImageError::OutOfBounds));
    assert_eq!(image.image_data, before);
}

#[test]
fn from_bytes_then_to_bytes_unchanged() {
    let image = ImageRGB8::from_bytes(2, 1, &[1, 2, 3, 4, 5, 6]).unwrap();
    assert_eq!(image.to_bytes(), &[1, 2, 3, 4, 5, 6]);
    assert_eq!(image.image_data, vec![[1, 2, 3], [4, 5, 6]]);
}

#[test]
fn from_bytes_wrong_length_fails() {
    assert_eq!(
        ImageRGB8::from_bytes(2, 1, &[1, 2, 3, 4, 5]).err(),
        Some(ImageError::InvalidByteLength)
    );
    assert_eq!(
        ImageRGB8::from_bytes(usize::MAX, 2, &[]).err(),
        Some(ImageError::InvalidByteLength)
    );
    assert!(ImageRGB8::from_bytes(0, 0, &[]).is_ok());
}

#[test]
fn bytes_round_trip_after_drawing() {
    let mut image = ImageRGB8::new(7, 5, [12, 34, 56]);
    image.draw_line(0, 0, 6, 4, [200, 100, 50]).unwrap();
    image.draw_rectangle(1, 1, 5, 3, [9, 9, 9], 1).unwrap();
    let rebuilt = ImageRGB8::from_bytes(image.width, image.height, image.to_bytes()).unwrap();
    assert_eq!(rebuilt.image_data, image.image_data);
}

#[test]
fn clear_restores_fill_color() {
    let mut image = ImageRGB8::new(5, 4, [3, 4, 5]);
    image.draw_line(0, 0, 4, 3, WHITE).unwrap();
    image.draw_rectangle_filled(1, 1, 2, 2, BLACK).unwrap();
    image.set_pixel(4, 0, BLACK).unwrap();
    image.clear();
    assert!(image.image_data.iter().all(|p| *p == [3, 4, 5]));
    assert_eq!(image.image_data.len(), 20);
}

#[test]
fn clear_restores_snapshot() {
    let bytes: Vec<u8> = (0..18).collect();
    let mut image = ImageRGB8::from_bytes(3, 2, &bytes).unwrap();
    image.draw_rectangle_filled(0, 0, 2, 1, WHITE).unwrap();
    assert!(image.image_data.iter().all(|p| *p == WHITE));
    image.clear();
    assert_eq!(image.to_bytes(), &bytes[..]);
}

#[test]
fn decoded_rgb_and_rgba() {
    let rgb = ImageRGB8::from_decoded(1, 2, 8, SampleLayout::Rgb, &[1, 2, 3, 4, 5, 6]).unwrap();
    assert_eq!(rgb.image_data, vec![[1, 2, 3], [4, 5, 6]]);
    let rgba =
        ImageRGB8::from_decoded(2, 1, 8, SampleLayout::Rgba, &[1, 2, 3, 255, 4, 5, 6, 0]).unwrap();
    assert_eq!(rgba.to_bytes(), &[1, 2, 3, 4, 5, 6]);
}

#[test]
fn decoded_unsupported_formats_fail() {
    assert_eq!(
        ImageRGB8::from_decoded(1, 1, 16, SampleLayout::Rgb, &[0; 6]).err(),
        Some(ImageError::UnsupportedBitDepth)
    );
    assert_eq!(
        ImageRGB8::from_decoded(1, 1, 8, SampleLayout::Other, &[0; 2]).err(),
        Some(ImageError::UnsupportedColorType)
    );
    assert_eq!(
        ImageRGB8::from_decoded(2, 1, 8, SampleLayout::Rgba, &[0; 6]).err(),
        Some(ImageError::InvalidByteLength)
    );
}
