use gemma4_serving::double::{divide, root_nearest, round, whole_part};
use gemma4_serving::image::{
    aspect_preserving_size, cut_patches, load_from_bytes, patchify, Picture,
};

fn png(width: u32, height: u32, pixel: impl Fn(u32, u32) -> [u8; 3]) -> Vec<u8> {
    let image = image::RgbImage::from_fn(width, height, |x, y| image::Rgb(pixel(x, y)));
    let mut out = std::io::Cursor::new(Vec::new());
    image.write_to(&mut out, image::ImageFormat::Png).unwrap();
    out.into_inner()
}

/// The size as double precision has it.
fn expected_size(height: u32, width: u32) -> Option<(u32, u32)> {
    let target_px = 280.0 * 9.0 * 256.0;
    let (h, w) = (f64::from(height), f64::from(width));
    let factor = (target_px / (h * w)).sqrt();
    let mut rows = (h * factor / 48.0).floor() * 48.0;
    let mut cols = (w * factor / 48.0).floor() * 48.0;
    if rows == 0.0 && cols == 0.0 {
        return None;
    }
    if rows == 0.0 {
        rows = 48.0;
        cols = ((w / h).floor() * 48.0).min(280.0 * 48.0);
    } else if cols == 0.0 {
        cols = 48.0;
        rows = ((h / w).floor() * 48.0).min(280.0 * 48.0);
    }
    if rows * cols > target_px {
        return None;
    }
    Some((rows as u32, cols as u32))
}

#[test]
fn sizes_are_those_of_double_precision() {
    let mut state = 12345u64;
    let mut side = || {
        state = state.wrapping_mul(6364136223846793005).wrapping_add(1442695040888963407);
        1 + ((state >> 33) % 16384) as u32
    };
    for _ in 0..20_000 {
        let (height, width) = (side(), side());
        assert_eq!(aspect_preserving_size(height, width).ok(), expected_size(height, width));
    }
}

#[test]
fn great_sizes_are_those_of_double_precision() {
    let mut state = 54321u64;
    let mut side = || {
        state = state.wrapping_mul(6364136223846793005).wrapping_add(1442695040888963407);
        let bits = (state >> 59) as u32;
        (((state >> 20) as u32) >> bits).max(1)
    };
    for _ in 0..50_000 {
        let (height, width) = (side(), side());
        assert_eq!(aspect_preserving_size(height, width).ok(), expected_size(height, width));
    }
    for (height, width) in [(u32::MAX, u32::MAX), (1, u32::MAX), (u32::MAX, 1), (u32::MAX, 1 << 31), (48, u32::MAX)] {
        assert_eq!(aspect_preserving_size(height, width).ok(), expected_size(height, width));
        assert!(aspect_preserving_size(height, width).is_ok());
    }
}

#[test]
fn sizes_on_the_edge_are_those_of_double_precision() {
    for rows in 1..=280u32 {
        for k in [1u32, 2, 3, 5, 7, 48, 57, 58] {
            let cols = 280 / rows;
            let (height, width) = (rows * k, cols * k);
            assert_eq!(aspect_preserving_size(height, width).ok(), expected_size(height, width));
        }
    }
    for side in 1..=16384u32 {
        assert_eq!(aspect_preserving_size(side, side).ok(), expected_size(side, side));
    }
}

#[test]
fn every_size_has_a_patch() {
    for (height, width) in [(1, 1), (1, 280), (281, 1), (2, 16384), (3, 1000), (16384, 16384)] {
        let (rows, cols) = aspect_preserving_size(height, width).unwrap();
        assert!(rows >= 48 && cols >= 48 && rows * cols <= 645_120);
    }
}

#[test]
fn an_image_on_its_side_gets_the_size_on_its_side() {
    for height in [1, 2, 47, 48, 803, 804, 1080, 5000, 16384] {
        for width in [1, 3, 48, 280, 281, 1920, 7001, 16384] {
            let (rows, cols) = aspect_preserving_size(height, width).unwrap();
            assert_eq!(aspect_preserving_size(width, height).unwrap(), (cols, rows));
            assert!(rows >= 48 && cols >= 48 && rows / 48 * (cols / 48) <= 280);
        }
    }
}

#[test]
fn known_sizes() {
    assert_eq!(aspect_preserving_size(768, 768).unwrap(), (768, 768));
    assert_eq!(aspect_preserving_size(1080, 1920).unwrap(), (576, 1056));
    assert_eq!(aspect_preserving_size(1, 16384).unwrap(), (48, 13440));
    assert_eq!(aspect_preserving_size(16384, 1).unwrap(), (13440, 48));
}

#[test]
fn roundings_are_exact() {
    let (m, s) = divide(1, 3);
    assert_eq!(m as f64 / 2f64.powi(s as i32), 1.0 / 3.0);
    assert_eq!(root_nearest(2 << 104) as f64 / 2f64.powi(52), 2f64.sqrt());
    assert_eq!(round((1 << 53) + 1), (1 << 52, 1));
    assert_eq!(round((1 << 53) + 3), ((1 << 52) + 2, 1));
    assert_eq!(round(12345), (12345, 0));
    assert_eq!(whole_part(143, 48), 2);
}

#[test]
fn images_of_the_right_size_are_cut_as_they_are() {
    let pixel = |x: u32, y: u32| [(x % 251) as u8, (y % 241) as u8, ((x / 48) * 16 + y / 48) as u8];
    let image = load_from_bytes(&png(768, 768, pixel)).unwrap();
    assert_eq!(image.pixels.len(), 256);
    assert_eq!(image.positions.len(), 256);
    for (k, patch) in image.pixels.iter().enumerate() {
        let (col, row) = (k % 16, k / 16);
        assert_eq!(image.positions[k], (col, row));
        assert_eq!(patch.len(), 6912);
        for i in [0usize, 1, 2, 143, 144, 3456, 6911] {
            let (y, x) = (row * 48 + i / 144, col * 48 + i % 144 / 3);
            assert_eq!(patch[i], pixel(x as u32, y as u32)[i % 3]);
        }
    }
}

#[test]
fn other_images_are_resized() {
    let image = load_from_bytes(&png(100, 100, |_, _| [10, 20, 30])).unwrap();
    assert_eq!(image.pixels.len(), 256);
    for patch in &image.pixels {
        assert_eq!(patch.len(), 6912);
        assert!(patch.chunks(3).all(|pixel| pixel == [10, 20, 30]));
    }
    let image = load_from_bytes(&png(200, 100, |x, _| if x < 100 { [0; 3] } else { [255; 3] })).unwrap();
    let last = image.positions.iter().map(|p| p.0).max().unwrap();
    for (patch, position) in image.pixels.iter().zip(&image.positions) {
        if position.0 == 0 {
            assert!(patch.iter().all(|&byte| byte == 0));
        }
        if position.0 == last {
            assert!(patch.iter().all(|&byte| byte == 255));
        }
    }
}

#[test]
fn empty_pictures_have_no_patches() {
    let image = patchify(Picture { width: 0, height: 5, pixels: Vec::new() }).ok().unwrap();
    assert!(image.pixels.is_empty());
    assert!(image.positions.is_empty());
}

#[test]
fn small_grids_are_cut() {
    let raw: Vec<u8> = (0..48 * 2 * 144).map(|i| (i % 253) as u8).collect();
    let image = cut_patches(&raw, 1, 2);
    assert_eq!(image.positions, vec![(0, 0), (1, 0)]);
    assert_eq!(image.pixels[1][0], raw[144]);
    assert_eq!(image.pixels[1][144], raw[288 + 144]);
    assert_eq!(image.pixels[0][6911], raw[47 * 288 + 143]);
}

#[test]
fn files_that_are_no_images_are_refused() {
    let message = load_from_bytes(b"not an image").err().unwrap();
    assert!(!message.is_empty());
    let mut cut = png(64, 64, |_, _| [1, 2, 3]);
    cut.truncate(40);
    assert!(load_from_bytes(&cut).is_err());
}

#[test]
fn wide_images_are_refused() {
    assert!(load_from_bytes(&png(16385, 1, |_, _| [0; 3])).is_err());
    assert!(load_from_bytes(&png(16384, 1, |_, _| [0; 3])).is_ok());
}
