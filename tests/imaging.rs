use mediamon::error::PipelineError;
use mediamon::fingerprint::{u64_from_be_prefix, Fingerprint};
use mediamon::ingest::prepare_input;
use mediamon::letterbox::{
    blank, fitted_dimensions, letterbox, place_thumbnail, RawImage, BACKGROUND, CANVAS_SIZE,
};
use mediamon::tensor::to_scorer_layout;

fn solid(width: u32, height: u32, rgb: [u8; 3]) -> RawImage {
    let mut pixels = Vec::new();
    for _ in 0..(width * height) {
        pixels.extend_from_slice(&rgb);
    }
    RawImage { width, height, pixels }
}

fn pixel(img: &RawImage, x: u32, y: u32) -> [u8; 3] {
    let i = ((y * img.width + x) * 3) as usize;
    [img.pixels[i], img.pixels[i + 1], img.pixels[i + 2]]
}

fn near(a: [u8; 3], b: [u8; 3]) -> bool {
    a.iter().zip(b.iter()).all(|(x, y)| (*x as i32 - *y as i32).abs() <= 1)
}

#[test]
fn fitted_sizes() {
    assert_eq!(fitted_dimensions(100, 200, 512), (256, 512));
    assert_eq!(fitted_dimensions(200, 100, 512), (512, 256));
    assert_eq!(fitted_dimensions(1, 1, 512), (512, 512));
    assert_eq!(fitted_dimensions(8000, 8000, 512), (512, 512));
    assert_eq!(fitted_dimensions(3, 2, 512), (512, 341));
    assert_eq!(fitted_dimensions(1, 1000, 512), (0, 512));
}

#[test]
fn canvas_is_always_square() {
    for (w, h) in [(1u32, 1u32), (37, 5), (5, 37), (64, 64), (300, 20)] {
        let out = letterbox(&solid(w, h, [1, 2, 3]), 32);
        assert_eq!((out.width, out.height), (32, 32));
        assert_eq!(out.pixels.len(), 32 * 32 * 3);
    }
}

#[test]
fn square_image_has_no_padding() {
    let out = letterbox(&solid(4, 4, [10, 20, 30]), 16);
    for y in 0..16 {
        for x in 0..16 {
            assert!(near(pixel(&out, x, y), [10, 20, 30]));
        }
    }
}

#[test]
fn wide_image_gets_bands_above_and_below() {
    let out = letterbox(&solid(200, 100, [200, 0, 0]), 16);
    for x in 0..16 {
        for y in 0..4 {
            assert_eq!(pixel(&out, x, y), [BACKGROUND; 3]);
        }
        for y in 4..12 {
            assert!(near(pixel(&out, x, y), [200, 0, 0]));
        }
        for y in 12..16 {
            assert_eq!(pixel(&out, x, y), [BACKGROUND; 3]);
        }
    }
}

#[test]
fn tall_image_gets_bands_left_and_right_odd_split() {
    let out = letterbox(&solid(3, 10, [0, 0, 90]), 10);
    for y in 0..10 {
        for x in 0..3 {
            assert_eq!(pixel(&out, x, y), [BACKGROUND; 3]);
        }
        for x in 3..6 {
            assert!(near(pixel(&out, x, y), [0, 0, 90]));
        }
        for x in 6..10 {
            assert_eq!(pixel(&out, x, y), [BACKGROUND; 3]);
        }
    }
}

#[test]
fn resampling_changes_the_size() {
    let img = RawImage { width: 2, height: 1, pixels: vec![0, 0, 0, 250, 250, 250] };
    let out = letterbox(&img, 4);
    assert_eq!(out.pixels.len(), 48);
    assert_eq!(pixel(&out, 0, 0), [BACKGROUND; 3]);
    assert_ne!(pixel(&out, 0, 1), [BACKGROUND; 3]);
    assert!(pixel(&out, 0, 1)[0] < pixel(&out, 3, 1)[0]);
}

#[test]
fn blank_canvas_is_white() {
    let c = blank(3);
    assert_eq!(c, vec![255u8; 27]);
}

#[test]
fn layout_swaps_rows_and_columns() {
    let canvas: Vec<u8> = (0u8..12).collect();
    let out = to_scorer_layout(&canvas, 2).unwrap();
    assert_eq!(out, vec![0, 1, 2, 6, 7, 8, 3, 4, 5, 9, 10, 11]);
}

#[test]
fn layout_refuses_wrong_size() {
    assert_eq!(to_scorer_layout(&vec![0u8; 11], 2), Err(PipelineError::ShapeError));
    assert_eq!(to_scorer_layout(&vec![0u8; 13], 2), Err(PipelineError::ShapeError));
    assert_eq!(to_scorer_layout(&Vec::new(), 0), Ok(Vec::new()));
}

#[test]
fn normalised_tensor_reconstructs_canvas() {
    let canvas: Vec<u8> = (0..(8 * 8 * 3)).map(|i| (i * 37 % 256) as u8).collect();
    let layout = to_scorer_layout(&canvas, 8).unwrap();
    let tensor: Vec<f32> = layout.iter().map(|b| f32::from(*b) / 255.0).collect();
    for (i, v) in tensor.iter().enumerate() {
        assert!((0.0..=1.0).contains(v));
        let back = (v * 255.0).round() as i32;
        assert!((back - layout[i] as i32).abs() <= 1);
    }
}

#[test]
fn prepare_refuses_empty_image() {
    let img = RawImage { width: 0, height: 5, pixels: Vec::new() };
    assert_eq!(prepare_input(&img, 8), Err(PipelineError::CorruptImage));
}

#[test]
fn prepare_gives_full_tensor() {
    let out = prepare_input(&solid(100, 200, [255, 255, 255]), CANVAS_SIZE).unwrap();
    assert_eq!(out.len(), 512 * 512 * 3);
    assert!(out.iter().all(|b| *b == 255));
}

#[test]
fn big_endian_prefix() {
    assert_eq!(u64_from_be_prefix(&vec![1, 2]), 0x0102_0000_0000_0000);
    assert_eq!(u64_from_be_prefix(&vec![1, 2, 3, 4, 5, 6, 7, 8, 9]), 0x0102_0304_0506_0708);
    assert_eq!(u64_from_be_prefix(&Vec::new()), 0);
}

#[test]
fn fingerprint_is_the_gradient_hash() {
    let mut img = solid(16, 16, [0, 0, 0]);
    for i in 0..img.pixels.len() {
        img.pixels[i] = ((i / 3) % 16 * 16) as u8;
    }
    let fp = Fingerprint::default().fingerprint(&img);
    let buf = image::RgbImage::from_raw(16, 16, img.pixels.clone()).unwrap();
    let hasher = image_hasher::HasherConfig::new()
        .hash_alg(image_hasher::HashAlg::Gradient)
        .hash_size(8, 8)
        .to_hasher();
    let hash = hasher.hash_image(&image::DynamicImage::ImageRgb8(buf));
    let bytes = hash.as_bytes();
    let mut expected = [0u8; 8];
    expected.iter_mut().zip(bytes).for_each(|(a, b)| *a = *b);
    assert_eq!(fp, u64::from_be_bytes(expected));
}

#[test]
fn thumbnail_is_placed_exactly() {
    let thumb: Vec<u8> = (1..=24).collect();
    let out = place_thumbnail(&thumb, 2, 1, 4);
    assert_eq!((out.width, out.height), (4, 4));
    let mut expected = vec![BACKGROUND; 12];
    expected.extend_from_slice(&thumb);
    expected.extend(vec![BACKGROUND; 12]);
    assert_eq!(out.pixels, expected);
    let tall: Vec<u8> = vec![7; 1 * 4 * 3];
    let out = place_thumbnail(&tall, 1, 3, 4);
    assert_eq!(pixel(&out, 0, 0), [BACKGROUND; 3]);
    assert_eq!(pixel(&out, 1, 2), [7, 7, 7]);
    assert_eq!(pixel(&out, 2, 2), [BACKGROUND; 3]);
}
