use lowe_sift::{GrayImage, GrayImageError};

#[test]
fn construction_rejects_bad_lengths() {
    let err = GrayImage::new(4, 4, vec![0.0f32; 15]).unwrap_err();
    assert_eq!(
        err,
        GrayImageError::InvalidBufferLength {
            expected: 16,
            actual: 15
        }
    );
}

#[test]
fn construction_rejects_empty_and_overflowing_shapes() {
    assert_eq!(
        GrayImage::new(0, 4, Vec::<f32>::new()).err(),
        Some(GrayImageError::EmptyImage)
    );
    assert_eq!(
        GrayImage::new(3, 0, Vec::<f32>::new()).err(),
        Some(GrayImageError::EmptyImage)
    );
    assert_eq!(
        GrayImage::new(usize::MAX, 2, Vec::<f32>::new()).err(),
        Some(GrayImageError::DimensionOverflow)
    );
    assert_eq!(
        GrayImage::zeros(usize::MAX, 3, 0.0f32).err(),
        Some(GrayImageError::DimensionOverflow)
    );
}

#[test]
fn construction_keeps_shape_and_pixels() {
    let image = GrayImage::new(3, 2, vec![1u8, 2, 3, 4, 5, 6]).unwrap();
    assert_eq!(image.width(), 3);
    assert_eq!(image.height(), 2);
    assert_eq!(image.data(), &[1, 2, 3, 4, 5, 6]);
    assert_eq!(image.get(0, 1), 4);
    assert_eq!(image.get(2, 0), 3);
}

#[test]
fn zeros_fills_every_pixel() {
    let image = GrayImage::zeros(5, 3, 0.0f32).unwrap();
    assert_eq!(image.data().len(), 15);
    assert!(image.data().iter().all(|&v| v == 0.0));
}

#[test]
fn from_fn_evaluates_each_pixel() {
    let image = GrayImage::from_fn(4, 3, |x, y| (10 * y + x) as u32).unwrap();
    assert_eq!(image.data(), &[0, 1, 2, 3, 10, 11, 12, 13, 20, 21, 22, 23]);
    assert_eq!(
        GrayImage::from_fn(0, 3, |x, y| (x + y) as u32).err(),
        Some(GrayImageError::EmptyImage)
    );
}

#[test]
fn set_then_get_returns_value_and_leaves_others() {
    let mut image = GrayImage::zeros(4, 4, 0i32).unwrap();
    image.set(2, 3, 7);
    assert_eq!(image.get(2, 3), 7);
    for y in 0..4 {
        for x in 0..4 {
            if (x, y) != (2, 3) {
                assert_eq!(image.get(x, y), 0);
            }
        }
    }
}

#[test]
fn clamped_reads_use_the_nearest_edge() {
    let image = GrayImage::from_fn(3, 2, |x, y| (10 * y + x) as i32).unwrap();
    assert_eq!(image.get_clamped(-5, -5), 0);
    assert_eq!(image.get_clamped(7, 0), 2);
    assert_eq!(image.get_clamped(1, 9), 11);
    assert_eq!(image.get_clamped(1, 1), 11);
    assert_eq!(image.get_clamped(-1, 1), 10);
}

#[test]
fn map_converts_pixels_and_keeps_shape() {
    let image = GrayImage::new(2, 2, vec![0u8, 51, 102, 255]).unwrap();
    let mapped = image.map(|&v| f32::from(v) / 255.0);
    assert_eq!(mapped.width(), 2);
    assert_eq!(mapped.height(), 2);
    assert_eq!(mapped.data(), &[0.0, 0.2, 0.4, 1.0]);
}

#[test]
fn downsampling_keeps_even_pixels() {
    let image = GrayImage::from_fn(5, 3, |x, y| (10 * y + x) as i32).unwrap();
    let half = image.downsample_by_2();
    assert_eq!(half.width(), 2);
    assert_eq!(half.height(), 1);
    assert_eq!(half.data(), &[0, 2]);

    let column = GrayImage::from_fn(1, 4, |x, y| (10 * y + x) as i32).unwrap();
    let half = column.downsample_by_2();
    assert_eq!((half.width(), half.height()), (1, 2));
    assert_eq!(half.data(), &[0, 20]);
}

#[test]
fn luminance_conversion_of_decoded_images() {
    let luma = image::GrayImage::from_raw(3, 2, vec![0u8, 10, 20, 30, 40, 50]).unwrap();
    let gray = GrayImage::from_dynamic_image(&image::DynamicImage::ImageLuma8(luma));
    assert_eq!((gray.width(), gray.height()), (3, 2));
    assert_eq!(gray.data(), &[0, 10, 20, 30, 40, 50]);

    let rgb = image::RgbImage::from_raw(2, 1, vec![255u8, 255, 255, 0, 0, 0]).unwrap();
    let gray = GrayImage::from_dynamic_image(&image::DynamicImage::ImageRgb8(rgb));
    assert_eq!((gray.width(), gray.height()), (2, 1));
    assert_eq!(gray.data(), &[255, 0]);
}
