use png_embed::layout::{bits_per_pixel, str_to_layout, ColorKind, Layout, LayoutError};
use png_embed::embed::{parse_algorithm, AlgorithmError, EmbedAlgorithm};
use png_embed::layout::best_layout;

#[test]
fn parse_algorithm_names() {
    assert_eq!(parse_algorithm("lo3"), Ok(EmbedAlgorithm::Lo(3)));
    assert_eq!("lo7".parse::<EmbedAlgorithm>(), Ok(EmbedAlgorithm::Lo(7)));
    assert_eq!(parse_algorithm("lo1"), Ok(EmbedAlgorithm::Lo(1)));
    assert_eq!(parse_algorithm("lo007"), Ok(EmbedAlgorithm::Lo(7)));
    assert_eq!(parse_algorithm("lo8"), Err(AlgorithmError::BitsOutOfRange(8)));
    assert_eq!(parse_algorithm("lo0"), Err(AlgorithmError::BitsOutOfRange(0)));
    assert_eq!(parse_algorithm("lo255"), Err(AlgorithmError::BitsOutOfRange(255)));
    assert_eq!(parse_algorithm("lo256"), Err(AlgorithmError::BadNumber));
    assert_eq!(parse_algorithm("lo3x"), Err(AlgorithmError::BadNumber));
    assert_eq!(parse_algorithm("hi3"), Err(AlgorithmError::Unknown));
    assert_eq!(parse_algorithm("lo"), Err(AlgorithmError::Unknown));
    assert_eq!(parse_algorithm(""), Err(AlgorithmError::Unknown));
    assert_eq!(parse_algorithm("é3"), Err(AlgorithmError::Unknown));
}

#[test]
fn sizes() {
    let lo3 = EmbedAlgorithm::Lo(3);
    assert_eq!(lo3.embedded_size(0), 0);
    assert_eq!(lo3.embedded_size(3), 8);
    assert_eq!(lo3.embedded_size(4), 11);
    assert_eq!(EmbedAlgorithm::Lo(1).embedded_size(5), 40);
    assert_eq!(lo3.max_size(1024, 1024), 384);
    assert_eq!(lo3.max_size(32, 1000), 372);
    assert_eq!(EmbedAlgorithm::Lo(7).max_size(16, 15), 0);
    assert_eq!(EmbedAlgorithm::Lo(5).max_size(16, 33), 20);
}

#[test]
fn layouts() {
    // 100 bytes at 24 bits per pixel: 34 pixels, width 5, 7 rows.
    assert_eq!(best_layout(100, 24), (5, 7));
    assert_eq!(best_layout(1, 8), (1, 1));
    assert_eq!(best_layout(2, 1), (4, 4));
    assert_eq!(best_layout(1000, 8), (31, 33));
}

#[test]
fn layout_names() {
    assert_eq!(str_to_layout("rgb8"), Ok(Layout { color: ColorKind::Rgb, depth: 8 }));
    assert_eq!(str_to_layout("rgba16"), Ok(Layout { color: ColorKind::Rgba, depth: 16 }));
    assert_eq!(str_to_layout("g1"), Ok(Layout { color: ColorKind::Grayscale, depth: 1 }));
    assert_eq!(str_to_layout("ga4"), Ok(Layout { color: ColorKind::GrayscaleAlpha, depth: 4 }));
    assert_eq!(str_to_layout("rgb4"), Err(LayoutError::BadDepth(ColorKind::Rgb)));
    assert_eq!(str_to_layout("g3"), Err(LayoutError::BadDepth(ColorKind::Grayscale)));
    assert_eq!(str_to_layout("g16x"), Err(LayoutError::BadDepth(ColorKind::Grayscale)));
    assert_eq!(str_to_layout("cmyk8"), Err(LayoutError::UnknownLayout));
    assert_eq!(str_to_layout("rgb"), Err(LayoutError::MissingDepth));
    assert_eq!(bits_per_pixel(Layout { color: ColorKind::Rgb, depth: 8 }), 24);
    assert_eq!(bits_per_pixel(Layout { color: ColorKind::Rgba, depth: 16 }), 64);
    assert_eq!(bits_per_pixel(Layout { color: ColorKind::GrayscaleAlpha, depth: 2 }), 4);
    assert_eq!(bits_per_pixel(Layout { color: ColorKind::Grayscale, depth: 1 }), 1);
}
