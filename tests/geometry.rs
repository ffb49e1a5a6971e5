use pdf_converter::{resolve, PdfConfig, PdfError, Placement, Ratio};

fn a4() -> PdfConfig {
    PdfConfig::default()
}

fn config(w: u32, h: u32, m: u32, dpi: u32) -> PdfConfig {
    PdfConfig {
        page_width_um: w,
        page_height_um: h,
        margin_um: m,
        dpi,
        title: "t".to_string(),
    }
}

fn value(r: Ratio) -> f64 {
    r.num as f64 / r.den as f64
}

#[test]
fn default_config_is_a4_at_300_dpi() {
    let c = a4();
    assert_eq!(c.page_width_um, 210_000);
    assert_eq!(c.page_height_um, 297_000);
    assert_eq!(c.margin_um, 20_000);
    assert_eq!(c.dpi, 300);
    assert_eq!(c.title, "Generated PDF");
}

#[test]
fn square_image_on_a4_fills_width_and_centres_vertically() {
    let p = resolve(300, 300, &a4()).unwrap();
    assert_eq!(p.scale, Ratio { num: 51_000_000, den: 7_620_000 });
    assert_eq!(p.width, Ratio { num: 170_000, den: 1 });
    assert_eq!(p.height, Ratio { num: 51_000_000, den: 300 });
    assert_eq!(p.x, Ratio { num: 20_000, den: 1 });
    assert_eq!(p.y, Ratio { num: 38_100_000, den: 600 });
    assert!((value(p.scale) - 6.692_913).abs() < 1e-5);
    assert!((value(p.height) - 170_000.0).abs() < 1e-6);
    assert!((value(p.y) - 63_500.0).abs() < 1e-6);
    // horizontal gap 0 mm, vertical gap 43.5 mm on each side
    assert!((value(p.x) - 20_000.0).abs() < 1e-9);
    assert!((value(p.y) - 20_000.0 - 43_500.0).abs() < 1e-6);
}

#[test]
fn wide_image_is_bound_by_height() {
    // landscape page 300 x 100 mm, no margin, image 100 x 100 px at 100 dpi
    let p = resolve(100, 100, &config(300_000, 100_000, 0, 100)).unwrap();
    assert_eq!(p.height, Ratio { num: 100_000, den: 1 });
    assert_eq!(p.y, Ratio { num: 0, den: 1 });
    assert!((value(p.width) - 100_000.0).abs() < 1e-6);
    assert!((value(p.x) - 100_000.0).abs() < 1e-6);
    assert!((value(p.scale) - 100_000.0 / 25_400.0).abs() < 1e-9);
}

#[test]
fn matching_aspect_fills_both_axes() {
    // printable area 170 x 257 mm; image 170 x 257 px
    let p = resolve(170, 257, &a4()).unwrap();
    assert!((value(p.width) - 170_000.0).abs() < 1e-6);
    assert!((value(p.height) - 257_000.0).abs() < 1e-6);
    assert!((value(p.x) - 20_000.0).abs() < 1e-6);
    assert!((value(p.y) - 20_000.0).abs() < 1e-6);
}

#[test]
fn placement_stays_inside_margins_and_is_centred() {
    let c = config(210_000, 297_000, 10_000, 96);
    for &(w, h) in &[(1u32, 1u32), (1920, 1080), (1, 5000), (4000, 3), (640, 480)] {
        let p = resolve(w, h, &c).unwrap();
        let (x, y, dw, dh) = (value(p.x), value(p.y), value(p.width), value(p.height));
        assert!(dw <= 190_000.0 + 1e-6 && dh <= 277_000.0 + 1e-6);
        assert!(x >= 10_000.0 - 1e-6 && y >= 10_000.0 - 1e-6);
        assert!(((x - 10_000.0) - (190_000.0 - dw - (x - 10_000.0))).abs() < 1e-6);
        assert!(((y - 10_000.0) - (277_000.0 - dh - (y - 10_000.0))).abs() < 1e-6);
    }
}

#[test]
fn square_on_portrait_has_larger_vertical_gap() {
    let c = config(100_000, 200_000, 5_000, 72);
    let p = resolve(50, 50, &c).unwrap();
    let gap_x = value(p.x) - 5_000.0;
    let gap_y = value(p.y) - 5_000.0;
    assert!(gap_y > gap_x);
}

#[test]
fn resolving_twice_gives_identical_placement() {
    let c = a4();
    let first: Placement = resolve(1234, 567, &c).unwrap();
    let second: Placement = resolve(1234, 567, &c).unwrap();
    assert_eq!(first, second);
}

#[test]
fn zero_pixel_side_is_a_geometry_error() {
    let r = resolve(0, 10, &a4());
    assert!(matches!(r, Err(PdfError::Geometry { width_px: 0, height_px: 10 })));
    let r = resolve(10, 0, &a4());
    assert!(matches!(r, Err(PdfError::Geometry { width_px: 10, height_px: 0 })));
}

#[test]
fn margins_too_large_are_a_geometry_error() {
    let r = resolve(10, 10, &config(100_000, 200_000, 50_000, 300));
    assert!(matches!(r, Err(PdfError::Geometry { .. })));
    let r = resolve(10, 10, &config(200_000, 100_000, 60_000, 300));
    assert!(matches!(r, Err(PdfError::Geometry { .. })));
}

#[test]
fn zero_dpi_is_a_geometry_error() {
    let r = resolve(10, 10, &config(210_000, 297_000, 0, 0));
    assert!(matches!(r, Err(PdfError::Geometry { .. })));
}

#[test]
fn largest_inputs_do_not_overflow() {
    let c = config(u32::MAX, u32::MAX, 0, u32::MAX);
    let p = resolve(u32::MAX, 1, &c).unwrap();
    assert_eq!(p.width, Ratio { num: u32::MAX as u64, den: 1 });
    assert_eq!(p.height, Ratio { num: u32::MAX as u64, den: u32::MAX as u64 });
}
