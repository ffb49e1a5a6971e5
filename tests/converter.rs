use std::io::Cursor;

use pdf_converter::files::{collect_image_files, is_image_file_name};
use pdf_converter::{
    Document, FolderEntry, PdfConfig, PdfConverter, PdfError, Ratio, RasterImage,
};

fn png(width: u32, height: u32) -> Vec<u8> {
    let img = image::RgbImage::from_pixel(width, height, image::Rgb([10, 20, 30]));
    let mut buf = Cursor::new(Vec::new());
    image::DynamicImage::ImageRgb8(img)
        .write_to(&mut buf, image::ImageFormat::Png)
        .unwrap();
    buf.into_inner()
}

fn entry(name: &str, is_file: bool, bytes: Vec<u8>) -> FolderEntry {
    FolderEntry { name: name.to_string(), is_file, bytes }
}

#[test]
fn single_image_end_to_end() {
    let converter = PdfConverter::new();
    let doc = converter.convert_image_to_pdf(&png(300, 300)).unwrap();
    assert_eq!(doc.page_count(), 1);
    assert_eq!(doc.page_width_um, 210_000);
    assert_eq!(doc.page_height_um, 297_000);
    assert_eq!(doc.title, "Generated PDF");
    let page = &doc.pages[0];
    assert_eq!(page.image.width, 300);
    assert_eq!(page.image.height, 300);
    assert_eq!(page.image.pixels.len(), 300 * 300 * 3);
    assert_eq!(&page.image.pixels[0..3], &[10, 20, 30]);
    assert_eq!(page.placement.width, Ratio { num: 170_000, den: 1 });
    assert_eq!(page.placement.x, Ratio { num: 20_000, den: 1 });
    assert_eq!(page.placement.y, Ratio { num: 38_100_000, den: 600 });
}

#[test]
fn images_become_pages_in_order() {
    let converter = PdfConverter::new();
    let doc = converter
        .convert_images_to_pdf(&vec![png(4, 2), png(1, 3), png(5, 5)])
        .unwrap();
    let sizes: Vec<(u32, u32)> =
        doc.pages.iter().map(|p| (p.image.width, p.image.height)).collect();
    assert_eq!(sizes, vec![(4, 2), (1, 3), (5, 5)]);
}

#[test]
fn empty_image_list_is_refused() {
    let converter = PdfConverter::new();
    let r = converter.convert_images_to_pdf(&Vec::new());
    assert!(matches!(r, Err(PdfError::Custom(_))));
}

#[test]
fn undecodable_image_aborts_the_run() {
    let converter = PdfConverter::new();
    let r = converter.convert_images_to_pdf(&vec![png(2, 2), b"not an image".to_vec(), png(3, 3)]);
    assert!(matches!(r, Err(PdfError::Image(_))));
}

#[test]
fn folder_pages_follow_name_order() {
    let converter = PdfConverter::new();
    let listing = vec![
        entry("b.jpg", true, png(2, 1)),
        entry("a.png", true, png(1, 1)),
        entry("C.gif", true, png(3, 1)),
    ];
    let doc = converter.convert_folder_to_pdf("pics", Some(listing)).unwrap();
    let widths: Vec<u32> = doc.pages.iter().map(|p| p.image.width).collect();
    // byte order: "C.gif" < "a.png" < "b.jpg"
    assert_eq!(widths, vec![3, 1, 2]);
}

#[test]
fn directory_ordering_of_names() {
    let entries = vec![
        entry("b.jpg", true, Vec::new()),
        entry("a.png", true, Vec::new()),
        entry("C.gif", true, Vec::new()),
    ];
    let order = collect_image_files(&entries);
    let names: Vec<&str> = order.iter().map(|&i| entries[i].name.as_str()).collect();
    assert_eq!(names, vec!["C.gif", "a.png", "b.jpg"]);
}

#[test]
fn folder_selection_skips_other_files() {
    let entries = vec![
        entry("notes.txt", true, Vec::new()),
        entry("photo.JPEG", true, Vec::new()),
        entry("dir.png", false, Vec::new()),
        entry(".png", true, Vec::new()),
        entry("archive.png.zip", true, Vec::new()),
        entry("x.WebP", true, Vec::new()),
        entry("y.bmp", true, Vec::new()),
    ];
    let order = collect_image_files(&entries);
    assert_eq!(order, vec![1, 5, 6]);
}

#[test]
fn image_file_names() {
    assert!(is_image_file_name("a.jpg"));
    assert!(is_image_file_name("a.b.GIF"));
    assert!(is_image_file_name("..bmp"));
    assert!(!is_image_file_name(".jpg"));
    assert!(!is_image_file_name("jpg"));
    assert!(!is_image_file_name("a.jpg."));
    assert!(!is_image_file_name("a.jpgx"));
    assert!(!is_image_file_name("a.tiff"));
    assert!(!is_image_file_name(""));
}

#[test]
fn missing_folder_is_a_path_error() {
    let converter = PdfConverter::new();
    let r = converter.convert_folder_to_pdf("no/such/dir", None);
    match r {
        Err(PdfError::InvalidPath(p)) => assert_eq!(p, "no/such/dir"),
        other => panic!("unexpected {:?}", other.map(|d| d.pages.len())),
    }
}

#[test]
fn folder_without_images_is_refused() {
    let converter = PdfConverter::new();
    let listing = vec![entry("a.txt", true, Vec::new()), entry("b.doc", true, Vec::new())];
    let r = converter.convert_folder_to_pdf("docs", Some(listing));
    match r {
        Err(PdfError::NoImagesFound(p)) => assert_eq!(p, "docs"),
        other => panic!("unexpected {:?}", other.map(|d| d.pages.len())),
    }
}

#[test]
fn undecodable_file_in_folder_aborts_the_run() {
    let converter = PdfConverter::new();
    let listing = vec![entry("a.png", true, png(2, 2)), entry("b.jpg", true, vec![1, 2, 3])];
    let r = converter.convert_folder_to_pdf("mixed", Some(listing));
    assert!(matches!(r, Err(PdfError::Image(_))));
}

#[test]
fn add_image_page_appends_or_leaves_document() {
    let converter = PdfConverter::new();
    let mut doc = Document::new(converter.config());
    let img = RasterImage { width: 2, height: 1, pixels: vec![0; 6] };
    converter.add_image_page(&mut doc, img).unwrap();
    assert_eq!(doc.page_count(), 1);
    let empty = RasterImage { width: 0, height: 1, pixels: Vec::new() };
    let r = converter.add_image_page(&mut doc, empty);
    assert!(matches!(r, Err(PdfError::Geometry { width_px: 0, height_px: 1 })));
    assert_eq!(doc.page_count(), 1);
}

#[test]
fn config_can_be_replaced() {
    let mut converter = PdfConverter::with_config(PdfConfig {
        page_width_um: 100_000,
        page_height_um: 100_000,
        margin_um: 0,
        dpi: 100,
        title: "x".to_string(),
    });
    assert_eq!(converter.config().page_width_um, 100_000);
    converter.set_config(PdfConfig::default());
    assert_eq!(converter.config().page_width_um, 210_000);
    let doc = converter.convert_image_to_pdf(&png(10, 10)).unwrap();
    assert_eq!(doc.page_width_um, 210_000);
}

#[test]
fn impossible_geometry_aborts_the_run() {
    let converter = PdfConverter::with_config(PdfConfig {
        page_width_um: 10_000,
        page_height_um: 10_000,
        margin_um: 5_000,
        dpi: 300,
        title: "x".to_string(),
    });
    let r = converter.convert_image_to_pdf(&png(3, 4));
    assert!(matches!(r, Err(PdfError::Geometry { width_px: 3, height_px: 4 })));
}

#[test]
fn custom_error_keeps_message() {
    match PdfError::custom("boom") {
        PdfError::Custom(m) => assert_eq!(m, "boom"),
        _ => panic!("wrong variant"),
    }
}

#[test]
fn empty_image_list_message() {
    let converter = PdfConverter::new();
    match converter.convert_images_to_pdf(&Vec::new()) {
        Err(PdfError::Custom(m)) => assert_eq!(m, "No images provided"),
        other => panic!("unexpected {:?}", other.map(|d| d.pages.len())),
    }
}

#[test]
fn default_converter_matches_new() {
    let a = PdfConverter::default();
    let b = PdfConverter::new();
    assert_eq!(a.config().page_width_um, b.config().page_width_um);
    assert_eq!(a.config().page_height_um, b.config().page_height_um);
    assert_eq!(a.config().margin_um, b.config().margin_um);
    assert_eq!(a.config().dpi, b.config().dpi);
    assert_eq!(a.config().title, b.config().title);
}
