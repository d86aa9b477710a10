use universal_converter::conversion_engine::{
    build_output_path, build_output_path_custom, get_available_formats, is_svg_extension, pixels_result,
    svg_to_rgba, SvgPixels,
    jpeg_quality, sanitize_name, thumbnail_data_url, ImageOptions, OutputFormat,
};

#[test]
fn formats_parse_case_insensitively() {
    assert_eq!(OutputFormat::from_str("PNG").ok(), Some(OutputFormat::Png));
    assert_eq!(OutputFormat::from_str("jpg").ok(), Some(OutputFormat::Jpeg));
    assert_eq!(OutputFormat::from_str("JPEG").ok(), Some(OutputFormat::Jpeg));
    assert_eq!(OutputFormat::from_str("webp").ok(), Some(OutputFormat::Webp));
    assert_eq!(OutputFormat::from_str("bmp").ok(), Some(OutputFormat::Bmp));
    assert_eq!(OutputFormat::from_str("gif").ok(), Some(OutputFormat::Gif));
    assert_eq!(OutputFormat::from_str("tif").ok(), Some(OutputFormat::Tiff));
    assert_eq!(OutputFormat::from_str("TIFF").ok(), Some(OutputFormat::Tiff));
    assert_eq!(OutputFormat::from_str("ico").ok(), Some(OutputFormat::Ico));
    assert_eq!(OutputFormat::from_str("tga").ok(), Some(OutputFormat::Tga));
}

#[test]
fn unknown_format_is_refused() {
    match OutputFormat::from_str("Xyz") {
        Err(e) => assert_eq!(e.message(), "Format image non supporté: Xyz"),
        Ok(_) => panic!("expected an error"),
    }
    assert!(OutputFormat::from_str("").is_err());
}

#[test]
fn extensions_of_formats() {
    let all = [
        (OutputFormat::Png, "png"),
        (OutputFormat::Jpeg, "jpg"),
        (OutputFormat::Webp, "webp"),
        (OutputFormat::Bmp, "bmp"),
        (OutputFormat::Gif, "gif"),
        (OutputFormat::Tiff, "tiff"),
        (OutputFormat::Ico, "ico"),
        (OutputFormat::Tga, "tga"),
    ];
    for (f, ext) in all {
        assert_eq!(f.extension(), ext);
        assert_eq!(OutputFormat::from_str(f.extension()).ok(), Some(f));
    }
}

#[test]
fn available_formats_by_extension() {
    assert_eq!(
        get_available_formats("PNG"),
        vec!["png", "jpg", "webp", "bmp", "gif", "tiff", "tga", "ico", "pdf"]
    );
    assert_eq!(get_available_formats("hdr"), get_available_formats("png"));
    assert_eq!(get_available_formats("svg"), vec!["png", "jpg", "webp", "bmp", "pdf"]);
    assert_eq!(get_available_formats("pdf"), vec!["txt", "html"]);
    assert_eq!(get_available_formats("txt"), vec!["pdf"]);
    assert_eq!(get_available_formats("Markdown"), vec!["html", "txt", "pdf"]);
    assert_eq!(get_available_formats("htm"), vec!["txt", "pdf"]);
    assert_eq!(get_available_formats("doc"), vec!["txt", "html", "pdf"]);
    assert_eq!(get_available_formats("pptx"), vec!["txt", "pdf"]);
    assert_eq!(get_available_formats("ods"), vec!["csv", "json", "txt", "pdf"]);
    assert_eq!(get_available_formats("csv"), vec!["json", "xlsx", "txt", "pdf"]);
    assert_eq!(get_available_formats("json"), vec!["csv", "txt"]);
    assert_eq!(get_available_formats("exe"), Vec::<&str>::new());
    assert_eq!(get_available_formats(""), Vec::<&str>::new());
}

#[test]
fn jpeg_quality_is_clamped() {
    let mut o = ImageOptions::default();
    assert_eq!(jpeg_quality(&o), 90);
    o.quality = Some(0);
    assert_eq!(jpeg_quality(&o), 1);
    o.quality = Some(150);
    assert_eq!(jpeg_quality(&o), 100);
    o.quality = Some(42);
    assert_eq!(jpeg_quality(&o), 42);
}

#[test]
fn names_are_sanitized() {
    assert_eq!(sanitize_name("  my/../name "), "my__name");
    assert_eq!(sanitize_name("a\\b\0c"), "a_bc");
    assert_eq!(sanitize_name("...."), "");
    assert_eq!(sanitize_name("report"), "report");
    assert_eq!(sanitize_name(".\0."), "");
    assert_eq!(sanitize_name("x..y/.."), "xy_");
    assert_eq!(sanitize_name("..."), ".");
    for n in ["../../etc/passwd", "a/b\\c", "x..y/..", " .. / .. ", ".\0.\0.", "a.\0.b", " \0 x "] {
        let s = sanitize_name(n);
        assert!(!s.contains('/') && !s.contains('\\') && !s.contains('\0') && !s.contains(".."));
        assert_eq!(s, s.trim());
    }
}

#[test]
fn output_path_next_to_input() {
    assert_eq!(build_output_path("/home/u/doc.txt", "pdf"), "/home/u/doc_converted.pdf");
    assert_eq!(build_output_path("doc.txt", "pdf"), "doc_converted.pdf");
    assert_eq!(build_output_path("/a/archive.tar.gz", "zip"), "/a/archive.tar_converted.zip");
}

#[test]
fn output_path_with_directory_and_name() {
    assert_eq!(
        build_output_path_custom("/a/b.png", "jpg", Some("/out"), Some("  my/../name ")),
        "/out/my__name.jpg"
    );
    assert_eq!(build_output_path_custom("/a/b.png", "jpg", Some("/out/"), Some("   ")), "/out/b_converted.jpg");
    assert_eq!(build_output_path_custom("/a/b.png", "jpg", None, Some("x")), "/a/x.jpg");
    assert_eq!(build_output_path_custom("/a/b.png", "jpg", Some(""), None), "b_converted.jpg");
}

#[test]
fn thumbnail_url() {
    assert_eq!(thumbnail_data_url(&[1, 2, 3]), "data:image/png;base64,AQID");
    assert_eq!(thumbnail_data_url(&[0xFF]), "data:image/png;base64,/w==");
    assert_eq!(thumbnail_data_url(&[]), "data:image/png;base64,");
}

#[test]
fn svg_extension() {
    assert!(is_svg_extension("/a/logo.SVG"));
    assert!(!is_svg_extension("/a/logo.svgz"));
    assert!(!is_svg_extension("/a/svg"));
}

#[test]
fn svg_renders_to_rgba_pixels() {
    let svg = br#"<svg xmlns="http://www.w3.org/2000/svg" width="2" height="3"><rect width="2" height="3" fill="red"/></svg>"#;
    let (w, h, px) = svg_to_rgba(svg).unwrap();
    assert_eq!((w, h), (2, 3));
    assert_eq!(px.len(), 24);
    assert_eq!(&px[0..4], &[255, 0, 0, 255]);
}

#[test]
fn svg_refused_by_parser() {
    let err = svg_to_rgba(b"not an svg document").unwrap_err();
    assert!(err.starts_with("SVG invalide: "));
    assert!(err.len() > "SVG invalide: ".len());
}

#[test]
fn svg_with_zero_size_is_refused() {
    let svg = br#"<svg xmlns="http://www.w3.org/2000/svg" width="0" height="3"></svg>"#;
    let err = svg_to_rgba(svg).unwrap_err();
    assert_eq!(err, "SVG invalide: SVG has an invalid size");
}

#[test]
fn svg_too_wide_for_a_pixmap() {
    let svg = br#"<svg xmlns="http://www.w3.org/2000/svg" width="600000000" height="1"></svg>"#;
    assert_eq!(svg_to_rgba(svg), Err("Dimensions SVG invalides".to_string()));
}

#[test]
fn rendering_outcomes_are_reported() {
    assert_eq!(pixels_result(SvgPixels::Image(1, 1, vec![1, 2, 3, 4])), Ok((1, 1, vec![1, 2, 3, 4])));
    assert_eq!(pixels_result(SvgPixels::Invalid("x".to_string())), Err("SVG invalide: x".to_string()));
    assert_eq!(pixels_result(SvgPixels::BadSize), Err("Dimensions SVG invalides".to_string()));
}
