use universal_converter::commands::{
    conversion_route, csv_of_records, csv_quote, csv_safe_value, json_to_csv_str, json_to_txt,
    merge_mode, plan_conversion, zip_entry_names, Conversion, JsonCsvError, MergeMode, Route,
};
use universal_converter::conversion_engine::{get_available_formats, OutputFormat};

fn paths(v: &[&str]) -> Vec<String> {
    v.iter().map(|s| s.to_string()).collect()
}

#[test]
fn command_csv_helpers() {
    assert_eq!(csv_safe_value("=cmd"), "'=cmd");
    assert_eq!(csv_safe_value("ok"), "ok");
    assert_eq!(csv_safe_value("\tabc"), "'\tabc");
    assert_eq!(csv_quote("a\"b"), "\"a\"\"b\"");
    assert_eq!(csv_quote("-1,5"), "\"'-1,5\"");
}

#[test]
fn json_records_to_csv() {
    let json = "[{\"name\":\"Ann\",\"age\":30},{\"name\":\"Bob, Jr\",\"age\":null},5,{\"name\":\"=x\"}]";
    assert_eq!(
        json_to_csv_str(json).ok().unwrap(),
        "age,name\n30,Ann\nnull,\"Bob, Jr\"\n,'=x\n"
    );
    assert_eq!(json_to_csv_str("[]").ok().unwrap(), "");
    assert_eq!(json_to_csv_str("[1,{\"a\":1}]").ok().unwrap(), "\n\n");
    assert_eq!(json_to_csv_str("[{\"a\":{\"b\":[1,2]}}]").ok().unwrap(), "a\n\"{\"\"b\"\":[1,2]}\"\n");
}

#[test]
fn json_csv_errors() {
    match json_to_csv_str("{\"a\":1}") {
        Err(e @ JsonCsvError::NotArray) => assert_eq!(e.message(), "JSON doit être un tableau d'objets"),
        _ => panic!("expected not-an-array"),
    }
    match json_to_csv_str("[1,") {
        Err(e @ JsonCsvError::Invalid(_)) => assert!(e.message().starts_with("JSON invalide: ")),
        _ => panic!("expected invalid JSON"),
    }
}

#[test]
fn plan_image_conversions() {
    let p = plan_conversion("/tmp/a.PNG", "JPG", None, None).ok().unwrap();
    assert_eq!(p.conversion, Conversion::RasterToImage(OutputFormat::Jpeg));
    assert_eq!(p.output_path, "/tmp/a_converted.jpg");
    let p = plan_conversion("/tmp/a.png", "pdf", None, None).ok().unwrap();
    assert_eq!(p.conversion, Conversion::RasterToPdf);
    let p = plan_conversion("/tmp/a.svg", "webp", Some("/o"), Some("pic")).ok().unwrap();
    assert_eq!(p.conversion, Conversion::SvgToImage(OutputFormat::Webp));
    assert_eq!(p.output_path, "/o/pic.webp");
    let p = plan_conversion("/tmp/a.svg", "pdf", None, None).ok().unwrap();
    assert_eq!(p.conversion, Conversion::SvgToPdf);
}

#[test]
fn plan_document_conversions() {
    let cases = [
        ("a.pdf", "txt", Conversion::PdfToTxt),
        ("a.pdf", "HTML", Conversion::PdfToHtml),
        ("a.txt", "pdf", Conversion::TxtToPdf),
        ("a.markdown", "html", Conversion::MdToHtml),
        ("a.md", "txt", Conversion::MdToTxt),
        ("a.md", "pdf", Conversion::MdToPdf),
        ("a.htm", "txt", Conversion::HtmlToTxt),
        ("a.html", "pdf", Conversion::HtmlToPdf),
        ("a.doc", "txt", Conversion::DocxToTxt),
        ("a.docx", "html", Conversion::DocxToHtml),
        ("a.docx", "pdf", Conversion::DocxToPdf),
        ("a.ppt", "txt", Conversion::PptxToTxt),
        ("a.pptx", "pdf", Conversion::PptxToPdf),
        ("a.xls", "csv", Conversion::ExcelToCsv),
        ("a.ods", "json", Conversion::ExcelToJson),
        ("a.xlsx", "txt", Conversion::ExcelToTxt),
        ("a.xlsx", "pdf", Conversion::ExcelToPdf),
        ("a.csv", "json", Conversion::CsvToJson),
        ("a.csv", "xlsx", Conversion::CsvToXlsx),
        ("a.csv", "txt", Conversion::CsvToTxt),
        ("a.csv", "pdf", Conversion::CsvToPdf),
        ("a.json", "csv", Conversion::JsonToCsv),
        ("a.JSON", "txt", Conversion::JsonToTxt),
    ];
    for (input, fmt, expected) in cases {
        let p = plan_conversion(input, fmt, None, None).ok().unwrap();
        assert_eq!(p.conversion, expected);
    }
}

#[test]
fn plan_unsupported_pairs() {
    assert_eq!(
        plan_conversion("/tmp/a.svg", "tiff", None, None).err(),
        Some("Conversion .svg → tiff non supportée".to_string())
    );
    assert_eq!(
        plan_conversion("/tmp/noext", "PDF", None, None).err(),
        Some("Conversion . → pdf non supportée".to_string())
    );
    assert_eq!(
        plan_conversion("/tmp/a.png", "tif", None, None).err(),
        Some("Conversion .png → tif non supportée".to_string())
    );
}

#[test]
fn merge_modes() {
    assert_eq!(merge_mode("pages"), Ok(MergeMode::Pages));
    assert_eq!(merge_mode("single"), Ok(MergeMode::Single));
    assert_eq!(merge_mode("Pages"), Err("Mode inconnu: Pages".to_string()));
    assert_eq!(merge_mode(""), Err("Mode inconnu: ".to_string()));
}

#[test]
fn zip_names_are_deduplicated() {
    let (names, bad) = zip_entry_names(&paths(&["/a/x.txt", "/b/x.txt", "/c/x.txt", "/d/y"]));
    assert_eq!(names, paths(&["x.txt", "x_2.txt", "x_3.txt", "y"]));
    assert_eq!(bad, None);
    let (names, _) = zip_entry_names(&paths(&["/a/f", "/b/f"]));
    assert_eq!(names, paths(&["f", "f_2"]));
    let (names, _) = zip_entry_names(&paths(&["/a/x.txt", "/b/x_2.txt", "/c/x.txt"]));
    assert_eq!(names, paths(&["x.txt", "x_2.txt", "x_3.txt"]));
    let (names, _) = zip_entry_names(&paths(&["/a/a.b.c", "/b/a.b.c"]));
    assert_eq!(names, paths(&["a.b.c", "a.b_2.c"]));
}

#[test]
fn zip_names_stop_at_a_path_without_file_name() {
    let (names, bad) = zip_entry_names(&paths(&["/a/x.txt", "/", "/b/y.txt"]));
    assert_eq!(names, paths(&["x.txt"]));
    assert_eq!(bad, Some(1));
}

#[test]
fn zip_names_are_distinct() {
    let input = paths(&["/1/r.pdf", "/2/r.pdf", "/3/r_2.pdf", "/4/r.pdf", "/5/r_3.pdf", "/6/r"]);
    let (names, bad) = zip_entry_names(&input);
    assert_eq!(bad, None);
    let mut sorted = names.clone();
    sorted.sort();
    sorted.dedup();
    assert_eq!(sorted.len(), names.len());
}

#[test]
fn every_offered_format_converts() {
    let exts = [
        "png", "jpg", "jpeg", "webp", "bmp", "gif", "tiff", "tif", "tga", "pnm", "hdr", "ico", "svg",
        "pdf", "txt", "md", "markdown", "html", "htm", "docx", "doc", "pptx", "ppt", "xlsx", "xls",
        "ods", "csv", "json",
    ];
    for ext in exts {
        let offered = get_available_formats(ext);
        assert!(!offered.is_empty());
        for f in offered {
            let input = format!("/data/file.{}", ext);
            assert!(plan_conversion(&input, f, None, None).is_ok(), "{} -> {}", ext, f);
        }
    }
}

#[test]
fn routes_of_lowercased_pairs() {
    assert_eq!(conversion_route("png", "jpg"), Some(Route::RasterToImage));
    assert_eq!(conversion_route("svg", "bmp"), Some(Route::SvgToImage));
    assert_eq!(conversion_route("md", "pdf"), Some(Route::Fixed(Conversion::MdToPdf)));
    assert_eq!(conversion_route("PNG", "jpg"), None);
    assert_eq!(conversion_route("txt", "html"), None);
}

#[test]
fn csv_of_parsed_records() {
    let recs = vec![
        Some(vec![("b".to_string(), "1".to_string()), ("a".to_string(), "x,y".to_string())]),
        None,
        Some(vec![("a".to_string(), "=2".to_string())]),
    ];
    assert_eq!(csv_of_records(&recs), "b,a\n1,\"x,y\"\n,'=2\n");
    assert_eq!(csv_of_records(&vec![]), "");
}

#[test]
fn json_text_is_pretty_printed() {
    let v: serde_json::Value = serde_json::from_str("{\"b\":[1,2],\"a\":\"x\"}").unwrap();
    assert_eq!(json_to_txt("{\"b\":[1,2],\"a\":\"x\"}"), Ok(serde_json::to_string_pretty(&v).unwrap()));
    assert!(json_to_txt("[1,").is_err());
}

#[test]
fn routes_exist_only_for_offered_formats() {
    let exts = [
        "png", "jpg", "jpeg", "webp", "bmp", "gif", "tiff", "tif", "tga", "pnm", "hdr", "ico", "svg",
        "pdf", "txt", "md", "markdown", "html", "htm", "docx", "doc", "pptx", "ppt", "xlsx", "xls",
        "ods", "csv", "json", "zip", "",
    ];
    let targets = [
        "png", "jpg", "jpeg", "webp", "bmp", "gif", "tiff", "tif", "tga", "ico", "pdf", "txt",
        "html", "csv", "json", "xlsx", "md", "docx",
    ];
    for ext in exts {
        let offered = get_available_formats(ext);
        for f in targets {
            let is_offered = offered.contains(&f) || (f == "jpeg" && offered.contains(&"jpg"));
            assert_eq!(conversion_route(ext, f).is_some(), is_offered, "{} -> {}", ext, f);
        }
    }
    assert_eq!(
        plan_conversion("/tmp/a.pdf", "png", None, None).err(),
        Some("Conversion .pdf → png non supportée".to_string())
    );
}
