use std::io::Write;
use universal_converter::office_engine::{
    csv_cell, csv_records, csv_rows, csv_safe, excel_records, csv_to_json, csv_to_txt, docx_to_html, docx_to_text,
    excel_to_csv, excel_to_json, excel_to_txt, extract_xml_text, html_escape, parse_xml_text,
    pptx_to_text, OfficeError,
};

fn zip_bytes(entries: &[(&str, &str)]) -> Vec<u8> {
    let mut w = zip::ZipWriter::new(std::io::Cursor::new(Vec::new()));
    for (name, body) in entries {
        w.start_file(*name, zip::write::SimpleFileOptions::default()).unwrap();
        w.write_all(body.as_bytes()).unwrap();
    }
    w.finish().unwrap().into_inner()
}

fn sheet(name: &str, rows: &[&[&str]]) -> (String, Vec<Vec<String>>) {
    (
        name.to_string(),
        rows.iter().map(|r| r.iter().map(|c| c.to_string()).collect()).collect(),
    )
}

const DOC_XML: &str = "<w:document><w:body><w:p><w:r><w:t>Hello</w:t></w:r></w:p>\
<w:p><w:r><w:t>World &amp; co</w:t></w:r></w:p></w:body></w:document>";

#[test]
fn csv_safe_prefixes_formulas() {
    assert_eq!(csv_safe("=SUM(A1)"), "'=SUM(A1)");
    assert_eq!(csv_safe("+1"), "'+1");
    assert_eq!(csv_safe("-5"), "'-5");
    assert_eq!(csv_safe("@cmd"), "'@cmd");
    assert_eq!(csv_safe("\t\r=1"), "'\t\r=1");
    assert_eq!(csv_safe("hello"), "hello");
    assert_eq!(csv_safe("\tabc"), "'\tabc");
    assert_eq!(csv_safe("\rabc"), "'\rabc");
    assert_eq!(csv_safe(" =1"), " =1");
    assert_eq!(csv_safe(""), "");
}

#[test]
fn csv_cell_quotes_when_needed() {
    assert_eq!(csv_cell("plain"), "plain");
    assert_eq!(csv_cell("a,b"), "\"a,b\"");
    assert_eq!(csv_cell("say \"hi\""), "\"say \"\"hi\"\"\"");
    assert_eq!(csv_cell("line\nbreak"), "\"line\nbreak\"");
    assert_eq!(csv_cell("=1,2"), "\"'=1,2\"");
}

#[test]
fn html_escape_replaces_markup() {
    assert_eq!(html_escape("<a href=\"x\">&</a>"), "&lt;a href=&quot;x&quot;&gt;&amp;&lt;/a&gt;");
    assert_eq!(html_escape("it's"), "it's");
    let e = html_escape("<<&>>\"");
    assert!(!e.contains('<') && !e.contains('>') && !e.contains('"'));
}

#[test]
fn xml_text_of_paragraphs() {
    assert_eq!(parse_xml_text(DOC_XML, b"w:t", b"w:p"), "Hello\nWorld & co\n");
    assert_eq!(parse_xml_text("<a:p><a:t> x </a:t></a:p>", b"a:t", b"a:p"), "x\n");
    assert_eq!(parse_xml_text("<w:p><w:t>A</w:t><w:x>skip</w:x></w:p>", b"w:t", b"w:p"), "A\n");
    assert_eq!(parse_xml_text("", b"w:t", b"w:p"), "");
}

#[test]
fn docx_text_from_archive() {
    let docx = zip_bytes(&[("word/document.xml", DOC_XML)]);
    assert_eq!(docx_to_text(&docx).ok().unwrap(), "Hello\nWorld & co\n");
}

#[test]
fn docx_errors() {
    match docx_to_text(b"not a zip") {
        Err(e @ OfficeError::InvalidArchive(_)) => {
            assert!(e.message().starts_with("Archive ZIP invalide: "))
        }
        _ => panic!("expected an invalid archive"),
    }
    let other = zip_bytes(&[("other.xml", "<x/>")]);
    match docx_to_text(&other) {
        Err(e @ OfficeError::MissingEntry(_)) => assert_eq!(
            e.message(),
            "Entrée 'word/document.xml' introuvable (pas un DOCX valide ?)"
        ),
        _ => panic!("expected a missing entry"),
    }
    let bad = zip_bytes(&[("a.xml", "<a:t>z</a:t>")]);
    match extract_xml_text(&bad, "a.xml", b"a:t", b"a:p") {
        Ok(t) => assert_eq!(t, "z"),
        Err(_) => panic!("expected text"),
    }
}

#[test]
fn pptx_text_of_slides() {
    let pptx = zip_bytes(&[
        ("ppt/slides/slide2.xml", "<p:sld><a:p><a:r><a:t>Second</a:t></a:r></a:p></p:sld>"),
        ("ppt/slides/slide1.xml", "<p:sld><a:p><a:r><a:t>First</a:t></a:r></a:p></p:sld>"),
        ("ppt/slides/slide3.xml", "<p:sld></p:sld>"),
        ("ppt/presentation.xml", "<p/>"),
    ]);
    assert_eq!(
        pptx_to_text(&pptx).ok().unwrap(),
        "--- Slide 1 ---\nFirst\n\n--- Slide 2 ---\nSecond"
    );
}

#[test]
fn pptx_errors() {
    let empty = zip_bytes(&[("ppt/slides/slide1.xml", "<p:sld></p:sld>")]);
    match pptx_to_text(&empty) {
        Err(e @ OfficeError::NoSlideText) => {
            assert_eq!(e.message(), "Aucun texte extractible dans ce PPTX")
        }
        _ => panic!("expected no text"),
    }
    match pptx_to_text(b"garbage") {
        Err(OfficeError::InvalidArchive(_)) => {}
        _ => panic!("expected an invalid archive"),
    }
}

#[test]
fn docx_html_paragraphs() {
    let html = docx_to_html("Hello\n   \nA<B\n");
    assert_eq!(
        html,
        "<!DOCTYPE html>\n<html>\n<head><meta charset=\"UTF-8\"><style>body{font-family:sans-serif;\
         max-width:800px;margin:auto;padding:2rem;line-height:1.6}</style></head>\n<body>\n\
         <p>Hello</p>\n<p>A&lt;B</p>\n</body>\n</html>"
    );
}

#[test]
fn excel_first_sheet_to_csv() {
    let sheets = vec![
        sheet("Sheet1", &[&["a", "b,c"], &["=1", "x"]]),
        sheet("Other", &[&["ignored"]]),
    ];
    assert_eq!(excel_to_csv(&sheets), Ok("a,\"b,c\"\n'=1,x\n".to_string()));
    assert_eq!(excel_to_csv(&vec![]), Err("Aucune feuille trouvée".to_string()));
}

#[test]
fn excel_sheets_to_text() {
    let sheets = vec![sheet("S1", &[&["a", "b"], &["c"]]), sheet("S2", &[])];
    assert_eq!(excel_to_txt(&sheets), "=== S1 ===\na\tb\nc\n\n=== S2 ===\n\n");
    assert_eq!(excel_to_txt(&vec![]), "");
}

#[test]
fn excel_sheets_to_json() {
    let sheets = vec![sheet("S", &[&["h1", "h2"], &["1"], &["2", "3", "4"]]), sheet("E", &[])];
    let mut rec1 = serde_json::Map::new();
    rec1.insert("h1".to_string(), serde_json::Value::String("1".to_string()));
    rec1.insert("h2".to_string(), serde_json::Value::String(String::new()));
    let mut rec2 = serde_json::Map::new();
    rec2.insert("h1".to_string(), serde_json::Value::String("2".to_string()));
    rec2.insert("h2".to_string(), serde_json::Value::String("3".to_string()));
    let mut all = serde_json::Map::new();
    all.insert(
        "S".to_string(),
        serde_json::Value::Array(vec![serde_json::Value::Object(rec1), serde_json::Value::Object(rec2)]),
    );
    all.insert("E".to_string(), serde_json::Value::Array(vec![]));
    let expected = serde_json::to_string_pretty(&serde_json::Value::Object(all)).unwrap();
    assert_eq!(excel_to_json(&sheets), Ok(expected));
}

#[test]
fn csv_text_uses_tabs() {
    assert_eq!(csv_to_txt("a,b\nc,d"), "a\tb\nc\td");
    assert_eq!(csv_to_txt(""), "");
}

#[test]
fn csv_records_to_json() {
    let mut ann = serde_json::Map::new();
    ann.insert("name".to_string(), serde_json::Value::String("Ann".to_string()));
    ann.insert("age".to_string(), serde_json::Value::String("30".to_string()));
    let mut bob = serde_json::Map::new();
    bob.insert("name".to_string(), serde_json::Value::String("Bob".to_string()));
    let expected = serde_json::to_string_pretty(&vec![
        serde_json::Value::Object(ann),
        serde_json::Value::Object(bob),
    ])
    .unwrap();
    assert_eq!(csv_to_json("name,age\nAnn,30\nBob\n"), Ok(expected));
    assert_eq!(csv_to_json(""), Ok("[]".to_string()));
}

#[test]
fn csv_rows_without_header() {
    assert_eq!(
        csv_rows("a,b\n1,2,3\n"),
        Ok(vec![
            vec!["a".to_string(), "b".to_string()],
            vec!["1".to_string(), "2".to_string(), "3".to_string()]
        ])
    );
    assert_eq!(csv_rows("\"x,y\",z"), Ok(vec![vec!["x,y".to_string(), "z".to_string()]]));
}

#[test]
fn pptx_reads_every_slide_part_in_number_order() {
    let pptx = zip_bytes(&[
        ("ppt/slides/slide3.xml", "<a:p><a:t>Three</a:t></a:p>"),
        ("ppt/slides/slide1.xml", "<a:p><a:t>One</a:t></a:p>"),
    ]);
    assert_eq!(pptx_to_text(&pptx).ok().unwrap(), "--- Slide 1 ---\nOne\n\n--- Slide 3 ---\nThree");
    let many = zip_bytes(&[
        ("ppt/slides/slide10.xml", "<a:p><a:t>Ten</a:t></a:p>"),
        ("ppt/slides/slide2.xml", "<a:p><a:t>Two</a:t></a:p>"),
        ("ppt/slides/slide9.xml", "<a:p><a:t>Nine</a:t></a:p>"),
        ("ppt/slides/slide02.xml", "<a:p><a:t>Zero two</a:t></a:p>"),
        ("ppt/slides/slideA.xml", "<a:p><a:t>Letter</a:t></a:p>"),
    ]);
    assert_eq!(
        pptx_to_text(&many).ok().unwrap(),
        "--- Slide 2 ---\nTwo\n\n--- Slide 9 ---\nNine\n\n--- Slide 10 ---\nTen"
    );
}

#[test]
fn csv_table_to_records() {
    let headers = vec!["h1".to_string(), "h2".to_string()];
    let rows = vec![vec!["a".to_string()], vec!["b".to_string(), "c".to_string(), "d".to_string()]];
    let r = csv_records(&headers, &rows);
    assert_eq!(
        r,
        vec![
            vec![("h1".to_string(), "a".to_string())],
            vec![("h1".to_string(), "b".to_string()), ("h2".to_string(), "c".to_string())]
        ]
    );
}

#[test]
fn workbook_records_by_sheet() {
    let sheets = vec![sheet("S", &[&["k1", "k2"], &["v"]]), sheet("E", &[])];
    let r = excel_records(&sheets);
    assert_eq!(r.len(), 2);
    assert_eq!(r[0].0, "S");
    assert_eq!(
        r[0].1,
        vec![vec![("k1".to_string(), "v".to_string()), ("k2".to_string(), String::new())]]
    );
    assert_eq!(r[1], ("E".to_string(), vec![]));
}
