use universal_converter::pdf_engine::{
    extract_page_text, extract_text_from_pdf, flush_line, merge_pdfs, pages_to_delete,
    pdf_bytes_to_string, pdf_to_html, single_page_text, text_ops_of, wrap_compact, ArrayItem,
    Operand, PageContent, PdfPage, TextOp, TjItem, SINGLE_PAGE_COLS,
};

#[test]
fn pdf_strings_in_utf16() {
    assert_eq!(pdf_bytes_to_string(&[0xFE, 0xFF, 0x00, 0x48, 0x00, 0x69]), "Hi");
    assert_eq!(pdf_bytes_to_string(&[0xFE, 0xFF, 0x00, 0x41, 0x42]), "A");
    assert_eq!(pdf_bytes_to_string(&[0xFE, 0xFF, 0xD8, 0x00]), "\u{FFFD}");
    assert_eq!(pdf_bytes_to_string(&[0xFE, 0xFF, 0xD8, 0x3D, 0xDE, 0x00]), "\u{1F600}");
    assert_eq!(pdf_bytes_to_string(&[0xFE, 0xFF]), "");
}

#[test]
fn pdf_strings_in_utf8_and_latin1() {
    assert_eq!(pdf_bytes_to_string("héllo".as_bytes()), "héllo");
    assert_eq!(pdf_bytes_to_string(&[0x63, 0x61, 0x66, 0xE9]), "café");
    assert_eq!(pdf_bytes_to_string(&[0xFE]), "þ");
    assert_eq!(pdf_bytes_to_string(&[]), "");
}

#[test]
fn flush_line_moves_trimmed_text() {
    let mut result = String::from("x\n");
    let mut line = String::from("  ab ");
    flush_line(&mut result, &mut line);
    assert_eq!(result, "x\nab\n");
    assert_eq!(line, "");
    let mut blank = String::from("   ");
    flush_line(&mut result, &mut blank);
    assert_eq!(result, "x\nab\n");
    assert_eq!(blank, "");
}

#[test]
fn page_text_from_operators() {
    let ops = vec![
        TextOp::Show(b"Hello".to_vec()),
        TextOp::ShowArray(vec![
            TjItem::Str(b"Wor".to_vec()),
            TjItem::Space,
            TjItem::Other,
            TjItem::Str(b"ld".to_vec()),
        ]),
        TextOp::LineBreak,
        TextOp::LineBreak,
        TextOp::Show(b"  Next  ".to_vec()),
    ];
    assert_eq!(extract_page_text(&ops), "HelloWor ld\nNext\n");
    assert_eq!(extract_page_text(&vec![]), "");
}

#[test]
fn document_text_has_a_block_per_page() {
    let pages = vec![
        PdfPage { number: 1, content: PageContent::Ops(vec![TextOp::Show(b"Hi".to_vec())]) },
        PdfPage { number: 2, content: PageContent::Unreadable },
        PdfPage { number: 3, content: PageContent::Undecodable },
        PdfPage { number: 4, content: PageContent::Ops(vec![]) },
    ];
    assert_eq!(
        extract_text_from_pdf(&pages),
        Ok("--- Page 1 ---\nHi\n\n--- Page 2 [contenu inaccessible] ---\n\n\
            --- Page 3 [décodage impossible] ---\n\n--- Page 4 [aucun texte] ---\n\n"
            .to_string())
    );
}

#[test]
fn document_without_text_is_refused() {
    let pages = vec![
        PdfPage { number: 1, content: PageContent::Unreadable },
        PdfPage { number: 2, content: PageContent::Ops(vec![TextOp::Show(b"   ".to_vec())]) },
    ];
    let msg = "Aucun texte extractible. Le PDF est peut-être scanné (images uniquement, OCR requis) ou vide.";
    assert_eq!(extract_text_from_pdf(&pages), Err(msg.to_string()));
    assert_eq!(extract_text_from_pdf(&vec![]), Err(msg.to_string()));
}

#[test]
fn pdf_text_as_html() {
    let html = pdf_to_html("--- Page 1 ---\nA & B\n\n");
    assert_eq!(
        html,
        "<!DOCTYPE html>\n<html>\n<head><meta charset=\"UTF-8\"><style>body{font-family:sans-serif;\
         max-width:800px;margin:auto;padding:2rem;line-height:1.6}h2{color:#555;border-top:1px solid #ccc;\
         padding-top:1em;margin-top:1.5em}</style></head>\n<body>\n\
         <h2>--- Page 1 ---</h2>\n<p>A &amp; B</p>\n\n</body>\n</html>"
    );
}

#[test]
fn merge_by_text() {
    assert_eq!(merge_pdfs(&vec![]), Err("Aucun PDF fourni".to_string()));
    let inputs = vec![
        ("/x/a.pdf".to_string(), Ok("T".to_string())),
        ("/y/b.pdf".to_string(), Err("E".to_string())),
    ];
    assert_eq!(
        merge_pdfs(&inputs),
        Ok("═══ a.pdf ═══\n\nT\n\n═══ b.pdf ═══\n\n[Extraction impossible: E]\n\n\n".to_string())
    );
}

#[test]
fn single_page_merge_text() {
    let inputs = vec![("/x/a.pdf".to_string(), Some("T".to_string())), ("b.pdf".to_string(), None)];
    assert_eq!(
        single_page_text(&inputs),
        "══════ a.pdf ══════\n\nT\n══════ b.pdf ══════\n\n[aucun texte extractible]\n\n"
    );
    assert_eq!(single_page_text(&vec![]), "");
}

#[test]
fn compact_wrap() {
    assert_eq!(SINGLE_PAGE_COLS, 120);
    assert_eq!(wrap_compact("ab cd", 3), vec!["ab".to_string(), "cd".to_string()]);
    let long = "w".repeat(250);
    assert_eq!(wrap_compact(&long, 120), vec!["w".repeat(120), "w".repeat(120), "w".repeat(10)]);
}

#[test]
fn split_deletes_the_pages_not_kept() {
    assert_eq!(pages_to_delete(5, &vec![2, 4]), vec![1, 3, 5]);
    assert_eq!(pages_to_delete(3, &vec![]), vec![1, 2, 3]);
    assert_eq!(pages_to_delete(3, &vec![1, 2, 3, 9]), Vec::<u32>::new());
    assert_eq!(pages_to_delete(0, &vec![1]), Vec::<u32>::new());
}

fn shows(op: &TextOp, text: &[u8]) -> bool {
    matches!(op, TextOp::Show(b) if b.as_slice() == text)
}

#[test]
fn operators_to_text_ops() {
    for name in ["Td", "TD", "T*"] {
        let ops = text_ops_of(name, vec![Operand::Other]);
        assert!(ops.len() == 1 && matches!(ops[0], TextOp::LineBreak));
    }
    let ops = text_ops_of("Tj", vec![Operand::Str(b"Hi".to_vec()), Operand::Str(b"no".to_vec())]);
    assert!(ops.len() == 1 && shows(&ops[0], b"Hi"));
    assert!(text_ops_of("Tj", vec![]).is_empty());
    assert!(text_ops_of("Tj", vec![Operand::Other]).is_empty());
    let ops = text_ops_of("'", vec![Operand::Str(b"x".to_vec()), Operand::Str(b"y".to_vec())]);
    assert!(ops.len() == 2 && matches!(ops[0], TextOp::LineBreak) && shows(&ops[1], b"x"));
    let ops = text_ops_of("\"", vec![Operand::Other, Operand::Other, Operand::Str(b"z".to_vec())]);
    assert!(ops.len() == 2 && matches!(ops[0], TextOp::LineBreak) && shows(&ops[1], b"z"));
    let ops = text_ops_of("\"", vec![]);
    assert!(ops.len() == 1 && matches!(ops[0], TextOp::LineBreak));
    assert!(text_ops_of("BT", vec![Operand::Str(b"q".to_vec())]).is_empty());
    assert!(text_ops_of("Tm", vec![]).is_empty());
}

#[test]
fn kerned_arrays_space_large_gaps() {
    let items = vec![
        ArrayItem::Str(b"A".to_vec()),
        ArrayItem::Integer(-200),
        ArrayItem::Integer(-100),
        ArrayItem::Real(true),
        ArrayItem::Real(false),
        ArrayItem::Other,
        ArrayItem::Str(b"B".to_vec()),
    ];
    let ops = text_ops_of("TJ", vec![Operand::Array(items)]);
    assert_eq!(ops.len(), 1);
    match &ops[0] {
        TextOp::ShowArray(t) => {
            assert_eq!(t.len(), 7);
            assert!(matches!(t[1], TjItem::Space) && matches!(t[2], TjItem::Other));
            assert!(matches!(t[3], TjItem::Space) && matches!(t[4], TjItem::Other));
        }
        _ => panic!("expected an array"),
    }
    assert_eq!(extract_page_text(&ops), "A  B\n");
    assert!(text_ops_of("TJ", vec![Operand::Str(b"A".to_vec())]).is_empty());
}
