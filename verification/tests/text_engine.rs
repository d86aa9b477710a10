use universal_converter::text_engine::{
    html_from_markdown, html_to_pdf, lines_per_page, md_to_pdf, pdf_pages, text_from_html,
    text_from_markdown, text_from_markdown_events, text_pages, try_wrap_lines, wrap_lines, MdEvent,
};

fn strings(v: &[&str]) -> Vec<String> {
    v.iter().map(|s| s.to_string()).collect()
}

#[test]
fn lines_per_page_is_fifty_two() {
    assert_eq!(lines_per_page(), 52);
}

#[test]
fn wrap_keeps_short_lines() {
    assert_eq!(wrap_lines("a\nb"), strings(&["a", "b"]));
    assert_eq!(wrap_lines(""), Vec::<String>::new());
    assert_eq!(wrap_lines("\n\n"), strings(&["", ""]));
    assert_eq!(wrap_lines("x\r\ny"), strings(&["x", "y"]));
}

#[test]
fn wrap_cuts_at_limit_without_space() {
    let line = "x".repeat(100);
    assert_eq!(wrap_lines(&line), vec!["x".repeat(95), "x".repeat(5)]);
}

#[test]
fn wrap_cuts_at_last_space() {
    let line = "aaaa ".repeat(20);
    let first = vec!["aaaa"; 19].join(" ");
    assert_eq!(first.len(), 94);
    assert_eq!(wrap_lines(&line), vec![first, "aaaa ".to_string()]);
}

#[test]
fn wrapped_lines_fit_the_limit() {
    let text = "lorem ipsum dolor sit amet ".repeat(30) + "\nshort\n" + &"z".repeat(300);
    for l in wrap_lines(&text) {
        assert!(l.chars().count() <= 95);
    }
}

#[test]
fn wrap_counts_columns_not_bytes() {
    let text = "é".repeat(60);
    assert_eq!(wrap_lines(&text), vec![text.clone()]);
    assert_eq!(wrap_lines(&"é".repeat(100)), vec!["é".repeat(95), "é".repeat(5)]);
    assert_eq!(try_wrap_lines(&text, 96), Some(vec![text.clone()]));
    assert_eq!(try_wrap_lines(&text, 0), None);
    assert_eq!(try_wrap_lines("\n", 0), Some(vec![String::new()]));
    assert_eq!(try_wrap_lines("", 0), Some(vec![]));
}

#[test]
fn pages_hold_fifty_two_lines() {
    let text = (0..53).map(|i| i.to_string()).collect::<Vec<_>>().join("\n");
    let pages = text_pages(&text);
    assert_eq!(pages.len(), 2);
    assert_eq!(pages[0].len(), 52);
    assert_eq!(pages[1], vec!["52".to_string()]);
    assert_eq!(text_pages(""), Vec::<Vec<String>>::new());
    assert_eq!(pdf_pages(&"é".repeat(60)), vec![vec!["é".repeat(60)]]);
}

#[test]
fn html_text_drops_tags_and_scripts() {
    let html = "<html><body><p>Hello   world</p><script>var x = 1;</script>\
                <div>Second line</div></body></html>";
    assert_eq!(text_from_html(html), "Hello world\nSecond line");
}

#[test]
fn html_text_breaks_on_br_and_li() {
    let html = "<ul><li>one</li><LI>two</li></ul>a<br/>b<span>c</span>";
    assert_eq!(text_from_html(html), "one\ntwoa\nbc");
    assert_eq!(text_from_html(""), "");
    assert_eq!(text_from_html("   \n  "), "");
}

#[test]
fn html_to_pdf_lays_out_the_visible_text() {
    let pages = html_to_pdf("<p>Hi</p><p>there</p>");
    assert_eq!(pages, vec![vec!["Hi".to_string(), "there".to_string()]]);
}

#[test]
fn markdown_events_to_text() {
    let events = vec![
        MdEvent::Other,
        MdEvent::Text("Title".to_string()),
        MdEvent::EndHeading,
        MdEvent::Text("a ".to_string()),
        MdEvent::Code("b".to_string()),
        MdEvent::SoftBreak,
        MdEvent::Text("c".to_string()),
        MdEvent::EndParagraph,
        MdEvent::Text("item".to_string()),
        MdEvent::EndItem,
        MdEvent::HardBreak,
        MdEvent::EndCodeBlock,
    ];
    assert_eq!(text_from_markdown_events(&events), "Title\n\na b\nc\n\nitem");
}

#[test]
fn markdown_document_to_text() {
    let md = "# Title\n\nSome *text* here.\n\n- a\n- b\n";
    assert_eq!(text_from_markdown(md), "Title\n\nSome text here.\n\na\nb");
}

#[test]
fn markdown_document_to_html_page() {
    let page = html_from_markdown("# Hi");
    assert_eq!(
        page,
        "<!DOCTYPE html>\n<html>\n<head><meta charset=\"UTF-8\"><style>body{font-family:sans-serif;\
         max-width:800px;margin:auto;padding:2rem}</style></head>\n<body>\n<h1>Hi</h1>\n\n</body>\n</html>"
    );
}

#[test]
fn markdown_to_pdf_pages() {
    let pages = md_to_pdf("# Title\n\nSome *text* here.\n\n- a\n- b\n");
    assert_eq!(pages, vec![strings(&["Title", "", "Some text here.", "", "a", "b"])]);
}

#[test]
fn html_text_never_holds_brackets() {
    let text = text_from_html("a > b <i>c</i> 1 < 2");
    assert_eq!(text, "a b c 1");
    for html in ["<<>>", "x<y", "<p>q</p>>", "<script>1<2</script>ok>"] {
        let t = text_from_html(html);
        assert!(!t.contains('<') && !t.contains('>'));
    }
}
