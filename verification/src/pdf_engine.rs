//! PDF text: decoding of PDF strings, assembly of page text from text
//! operators, the text of a document and its HTML form, the combined text of
//! merged documents, and page selection for splitting.

use vstd::prelude::*;
use vstd::utf8::{decode_utf8, valid_utf8};
use crate::chars::{
    chars_eq_str, chars_to_string, decimal, extend_chars, has_prefix, join, lines_of, push_decimal, push_seq,
    push_str, seqs_of, split_lines, str_chars, trim, trim_chars,
};
use crate::conversion_engine::{file_name_of, path_file_name};
use crate::office_engine::{escape_into, html_escape_spec};

verus! {

// ── Decoding PDF strings ─────────────────────────────────────────────────────

/// `char::from_u32`: the character with scalar value `v`, when `v` is one
/// (not a surrogate, at most 0x10FFFF).
#[verifier::external_body]
fn char_from_u32(v: u32) -> (r: Option<char>)
    ensures
        r is Some <==> (v < 0xD800 || (0xE000 <= v && v <= 0x10FFFF)),
        r matches Some(c) ==> c == v as char,
{
    char::from_u32(v)
}

/// `std::str::from_utf8`: the text of `bytes` when they are valid UTF-8.
#[verifier::external_body]
fn utf8_text(bytes: &[u8]) -> (r: Option<String>)
    ensures
        r is Some <==> valid_utf8(bytes@),
        r matches Some(s) ==> s@ == decode_utf8(bytes@),
{
    std::str::from_utf8(bytes).ok().map(|s| s.to_string())
}

/// The replacement character U+FFFD.
pub open spec fn replacement() -> char {
    0xFFFDu32 as char
}

/// UTF-16 decoding with replacement (what `String::from_utf16_lossy` does):
/// a high surrogate followed by a low one gives one character, any other
/// surrogate gives U+FFFD, any other unit its own character.
pub open spec fn utf16_lossy(units: Seq<u16>) -> Seq<char>
    decreases units.len(),
{
    if units.len() == 0 {
        seq![]
    } else {
        let u = units[0];
        if 0xD800 <= u <= 0xDBFF && units.len() >= 2 && 0xDC00 <= units[1] <= 0xDFFF {
            seq![(0x10000 + (u - 0xD800) * 1024 + (units[1] - 0xDC00)) as char] + utf16_lossy(
                units.skip(2),
            )
        } else if 0xD800 <= u <= 0xDFFF {
            seq![replacement()] + utf16_lossy(units.drop_first())
        } else {
            seq![u as char] + utf16_lossy(units.drop_first())
        }
    }
}

/// Big-endian 16-bit units of `b`, a trailing odd byte dropped.
pub open spec fn be_units(b: Seq<u8>) -> Seq<u16> {
    Seq::new(b.len() / 2, |i: int| (b[2 * i] * 256 + b[2 * i + 1]) as u16)
}

/// Each byte as the character of the same code (Latin-1).
pub open spec fn latin1(b: Seq<u8>) -> Seq<char> {
    b.map_values(|x: u8| x as char)
}

/// The text of a PDF string: UTF-16BE after a `FE FF` mark, else UTF-8 when
/// valid, else Latin-1.
pub open spec fn pdf_string_text(b: Seq<u8>) -> Seq<char> {
    if b.len() >= 2 && b[0] == 0xFE && b[1] == 0xFF {
        utf16_lossy(be_units(b.skip(2)))
    } else if valid_utf8(b) {
        decode_utf8(b)
    } else {
        latin1(b)
    }
}

fn decode_utf16(units: &Vec<u16>) -> (r: Vec<char>)
    ensures
        r@ == utf16_lossy(units@),
{
    let mut out: Vec<char> = Vec::new();
    let mut i: usize = 0;
    assert(units@.skip(0) =~= units@);
    assert(out@ + utf16_lossy(units@.skip(0)) =~= utf16_lossy(units@));
    while i < units.len()
        invariant
            i <= units.len(),
            out@ + utf16_lossy(units@.skip(i as int)) == utf16_lossy(units@),
        decreases units.len() - i,
    {
        let ghost rest = units@.skip(i as int);
        let u = units[i];
        let ghost o = out@;
        if 0xD800 <= u && u <= 0xDBFF && i + 1 < units.len() && 0xDC00 <= units[i + 1]
            && units[i + 1] <= 0xDFFF {
            let lo = units[i + 1];
            let v: u32 = 0x10000 + ((u - 0xD800) as u32) * 1024 + ((lo - 0xDC00) as u32);
            let c = char_from_u32(v);
            out.push(c.unwrap());
            assert(rest.skip(2) =~= units@.skip(i + 2));
            assert(out@ + utf16_lossy(units@.skip(i + 2)) =~= o + (seq![out@.last()]
                + utf16_lossy(rest.skip(2))));
            i = i + 2;
        } else if 0xD800 <= u && u <= 0xDFFF {
            out.push(char_from_u32(0xFFFD).unwrap());
            assert(rest.drop_first() =~= units@.skip(i + 1));
            assert(out@ + utf16_lossy(units@.skip(i + 1)) =~= o + (seq![out@.last()]
                + utf16_lossy(rest.drop_first())));
            i = i + 1;
        } else {
            out.push(char_from_u32(u as u32).unwrap());
            assert(rest.drop_first() =~= units@.skip(i + 1));
            assert(out@ + utf16_lossy(units@.skip(i + 1)) =~= o + (seq![out@.last()]
                + utf16_lossy(rest.drop_first())));
            i = i + 1;
        }
    }
    assert(units@.skip(i as int) =~= Seq::<u16>::empty());
    assert(out@ + Seq::<char>::empty() =~= out@);
    out
}

/// The text of a PDF string (see `pdf_string_text`).
pub fn pdf_bytes_to_string(bytes: &[u8]) -> (r: String)
    ensures
        r@ == pdf_string_text(bytes@),
{
    if bytes.len() >= 2 && bytes[0] == 0xFE && bytes[1] == 0xFF {
        let ghost rest = bytes@.skip(2);
        let mut units: Vec<u16> = Vec::new();
        let mut i: usize = 2;
        while i + 1 < bytes.len()
            invariant
                2 <= i <= bytes.len(),
                (i - 2) % 2 == 0,
                rest == bytes@.skip(2),
                units@ == be_units(rest).take((i - 2) / 2),
            decreases bytes.len() - i,
        {
            let hi = bytes[i];
            let lo = bytes[i + 1];
            let w: u16 = (hi as u16) * 256 + (lo as u16);
            units.push(w);
            assert(be_units(rest)[(i - 2) / 2] == w);
            assert(units@ =~= be_units(rest).take((i - 2) / 2 + 1));
            i = i + 2;
        }
        assert(be_units(rest).take((i - 2) / 2) =~= be_units(rest));
        let cs = decode_utf16(&units);
        return chars_to_string(&cs);
    }
    match utf8_text(bytes) {
        Some(s) => s,
        None => {
            let mut out: Vec<char> = Vec::new();
            let mut i: usize = 0;
            while i < bytes.len()
                invariant
                    i <= bytes.len(),
                    out@ == latin1(bytes@.take(i as int)),
                decreases bytes.len() - i,
            {
                out.push(bytes[i] as char);
                i = i + 1;
                assert(out@ =~= latin1(bytes@.take(i as int)));
            }
            assert(bytes@.take(bytes.len() as int) =~= bytes@);
            chars_to_string(&out)
        },
    }
}

// ── Page text from text operators ────────────────────────────────────────────

/// An element of a `TJ` array.
pub enum TjItem {
    /// A string to show.
    Str(Vec<u8>),
    /// A large negative adjustment (below -100), shown as a space.
    Space,
    /// Any other element.
    Other,
}

pub enum TjItemView {
    Str(Seq<u8>),
    Space,
    Other,
}

impl View for TjItem {
    type V = TjItemView;

    open spec fn view(&self) -> TjItemView {
        match self {
            TjItem::Str(b) => TjItemView::Str(b@),
            TjItem::Space => TjItemView::Space,
            TjItem::Other => TjItemView::Other,
        }
    }
}

/// The text operators of a page content stream, as text assembly reads
/// them.
pub enum TextOp {
    /// A move to a new line (`Td`, `TD`, `T*`, the first half of `'` and
    /// `"`, and a `Tm` that changes the vertical position by more than one
    /// unit).
    LineBreak,
    /// A string shown (`Tj`, and the string of `'` and `"`).
    Show(Vec<u8>),
    /// A kerned array shown (`TJ`).
    ShowArray(Vec<TjItem>),
}

pub enum TextOpView {
    LineBreak,
    Show(Seq<u8>),
    ShowArray(Seq<TjItemView>),
}

impl View for TextOp {
    type V = TextOpView;

    open spec fn view(&self) -> TextOpView {
        match self {
            TextOp::LineBreak => TextOpView::LineBreak,
            TextOp::Show(b) => TextOpView::Show(b@),
            TextOp::ShowArray(items) => TextOpView::ShowArray(
                items@.map_values(|t: TjItem| t@),
            ),
        }
    }
}

/// The text of a `TJ` array: its strings, and a space for each large gap.
pub open spec fn tj_text(items: Seq<TjItemView>) -> Seq<char>
    decreases items.len(),
{
    if items.len() == 0 {
        seq![]
    } else {
        tj_text(items.drop_last()) + match items.last() {
            TjItemView::Str(b) => pdf_string_text(b),
            TjItemView::Space => seq![' '],
            TjItemView::Other => seq![],
        }
    }
}

/// The page text after the current line is flushed: the line, trimmed, and
/// a newline are added unless it is blank.
pub open spec fn flushed(result: Seq<char>, line: Seq<char>) -> Seq<char> {
    let t = trim(line);
    if t.len() > 0 {
        result + t + seq!['\n']
    } else {
        result
    }
}

/// One operator's effect on (page text, current line).
pub open spec fn op_step(st: (Seq<char>, Seq<char>), op: TextOpView) -> (Seq<char>, Seq<char>) {
    match op {
        TextOpView::LineBreak => (flushed(st.0, st.1), seq![]),
        TextOpView::Show(b) => (st.0, st.1 + pdf_string_text(b)),
        TextOpView::ShowArray(items) => (st.0, st.1 + tj_text(items)),
    }
}

pub open spec fn ops_scan(ops: Seq<TextOpView>) -> (Seq<char>, Seq<char>)
    decreases ops.len(),
{
    if ops.len() == 0 {
        (seq![], seq![])
    } else {
        op_step(ops_scan(ops.drop_last()), ops.last())
    }
}

/// The text of a page: its lines, each trimmed, blank ones left out, each
/// ended by a newline.
pub open spec fn page_text(ops: Seq<TextOpView>) -> Seq<char> {
    let st = ops_scan(ops);
    flushed(st.0, st.1)
}

/// The views of a sequence of text operators.
pub open spec fn op_views(v: Seq<TextOp>) -> Seq<TextOpView> {
    v.map_values(|o: TextOp| o@)
}

/// `String::push_str`.
#[verifier::external_body]
fn string_push_str(s: &mut String, t: &str)
    ensures
        final(s)@ == old(s)@ + t@,
{
    s.push_str(t);
}

/// `String::clear`.
#[verifier::external_body]
fn string_clear(s: &mut String)
    ensures
        final(s)@ == Seq::<char>::empty(),
{
    s.clear();
}

/// Ends the current line: adds it, trimmed, and a newline to `result`
/// unless it is blank; empties `line`.
pub fn flush_line(result: &mut String, line: &mut String)
    ensures
        final(result)@ == flushed(old(result)@, old(line)@),
        final(line)@ == Seq::<char>::empty(),
{
    let cs = str_chars(line.as_str());
    let t = trim_chars(&cs);
    if t.len() > 0 {
        let ts = chars_to_string(&t);
        string_push_str(result, ts.as_str());
        string_push_str(result, "\n");
        proof {
            reveal_strlit("\n");
        }
        assert(result@ =~= flushed(old(result)@, old(line)@));
    }
    string_clear(line);
}

fn tj_chars(items: &Vec<TjItem>) -> (r: String)
    ensures
        r@ == tj_text(items@.map_values(|t: TjItem| t@)),
{
    let ghost iv = items@.map_values(|t: TjItem| t@);
    let mut out = String::new();
    let mut i: usize = 0;
    while i < items.len()
        invariant
            i <= items.len(),
            iv == items@.map_values(|t: TjItem| t@),
            out@ == tj_text(iv.take(i as int)),
        decreases items.len() - i,
    {
        assert(iv.take(i + 1).drop_last() =~= iv.take(i as int));
        assert(iv.take(i + 1).last() == items@[i as int]@);
        match &items[i] {
            TjItem::Str(b) => {
                let t = pdf_bytes_to_string(b.as_slice());
                string_push_str(&mut out, t.as_str());
            },
            TjItem::Space => {
                string_push_str(&mut out, " ");
                proof {
                    reveal_strlit(" ");
                }
            },
            TjItem::Other => {
                assert(out@ =~= out@ + Seq::<char>::empty());
            },
        }
        i = i + 1;
    }
    assert(iv.take(items.len() as int) =~= iv);
    out
}

/// The text of one page, from its text operators (see `page_text`).
pub fn extract_page_text(operations: &Vec<TextOp>) -> (r: String)
    ensures
        r@ == page_text(op_views(operations@)),
{
    let ghost ov = op_views(operations@);
    let mut result = String::new();
    let mut line = String::new();
    let mut i: usize = 0;
    while i < operations.len()
        invariant
            i <= operations.len(),
            ov == op_views(operations@),
            (result@, line@) == ops_scan(ov.take(i as int)),
        decreases operations.len() - i,
    {
        assert(ov.take(i + 1).drop_last() =~= ov.take(i as int));
        assert(ov.take(i + 1).last() == operations@[i as int]@);
        match &operations[i] {
            TextOp::LineBreak => {
                flush_line(&mut result, &mut line);
            },
            TextOp::Show(b) => {
                let t = pdf_bytes_to_string(b.as_slice());
                string_push_str(&mut line, t.as_str());
            },
            TextOp::ShowArray(items) => {
                let t = tj_chars(items);
                string_push_str(&mut line, t.as_str());
            },
        }
        i = i + 1;
    }
    assert(ov.take(operations.len() as int) =~= ov);
    flush_line(&mut result, &mut line);
    result
}

// ── Text operators from the content stream ──────────────────────────────────

/// An element of a `TJ` array as the content stream holds it.
pub enum ArrayItem {
    Str(Vec<u8>),
    Integer(i64),
    /// A real number, by whether it is below -100.
    Real(bool),
    Other,
}

/// An operand of a content-stream operator, as text assembly reads it.
pub enum Operand {
    Str(Vec<u8>),
    Array(Vec<ArrayItem>),
    Other,
}

/// What a `TJ` element shows: a string, or a space for an adjustment below
/// -100.
pub open spec fn tj_item(a: ArrayItem) -> TjItemView {
    match a {
        ArrayItem::Str(b) => TjItemView::Str(b@),
        ArrayItem::Integer(n) => if n < -100 {
            TjItemView::Space
        } else {
            TjItemView::Other
        },
        ArrayItem::Real(below) => if below {
            TjItemView::Space
        } else {
            TjItemView::Other
        },
        ArrayItem::Other => TjItemView::Other,
    }
}

/// Showing an operand: a string operand is shown, anything else nothing.
pub open spec fn shown(o: Option<Operand>) -> Seq<TextOpView> {
    match o {
        Some(Operand::Str(b)) => seq![TextOpView::Show(b@)],
        _ => seq![],
    }
}

/// The text operators of one content-stream operator other than `Tm`: `Td`,
/// `TD` and `T*` move to a new line; `Tj` shows its first operand and `TJ`
/// its first operand's array; `'` moves to a new line and shows its first
/// operand, `"` its last; other operators do nothing for text.
pub open spec fn ops_of(operator: Seq<char>, operands: Seq<Operand>) -> Seq<TextOpView> {
    let first = if operands.len() > 0 {
        Some(operands[0])
    } else {
        None
    };
    let last = if operands.len() > 0 {
        Some(operands.last())
    } else {
        None
    };
    if operator == "Td"@ || operator == "TD"@ || operator == "T*"@ {
        seq![TextOpView::LineBreak]
    } else if operator == "Tj"@ {
        shown(first)
    } else if operator == "TJ"@ {
        match first {
            Some(Operand::Array(items)) => seq![
                TextOpView::ShowArray(items@.map_values(|a: ArrayItem| tj_item(a))),
            ],
            _ => seq![],
        }
    } else if operator == "'"@ {
        seq![TextOpView::LineBreak] + shown(first)
    } else if operator == "\""@ {
        seq![TextOpView::LineBreak] + shown(last)
    } else {
        seq![]
    }
}

fn tj_items(items: Vec<ArrayItem>) -> (r: Vec<TjItem>)
    ensures
        r@.map_values(|t: TjItem| t@) == items@.map_values(|a: ArrayItem| tj_item(a)),
{
    let ghost orig = items@;
    assert(orig.len() == items.len());
    let mut rest = items;
    let mut out: Vec<TjItem> = Vec::new();
    let mut k: usize = 0;
    while rest.len() > 0
        invariant
            orig.len() <= usize::MAX,
            k <= orig.len(),
            rest@ == orig.skip(k as int),
            out@.map_values(|t: TjItem| t@) == orig.take(k as int).map_values(
                |a: ArrayItem| tj_item(a),
            ),
        decreases rest.len(),
    {
        assert(k < orig.len());
        let a = rest.remove(0);
        assert(a == orig[k as int]);
        let t = match a {
            ArrayItem::Str(b) => TjItem::Str(b),
            ArrayItem::Integer(n) => if n < -100 {
                TjItem::Space
            } else {
                TjItem::Other
            },
            ArrayItem::Real(below) => if below {
                TjItem::Space
            } else {
                TjItem::Other
            },
            ArrayItem::Other => TjItem::Other,
        };
        let ghost o0 = out@;
        out.push(t);
        assert(out@.map_values(|t: TjItem| t@) =~= o0.map_values(|t: TjItem| t@).push(
            tj_item(orig[k as int]),
        ));
        assert(orig.take(k + 1).map_values(|a: ArrayItem| tj_item(a)) =~= orig.take(
            k as int,
        ).map_values(|a: ArrayItem| tj_item(a)).push(tj_item(orig[k as int])));
        assert(rest@ =~= orig.skip(k + 1));
        k = k + 1;
    }
    assert(orig.take(k as int) =~= orig);
    out
}

fn show_of(o: Option<Operand>) -> (r: Vec<TextOp>)
    ensures
        op_views(r@) == shown(o),
{
    let mut r: Vec<TextOp> = Vec::new();
    match o {
        Some(Operand::Str(b)) => {
            r.push(TextOp::Show(b));
            assert(op_views(r@) =~= shown(o));
        },
        _ => {
            assert(op_views(r@) =~= shown(o));
        },
    }
    r
}

/// The text operators of one content-stream operator (see `ops_of`).
pub fn text_ops_of(operator: &str, operands: Vec<Operand>) -> (r: Vec<TextOp>)
    ensures
        op_views(r@) == ops_of(operator@, operands@),
{
    let name = str_chars(operator);
    let ghost ov = operands@;
    let mut operands = operands;
    let n = operands.len();
    if chars_eq_str(&name, "Td") || chars_eq_str(&name, "TD") || chars_eq_str(&name, "T*") {
        let r: Vec<TextOp> = vec![TextOp::LineBreak];
        assert(op_views(r@) =~= seq![TextOpView::LineBreak]);
        r
    } else if chars_eq_str(&name, "Tj") {
        let first = if n > 0 {
            Some(operands.remove(0))
        } else {
            None
        };
        show_of(first)
    } else if chars_eq_str(&name, "TJ") {
        let first = if n > 0 {
            Some(operands.remove(0))
        } else {
            None
        };
        let mut r: Vec<TextOp> = Vec::new();
        match first {
            Some(Operand::Array(items)) => {
                let ghost iv = items@;
                let t = tj_items(items);
                r.push(TextOp::ShowArray(t));
                assert(op_views(r@) =~= seq![
                    TextOpView::ShowArray(iv.map_values(|a: ArrayItem| tj_item(a))),
                ]);
            },
            _ => {
                assert(op_views(r@) =~= Seq::<TextOpView>::empty());
            },
        }
        r
    } else if chars_eq_str(&name, "'") || chars_eq_str(&name, "\"") {
        let pick = if n == 0 {
            None
        } else if chars_eq_str(&name, "'") {
            Some(operands.remove(0))
        } else {
            operands.pop()
        };
        let mut r: Vec<TextOp> = vec![TextOp::LineBreak];
        let s = show_of(pick);
        let ghost r0 = r@;
        let ghost s0 = s@;
        let mut s = s;
        r.append(&mut s);
        assert(op_views(r@) =~= op_views(r0) + op_views(s0));
        assert(op_views(r0) =~= seq![TextOpView::LineBreak]);
        r
    } else {
        let r: Vec<TextOp> = Vec::new();
        assert(op_views(r@) =~= Seq::<TextOpView>::empty());
        r
    }
}

// ── Document text ────────────────────────────────────────────────────────────

/// What could be read of one page.
pub enum PageContent {
    /// The content stream could not be read.
    Unreadable,
    /// The content stream could not be decoded into operators.
    Undecodable,
    /// The text operators of the page, in order.
    Ops(Vec<TextOp>),
}

/// A page and its number.
pub struct PdfPage {
    pub number: u32,
    pub content: PageContent,
}

pub enum PageContentView {
    Unreadable,
    Undecodable,
    Ops(Seq<TextOpView>),
}

pub open spec fn page_view(p: PdfPage) -> (u32, PageContentView) {
    (
        p.number,
        match p.content {
            PageContent::Unreadable => PageContentView::Unreadable,
            PageContent::Undecodable => PageContentView::Undecodable,
            PageContent::Ops(o) => PageContentView::Ops(op_views(o@)),
        },
    )
}

/// The block a page contributes to the document text.
pub open spec fn page_block(n: u32, c: PageContentView) -> Seq<char> {
    let head = "--- Page "@ + decimal(n as nat);
    match c {
        PageContentView::Unreadable => head + " [contenu inaccessible] ---\n\n"@,
        PageContentView::Undecodable => head + " [décodage impossible] ---\n\n"@,
        PageContentView::Ops(ops) => {
            let t = trim(page_text(ops));
            if t.len() == 0 {
                head + " [aucun texte] ---\n\n"@
            } else {
                head + " ---\n"@ + t + "\n\n"@
            }
        },
    }
}

/// Whether a page has text.
pub open spec fn page_has_text(c: PageContentView) -> bool {
    match c {
        PageContentView::Ops(ops) => trim(page_text(ops)).len() > 0,
        _ => false,
    }
}

/// The blocks of all pages, in order.
pub open spec fn pages_text(pages: Seq<(u32, PageContentView)>) -> Seq<char>
    decreases pages.len(),
{
    if pages.len() == 0 {
        seq![]
    } else {
        pages_text(pages.drop_last()) + page_block(pages.last().0, pages.last().1)
    }
}

/// Whether some page has text.
pub open spec fn any_text(pages: Seq<(u32, PageContentView)>) -> bool {
    exists|i: int| 0 <= i < pages.len() && page_has_text(#[trigger] pages[i].1)
}

/// The message when no page of a PDF has text.
pub open spec fn no_text_message() -> Seq<char> {
    "Aucun texte extractible. Le PDF est peut-être scanné (images uniquement, OCR requis) ou vide."@
}

/// The text of a PDF document from its pages: a block per page (see
/// `page_block`); `None` when no page has text.
pub open spec fn pdf_text(pages: Seq<(u32, PageContentView)>) -> Option<Seq<char>> {
    if any_text(pages) {
        Some(pages_text(pages))
    } else {
        None
    }
}

/// The text of a PDF document from its pages; an error message (see
/// `no_text_message`) when no page has text.
pub fn extract_text_from_pdf(pages: &Vec<PdfPage>) -> (r: Result<String, String>)
    ensures
        match r {
            Ok(s) => pdf_text(pages@.map_values(|p: PdfPage| page_view(p))) == Some(s@),
            Err(m) => pdf_text(pages@.map_values(|p: PdfPage| page_view(p))) is None && m@
                == no_text_message(),
        },
{
    let ghost pv = pages@.map_values(|p: PdfPage| page_view(p));
    let mut full: Vec<char> = Vec::new();
    let mut has_text = false;
    let mut i: usize = 0;
    while i < pages.len()
        invariant
            i <= pages.len(),
            pv == pages@.map_values(|p: PdfPage| page_view(p)),
            full@ == pages_text(pv.take(i as int)),
            has_text == any_text(pv.take(i as int)),
        decreases pages.len() - i,
    {
        let ghost prev = pv.take(i as int);
        assert(pv.take(i + 1).drop_last() =~= prev);
        assert(pv.take(i + 1).last() == page_view(pages@[i as int]));
        let page = &pages[i];
        let ghost o = full@;
        push_str(&mut full, "--- Page ");
        push_decimal(&mut full, page.number as u128);
        let mut got = false;
        match &page.content {
            PageContent::Unreadable => {
                push_str(&mut full, " [contenu inaccessible] ---\n\n");
            },
            PageContent::Undecodable => {
                push_str(&mut full, " [décodage impossible] ---\n\n");
            },
            PageContent::Ops(ops) => {
                let t = extract_page_text(ops);
                let cs = str_chars(t.as_str());
                let tt = trim_chars(&cs);
                if tt.len() == 0 {
                    push_str(&mut full, " [aucun texte] ---\n\n");
                } else {
                    got = true;
                    push_str(&mut full, " ---\n");
                    extend_chars(&mut full, &tt);
                    push_str(&mut full, "\n\n");
                }
            },
        }
        assert(full@ =~= o + page_block(pv[i as int].0, pv[i as int].1));
        assert(got == page_has_text(pv[i as int].1));
        proof {
            let next = pv.take(i + 1);
            if got {
                assert(page_has_text(next[i as int].1));
            }
            if has_text {
                let k = choose|k: int| 0 <= k < prev.len() && page_has_text(#[trigger] prev[k].1);
                assert(next[k] == prev[k]);
            }
            if any_text(next) {
                let k = choose|k: int| 0 <= k < next.len() && page_has_text(#[trigger] next[k].1);
                if k < i {
                    assert(prev[k] == next[k]);
                }
            }
        }
        has_text = has_text || got;
        i = i + 1;
    }
    assert(pv.take(pages.len() as int) =~= pv);
    if !has_text {
        let mut m: Vec<char> = Vec::new();
        push_str(
            &mut m,
            "Aucun texte extractible. Le PDF est peut-être scanné (images uniquement, OCR requis) ou vide.",
        );
        return Err(chars_to_string(&m));
    }
    Ok(chars_to_string(&full))
}

// ── HTML form of a PDF's text ───────────────────────────────────────────────

/// The HTML of one line of extracted PDF text: page headers become `h2`,
/// blank lines nothing, other lines paragraphs.
pub open spec fn pdf_html_line(l: Seq<char>) -> Seq<char> {
    if has_prefix(l, "--- Page"@) {
        "<h2>"@ + html_escape_spec(l) + "</h2>"@
    } else if trim(l).len() == 0 {
        seq![]
    } else {
        "<p>"@ + html_escape_spec(l) + "</p>"@
    }
}

/// The HTML page for extracted PDF text.
pub open spec fn pdf_html(text: Seq<char>) -> Seq<char> {
    "<!DOCTYPE html>\n<html>\n<head><meta charset=\"UTF-8\"><style>body{font-family:sans-serif;max-width:800px;margin:auto;padding:2rem;line-height:1.6}h2{color:#555;border-top:1px solid #ccc;padding-top:1em;margin-top:1.5em}</style></head>\n<body>\n"@
        + join(lines_of(text).map_values(|l: Seq<char>| pdf_html_line(l)), seq!['\n'])
        + "\n</body>\n</html>"@
}

/// The HTML page for the text extracted from a PDF (see `pdf_html`).
pub fn pdf_to_html(text: &str) -> (r: String)
    ensures
        r@ == pdf_html(text@),
{
    let cs = str_chars(text);
    let lines = split_lines(&cs);
    let ghost lv = seqs_of(lines@);
    let mut parts: Vec<Vec<char>> = Vec::new();
    let mut i: usize = 0;
    let prefix = str_chars("--- Page");
    while i < lines.len()
        invariant
            i <= lines.len(),
            lv == seqs_of(lines@),
            prefix@ == "--- Page"@,
            seqs_of(parts@) == lv.map_values(|l: Seq<char>| pdf_html_line(l)).take(i as int),
        decreases lines.len() - i,
    {
        let l = &lines[i];
        let mut piece: Vec<char> = Vec::new();
        if crate::chars::starts_with_chars(l, prefix.as_slice()) {
            push_str(&mut piece, "<h2>");
            escape_into(&mut piece, l);
            push_str(&mut piece, "</h2>");
        } else if trim_chars(l).len() > 0 {
            push_str(&mut piece, "<p>");
            escape_into(&mut piece, l);
            push_str(&mut piece, "</p>");
        }
        assert(piece@ =~= pdf_html_line(lv[i as int]));
        let ghost p0 = seqs_of(parts@);
        push_seq(&mut parts, piece);
        assert(lv.map_values(|l: Seq<char>| pdf_html_line(l)).take(i + 1) =~= p0.push(
            pdf_html_line(lv[i as int]),
        ));
        i = i + 1;
    }
    assert(lv.map_values(|l: Seq<char>| pdf_html_line(l)).take(lines.len() as int) =~= lv.map_values(
        |l: Seq<char>| pdf_html_line(l),
    ));
    let nl: Vec<char> = vec!['\n'];
    assert(nl@ =~= seq!['\n']);
    let body = crate::chars::join_chars(&parts, &nl);
    let mut out: Vec<char> = Vec::new();
    push_str(
        &mut out,
        "<!DOCTYPE html>\n<html>\n<head><meta charset=\"UTF-8\"><style>body{font-family:sans-serif;max-width:800px;margin:auto;padding:2rem;line-height:1.6}h2{color:#555;border-top:1px solid #ccc;padding-top:1em;margin-top:1.5em}</style></head>\n<body>\n",
    );
    extend_chars(&mut out, &body);
    push_str(&mut out, "\n</body>\n</html>");
    chars_to_string(&out)
}

// ── Merging by text ──────────────────────────────────────────────────────────

/// The name shown for a merged file: its file name, else the path itself.
pub open spec fn shown_name(path: Seq<char>) -> Seq<char> {
    match file_name_of(path) {
        Some(n) => n,
        None => path,
    }
}

/// The view of one merge input: a path and the text extracted from it, or
/// the message extraction failed with.
pub open spec fn input_view(x: (String, Result<String, String>)) -> (Seq<char>, Result<
    Seq<char>,
    Seq<char>,
>) {
    (
        x.0@,
        match x.1 {
            Ok(t) => Ok(t@),
            Err(e) => Err(e@),
        },
    )
}

/// The section of one file in a text merge.
pub open spec fn merge_section(path: Seq<char>, text: Result<Seq<char>, Seq<char>>) -> Seq<char> {
    "═══ "@ + shown_name(path) + " ═══\n\n"@ + match text {
        Ok(t) => t,
        Err(e) => "[Extraction impossible: "@ + e + "]\n"@,
    } + "\n\n"@
}

/// The sections of all inputs, in order.
pub open spec fn merge_text(inputs: Seq<(Seq<char>, Result<Seq<char>, Seq<char>>)>) -> Seq<char>
    decreases inputs.len(),
{
    if inputs.len() == 0 {
        seq![]
    } else {
        merge_text(inputs.drop_last()) + merge_section(inputs.last().0, inputs.last().1)
    }
}

/// The message when there is nothing to merge.
pub open spec fn nothing_to_merge() -> Seq<char> {
    "Aucun PDF fourni"@
}

fn push_shown_name(out: &mut Vec<char>, path: &String)
    ensures
        final(out)@ == old(out)@ + shown_name(path@),
{
    match path_file_name(path.as_str()) {
        Some(n) => push_str(out, n.as_str()),
        None => push_str(out, path.as_str()),
    }
}

/// The combined text of several PDFs, each under a header with its file
/// name (see `merge_text`); an error when there is none.
pub fn merge_pdfs(inputs: &Vec<(String, Result<String, String>)>) -> (r: Result<String, String>)
    ensures
        inputs.len() == 0 ==> r is Err && r->Err_0@ == nothing_to_merge(),
        inputs.len() > 0 ==> r is Ok && r->Ok_0@ == merge_text(
            inputs@.map_values(|x: (String, Result<String, String>)| input_view(x)),
        ),
{
    if inputs.len() == 0 {
        let mut m: Vec<char> = Vec::new();
        push_str(&mut m, "Aucun PDF fourni");
        return Err(chars_to_string(&m));
    }
    let ghost iv = inputs@.map_values(|x: (String, Result<String, String>)| input_view(x));
    let mut out: Vec<char> = Vec::new();
    let mut i: usize = 0;
    while i < inputs.len()
        invariant
            i <= inputs.len(),
            iv == inputs@.map_values(|x: (String, Result<String, String>)| input_view(x)),
            out@ == merge_text(iv.take(i as int)),
        decreases inputs.len() - i,
    {
        assert(iv.take(i + 1).drop_last() =~= iv.take(i as int));
        assert(iv.take(i + 1).last() == input_view(inputs@[i as int]));
        let ghost o = out@;
        push_str(&mut out, "═══ ");
        push_shown_name(&mut out, &inputs[i].0);
        push_str(&mut out, " ═══\n\n");
        match &inputs[i].1 {
            Ok(t) => push_str(&mut out, t.as_str()),
            Err(e) => {
                push_str(&mut out, "[Extraction impossible: ");
                push_str(&mut out, e.as_str());
                push_str(&mut out, "]\n");
            },
        }
        push_str(&mut out, "\n\n");
        assert(out@ =~= o + merge_section(iv[i as int].0, iv[i as int].1));
        i = i + 1;
    }
    assert(iv.take(inputs.len() as int) =~= iv);
    Ok(chars_to_string(&out))
}

/// The section of one file on a merged single page.
pub open spec fn single_section(path: Seq<char>, text: Option<Seq<char>>) -> Seq<char> {
    "══════ "@ + shown_name(path) + " ══════\n\n"@ + match text {
        Some(t) => t.push('\n'),
        None => "[aucun texte extractible]\n\n"@,
    }
}

/// The sections of all inputs, in order.
pub open spec fn single_text(inputs: Seq<(Seq<char>, Option<Seq<char>>)>) -> Seq<char>
    decreases inputs.len(),
{
    if inputs.len() == 0 {
        seq![]
    } else {
        single_text(inputs.drop_last()) + single_section(inputs.last().0, inputs.last().1)
    }
}

pub open spec fn single_view(x: (String, Option<String>)) -> (Seq<char>, Option<Seq<char>>) {
    (
        x.0@,
        match x.1 {
            Some(t) => Some(t@),
            None => None,
        },
    )
}

/// The combined text for a single-page merge: each file under a header,
/// its text (when it has any) or a placeholder (see `single_text`).
pub fn single_page_text(inputs: &Vec<(String, Option<String>)>) -> (r: String)
    ensures
        r@ == single_text(inputs@.map_values(|x: (String, Option<String>)| single_view(x))),
{
    let ghost iv = inputs@.map_values(|x: (String, Option<String>)| single_view(x));
    let mut out: Vec<char> = Vec::new();
    let mut i: usize = 0;
    while i < inputs.len()
        invariant
            i <= inputs.len(),
            iv == inputs@.map_values(|x: (String, Option<String>)| single_view(x)),
            out@ == single_text(iv.take(i as int)),
        decreases inputs.len() - i,
    {
        assert(iv.take(i + 1).drop_last() =~= iv.take(i as int));
        assert(iv.take(i + 1).last() == single_view(inputs@[i as int]));
        let ghost o = out@;
        push_str(&mut out, "══════ ");
        push_shown_name(&mut out, &inputs[i].0);
        push_str(&mut out, " ══════\n\n");
        match &inputs[i].1 {
            Some(t) => {
                push_str(&mut out, t.as_str());
                out.push('\n');
            },
            None => {
                push_str(&mut out, "[aucun texte extractible]\n\n");
            },
        }
        assert(out@ =~= o + single_section(iv[i as int].0, iv[i as int].1));
        i = i + 1;
    }
    assert(iv.take(inputs.len() as int) =~= iv);
    chars_to_string(&out)
}

/// Column limit of the single-page merge layout, in characters.
pub const SINGLE_PAGE_COLS: usize = 120;

/// Wraps `text` at `max_cols` columns (see `wrap::wrap_text`); a width of 0
/// never ends wrapping a line that is not empty, so it is left out.
pub fn wrap_compact(text: &str, max_cols: usize) -> (r: Vec<String>)
    requires
        max_cols > 0,
    ensures
        crate::wrap::strings_of(r@) == crate::wrap::wrap_text(text@, max_cols as nat)->0,
{
    proof {
        crate::wrap::law_wrapping_completes(text@, max_cols as nat);
    }
    crate::text_engine::try_wrap_lines(text, max_cols).unwrap()
}

// ── Splitting ────────────────────────────────────────────────────────────────

/// The pages among `1..=total` that are not kept, in increasing order.
pub open spec fn deleted_pages(total: nat, keep: Seq<u32>) -> Seq<u32>
    decreases total,
{
    if total == 0 {
        seq![]
    } else if keep.contains(total as u32) {
        deleted_pages((total - 1) as nat, keep)
    } else {
        deleted_pages((total - 1) as nat, keep).push(total as u32)
    }
}

/// The pages to delete so that only the pages in `keep` remain of a
/// document of `total` pages.
pub fn pages_to_delete(total: u32, keep: &Vec<u32>) -> (r: Vec<u32>)
    ensures
        r@ == deleted_pages(total as nat, keep@),
{
    let mut out: Vec<u32> = Vec::new();
    let mut p: u32 = 0;
    while p < total
        invariant
            p <= total,
            out@ == deleted_pages(p as nat, keep@),
        decreases total - p,
    {
        p = p + 1;
        let mut found = false;
        let mut k: usize = 0;
        while k < keep.len()
            invariant
                k <= keep.len(),
                found == exists|j: int| 0 <= j < k && keep@[j] == p,
            decreases keep.len() - k,
        {
            if keep[k] == p {
                found = true;
            }
            k = k + 1;
        }
        if !found {
            out.push(p);
        }
    }
    out
}

/// Splitting deletes exactly the pages not asked for: a page of the
/// document is deleted if and only if it is not in `keep`, and no other
/// number is deleted.
pub proof fn law_split_deletes_unkept(total: nat, keep: Seq<u32>, p: u32)
    requires
        total <= u32::MAX,
    ensures
        1 <= p <= total ==> (deleted_pages(total, keep).contains(p) <==> !keep.contains(p)),
        !(1 <= p <= total) ==> !deleted_pages(total, keep).contains(p),
    decreases total,
{
    if total > 0 {
        law_split_deletes_unkept((total - 1) as nat, keep, p);
        let d = deleted_pages((total - 1) as nat, keep);
        if !keep.contains(total as u32) {
            let e = d.push(total as u32);
            assert(e.contains(p) <==> d.contains(p) || p == total) by {
                if e.contains(p) {
                    let j = choose|j: int| 0 <= j < e.len() && e[j] == p;
                    if j < d.len() {
                        assert(d[j] == p);
                    }
                }
                if d.contains(p) {
                    let j = choose|j: int| 0 <= j < d.len() && d[j] == p;
                    assert(e[j] == p);
                }
                if p == total {
                    assert(e[d.len() as int] == p);
                }
            }
        }
    }
}

} // verus!
