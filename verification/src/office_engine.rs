//! Office documents: CSV cell protection, HTML escaping, text extraction
//! from the XML parts of DOCX/PPTX archives, and the text forms of sheets.

use vstd::prelude::*;
use quick_xml::events::Event as XmlRaw;
use crate::chars::{
    chars_to_string, contains_char, decimal, extend_chars, has_char, join, join_chars,
    lines_of, push_decimal, push_seq, push_str, seqs_of, split_lines, str_chars, trim,
    trim_chars,
};

verus! {

// ── CSV cells ────────────────────────────────────────────────────────────────

/// Characters that can start a formula injection in a spreadsheet cell:
/// `=`, `+`, `-`, `@`, tab and carriage return.
pub open spec fn is_injection_start(c: char) -> bool {
    c == '=' || c == '+' || c == '-' || c == '@' || c == '\t' || c == '\r'
}

/// A cell value made safe against formula injection: prefixed with `'`
/// when it starts with `=`, `+`, `-`, `@`, a tab or a carriage return.
pub open spec fn csv_safe_spec(v: Seq<char>) -> Seq<char> {
    if v.len() > 0 && is_injection_start(v[0]) {
        seq!['\''] + v
    } else {
        v
    }
}

/// What one character becomes inside a quoted CSV field.
pub open spec fn quote_piece(c: char) -> Seq<char> {
    if c == '"' {
        seq!['"', '"']
    } else {
        seq![c]
    }
}

/// `s` with every `"` doubled.
pub open spec fn double_quotes(s: Seq<char>) -> Seq<char>
    decreases s.len(),
{
    if s.len() == 0 {
        seq![]
    } else {
        double_quotes(s.drop_last()) + quote_piece(s.last())
    }
}

/// Whether a CSV field must be quoted: it holds `,`, `"` or a newline.
pub open spec fn needs_quoting(s: Seq<char>) -> bool {
    contains_char(s, ',') || contains_char(s, '"') || contains_char(s, '\n')
}

/// A safe value written as a CSV field: quoted, with `"` doubled, when it
/// holds `,`, `"` or a newline.
pub open spec fn csv_field(v: Seq<char>) -> Seq<char> {
    let s = csv_safe_spec(v);
    if needs_quoting(s) {
        seq!['"'] + double_quotes(s) + seq!['"']
    } else {
        s
    }
}

fn safe_chars(v: &Vec<char>) -> (r: Vec<char>)
    ensures
        r@ == csv_safe_spec(v@),
{
    if v.len() > 0 && (v[0] == '=' || v[0] == '+' || v[0] == '-' || v[0] == '@' || v[0] == '\t'
        || v[0] == '\r') {
        let mut r: Vec<char> = vec!['\''];
        extend_chars(&mut r, v);
        assert(r@ =~= seq!['\''] + v@);
        r
    } else {
        let mut r: Vec<char> = Vec::new();
        extend_chars(&mut r, v);
        assert(r@ =~= v@);
        r
    }
}

fn field_chars(v: &Vec<char>) -> (r: Vec<char>)
    ensures
        r@ == csv_field(v@),
{
    let s = safe_chars(v);
    if has_char(&s, ',') || has_char(&s, '"') || has_char(&s, '\n') {
        let mut r: Vec<char> = vec!['"'];
        let mut i: usize = 0;
        while i < s.len()
            invariant
                i <= s.len(),
                r@ == seq!['"'] + double_quotes(s@.take(i as int)),
            decreases s.len() - i,
        {
            assert(s@.take(i + 1).drop_last() =~= s@.take(i as int));
            if s[i] == '"' {
                r.push('"');
                r.push('"');
            } else {
                r.push(s[i]);
            }
            i = i + 1;
            assert(r@ =~= seq!['"'] + double_quotes(s@.take(i as int)));
        }
        assert(s@.take(s.len() as int) =~= s@);
        r.push('"');
        r
    } else {
        s
    }
}

/// Protects a CSV value against formula injection: a value starting with
/// `=`, `+`, `-`, `@`, a tab or a carriage return gets a `'` in front.
pub fn csv_safe(v: &str) -> (r: String)
    ensures
        r@ == csv_safe_spec(v@),
{
    let cs = str_chars(v);
    let r = safe_chars(&cs);
    chars_to_string(&r)
}

/// A value as a CSV field: made safe, then quoted when needed.
pub fn csv_cell(v: &str) -> (r: String)
    ensures
        r@ == csv_field(v@),
{
    let cs = str_chars(v);
    let r = field_chars(&cs);
    chars_to_string(&r)
}

/// `"` pairs read back as one `"`.
pub open spec fn undouble(s: Seq<char>) -> Seq<char>
    decreases s.len(),
{
    if s.len() == 0 {
        seq![]
    } else if s.len() >= 2 && s[0] == '"' && s[1] == '"' {
        seq!['"'] + undouble(s.skip(2))
    } else {
        seq![s[0]] + undouble(s.drop_first())
    }
}

/// The value a CSV reader takes from a field: a quoted field loses its
/// quotes and has its doubled `"` undone.
pub open spec fn csv_unquote(f: Seq<char>) -> Seq<char> {
    if f.len() >= 2 && f[0] == '"' && f.last() == '"' {
        undouble(f.subrange(1, f.len() - 1))
    } else {
        f
    }
}

proof fn lemma_double_quotes_front(s: Seq<char>)
    requires
        s.len() > 0,
    ensures
        double_quotes(s) == quote_piece(s[0]) + double_quotes(s.drop_first()),
    decreases s.len(),
{
    if s.len() == 1 {
        assert(s.drop_last() =~= Seq::<char>::empty());
        assert(s.drop_first() =~= Seq::<char>::empty());
        assert(double_quotes(s) =~= quote_piece(s[0]) + double_quotes(s.drop_first()));
    } else {
        lemma_double_quotes_front(s.drop_last());
        assert(s.drop_last().drop_first() =~= s.drop_first().drop_last());
        assert(s.drop_first().last() == s.last());
        assert(double_quotes(s) =~= quote_piece(s[0]) + double_quotes(s.drop_first()));
    }
}

proof fn lemma_undouble_double(s: Seq<char>)
    ensures
        undouble(double_quotes(s)) == s,
    decreases s.len(),
{
    if s.len() > 0 {
        lemma_double_quotes_front(s);
        lemma_undouble_double(s.drop_first());
        let d = double_quotes(s);
        let rest = double_quotes(s.drop_first());
        if s[0] == '"' {
            assert(d.skip(2) =~= rest);
        } else {
            assert(d.drop_first() =~= rest);
        }
        assert(undouble(d) =~= seq![s[0]] + s.drop_first());
        assert(seq![s[0]] + s.drop_first() =~= s);
    }
}

/// Reading a written CSV cell gives back exactly the protected value: the
/// quoting that `csv_cell` applies is undone by a CSV reader.
pub proof fn law_csv_cell_round_trip(v: Seq<char>)
    ensures
        csv_unquote(csv_field(v)) == csv_safe_spec(v),
{
    let s = csv_safe_spec(v);
    if needs_quoting(s) {
        let f = csv_field(v);
        assert(f.subrange(1, f.len() - 1) =~= double_quotes(s));
        lemma_undouble_double(s);
    } else {
        if s.len() >= 2 && s[0] == '"' {
            assert(contains_char(s, '"'));
        }
    }
}

/// A protected value never starts a formula injection: its first
/// character is none of `=`, `+`, `-`, `@`, tab or carriage return.
pub proof fn law_csv_safe_no_formula(v: Seq<char>)
    ensures
        !(csv_safe_spec(v).len() > 0 && is_injection_start(csv_safe_spec(v)[0])),
{
}

// ── HTML escaping ────────────────────────────────────────────────────────────

/// What one character becomes in escaped HTML text.
pub open spec fn html_piece(c: char) -> Seq<char> {
    if c == '&' {
        seq!['&', 'a', 'm', 'p', ';']
    } else if c == '<' {
        seq!['&', 'l', 't', ';']
    } else if c == '>' {
        seq!['&', 'g', 't', ';']
    } else if c == '"' {
        seq!['&', 'q', 'u', 'o', 't', ';']
    } else {
        seq![c]
    }
}

/// `s` with `&`, `<`, `>` and `"` written as entities.
pub open spec fn html_escape_spec(s: Seq<char>) -> Seq<char>
    decreases s.len(),
{
    if s.len() == 0 {
        seq![]
    } else {
        html_escape_spec(s.drop_last()) + html_piece(s.last())
    }
}

pub(crate) fn escape_into(out: &mut Vec<char>, s: &Vec<char>)
    ensures
        final(out)@ == old(out)@ + html_escape_spec(s@),
{
    let ghost o = out@;
    let mut i: usize = 0;
    while i < s.len()
        invariant
            i <= s.len(),
            out@ == o + html_escape_spec(s@.take(i as int)),
        decreases s.len() - i,
    {
        assert(s@.take(i + 1).drop_last() =~= s@.take(i as int));
        let c = s[i];
        if c == '&' {
            push_str(out, "&amp;");
            proof { reveal_strlit("&amp;"); }
        } else if c == '<' {
            push_str(out, "&lt;");
            proof { reveal_strlit("&lt;"); }
        } else if c == '>' {
            push_str(out, "&gt;");
            proof { reveal_strlit("&gt;"); }
        } else if c == '"' {
            push_str(out, "&quot;");
            proof { reveal_strlit("&quot;"); }
        } else {
            out.push(c);
        }
        i = i + 1;
        assert(out@ =~= o + html_escape_spec(s@.take(i as int)));
    }
    assert(s@.take(s.len() as int) =~= s@);
}

/// Escapes `&`, `<`, `>` and `"` as HTML entities.
pub fn html_escape(s: &str) -> (r: String)
    ensures
        r@ == html_escape_spec(s@),
{
    let cs = str_chars(s);
    let mut out: Vec<char> = Vec::new();
    escape_into(&mut out, &cs);
    assert(out@ =~= html_escape_spec(s@));
    chars_to_string(&out)
}

/// Escaped text holds no markup: no `<`, `>` or `"` remains.
pub proof fn law_html_escape_no_markup(s: Seq<char>)
    ensures
        !contains_char(html_escape_spec(s), '<'),
        !contains_char(html_escape_spec(s), '>'),
        !contains_char(html_escape_spec(s), '"'),
    decreases s.len(),
{
    if s.len() > 0 {
        law_html_escape_no_markup(s.drop_last());
        let a = html_escape_spec(s.drop_last());
        let b = html_piece(s.last());
        let e = html_escape_spec(s);
        assert(e == a + b);
        assert forall|i: int| 0 <= i < e.len() implies e[i] != '<' && e[i] != '>' && e[i] != '"' by {
            if i < a.len() {
                assert(e[i] == a[i]);
            } else {
                assert(e[i] == b[i - a.len()]);
            }
        }
    }
}

// ── XML text ─────────────────────────────────────────────────────────────────

/// The XML reader events that text extraction tells apart.
pub enum XmlEvent {
    /// A start tag, with its qualified name.
    Start(Vec<u8>),
    /// An end tag, with its qualified name.
    End(Vec<u8>),
    /// Character data, unescaped (`None` when unescaping failed).
    Text(Option<String>),
    /// End of the document.
    Eof,
    /// A reading error, which ends the stream.
    Error,
    /// Any other event.
    Other,
}

/// `XmlEvent` with its vectors and strings taken by their views.
pub enum XmlEventView {
    Start(Seq<u8>),
    End(Seq<u8>),
    Text(Option<Seq<char>>),
    Eof,
    Error,
    Other,
}

impl View for XmlEvent {
    type V = XmlEventView;

    open spec fn view(&self) -> XmlEventView {
        match self {
            XmlEvent::Start(n) => XmlEventView::Start(n@),
            XmlEvent::End(n) => XmlEventView::End(n@),
            XmlEvent::Text(t) => XmlEventView::Text(
                match t {
                    Some(x) => Some(x@),
                    None => None,
                },
            ),
            XmlEvent::Eof => XmlEventView::Eof,
            XmlEvent::Error => XmlEventView::Error,
            XmlEvent::Other => XmlEventView::Other,
        }
    }
}

/// The views of a sequence of XML events.
pub open spec fn xml_views(v: Seq<XmlEvent>) -> Seq<XmlEventView> {
    v.map_values(|e: XmlEvent| e@)
}

/// Name for the events that `quick_xml::Reader::from_str` with
/// `trim_text(true)` yields for a document, up to and including the first
/// end-of-document or error.
pub uninterp spec fn xml_events_of(xml: Seq<char>) -> Seq<XmlEventView>;

/// Reads `xml` with quick-xml (text trimmed) until the end of the document
/// or the first error; claims only that the events are a function of `xml`.
#[verifier::external_body]
fn xml_events(xml: &str) -> (r: Vec<XmlEvent>)
    ensures
        xml_views(r@) == xml_events_of(xml@),
{
    let mut reader = quick_xml::Reader::from_str(xml);
    reader.config_mut().trim_text(true);
    let mut out = Vec::new();
    loop {
        out.push(match reader.read_event() {
            Ok(XmlRaw::Start(e)) => XmlEvent::Start(e.name().as_ref().to_vec()),
            Ok(XmlRaw::End(e)) => XmlEvent::End(e.name().as_ref().to_vec()),
            Ok(XmlRaw::Text(e)) => XmlEvent::Text(e.unescape().ok().map(|t| t.into_owned())),
            Ok(XmlRaw::Eof) => return { out.push(XmlEvent::Eof); out },
            Err(_) => return { out.push(XmlEvent::Error); out },
            Ok(_) => XmlEvent::Other,
        });
    }
}

/// One step of text extraction: inside a text element, collected text,
/// stream ended.
pub open spec fn xml_step(
    st: (bool, Seq<char>, bool),
    e: XmlEventView,
    text_tag: Seq<u8>,
    para_tag: Seq<u8>,
) -> (bool, Seq<char>, bool) {
    if st.2 {
        st
    } else {
        match e {
            XmlEventView::Start(n) => if n == text_tag {
                (true, st.1, false)
            } else {
                st
            },
            XmlEventView::End(n) => (
                if n == text_tag {
                    false
                } else {
                    st.0
                },
                if n == para_tag {
                    st.1.push('\n')
                } else {
                    st.1
                },
                false,
            ),
            XmlEventView::Text(t) => if st.0 && t is Some {
                (st.0, st.1 + t->0, false)
            } else {
                st
            },
            XmlEventView::Eof => (st.0, st.1, true),
            XmlEventView::Error => (st.0, st.1, true),
            XmlEventView::Other => st,
        }
    }
}

pub open spec fn xml_scan(events: Seq<XmlEventView>, text_tag: Seq<u8>, para_tag: Seq<u8>) -> (
    bool,
    Seq<char>,
    bool,
)
    decreases events.len(),
{
    if events.len() == 0 {
        (false, seq![], false)
    } else {
        xml_step(xml_scan(events.drop_last(), text_tag, para_tag), events.last(), text_tag, para_tag)
    }
}

/// The text of an XML event stream: the character data inside `text_tag`
/// elements, a newline at each closing `para_tag`, up to the end or the
/// first error.
pub open spec fn xml_text(events: Seq<XmlEventView>, text_tag: Seq<u8>, para_tag: Seq<u8>) -> Seq<
    char,
> {
    xml_scan(events, text_tag, para_tag).1
}

fn bytes_eq(a: &Vec<u8>, b: &[u8]) -> (r: bool)
    ensures
        r == (a@ == b@),
{
    if a.len() != b.len() {
        return false;
    }
    let mut i: usize = 0;
    while i < a.len()
        invariant
            a@.len() == b@.len(),
            i <= a.len(),
            forall|j: int| 0 <= j < i ==> a@[j] == b@[j],
        decreases a.len() - i,
    {
        if a[i] != b[i] {
            return false;
        }
        i = i + 1;
    }
    assert(a@ =~= b@);
    true
}

/// The text of an XML event stream (see `xml_text`).
pub fn text_from_xml_events(events: &Vec<XmlEvent>, text_tag: &[u8], para_tag: &[u8]) -> (r:
    String)
    ensures
        r@ == xml_text(xml_views(events@), text_tag@, para_tag@),
{
    let ghost ev = xml_views(events@);
    let mut in_text = false;
    let mut out: Vec<char> = Vec::new();
    let mut done = false;
    let mut i: usize = 0;
    while i < events.len()
        invariant
            i <= events.len(),
            ev == xml_views(events@),
            (in_text, out@, done) == xml_scan(ev.take(i as int), text_tag@, para_tag@),
        decreases events.len() - i,
    {
        assert(ev.take(i + 1).drop_last() =~= ev.take(i as int));
        assert(ev.take(i + 1).last() == events@[i as int]@);
        if !done {
            match &events[i] {
                XmlEvent::Start(n) => {
                    if bytes_eq(n, text_tag) {
                        in_text = true;
                    }
                },
                XmlEvent::End(n) => {
                    if bytes_eq(n, para_tag) {
                        out.push('\n');
                    }
                    if bytes_eq(n, text_tag) {
                        in_text = false;
                    }
                },
                XmlEvent::Text(t) => {
                    if in_text {
                        match t {
                            Some(x) => {
                                let cs = str_chars(x.as_str());
                                extend_chars(&mut out, &cs);
                            },
                            None => {},
                        }
                    }
                },
                XmlEvent::Eof => {
                    done = true;
                },
                XmlEvent::Error => {
                    done = true;
                },
                XmlEvent::Other => {},
            }
        }
        i = i + 1;
    }
    assert(ev.take(events.len() as int) =~= ev);
    chars_to_string(&out)
}

/// The text of an XML document: the character data inside `text_tag`
/// elements, with a newline at each closing `para_tag`.
pub fn parse_xml_text(xml: &str, text_tag: &[u8], para_tag: &[u8]) -> (r: String)
    ensures
        r@ == xml_text(xml_events_of(xml@), text_tag@, para_tag@),
{
    let events = xml_events(xml);
    text_from_xml_events(&events, text_tag, para_tag)
}

// ── ZIP archives ─────────────────────────────────────────────────────────────

/// The outcome of reading one named entry of a ZIP archive as text.
pub enum ZipRead {
    /// The archive could not be opened; the reader's error message.
    BadArchive(String),
    /// No entry of that name.
    Missing,
    /// The entry was read: what `read_to_string` left, and its error message
    /// when it failed.
    Read(String, Option<String>),
}

pub enum ZipReadView {
    BadArchive(Seq<char>),
    Missing,
    Read(Seq<char>, Option<Seq<char>>),
}

impl View for ZipRead {
    type V = ZipReadView;

    open spec fn view(&self) -> ZipReadView {
        match self {
            ZipRead::BadArchive(e) => ZipReadView::BadArchive(e@),
            ZipRead::Missing => ZipReadView::Missing,
            ZipRead::Read(t, e) => ZipReadView::Read(
                t@,
                match e {
                    Some(x) => Some(x@),
                    None => None,
                },
            ),
        }
    }
}

/// Name for what opening `bytes` with `zip::ZipArchive::new`, looking up
/// `name` with `by_name` and reading it with `read_to_string` gives.
pub uninterp spec fn zip_entry_read_of(bytes: Seq<u8>, name: Seq<char>) -> ZipReadView;

/// Name for the entry names of the archive in `bytes`, by index (`None`
/// where `by_index` fails), or the error message of `ZipArchive::new`.
pub uninterp spec fn zip_names_of(bytes: Seq<u8>) -> Result<Seq<Option<Seq<char>>>, Seq<char>>;

/// Opens the archive in `bytes` and reads entry `name` as text; claims only
/// that the outcome is a function of `bytes` and `name`.
#[verifier::external_body]
fn zip_read_entry(bytes: &[u8], name: &str) -> (r: ZipRead)
    ensures
        r@ == zip_entry_read_of(bytes@, name@),
{
    let mut archive = match zip::ZipArchive::new(std::io::Cursor::new(bytes)) {
        Ok(a) => a,
        Err(e) => return ZipRead::BadArchive(e.to_string()),
    };
    let mut entry = match archive.by_name(name) {
        Ok(f) => f,
        Err(_) => return ZipRead::Missing,
    };
    let mut text = String::new();
    let res = std::io::Read::read_to_string(&mut entry, &mut text);
    ZipRead::Read(text, res.err().map(|e| e.to_string()))
}

/// The view of an optional string.
pub open spec fn opt_view(o: Option<String>) -> Option<Seq<char>> {
    match o {
        Some(s) => Some(s@),
        None => None,
    }
}

/// Opens the archive in `bytes` and lists its entry names by index; claims
/// only that the outcome is a function of `bytes`.
#[verifier::external_body]
fn zip_entry_names(bytes: &[u8]) -> (r: Result<Vec<Option<String>>, String>)
    ensures
        match r {
            Ok(v) => zip_names_of(bytes@) == Ok::<Seq<Option<Seq<char>>>, Seq<char>>(
                v@.map_values(|o: Option<String>| opt_view(o)),
            ),
            Err(e) => zip_names_of(bytes@) == Err::<Seq<Option<Seq<char>>>, Seq<char>>(e@),
        },
{
    let mut archive = zip::ZipArchive::new(std::io::Cursor::new(bytes)).map_err(|e| e.to_string())?;
    Ok((0..archive.len()).map(|i| archive.by_index(i).ok().map(|f| f.name().to_string())).collect())
}

// ── DOCX / PPTX ──────────────────────────────────────────────────────────────

/// Why an office document gave no text.
pub enum OfficeError {
    /// Not a ZIP archive; the reader's message.
    InvalidArchive(String),
    /// The named entry is missing.
    MissingEntry(String),
    /// The entry could not be read; the reader's message.
    ReadXml(String),
    /// No slide of the presentation holds text.
    NoSlideText,
}

pub enum OfficeErrorView {
    InvalidArchive(Seq<char>),
    MissingEntry(Seq<char>),
    ReadXml(Seq<char>),
    NoSlideText,
}

impl View for OfficeError {
    type V = OfficeErrorView;

    open spec fn view(&self) -> OfficeErrorView {
        match self {
            OfficeError::InvalidArchive(e) => OfficeErrorView::InvalidArchive(e@),
            OfficeError::MissingEntry(e) => OfficeErrorView::MissingEntry(e@),
            OfficeError::ReadXml(e) => OfficeErrorView::ReadXml(e@),
            OfficeError::NoSlideText => OfficeErrorView::NoSlideText,
        }
    }
}

/// The user-facing message of an office error.
pub open spec fn office_message(e: OfficeErrorView) -> Seq<char> {
    match e {
        OfficeErrorView::InvalidArchive(m) => "Archive ZIP invalide: "@ + m,
        OfficeErrorView::MissingEntry(n) => "Entrée '"@ + n + "' introuvable (pas un DOCX valide ?)"@,
        OfficeErrorView::ReadXml(m) => "Lecture XML: "@ + m,
        OfficeErrorView::NoSlideText => "Aucun texte extractible dans ce PPTX"@,
    }
}

impl OfficeError {
    /// The user-facing message.
    pub fn message(&self) -> (r: String)
        ensures
            r@ == office_message(self@),
    {
        let mut out: Vec<char> = Vec::new();
        match self {
            OfficeError::InvalidArchive(m) => {
                push_str(&mut out, "Archive ZIP invalide: ");
                push_str(&mut out, m.as_str());
            },
            OfficeError::MissingEntry(n) => {
                push_str(&mut out, "Entrée '");
                push_str(&mut out, n.as_str());
                push_str(&mut out, "' introuvable (pas un DOCX valide ?)");
            },
            OfficeError::ReadXml(m) => {
                push_str(&mut out, "Lecture XML: ");
                push_str(&mut out, m.as_str());
            },
            OfficeError::NoSlideText => {
                push_str(&mut out, "Aucun texte extractible dans ce PPTX");
            },
        }
        assert(out@ =~= office_message(self@));
        chars_to_string(&out)
    }
}

/// What extracting the text of entry `name` gives.
pub open spec fn entry_text(
    bytes: Seq<u8>,
    name: Seq<char>,
    text_tag: Seq<u8>,
    para_tag: Seq<u8>,
) -> Result<Seq<char>, OfficeErrorView> {
    match zip_entry_read_of(bytes, name) {
        ZipReadView::BadArchive(m) => Err(OfficeErrorView::InvalidArchive(m)),
        ZipReadView::Missing => Err(OfficeErrorView::MissingEntry(name)),
        ZipReadView::Read(t, e) => match e {
            Some(m) => Err(OfficeErrorView::ReadXml(m)),
            None => Ok(xml_text(xml_events_of(t), text_tag, para_tag)),
        },
    }
}

/// The view of a text-or-error result.
pub open spec fn office_result(r: Result<String, OfficeError>) -> Result<
    Seq<char>,
    OfficeErrorView,
> {
    match r {
        Ok(s) => Ok(s@),
        Err(e) => Err(e@),
    }
}

/// Extracts the text of the XML entry `entry_name` of the ZIP archive in
/// `zip_bytes`: the data of `text_tag` elements, a newline per closing
/// `para_tag`.
pub fn extract_xml_text(zip_bytes: &[u8], entry_name: &str, text_tag: &[u8], para_tag: &[u8]) -> (r:
    Result<String, OfficeError>)
    ensures
        office_result(r) == entry_text(zip_bytes@, entry_name@, text_tag@, para_tag@),
{
    match zip_read_entry(zip_bytes, entry_name) {
        ZipRead::BadArchive(m) => Err(OfficeError::InvalidArchive(m)),
        ZipRead::Missing => {
            let cs = str_chars(entry_name);
            Err(OfficeError::MissingEntry(chars_to_string(&cs)))
        },
        ZipRead::Read(t, e) => match e {
            Some(m) => Err(OfficeError::ReadXml(m)),
            None => Ok(parse_xml_text(t.as_str(), text_tag, para_tag)),
        },
    }
}

/// `w:t`, the text element of WordprocessingML.
pub open spec fn w_t() -> Seq<u8> {
    seq![0x77u8, 0x3au8, 0x74u8]
}

/// `w:p`, the paragraph element of WordprocessingML.
pub open spec fn w_p() -> Seq<u8> {
    seq![0x77u8, 0x3au8, 0x70u8]
}

/// `a:t`, the text element of DrawingML.
pub open spec fn a_t() -> Seq<u8> {
    seq![0x61u8, 0x3au8, 0x74u8]
}

/// `a:p`, the paragraph element of DrawingML.
pub open spec fn a_p() -> Seq<u8> {
    seq![0x61u8, 0x3au8, 0x70u8]
}

proof fn lemma_xml_scan_push(e: Seq<XmlEventView>, ev: XmlEventView, tt: Seq<u8>, pt: Seq<u8>)
    ensures
        xml_scan(e.push(ev), tt, pt) == xml_step(xml_scan(e, tt, pt), ev, tt, pt),
{
    assert(e.push(ev).drop_last() =~= e);
}

/// `w:p`, `w:r` and `w:t` (the paragraph, run and text elements of
/// WordprocessingML) are different names.
proof fn lemma_wml_names_differ()
    ensures
        seq![0x77u8, 0x3au8, 0x70u8] != seq![0x77u8, 0x3au8, 0x72u8],
        seq![0x77u8, 0x3au8, 0x70u8] != seq![0x77u8, 0x3au8, 0x74u8],
        seq![0x77u8, 0x3au8, 0x72u8] != seq![0x77u8, 0x3au8, 0x74u8],
{
    let p = seq![0x77u8, 0x3au8, 0x70u8];
    let r = seq![0x77u8, 0x3au8, 0x72u8];
    let t = seq![0x77u8, 0x3au8, 0x74u8];
    assert(p[2] != r[2]);
    assert(p[2] != t[2]);
    assert(r[2] != t[2]);
}

/// In DOCX text (text of `w:t`, lines ended by `w:p`, as `docx_to_text`
/// reads it), the end of a paragraph (`</w:p>`) ends exactly one line:
/// once the stream has not ended, it adds one newline to the text.
pub proof fn law_docx_paragraph_end_adds_newline(e: Seq<XmlEventView>)
    requires
        !xml_scan(e, w_t(), w_p()).2,
    ensures
        xml_text(e.push(XmlEventView::End(seq![0x77u8, 0x3au8, 0x70u8])), w_t(), w_p()) == xml_text(
            e,
            w_t(),
            w_p(),
        ).push('\n'),
{
    lemma_wml_names_differ();
    lemma_xml_scan_push(e, XmlEventView::End(seq![0x77u8, 0x3au8, 0x70u8]), w_t(), w_p());
}

/// In DOCX text, the end of a run (`</w:r>`) adds no line break: the text
/// stays as it was.
pub proof fn law_docx_run_end_adds_nothing(e: Seq<XmlEventView>)
    ensures
        xml_text(e.push(XmlEventView::End(seq![0x77u8, 0x3au8, 0x72u8])), w_t(), w_p()) == xml_text(e, w_t(), w_p()),
{
    lemma_wml_names_differ();
    lemma_xml_scan_push(e, XmlEventView::End(seq![0x77u8, 0x3au8, 0x72u8]), w_t(), w_p());
}

/// A DOCX paragraph of two runs gives one line: the texts of its runs
/// joined, then a single newline, after the text before it.
pub proof fn law_docx_paragraph_joins_runs(e: Seq<XmlEventView>, a: Seq<char>, b: Seq<char>)
    requires
        !xml_scan(e, w_t(), w_p()).2,
    ensures
        xml_text(
            e + seq![
                XmlEventView::Start(seq![0x77u8, 0x3au8, 0x70u8]),
                XmlEventView::Start(seq![0x77u8, 0x3au8, 0x72u8]),
                XmlEventView::Start(seq![0x77u8, 0x3au8, 0x74u8]),
                XmlEventView::Text(Some(a)),
                XmlEventView::End(seq![0x77u8, 0x3au8, 0x74u8]),
                XmlEventView::End(seq![0x77u8, 0x3au8, 0x72u8]),
                XmlEventView::Start(seq![0x77u8, 0x3au8, 0x72u8]),
                XmlEventView::Start(seq![0x77u8, 0x3au8, 0x74u8]),
                XmlEventView::Text(Some(b)),
                XmlEventView::End(seq![0x77u8, 0x3au8, 0x74u8]),
                XmlEventView::End(seq![0x77u8, 0x3au8, 0x72u8]),
                XmlEventView::End(seq![0x77u8, 0x3au8, 0x70u8]),
            ],
            w_t(),
            w_p(),
        ) == xml_text(e, w_t(), w_p()) + a + b + seq!['\n'],
{
    lemma_wml_names_differ();
    let tt = w_t();
    let pt = w_p();
    assert(tt == seq![0x77u8, 0x3au8, 0x74u8]);
    assert(pt == seq![0x77u8, 0x3au8, 0x70u8]);
    let evs = seq![
        XmlEventView::Start(seq![0x77u8, 0x3au8, 0x70u8]),
        XmlEventView::Start(seq![0x77u8, 0x3au8, 0x72u8]),
        XmlEventView::Start(seq![0x77u8, 0x3au8, 0x74u8]),
        XmlEventView::Text(Some(a)),
        XmlEventView::End(seq![0x77u8, 0x3au8, 0x74u8]),
        XmlEventView::End(seq![0x77u8, 0x3au8, 0x72u8]),
        XmlEventView::Start(seq![0x77u8, 0x3au8, 0x72u8]),
        XmlEventView::Start(seq![0x77u8, 0x3au8, 0x74u8]),
        XmlEventView::Text(Some(b)),
        XmlEventView::End(seq![0x77u8, 0x3au8, 0x74u8]),
        XmlEventView::End(seq![0x77u8, 0x3au8, 0x72u8]),
        XmlEventView::End(seq![0x77u8, 0x3au8, 0x70u8]),
    ];
    let e0 = e;
    let e1 = e0.push(XmlEventView::Start(seq![0x77u8, 0x3au8, 0x70u8]));
    lemma_xml_scan_push(e0, XmlEventView::Start(seq![0x77u8, 0x3au8, 0x70u8]), tt, pt);
    let e2 = e1.push(XmlEventView::Start(seq![0x77u8, 0x3au8, 0x72u8]));
    lemma_xml_scan_push(e1, XmlEventView::Start(seq![0x77u8, 0x3au8, 0x72u8]), tt, pt);
    let e3 = e2.push(XmlEventView::Start(seq![0x77u8, 0x3au8, 0x74u8]));
    lemma_xml_scan_push(e2, XmlEventView::Start(seq![0x77u8, 0x3au8, 0x74u8]), tt, pt);
    let e4 = e3.push(XmlEventView::Text(Some(a)));
    lemma_xml_scan_push(e3, XmlEventView::Text(Some(a)), tt, pt);
    let e5 = e4.push(XmlEventView::End(seq![0x77u8, 0x3au8, 0x74u8]));
    lemma_xml_scan_push(e4, XmlEventView::End(seq![0x77u8, 0x3au8, 0x74u8]), tt, pt);
    let e6 = e5.push(XmlEventView::End(seq![0x77u8, 0x3au8, 0x72u8]));
    lemma_xml_scan_push(e5, XmlEventView::End(seq![0x77u8, 0x3au8, 0x72u8]), tt, pt);
    let e7 = e6.push(XmlEventView::Start(seq![0x77u8, 0x3au8, 0x72u8]));
    lemma_xml_scan_push(e6, XmlEventView::Start(seq![0x77u8, 0x3au8, 0x72u8]), tt, pt);
    let e8 = e7.push(XmlEventView::Start(seq![0x77u8, 0x3au8, 0x74u8]));
    lemma_xml_scan_push(e7, XmlEventView::Start(seq![0x77u8, 0x3au8, 0x74u8]), tt, pt);
    let e9 = e8.push(XmlEventView::Text(Some(b)));
    lemma_xml_scan_push(e8, XmlEventView::Text(Some(b)), tt, pt);
    let e10 = e9.push(XmlEventView::End(seq![0x77u8, 0x3au8, 0x74u8]));
    lemma_xml_scan_push(e9, XmlEventView::End(seq![0x77u8, 0x3au8, 0x74u8]), tt, pt);
    let e11 = e10.push(XmlEventView::End(seq![0x77u8, 0x3au8, 0x72u8]));
    lemma_xml_scan_push(e10, XmlEventView::End(seq![0x77u8, 0x3au8, 0x72u8]), tt, pt);
    let e12 = e11.push(XmlEventView::End(seq![0x77u8, 0x3au8, 0x70u8]));
    lemma_xml_scan_push(e11, XmlEventView::End(seq![0x77u8, 0x3au8, 0x70u8]), tt, pt);
    assert(e + evs =~= e12);
    assert(xml_scan(e12, tt, pt).1 =~= xml_scan(e, tt, pt).1 + a + b + seq!['\n']);
}

/// In slide text (text of `a:t`, lines ended by `a:p`, as `pptx_to_text`
/// reads it), the end of a paragraph (`</a:p>`) ends exactly one line and
/// the end of a run (`</a:r>`) adds nothing; the text of an `a:t` element
/// is appended as it is.
pub proof fn law_slide_text_lines(e: Seq<XmlEventView>, x: Seq<char>)
    requires
        !xml_scan(e, a_t(), a_p()).2,
    ensures
        xml_text(e.push(XmlEventView::End(seq![0x61u8, 0x3au8, 0x70u8])), a_t(), a_p()) == xml_text(
            e,
            a_t(),
            a_p(),
        ).push('\n'),
        xml_text(e.push(XmlEventView::End(seq![0x61u8, 0x3au8, 0x72u8])), a_t(), a_p()) == xml_text(
            e,
            a_t(),
            a_p(),
        ),
        xml_text(
            e.push(XmlEventView::Start(seq![0x61u8, 0x3au8, 0x74u8])).push(
                XmlEventView::Text(Some(x)),
            ),
            a_t(),
            a_p(),
        ) == xml_text(e, a_t(), a_p()) + x,
{
    let p = seq![0x61u8, 0x3au8, 0x70u8];
    let r = seq![0x61u8, 0x3au8, 0x72u8];
    let t = seq![0x61u8, 0x3au8, 0x74u8];
    assert(p[2] != r[2] && p[2] != t[2] && r[2] != t[2]);
    assert(a_t() == t && a_p() == p);
    lemma_xml_scan_push(e, XmlEventView::End(p), a_t(), a_p());
    lemma_xml_scan_push(e, XmlEventView::End(r), a_t(), a_p());
    let e1 = e.push(XmlEventView::Start(t));
    lemma_xml_scan_push(e, XmlEventView::Start(t), a_t(), a_p());
    lemma_xml_scan_push(e1, XmlEventView::Text(Some(x)), a_t(), a_p());
}

/// In DOCX text, the text of a `w:t` element is appended as it is.
pub proof fn law_docx_text_element_appends(e: Seq<XmlEventView>, x: Seq<char>)
    requires
        !xml_scan(e, w_t(), w_p()).2,
    ensures
        xml_text(
            e.push(XmlEventView::Start(seq![0x77u8, 0x3au8, 0x74u8])).push(
                XmlEventView::Text(Some(x)),
            ),
            w_t(),
            w_p(),
        ) == xml_text(e, w_t(), w_p()) + x,
{
    let t = seq![0x77u8, 0x3au8, 0x74u8];
    assert(w_t() == t);
    let e1 = e.push(XmlEventView::Start(t));
    lemma_xml_scan_push(e, XmlEventView::Start(t), w_t(), w_p());
    lemma_xml_scan_push(e1, XmlEventView::Text(Some(x)), w_t(), w_p());
}

/// The plain text of a DOCX document (the bytes of the file): the text runs
/// of `word/document.xml`, one line per paragraph.
pub fn docx_to_text(docx: &[u8]) -> (r: Result<String, OfficeError>)
    ensures
        office_result(r) == entry_text(docx@, "word/document.xml"@, w_t(), w_p()),
{
    let wt: [u8; 3] = [0x77, 0x3a, 0x74];
    let wp: [u8; 3] = [0x77, 0x3a, 0x70];
    assert(wt@ =~= w_t());
    assert(wp@ =~= w_p());
    extract_xml_text(docx, "word/document.xml", &wt, &wp)
}

/// Whether `d` is a slide number as slide part names write it: decimal
/// digits, at least one, without a leading zero.
pub open spec fn is_slide_number(d: Seq<char>) -> bool {
    &&& d.len() > 0
    &&& forall|i: int| 0 <= i < d.len() ==> '0' <= #[trigger] d[i] <= '9'
    &&& (d.len() == 1 || d[0] != '0')
}

/// The entry name of the slide part with number `d`.
pub open spec fn slide_part(d: Seq<char>) -> Seq<char> {
    "ppt/slides/slide"@ + d + ".xml"@
}

/// Lexicographic order of digit strings of the same length.
pub open spec fn lex_less(a: Seq<char>, b: Seq<char>) -> bool
    decreases a.len(),
{
    a.len() > 0 && b.len() > 0 && (a[0] < b[0] || (a[0] == b[0] && lex_less(
        a.drop_first(),
        b.drop_first(),
    )))
}

/// Numeric order of slide numbers: a shorter number is smaller, numbers of
/// the same length compare digit by digit.
pub open spec fn num_less(a: Seq<char>, b: Seq<char>) -> bool {
    a.len() < b.len() || (a.len() == b.len() && lex_less(a, b))
}

proof fn lemma_lex_trans(a: Seq<char>, b: Seq<char>, c: Seq<char>)
    requires
        a.len() == b.len(),
        b.len() == c.len(),
        lex_less(a, b),
        lex_less(b, c),
    ensures
        lex_less(a, c),
    decreases a.len(),
{
    if a.len() > 0 && a[0] == b[0] && b[0] == c[0] {
        lemma_lex_trans(a.drop_first(), b.drop_first(), c.drop_first());
    }
}

proof fn lemma_lex_total(a: Seq<char>, b: Seq<char>)
    requires
        a.len() == b.len(),
        a != b,
    ensures
        lex_less(a, b) || lex_less(b, a),
    decreases a.len(),
{
    if a.len() == 0 {
        assert(a =~= b);
    } else if a[0] == b[0] {
        let (x, y) = (a.drop_first(), b.drop_first());
        if x == y {
            assert(a =~= seq![a[0]] + x);
            assert(b =~= seq![b[0]] + y);
        } else {
            lemma_lex_total(x, y);
        }
    }
}

proof fn lemma_lex_irrefl(a: Seq<char>)
    ensures
        !lex_less(a, a),
    decreases a.len(),
{
    if a.len() > 0 {
        lemma_lex_irrefl(a.drop_first());
    }
}

proof fn lemma_slide_part_inj(d: Seq<char>, e: Seq<char>)
    requires
        slide_part(d) == slide_part(e),
    ensures
        d == e,
{
    reveal_strlit("ppt/slides/slide");
    reveal_strlit(".xml");
    let s = slide_part(d);
    assert(slide_part(d).len() == 20 + d.len());
    assert(slide_part(e).len() == 20 + e.len());
    assert(d =~= s.subrange(16, 16 + d.len() as int));
    assert(e =~= s.subrange(16, 16 + e.len() as int));
}

/// The slide numbers of an archive: those whose part is among its entries.
pub open spec fn has_slide(names: Seq<Option<Seq<char>>>, d: Seq<char>) -> bool {
    is_slide_number(d) && names.contains(Some(slide_part(d)))
}

/// Whether `o` lists the slide numbers of the archive, each once, in
/// increasing numeric order.
pub open spec fn slide_order(names: Seq<Option<Seq<char>>>, o: Seq<Seq<char>>) -> bool {
    &&& forall|i: int, j: int| 0 <= i < j < o.len() ==> num_less(o[i], o[j])
    &&& forall|d: Seq<char>| has_slide(names, d) <==> o.contains(d)
}

proof fn lemma_num_less_trans(a: Seq<char>, b: Seq<char>, c: Seq<char>)
    requires
        num_less(a, b),
        num_less(b, c),
    ensures
        num_less(a, c),
{
    if a.len() == b.len() && b.len() == c.len() {
        lemma_lex_trans(a, b, c);
    }
}

proof fn lemma_sorted_unique(a: Seq<Seq<char>>, b: Seq<Seq<char>>)
    requires
        forall|i: int, j: int| 0 <= i < j < a.len() ==> num_less(a[i], a[j]),
        forall|i: int, j: int| 0 <= i < j < b.len() ==> num_less(b[i], b[j]),
        forall|d: Seq<char>| a.contains(d) <==> b.contains(d),
    ensures
        a == b,
    decreases a.len(),
{
    if a.len() == 0 {
        if b.len() > 0 {
            assert(b.contains(b[0]));
        }
        assert(a =~= b);
    } else {
        assert(a.contains(a[0]));
        assert(b.len() > 0);
        assert(b.contains(b[0]));
        let j = choose|j: int| 0 <= j < b.len() && b[j] == a[0];
        let i = choose|i: int| 0 <= i < a.len() && a[i] == b[0];
        lemma_lex_irrefl(a[0]);
        if j > 0 {
            assert(num_less(b[0], b[j]));
            if i > 0 {
                assert(num_less(a[0], a[i]));
                lemma_num_less_trans(a[0], a[i], a[0]);
            }
        }
        assert(a[0] == b[0]);
        let (x, y) = (a.drop_first(), b.drop_first());
        assert forall|d: Seq<char>| x.contains(d) <==> y.contains(d) by {
            if x.contains(d) {
                let k = choose|k: int| 0 <= k < x.len() && x[k] == d;
                assert(a[k + 1] == d && num_less(a[0], a[k + 1]));
                assert(a.contains(d));
                let t = choose|t: int| 0 <= t < b.len() && b[t] == d;
                if t == 0 {
                    lemma_lex_irrefl(d);
                }
                assert(y[t - 1] == d);
            }
            if y.contains(d) {
                let k = choose|k: int| 0 <= k < y.len() && y[k] == d;
                assert(b[k + 1] == d && num_less(b[0], b[k + 1]));
                assert(b.contains(d));
                let t = choose|t: int| 0 <= t < a.len() && a[t] == d;
                if t == 0 {
                    lemma_lex_irrefl(d);
                }
                assert(x[t - 1] == d);
            }
        }
        assert forall|p: int, q: int| 0 <= p < q < x.len() implies num_less(x[p], x[q]) by {
            assert(x[p] == a[p + 1] && x[q] == a[q + 1]);
        }
        assert forall|p: int, q: int| 0 <= p < q < y.len() implies num_less(y[p], y[q]) by {
            assert(y[p] == b[p + 1] && y[q] == b[q + 1]);
        }
        lemma_sorted_unique(x, y);
        assert(a =~= seq![a[0]] + x);
        assert(b =~= seq![b[0]] + y);
    }
}

/// The slide order of an archive is unique: two lists of its slide numbers
/// in increasing order are the same list, so the presentation text is
/// determined.
pub proof fn law_slide_order_unique(
    names: Seq<Option<Seq<char>>>,
    o1: Seq<Seq<char>>,
    o2: Seq<Seq<char>>,
)
    requires
        slide_order(names, o1),
        slide_order(names, o2),
    ensures
        o1 == o2,
{
    assert forall|d: Seq<char>| o1.contains(d) <==> o2.contains(d) by {
        assert(has_slide(names, d) <==> o1.contains(d));
        assert(has_slide(names, d) <==> o2.contains(d));
    }
    lemma_sorted_unique(o1, o2);
}

/// What slide `d` adds to the presentation text: a header line and its
/// trimmed text, when the slide can be read and holds text.
pub open spec fn slide_block(bytes: Seq<u8>, d: Seq<char>) -> Seq<char> {
    match zip_entry_read_of(bytes, slide_part(d)) {
        ZipReadView::Read(t, _) => {
            let txt = trim(xml_text(xml_events_of(t), a_t(), a_p()));
            if txt.len() > 0 {
                "--- Slide "@ + d + " ---\n"@ + txt + "\n\n"@
            } else {
                seq![]
            }
        },
        _ => seq![],
    }
}

/// The blocks of the slides `o`, in order.
pub open spec fn slides_text(bytes: Seq<u8>, o: Seq<Seq<char>>) -> Seq<char>
    decreases o.len(),
{
    if o.len() == 0 {
        seq![]
    } else {
        slides_text(bytes, o.drop_last()) + slide_block(bytes, o.last())
    }
}

/// The presentation text from the blocks of its slides, or the error when
/// no slide holds text.
pub open spec fn pptx_result(bytes: Seq<u8>, o: Seq<Seq<char>>) -> Result<Seq<char>, OfficeErrorView> {
    let full = slides_text(bytes, o);
    if full.len() == 0 {
        Err(OfficeErrorView::NoSlideText)
    } else {
        Ok(trim(full))
    }
}

fn digits_of_part(n: &String) -> (r: Option<Vec<char>>)
    ensures
        match r {
            Some(d) => is_slide_number(d@) && n@ == slide_part(d@),
            None => forall|d: Seq<char>| is_slide_number(d) ==> n@ != slide_part(d),
        },
{
    let cs = str_chars(n.as_str());
    let prefix = str_chars("ppt/slides/slide");
    let suffix = str_chars(".xml");
    proof {
        reveal_strlit("ppt/slides/slide");
        reveal_strlit(".xml");
    }
    if cs.len() < 21 || !crate::chars::starts_with_chars(&cs, prefix.as_slice()) {
        proof {
            assert forall|d: Seq<char>| is_slide_number(d) implies cs@ != slide_part(d) by {
                if cs@ == slide_part(d) {
                    assert(cs@.take(16) =~= prefix@);
                }
            }
        }
        return None;
    }
    let m = cs.len() - 4;
    if !(cs[m] == suffix[0] && cs[m + 1] == suffix[1] && cs[m + 2] == suffix[2] && cs[m + 3]
        == suffix[3]) {
        proof {
            assert forall|d: Seq<char>| is_slide_number(d) implies cs@ != slide_part(d) by {
                if cs@ == slide_part(d) {
                    assert(cs@.subrange(m as int, cs.len() as int) =~= suffix@);
                    assert(cs@[m + 1] == suffix@[1] && cs@[m + 2] == suffix@[2]);
                    assert(cs@[m + 3] == suffix@[3] && cs@[m as int] == suffix@[0]);
                }
            }
        }
        return None;
    }
    let d = crate::chars::sub_chars(&cs, 16, m);
    let mut ok = d[0] != '0' || d.len() == 1;
    let mut i: usize = 0;
    while i < d.len()
        invariant
            i <= d.len(),
            d@ == cs@.subrange(16, m as int),
            d.len() > 0,
            ok ==> (d@.len() == 1 || d@[0] != '0'),
            ok ==> forall|j: int| 0 <= j < i ==> '0' <= #[trigger] d@[j] <= '9',
            !ok ==> !is_slide_number(d@),
        decreases d.len() - i,
    {
        if !('0' <= d[i] && d[i] <= '9') {
            ok = false;
        }
        i = i + 1;
    }
    assert(cs@ =~= slide_part(d@)) by {
        assert(cs@.take(16) =~= prefix@);
        assert(cs@.subrange(m as int, cs.len() as int) =~= suffix@);
    }
    if ok {
        Some(d)
    } else {
        proof {
            assert forall|e: Seq<char>| is_slide_number(e) implies cs@ != slide_part(e) by {
                if cs@ == slide_part(e) {
                    assert(e =~= cs@.subrange(16, m as int));
                }
            }
        }
        None
    }
}

fn chars_equal(a: &Vec<char>, b: &Vec<char>) -> (r: bool)
    ensures
        r == (a@ == b@),
{
    if a.len() != b.len() {
        return false;
    }
    let mut i: usize = 0;
    while i < a.len()
        invariant
            i <= a.len(),
            a.len() == b.len(),
            forall|j: int| 0 <= j < i ==> a@[j] == b@[j],
        decreases a.len() - i,
    {
        if a[i] != b[i] {
            return false;
        }
        i = i + 1;
    }
    assert(a@ =~= b@);
    true
}

fn lex_less_exec(a: &Vec<char>, b: &Vec<char>) -> (r: bool)
    requires
        a.len() == b.len(),
    ensures
        r == lex_less(a@, b@),
{
    let mut i: usize = 0;
    assert(a@.skip(0) =~= a@);
    assert(b@.skip(0) =~= b@);
    while i < a.len()
        invariant
            i <= a.len(),
            a.len() == b.len(),
            forall|j: int| 0 <= j < i ==> a@[j] == b@[j],
            lex_less(a@, b@) == lex_less(a@.skip(i as int), b@.skip(i as int)),
        decreases a.len() - i,
    {
        let ghost sa = a@.skip(i as int);
        let ghost sb = b@.skip(i as int);
        assert(sa.drop_first() =~= a@.skip(i + 1));
        assert(sb.drop_first() =~= b@.skip(i + 1));
        if a[i] < b[i] {
            return true;
        }
        if a[i] != b[i] {
            return false;
        }
        i = i + 1;
    }
    false
}

fn num_less_exec(a: &Vec<char>, b: &Vec<char>) -> (r: bool)
    ensures
        r == num_less(a@, b@),
{
    a.len() < b.len() || (a.len() == b.len() && lex_less_exec(a, b))
}

/// Appends the block of slide `d` (see `slide_block`).
fn push_slide_block(full: &mut Vec<char>, pptx: &[u8], d: &Vec<char>)
    ensures
        final(full)@ == old(full)@ + slide_block(pptx@, d@),
{
    let at: [u8; 3] = [0x61, 0x3a, 0x74];
    let ap: [u8; 3] = [0x61, 0x3a, 0x70];
    assert(at@ =~= a_t());
    assert(ap@ =~= a_p());
    let mut name: Vec<char> = Vec::new();
    push_str(&mut name, "ppt/slides/slide");
    extend_chars(&mut name, d);
    push_str(&mut name, ".xml");
    assert(name@ =~= slide_part(d@));
    let name_s = chars_to_string(&name);
    match zip_read_entry(pptx, name_s.as_str()) {
        ZipRead::Read(t, _) => {
            let slide_text = parse_xml_text(t.as_str(), &at, &ap);
            let cs = str_chars(slide_text.as_str());
            let tt = trim_chars(&cs);
            if tt.len() > 0 {
                push_str(full, "--- Slide ");
                extend_chars(full, d);
                push_str(full, " ---\n");
                extend_chars(full, &tt);
                push_str(full, "\n\n");
            }
        },
        _ => {},
    }
}

/// The blocks of all slides of the archive `pptx` whose entry names are
/// `names`, in slide order, and that order.
fn ordered_slides_text(pptx: &[u8], names: &Vec<Option<String>>) -> (r: (
    Vec<char>,
    Ghost<Seq<Seq<char>>>,
))
    ensures
        slide_order(names@.map_values(|o: Option<String>| opt_view(o)), r.1@),
        r.0@ == slides_text(pptx@, r.1@),
{
    let ghost nv = names@.map_values(|o: Option<String>| opt_view(o));
    // The slide numbers found among the entries.
    let mut rem: Vec<Vec<char>> = Vec::new();
    let mut k: usize = 0;
    while k < names.len()
        invariant
            k <= names.len(),
            nv == names@.map_values(|o: Option<String>| opt_view(o)),
            forall|j: int| 0 <= j < rem.len() ==> has_slide(nv, #[trigger] rem@[j]@),
            forall|d: Seq<char>|
                is_slide_number(d) && nv.take(k as int).contains(Some(slide_part(d))) ==> exists|
                    j: int,
                | 0 <= j < rem.len() && #[trigger] rem@[j]@ == d,
        decreases names.len() - k,
    {
        let ghost r0 = rem@;
        match &names[k] {
            Some(n) => match digits_of_part(n) {
                Some(d) => {
                    assert(nv[k as int] == Some(slide_part(d@)));
                    let ghost dv = d@;
                    rem.push(d);
                    assert forall|e: Seq<char>|
                        is_slide_number(e) && nv[k as int] == Some(slide_part(e)) implies rem@.len()
                        > 0 && rem@.last()@ == e by {
                        lemma_slide_part_inj(e, dv);
                    }
                },
                None => {
                    assert(nv[k as int] == Some(n@));
                },
            },
            None => {
                assert(nv[k as int] == None::<Seq<char>>);
            },
        }
        assert(forall|e: Seq<char>|
            is_slide_number(e) && nv[k as int] == Some(slide_part(e)) ==> rem@.len() > 0
                && rem@.last()@ == e);
        proof {
            assert forall|d: Seq<char>|
                is_slide_number(d) && nv.take(k + 1).contains(Some(slide_part(d))) implies exists|
                j: int,
            | 0 <= j < rem.len() && #[trigger] rem@[j]@ == d by {
                let w = choose|w: int| 0 <= w < k + 1 && #[trigger] nv.take(k + 1)[w] == Some(slide_part(d));
                if w < k {
                    assert(nv.take(k as int)[w] == Some(slide_part(d)));
                    let j = choose|j: int| 0 <= j < r0.len() && #[trigger] r0[j]@ == d;
                    assert(rem@[j] == r0[j]);
                } else {
                    assert(nv[k as int] == Some(slide_part(d)));
                    assert(rem@[rem.len() - 1]@ == d);
                }
            }
        }
        k = k + 1;
    }
    assert(nv.take(names.len() as int) =~= nv);
    // Selection: repeatedly take the smallest remaining number.
    let ghost mut order: Seq<Seq<char>> = seq![];
    let mut full: Vec<char> = Vec::new();
    while rem.len() > 0
        invariant
            forall|j: int| 0 <= j < rem.len() ==> has_slide(nv, #[trigger] rem@[j]@),
            forall|i: int, j: int| 0 <= i < j < order.len() ==> num_less(order[i], order[j]),
            forall|i: int, j: int|
                #![trigger order[i], rem@[j]]
                0 <= i < order.len() && 0 <= j < rem.len() ==> num_less(order[i], rem@[j]@),
            forall|i: int| 0 <= i < order.len() ==> has_slide(nv, #[trigger] order[i]),
            forall|d: Seq<char>|
                has_slide(nv, d) ==> order.contains(d) || exists|j: int|
                    0 <= j < rem.len() && #[trigger] rem@[j]@ == d,
            full@ == slides_text(pptx@, order),
        decreases rem.len(),
    {
        let mut best: usize = 0;
        let mut j: usize = 1;
        proof {
            lemma_lex_irrefl(rem@[0]@);
        }
        while j < rem.len()
            invariant
                best < rem.len(),
                1 <= j <= rem.len(),
                forall|i: int| 0 <= i < j ==> !num_less(#[trigger] rem@[i]@, rem@[best as int]@),
            decreases rem.len() - j,
        {
            if num_less_exec(&rem[j], &rem[best]) {
                proof {
                    assert forall|i: int| 0 <= i < j implies !num_less(
                        #[trigger] rem@[i]@,
                        rem@[j as int]@,
                    ) by {
                        let a = rem@[i]@;
                        let b = rem@[best as int]@;
                        let c = rem@[j as int]@;
                        assert(!num_less(a, b));
                        if num_less(a, c) && a.len() == c.len() && c.len() == b.len() {
                            lemma_lex_trans(a, c, b);
                        }
                    }
                }
                proof {
                    lemma_lex_irrefl(rem@[j as int]@);
                }
                best = j;
            }
            j = j + 1;
        }
        let m = crate::chars::sub_chars(&rem[best], 0, rem[best].len());
        assert(m@ =~= rem@[best as int]@);
        let ghost mv = m@;
        push_slide_block(&mut full, pptx, &m);
        // Keep the numbers other than `m`.
        let mut next: Vec<Vec<char>> = Vec::new();
        let mut q: usize = 0;
        while q < rem.len()
            invariant
                q <= rem.len(),
                mv == rem@[best as int]@,
                m@ == mv,
                best < rem.len(),
                next.len() + (if q > best {
                    1int
                } else {
                    0int
                }) <= q,
                forall|i: int| 0 <= i < rem.len() ==> !num_less(#[trigger] rem@[i]@, mv),
                forall|i: int| 0 <= i < next.len() ==> #[trigger] next@[i]@ != mv && num_less(mv, next@[i]@)
                    && exists|t: int| 0 <= t < rem.len() && rem@[t]@ == next@[i]@,
                forall|t: int| 0 <= t < q && #[trigger] rem@[t]@ != mv ==> exists|i: int|
                    0 <= i < next.len() && next@[i]@ == rem@[t]@,
            decreases rem.len() - q,
        {
            if !chars_equal(&rem[q], &m) {
                let c = crate::chars::sub_chars(&rem[q], 0, rem[q].len());
                assert(c@ =~= rem@[q as int]@);
                proof {
                    let a = rem@[q as int]@;
                    assert(!num_less(a, mv));
                    if a.len() == mv.len() {
                        lemma_lex_total(a, mv);
                    }
                }
                let ghost n0 = next@;
                next.push(c);
                proof {
                    assert forall|t: int| 0 <= t < q + 1 && #[trigger] rem@[t]@ != mv implies exists|
                        i: int,
                    | 0 <= i < next.len() && next@[i]@ == rem@[t]@ by {
                        if t < q {
                            let i = choose|i: int| 0 <= i < n0.len() && n0[i]@ == rem@[t]@;
                            assert(next@[i] == n0[i]);
                        } else {
                            assert(next@[next.len() - 1]@ == rem@[t]@);
                        }
                    }
                    assert forall|i: int| 0 <= i < next.len() implies #[trigger] next@[i]@ != mv
                        && num_less(mv, next@[i]@) && exists|t: int|
                        0 <= t < rem.len() && rem@[t]@ == next@[i]@ by {
                        if i < n0.len() {
                            assert(next@[i] == n0[i]);
                        } else {
                            assert(rem@[q as int]@ == next@[i]@);
                        }
                    }
                }
            }
            q = q + 1;
        }
        proof {
            let o0 = order;
            order = order.push(mv);
            assert(order.drop_last() =~= o0);
            assert forall|d: Seq<char>| has_slide(nv, d) implies order.contains(d) || exists|
                j: int,
            | 0 <= j < next.len() && #[trigger] next@[j]@ == d by {
                if o0.contains(d) {
                    let w = choose|w: int| 0 <= w < o0.len() && #[trigger] o0[w] == d;
                    assert(order[w] == d);
                } else {
                    let t = choose|t: int| 0 <= t < rem.len() && #[trigger] rem@[t]@ == d;
                    if d == mv {
                        assert(order[order.len() - 1] == d);
                    } else {
                        let i = choose|i: int| 0 <= i < next.len() && next@[i]@ == rem@[t]@;
                        assert(next@[i]@ == d);
                    }
                }
            }
            assert forall|i: int, j: int|
                #![trigger order[i], next@[j]]
                0 <= i < order.len() && 0 <= j < next.len() implies num_less(order[i], next@[j]@) by {
                let t = choose|t: int| 0 <= t < rem.len() && rem@[t]@ == next@[j]@;
                if i < o0.len() {
                    assert(order[i] == o0[i]);
                    assert(num_less(o0[i], rem@[t]@));
                }
            }
            assert forall|j: int| 0 <= j < next.len() implies has_slide(nv, #[trigger] next@[j]@) by {
                let t = choose|t: int| 0 <= t < rem.len() && rem@[t]@ == next@[j]@;
                assert(has_slide(nv, rem@[t]@));
            }
            assert forall|i: int, j: int| 0 <= i < j < order.len() implies num_less(
                order[i],
                order[j],
            ) by {
                if j < o0.len() {
                    assert(order[i] == o0[i] && order[j] == o0[j]);
                } else {
                    assert(order[i] == o0[i]);
                    assert(num_less(o0[i], rem@[best as int]@));
                }
            }
            assert forall|i: int| 0 <= i < order.len() implies has_slide(nv, #[trigger] order[i]) by {
                if i < o0.len() {
                    assert(order[i] == o0[i]);
                }
            }
        }
        rem = next;
    }
    proof {
        assert forall|d: Seq<char>| has_slide(nv, d) <==> order.contains(d) by {
            if order.contains(d) {
                let w = choose|w: int| 0 <= w < order.len() && #[trigger] order[w] == d;
                assert(has_slide(nv, order[w]));
            }
        }
        assert(slide_order(nv, order));
    }
    (full, Ghost(order))
}

/// The text of a PPTX presentation (the bytes of the file): for every
/// slide part `ppt/slides/slide{n}.xml` of the archive (`n` in decimal,
/// without leading zero), in increasing order of `n`, a `--- Slide n ---`
/// header and the slide's text; trimmed (the order is unique, see
/// `law_slide_order_unique`). An
/// error when the archive cannot be opened or no slide holds text.
pub fn pptx_to_text(pptx: &[u8]) -> (r: Result<String, OfficeError>)
    ensures
        zip_names_of(pptx@) is Err ==> office_result(r) == Err::<Seq<char>, OfficeErrorView>(
            OfficeErrorView::InvalidArchive(zip_names_of(pptx@)->Err_0),
        ),
        zip_names_of(pptx@) is Ok ==> exists|o: Seq<Seq<char>>|
            #[trigger] slide_order(zip_names_of(pptx@)->Ok_0, o) && office_result(r)
                == pptx_result(pptx@, o),
{
    let names = match zip_entry_names(pptx) {
        Ok(v) => v,
        Err(m) => {
            let r = Err(OfficeError::InvalidArchive(m));
            assert(office_result(r) == Err::<Seq<char>, OfficeErrorView>(
                OfficeErrorView::InvalidArchive(m@),
            ));
            return r;
        },
    };
    let ghost nv = names@.map_values(|o: Option<String>| opt_view(o));
    let (full, Ghost(order)) = ordered_slides_text(pptx, &names);
    let r = if full.len() == 0 {
        Err(OfficeError::NoSlideText)
    } else {
        let t = trim_chars(&full);
        Ok(chars_to_string(&t))
    };
    assert(office_result(r) == pptx_result(pptx@, order));
    assert(slide_order(nv, order));
    assert(zip_names_of(pptx@) == Ok::<Seq<Option<Seq<char>>>, Seq<char>>(nv));
    assert(slide_order(zip_names_of(pptx@)->Ok_0, order));
    assert(office_result(r) == pptx_result(pptx@, order));
    r
}

// ── DOCX → HTML ──────────────────────────────────────────────────────────────

/// The paragraphs of document text: its non-blank lines, escaped, each in
/// `<p>`.
pub open spec fn docx_paragraphs(ls: Seq<Seq<char>>) -> Seq<Seq<char>>
    decreases ls.len(),
{
    if ls.len() == 0 {
        seq![]
    } else if trim(ls.last()).len() == 0 {
        docx_paragraphs(ls.drop_last())
    } else {
        docx_paragraphs(ls.drop_last()).push("<p>"@ + html_escape_spec(ls.last()) + "</p>"@)
    }
}

/// The HTML page for document text.
pub open spec fn docx_html(text: Seq<char>) -> Seq<char> {
    "<!DOCTYPE html>\n<html>\n<head><meta charset=\"UTF-8\"><style>body{font-family:sans-serif;max-width:800px;margin:auto;padding:2rem;line-height:1.6}</style></head>\n<body>\n"@
        + join(docx_paragraphs(lines_of(text)), seq!['\n']) + "\n</body>\n</html>"@
}

/// The HTML page for the text of a DOCX document (see `docx_html`).
pub fn docx_to_html(text: &str) -> (r: String)
    ensures
        r@ == docx_html(text@),
{
    let cs = str_chars(text);
    let lines = split_lines(&cs);
    let ghost lv = seqs_of(lines@);
    let mut parts: Vec<Vec<char>> = Vec::new();
    let mut i: usize = 0;
    assert(lv.take(0) =~= Seq::<Seq<char>>::empty());
    assert(seqs_of(parts@) =~= Seq::<Seq<char>>::empty());
    while i < lines.len()
        invariant
            i <= lines.len(),
            lv == seqs_of(lines@),
            seqs_of(parts@) == docx_paragraphs(lv.take(i as int)),
        decreases lines.len() - i,
    {
        assert(lv.take(i + 1).drop_last() =~= lv.take(i as int));
        assert(lv.take(i + 1).last() == lines@[i as int]@);
        let l = &lines[i];
        if trim_chars(l).len() > 0 {
            let mut piece: Vec<char> = Vec::new();
            push_str(&mut piece, "<p>");
            escape_into(&mut piece, l);
            push_str(&mut piece, "</p>");
            push_seq(&mut parts, piece);
        }
        i = i + 1;
    }
    assert(lv.take(lines.len() as int) =~= lv);
    let nl: Vec<char> = vec!['\n'];
    assert(nl@ =~= seq!['\n']);
    let body = join_chars(&parts, &nl);
    let mut out: Vec<char> = Vec::new();
    push_str(
        &mut out,
        "<!DOCTYPE html>\n<html>\n<head><meta charset=\"UTF-8\"><style>body{font-family:sans-serif;max-width:800px;margin:auto;padding:2rem;line-height:1.6}</style></head>\n<body>\n",
    );
    extend_chars(&mut out, &body);
    push_str(&mut out, "\n</body>\n</html>");
    chars_to_string(&out)
}

// ── Sheets → CSV / TXT / JSON ────────────────────────────────────────────────

/// The views of a row of cells.
pub open spec fn row_view(r: Vec<String>) -> Seq<Seq<char>> {
    r@.map_values(|c: String| c@)
}

/// The views of the rows of a sheet.
pub open spec fn rows_view(rows: Vec<Vec<String>>) -> Seq<Seq<Seq<char>>> {
    rows@.map_values(|r: Vec<String>| row_view(r))
}

/// The view of a named sheet.
pub open spec fn sheet_view(s: (String, Vec<Vec<String>>)) -> (Seq<char>, Seq<Seq<Seq<char>>>) {
    (s.0@, rows_view(s.1))
}

pub open spec fn sheets_view(v: Seq<(String, Vec<Vec<String>>)>) -> Seq<
    (Seq<char>, Seq<Seq<Seq<char>>>),
> {
    v.map_values(|s: (String, Vec<Vec<String>>)| sheet_view(s))
}

/// The CSV line of a row: each cell as a CSV field, joined by commas.
pub open spec fn csv_row_line(row: Seq<Seq<char>>) -> Seq<char> {
    join(row.map_values(|c: Seq<char>| csv_field(c)), seq![','])
}

/// The CSV text of rows: one line per row, each ended by a newline.
pub open spec fn csv_text(rows: Seq<Seq<Seq<char>>>) -> Seq<char>
    decreases rows.len(),
{
    if rows.len() == 0 {
        seq![]
    } else {
        csv_text(rows.drop_last()) + csv_row_line(rows.last()).push('\n')
    }
}

/// The message when a workbook has no sheet.
pub open spec fn no_sheet_message() -> Seq<char> {
    "Aucune feuille trouvée"@
}

fn push_joined(out: &mut Vec<char>, cells: &Vec<String>, sep: char)
    ensures
        final(out)@ == old(out)@ + join(cells@.map_values(|c: String| c@), seq![sep]),
{
    let ghost o = out@;
    let ghost cv = cells@.map_values(|c: String| c@);
    let mut i: usize = 0;
    while i < cells.len()
        invariant
            i <= cells.len(),
            cv == cells@.map_values(|c: String| c@),
            out@ == o + join(cv.take(i as int), seq![sep]),
        decreases cells.len() - i,
    {
        assert(cv.take(i + 1).drop_last() =~= cv.take(i as int));
        if i > 0 {
            out.push(sep);
        } else {
            assert(cv.take(1) =~= seq![cv[0]]);
        }
        push_str(out, cells[i].as_str());
        i = i + 1;
        assert(out@ =~= o + join(cv.take(i as int), seq![sep]));
    }
    assert(cv.take(cells.len() as int) =~= cv);
}

/// The CSV text of the first sheet (see `csv_text`); an error message when
/// there is no sheet.
pub fn excel_to_csv(sheets: &Vec<(String, Vec<Vec<String>>)>) -> (r: Result<String, String>)
    ensures
        sheets.len() == 0 ==> r is Err && r->Err_0@ == no_sheet_message(),
        sheets.len() > 0 ==> r is Ok && r->Ok_0@ == csv_text(rows_view(sheets@[0].1)),
{
    if sheets.len() == 0 {
        let mut m: Vec<char> = Vec::new();
        push_str(&mut m, "Aucune feuille trouvée");
        return Err(chars_to_string(&m));
    }
    let rows = &sheets[0].1;
    let ghost rv = rows_view(*rows);
    let mut out: Vec<char> = Vec::new();
    let mut i: usize = 0;
    while i < rows.len()
        invariant
            i <= rows.len(),
            rv == rows_view(*rows),
            out@ == csv_text(rv.take(i as int)),
        decreases rows.len() - i,
    {
        assert(rv.take(i + 1).drop_last() =~= rv.take(i as int));
        assert(rv.take(i + 1).last() == row_view(rows@[i as int]));
        let row = &rows[i];
        let mut cells: Vec<String> = Vec::new();
        let mut k: usize = 0;
        let ghost cv = row_view(*row).map_values(|c: Seq<char>| csv_field(c));
        while k < row.len()
            invariant
                k <= row.len(),
                cv == row_view(*row).map_values(|c: Seq<char>| csv_field(c)),
                cells@.map_values(|c: String| c@) == cv.take(k as int),
            decreases row.len() - k,
        {
            let ghost c0 = cells@;
            let f = csv_cell(row[k].as_str());
            cells.push(f);
            assert(cells@.map_values(|c: String| c@) =~= c0.map_values(|c: String| c@).push(f@));
            assert(cv.take(k + 1) =~= cv.take(k as int).push(cv[k as int]));
            k = k + 1;
        }
        assert(cv.take(row.len() as int) =~= cv);
        push_joined(&mut out, &cells, ',');
        out.push('\n');
        i = i + 1;
    }
    assert(rv.take(rows.len() as int) =~= rv);
    Ok(chars_to_string(&out))
}

/// The text block of a sheet: a `=== name ===` line, then its rows with
/// cells separated by tabs, then a blank line.
pub open spec fn sheet_block(name: Seq<char>, rows: Seq<Seq<Seq<char>>>) -> Seq<char> {
    "=== "@ + name + " ===\n"@ + tab_rows(rows) + seq!['\n']
}

/// Rows with cells separated by tabs, each ended by a newline.
pub open spec fn tab_rows(rows: Seq<Seq<Seq<char>>>) -> Seq<char>
    decreases rows.len(),
{
    if rows.len() == 0 {
        seq![]
    } else {
        tab_rows(rows.drop_last()) + join(rows.last(), seq!['\t']).push('\n')
    }
}

/// The blocks of all sheets, in order.
pub open spec fn sheets_text(sheets: Seq<(Seq<char>, Seq<Seq<Seq<char>>>)>) -> Seq<char>
    decreases sheets.len(),
{
    if sheets.len() == 0 {
        seq![]
    } else {
        sheets_text(sheets.drop_last()) + sheet_block(sheets.last().0, sheets.last().1)
    }
}

/// The text of all sheets (see `sheets_text`).
pub fn excel_to_txt(sheets: &Vec<(String, Vec<Vec<String>>)>) -> (r: String)
    ensures
        r@ == sheets_text(sheets_view(sheets@)),
{
    let ghost sv = sheets_view(sheets@);
    let mut out: Vec<char> = Vec::new();
    let mut i: usize = 0;
    while i < sheets.len()
        invariant
            i <= sheets.len(),
            sv == sheets_view(sheets@),
            out@ == sheets_text(sv.take(i as int)),
        decreases sheets.len() - i,
    {
        assert(sv.take(i + 1).drop_last() =~= sv.take(i as int));
        assert(sv.take(i + 1).last() == sheet_view(sheets@[i as int]));
        let ghost o = out@;
        push_str(&mut out, "=== ");
        push_str(&mut out, sheets[i].0.as_str());
        push_str(&mut out, " ===\n");
        let ghost head = out@;
        let rows = &sheets[i].1;
        let ghost rv = rows_view(*rows);
        let mut k: usize = 0;
        while k < rows.len()
            invariant
                k <= rows.len(),
                rv == rows_view(*rows),
                out@ == head + tab_rows(rv.take(k as int)),
            decreases rows.len() - k,
        {
            assert(rv.take(k + 1).drop_last() =~= rv.take(k as int));
            assert(rv.take(k + 1).last() == row_view(rows@[k as int]));
            push_joined(&mut out, &rows[k], '\t');
            out.push('\n');
            k = k + 1;
            assert(out@ =~= head + tab_rows(rv.take(k as int)));
        }
        assert(rv.take(rows.len() as int) =~= rv);
        out.push('\n');
        assert(out@ =~= o + sheet_block(sv[i as int].0, sv[i as int].1));
        i = i + 1;
    }
    assert(sv.take(sheets.len() as int) =~= sv);
    chars_to_string(&out)
}

/// CSV text made readable: every comma becomes a tab.
pub open spec fn commas_to_tabs(s: Seq<char>) -> Seq<char> {
    s.map_values(|c: char| if c == ',' { '\t' } else { c })
}

/// Turns CSV text into tab-separated text (every `,` becomes a tab).
pub fn csv_to_txt(content: &str) -> (r: String)
    ensures
        r@ == commas_to_tabs(content@),
{
    let cs = str_chars(content);
    let mut out: Vec<char> = Vec::new();
    let mut i: usize = 0;
    while i < cs.len()
        invariant
            i <= cs.len(),
            out@ == commas_to_tabs(cs@.take(i as int)),
        decreases cs.len() - i,
    {
        if cs[i] == ',' {
            out.push('\t');
        } else {
            out.push(cs[i]);
        }
        i = i + 1;
        assert(out@ =~= commas_to_tabs(cs@.take(i as int)));
    }
    assert(cs@.take(cs.len() as int) =~= cs@);
    chars_to_string(&out)
}

/// Tab-separated text holds no comma.
pub proof fn law_csv_to_txt_no_comma(s: Seq<char>)
    ensures
        !contains_char(commas_to_tabs(s), ','),
{
}

// ── JSON output ──────────────────────────────────────────────────────────────

/// Records as lists of (key, text) members.
pub open spec fn records_pairs_view(v: Seq<Vec<(String, String)>>) -> Seq<
    Seq<(Seq<char>, Seq<char>)>,
> {
    v.map_values(|r: Vec<(String, String)>| r@.map_values(|p: (String, String)| (p.0@, p.1@)))
}

/// Name for the text `serde_json::to_string_pretty` gives for an array of
/// objects whose members are built, in order, from the given pairs (a later
/// member replacing an earlier one of the same key), all values strings.
pub uninterp spec fn pretty_records_of(records: Seq<Seq<(Seq<char>, Seq<char>)>>) -> Result<
    Seq<char>,
    Seq<char>,
>;

/// Name for the text `serde_json::to_string_pretty` gives for an object
/// mapping each sheet name to an array of such objects.
pub uninterp spec fn pretty_sheets_of(
    sheets: Seq<(Seq<char>, Seq<Seq<(Seq<char>, Seq<char>)>>)>,
) -> Result<Seq<char>, Seq<char>>;

/// Builds the JSON array of objects with serde_json and prints it with
/// `to_string_pretty`; claims only that the outcome is a function of the
/// records.
#[verifier::external_body]
fn pretty_records(records: Vec<Vec<(String, String)>>) -> (r: Result<String, String>)
    ensures
        match r {
            Ok(s) => pretty_records_of(records_pairs_view(records@)) == Ok::<Seq<char>, Seq<char>>(
                s@,
            ),
            Err(e) => pretty_records_of(records_pairs_view(records@)) == Err::<
                Seq<char>,
                Seq<char>,
            >(e@),
        },
{
    let values: Vec<serde_json::Value> = records.into_iter().map(|r| serde_json::Value::Object(
        r.into_iter().map(|(k, v)| (k, serde_json::Value::String(v))).collect(),
    )).collect();
    serde_json::to_string_pretty(&values).map_err(|e| e.to_string())
}

pub open spec fn sheet_records_view(v: Seq<(String, Vec<Vec<(String, String)>>)>) -> Seq<
    (Seq<char>, Seq<Seq<(Seq<char>, Seq<char>)>>),
> {
    v.map_values(|s: (String, Vec<Vec<(String, String)>>)| (s.0@, records_pairs_view(s.1@)))
}

/// Builds the JSON object of sheets with serde_json and prints it with
/// `to_string_pretty`; claims only that the outcome is a function of the
/// sheets.
#[verifier::external_body]
fn pretty_sheets(sheets: Vec<(String, Vec<Vec<(String, String)>>)>) -> (r: Result<String, String>)
    ensures
        match r {
            Ok(s) => pretty_sheets_of(sheet_records_view(sheets@)) == Ok::<Seq<char>, Seq<char>>(
                s@,
            ),
            Err(e) => pretty_sheets_of(sheet_records_view(sheets@)) == Err::<
                Seq<char>,
                Seq<char>,
            >(e@),
        },
{
    let map: serde_json::Map<String, serde_json::Value> = sheets.into_iter().map(|(n, rs)| (n,
    serde_json::Value::Array(rs.into_iter().map(|r| serde_json::Value::Object(
        r.into_iter().map(|(k, v)| (k, serde_json::Value::String(v))).collect(),
    )).collect()))).collect();
    serde_json::to_string_pretty(&serde_json::Value::Object(map)).map_err(|e| e.to_string())
}

/// The members of a sheet row: each header with the cell below it (empty
/// when the row is shorter).
pub open spec fn row_members(headers: Seq<Seq<char>>, row: Seq<Seq<char>>) -> Seq<
    (Seq<char>, Seq<char>),
> {
    Seq::new(headers.len(), |i: int| (headers[i], if i < row.len() { row[i] } else { seq![] }))
}

/// The records of a sheet: the first row gives the keys, each further row
/// one record.
pub open spec fn sheet_records(rows: Seq<Seq<Seq<char>>>) -> Seq<Seq<(Seq<char>, Seq<char>)>> {
    if rows.len() == 0 {
        seq![]
    } else {
        rows.skip(1).map_values(|r: Seq<Seq<char>>| row_members(rows[0], r))
    }
}

/// The JSON of a workbook: an object mapping each sheet name to the array
/// of its records (see `sheet_records`).
pub open spec fn excel_json(sheets: Seq<(Seq<char>, Seq<Seq<Seq<char>>>)>) -> Result<
    Seq<char>,
    Seq<char>,
> {
    match pretty_sheets_of(
        sheets.map_values(|s: (Seq<char>, Seq<Seq<Seq<char>>>)| (s.0, sheet_records(s.1))),
    ) {
        Ok(t) => Ok(t),
        Err(e) => Err("JSON: "@ + e),
    }
}

fn clone_string(s: &String) -> (r: String)
    ensures
        r@ == s@,
{
    let cs = str_chars(s.as_str());
    chars_to_string(&cs)
}

/// The records of each sheet of a workbook, by sheet name (see
/// `sheet_records`).
pub fn excel_records(sheets: &Vec<(String, Vec<Vec<String>>)>) -> (r: Vec<
    (String, Vec<Vec<(String, String)>>),
>)
    ensures
        sheet_records_view(r@) == sheets_view(sheets@).map_values(
            |s: (Seq<char>, Seq<Seq<Seq<char>>>)| (s.0, sheet_records(s.1)),
        ),
{
    let ghost sv = sheets_view(sheets@);
    let mut built: Vec<(String, Vec<Vec<(String, String)>>)> = Vec::new();
    let mut i: usize = 0;
    while i < sheets.len()
        invariant
            i <= sheets.len(),
            sv == sheets_view(sheets@),
            sheet_records_view(built@) == sv.map_values(
                |s: (Seq<char>, Seq<Seq<Seq<char>>>)| (s.0, sheet_records(s.1)),
            ).take(i as int),
        decreases sheets.len() - i,
    {
        let rows = &sheets[i].1;
        let ghost rv = rows_view(*rows);
        let mut recs: Vec<Vec<(String, String)>> = Vec::new();
        if rows.len() > 0 {
            let headers = &rows[0];
            let ghost hv = row_view(*headers);
            let mut j: usize = 1;
            while j < rows.len()
                invariant
                    1 <= j <= rows.len(),
                    rv == rows_view(*rows),
                    hv == row_view(*headers),
                    hv == rv[0],
                    records_pairs_view(recs@) == rv.skip(1).map_values(
                        |r: Seq<Seq<char>>| row_members(hv, r),
                    ).take(j - 1),
                decreases rows.len() - j,
            {
                let row = &rows[j];
                let mut rec: Vec<(String, String)> = Vec::new();
                let mut k: usize = 0;
                while k < headers.len()
                    invariant
                        k <= headers.len(),
                        hv == row_view(*headers),
                        rec@.map_values(|p: (String, String)| (p.0@, p.1@)) == row_members(
                            hv,
                            row_view(*row),
                        ).take(k as int),
                    decreases headers.len() - k,
                {
                    let key = clone_string(&headers[k]);
                    let val = if k < row.len() {
                        clone_string(&row[k])
                    } else {
                        String::new()
                    };
                    let ghost r0 = rec@;
                    let ghost rm = row_members(hv, row_view(*row));
                    assert(key@ == hv[k as int]);
                    assert(k < row.len() ==> val@ == row_view(*row)[k as int]);
                    assert(rm[k as int] == (key@, val@));
                    rec.push((key, val));
                    assert(rec@.map_values(|p: (String, String)| (p.0@, p.1@)) =~= r0.map_values(
                        |p: (String, String)| (p.0@, p.1@),
                    ).push(rm[k as int]));
                    assert(rm.take(k + 1) =~= rm.take(k as int).push(rm[k as int]));
                    k = k + 1;
                }
                assert(row_members(hv, row_view(*row)).take(headers.len() as int) =~= row_members(
                    hv,
                    row_view(*row),
                ));
                let ghost q0 = recs@;
                let ghost all = rv.skip(1).map_values(|r: Seq<Seq<char>>| row_members(hv, r));
                let ghost recv = rec@.map_values(|p: (String, String)| (p.0@, p.1@));
                recs.push(rec);
                assert(rv.skip(1)[j - 1] == row_view(rows@[j as int]));
                assert(all[j - 1] == recv);
                assert(records_pairs_view(recs@) =~= records_pairs_view(q0).push(recv));
                assert(all.take(j as int) =~= all.take(j - 1).push(all[j - 1]));
                j = j + 1;
            }
            assert(rv.skip(1).map_values(|r: Seq<Seq<char>>| row_members(hv, r)).take(
                rows.len() - 1,
            ) =~= rv.skip(1).map_values(|r: Seq<Seq<char>>| row_members(hv, r)));
        } else {
            assert(records_pairs_view(recs@) =~= sheet_records(rv));
        }
        assert(records_pairs_view(recs@) == sheet_records(rv));
        let ghost b0 = built@;
        let ghost target = sv.map_values(
            |s: (Seq<char>, Seq<Seq<Seq<char>>>)| (s.0, sheet_records(s.1)),
        );
        assert(sv[i as int] == sheet_view(sheets@[i as int]));
        let name = clone_string(&sheets[i].0);
        let ghost nr = (name@, records_pairs_view(recs@));
        built.push((name, recs));
        assert(target[i as int] == nr);
        assert(sheet_records_view(built@) =~= sheet_records_view(b0).push(nr));
        assert(target.take(i + 1) =~= target.take(i as int).push(target[i as int]));
        assert(sheet_records_view(built@) =~= sv.map_values(
            |s: (Seq<char>, Seq<Seq<Seq<char>>>)| (s.0, sheet_records(s.1)),
        ).take(i + 1));
        i = i + 1;
    }
    assert(sv.map_values(|s: (Seq<char>, Seq<Seq<Seq<char>>>)| (s.0, sheet_records(s.1))).take(
        sheets.len() as int,
    ) =~= sv.map_values(|s: (Seq<char>, Seq<Seq<Seq<char>>>)| (s.0, sheet_records(s.1))));
    built
}

/// The JSON of a workbook's sheets (see `excel_json`).
pub fn excel_to_json(sheets: &Vec<(String, Vec<Vec<String>>)>) -> (r: Result<String, String>)
    ensures
        match r {
            Ok(s) => excel_json(sheets_view(sheets@)) == Ok::<Seq<char>, Seq<char>>(s@),
            Err(e) => excel_json(sheets_view(sheets@)) == Err::<Seq<char>, Seq<char>>(e@),
        },
{
    let built = excel_records(sheets);
    match pretty_sheets(built) {
        Ok(t) => Ok(t),
        Err(e) => {
            let mut m: Vec<char> = Vec::new();
            push_str(&mut m, "JSON: ");
            push_str(&mut m, e.as_str());
            Err(chars_to_string(&m))
        },
    }
}

// ── CSV input ────────────────────────────────────────────────────────────────

/// Name for what the csv crate reads from a text with a flexible reader that
/// takes the first record as headers: the headers and the records, or
/// whether the headers failed and the error message.
pub uninterp spec fn csv_with_headers_of(content: Seq<char>) -> Result<
    (Seq<Seq<char>>, Seq<Seq<Seq<char>>>),
    (bool, Seq<char>),
>;

/// Name for what the csv crate reads from a text with a flexible reader
/// without headers: all records, or the message of the first bad record.
pub uninterp spec fn csv_rows_of(content: Seq<char>) -> Result<Seq<Seq<Seq<char>>>, Seq<char>>;

pub open spec fn strings_view(v: Vec<String>) -> Seq<Seq<char>> {
    v@.map_values(|c: String| c@)
}

/// Reads `content` with a flexible csv reader, the first record being the
/// headers; claims only that the outcome is a function of `content`.
#[verifier::external_body]
fn csv_read_with_headers(content: &str) -> (r: Result<(Vec<String>, Vec<Vec<String>>), (bool, String)>)
    ensures
        match r {
            Ok((h, rows)) => csv_with_headers_of(content@) == Ok::<
                (Seq<Seq<char>>, Seq<Seq<Seq<char>>>),
                (bool, Seq<char>),
            >((strings_view(h), rows_view(rows))),
            Err((b, e)) => csv_with_headers_of(content@) == Err::<
                (Seq<Seq<char>>, Seq<Seq<Seq<char>>>),
                (bool, Seq<char>),
            >((b, e@)),
        },
{
    let mut reader = csv::ReaderBuilder::new().flexible(true).from_reader(content.as_bytes());
    let headers: Vec<String> = reader.headers().map_err(|e| (true, e.to_string()))?.iter().map(
        String::from,
    ).collect();
    let mut rows = Vec::new();
    for rec in reader.records() {
        rows.push(rec.map_err(|e| (false, e.to_string()))?.iter().map(String::from).collect());
    }
    Ok((headers, rows))
}

/// Reads `content` with a flexible csv reader without headers; claims only
/// that the outcome is a function of `content`.
#[verifier::external_body]
fn csv_read_rows(content: &str) -> (r: Result<Vec<Vec<String>>, String>)
    ensures
        match r {
            Ok(rows) => csv_rows_of(content@) == Ok::<Seq<Seq<Seq<char>>>, Seq<char>>(rows_view(rows)),
            Err(e) => csv_rows_of(content@) == Err::<Seq<Seq<Seq<char>>>, Seq<char>>(e@),
        },
{
    let mut reader = csv::ReaderBuilder::new().flexible(true).has_headers(false).from_reader(
        content.as_bytes(),
    );
    let mut rows = Vec::new();
    for rec in reader.records() {
        rows.push(rec.map_err(|e| e.to_string())?.iter().map(String::from).collect());
    }
    Ok(rows)
}

/// The records of a CSV text (no header row), or the message of the first
/// bad record (`Ligne CSV: …`).
pub open spec fn csv_table(content: Seq<char>) -> Result<Seq<Seq<Seq<char>>>, Seq<char>> {
    match csv_rows_of(content) {
        Ok(rows) => Ok(rows),
        Err(e) => Err("Ligne CSV: "@ + e),
    }
}

/// Reads all records of a CSV text, without a header row (see `csv_table`).
pub fn csv_rows(content: &str) -> (r: Result<Vec<Vec<String>>, String>)
    ensures
        match r {
            Ok(rows) => csv_table(content@) == Ok::<Seq<Seq<Seq<char>>>, Seq<char>>(rows_view(rows)),
            Err(e) => csv_table(content@) == Err::<Seq<Seq<Seq<char>>>, Seq<char>>(e@),
        },
{
    match csv_read_rows(content) {
        Ok(rows) => Ok(rows),
        Err(e) => {
            let mut m: Vec<char> = Vec::new();
            push_str(&mut m, "Ligne CSV: ");
            push_str(&mut m, e.as_str());
            Err(chars_to_string(&m))
        },
    }
}

/// The members of a CSV record: the headers paired with its fields, as far
/// as both go.
pub open spec fn zip_members(headers: Seq<Seq<char>>, row: Seq<Seq<char>>) -> Seq<
    (Seq<char>, Seq<char>),
> {
    Seq::new(
        if headers.len() <= row.len() {
            headers.len()
        } else {
            row.len()
        },
        |i: int| (headers[i], row[i]),
    )
}

/// The JSON of a CSV text: an array with one object per record, keyed by
/// the header row; or the message of the reading or printing error.
pub open spec fn csv_json(content: Seq<char>) -> Result<Seq<char>, Seq<char>> {
    match csv_with_headers_of(content) {
        Err((true, e)) => Err("Headers CSV: "@ + e),
        Err((false, e)) => Err("Ligne CSV: "@ + e),
        Ok((headers, rows)) => match pretty_records_of(
            rows.map_values(|r: Seq<Seq<char>>| zip_members(headers, r)),
        ) {
            Ok(t) => Ok(t),
            Err(e) => Err("JSON: "@ + e),
        },
    }
}

/// The records of a CSV table: each row's fields paired with the headers,
/// as far as both go (see `zip_members`).
pub fn csv_records(headers: &Vec<String>, rows: &Vec<Vec<String>>) -> (r: Vec<Vec<(String, String)>>)
    ensures
        records_pairs_view(r@) == rows_view(*rows).map_values(
            |r: Seq<Seq<char>>| zip_members(strings_view(*headers), r),
        ),
{
    let ghost hv = strings_view(*headers);
    let ghost rv = rows_view(*rows);
    let ghost target = rv.map_values(|r: Seq<Seq<char>>| zip_members(hv, r));
    let mut recs: Vec<Vec<(String, String)>> = Vec::new();
    let mut j: usize = 0;
    while j < rows.len()
        invariant
            j <= rows.len(),
            hv == strings_view(*headers),
            rv == rows_view(*rows),
            target == rv.map_values(|r: Seq<Seq<char>>| zip_members(hv, r)),
            records_pairs_view(recs@) == target.take(j as int),
        decreases rows.len() - j,
    {
        let row = &rows[j];
        let ghost zm = zip_members(hv, row_view(*row));
        let mut rec: Vec<(String, String)> = Vec::new();
        let mut k: usize = 0;
        while k < headers.len() && k < row.len()
            invariant
                k <= headers.len(),
                k <= row.len(),
                hv == strings_view(*headers),
                zm == zip_members(hv, row_view(*row)),
                rec@.map_values(|p: (String, String)| (p.0@, p.1@)) == zm.take(k as int),
            decreases headers.len() - k,
        {
            let key = clone_string(&headers[k]);
            let val = clone_string(&row[k]);
            let ghost r0 = rec@;
            assert(zm[k as int] == (key@, val@));
            rec.push((key, val));
            assert(rec@.map_values(|p: (String, String)| (p.0@, p.1@)) =~= r0.map_values(
                |p: (String, String)| (p.0@, p.1@),
            ).push(zm[k as int]));
            assert(zm.take(k + 1) =~= zm.take(k as int).push(zm[k as int]));
            k = k + 1;
        }
        assert(zm.take(k as int) =~= zm);
        let ghost q0 = recs@;
        let ghost recv = rec@.map_values(|p: (String, String)| (p.0@, p.1@));
        recs.push(rec);
        assert(target[j as int] == recv);
        assert(records_pairs_view(recs@) =~= records_pairs_view(q0).push(recv));
        assert(target.take(j + 1) =~= target.take(j as int).push(target[j as int]));
        j = j + 1;
    }
    assert(target.take(rows.len() as int) =~= target);
    recs
}

/// Converts CSV text to JSON (see `csv_json`).
pub fn csv_to_json(content: &str) -> (r: Result<String, String>)
    ensures
        match r {
            Ok(s) => csv_json(content@) == Ok::<Seq<char>, Seq<char>>(s@),
            Err(e) => csv_json(content@) == Err::<Seq<char>, Seq<char>>(e@),
        },
{
    let (headers, rows) = match csv_read_with_headers(content) {
        Ok(x) => x,
        Err((is_header, e)) => {
            let mut m: Vec<char> = Vec::new();
            if is_header {
                push_str(&mut m, "Headers CSV: ");
            } else {
                push_str(&mut m, "Ligne CSV: ");
            }
            push_str(&mut m, e.as_str());
            return Err(chars_to_string(&m));
        },
    };
    let recs = csv_records(&headers, &rows);
    match pretty_records(recs) {
        Ok(t) => Ok(t),
        Err(e) => {
            let mut m: Vec<char> = Vec::new();
            push_str(&mut m, "JSON: ");
            push_str(&mut m, e.as_str());
            Err(chars_to_string(&m))
        },
    }
}

} // verus!
