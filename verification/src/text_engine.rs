//! Text layout and text extraction: wrapping for PDF pages, HTML to plain
//! text, and Markdown events to plain text.

use vstd::prelude::*;
use pulldown_cmark::Event;
use pulldown_cmark::TagEnd as End;
use crate::chars::{
    all_lack, chars_to_string, contains_char, has_prefix, join, join_chars, lacks, lemma_join_lack,
    lemma_lines_lack, lemma_words_lack, lines_of, lowercase_chars, lowercase_of,
    push_seq, seqs_of, split_lines, split_words, starts_with_chars, str_chars, trim, trim_chars,
    words_of,
};
use crate::wrap::{
    chunk_strings, chunks_of, law_wrapping_completes, strings_of, to_strings, wrap_chars, wrap_text,
    wrappable,
};

verus! {

/// Page height in millimetres (A4).
pub const PAGE_H_MM: usize = 297;

/// Page margin in millimetres.
pub const MARGIN_MM: usize = 18;

/// Line height in millimetres.
pub const LINE_H_MM: usize = 5;

/// Column limit of the monospace text layout, in characters.
pub const MAX_COLS: usize = 95;

/// Lines that fit on one page: `(297 - 2 * 18) / 5`, rounded down.
pub fn lines_per_page() -> (n: usize)
    ensures
        n == (PAGE_H_MM - 2 * MARGIN_MM) / LINE_H_MM as int,
        n == 52,
{
    (PAGE_H_MM - 2 * MARGIN_MM) / LINE_H_MM
}

/// Wraps `text` at 95 columns (characters of the monospace font), cutting
/// each long line at its last space before the limit, or at the limit when
/// there is none.
pub fn wrap_lines(text: &str) -> (r: Vec<String>)
    ensures
        strings_of(r@) == wrap_text(text@, MAX_COLS as nat)->0,
{
    proof {
        law_wrapping_completes(text@, MAX_COLS as nat);
    }
    let r = try_wrap_lines(text, MAX_COLS);
    r.unwrap()
}

/// Wraps `text` at `max` columns; `None` exactly where wrapping would never
/// end (a width of 0 with a line that is not empty).
pub fn try_wrap_lines(text: &str, max: usize) -> (r: Option<Vec<String>>)
    ensures
        r is Some <==> wrappable(text@, max as nat),
        r is Some ==> strings_of(r->0@) == wrap_text(text@, max as nat)->0,
{
    let cs = str_chars(text);
    match wrap_chars(&cs, max) {
        Some(lines) => Some(to_strings(&lines)),
        None => None,
    }
}

/// The wrapped lines of `text`, split into pages of `lines_per_page()`
/// lines; empty when there is no line at all.
pub fn text_pages(text: &str) -> (r: Vec<Vec<String>>)
    ensures
        r@.map_values(|p: Vec<String>| strings_of(p@)) == chunks_of(
            wrap_text(text@, MAX_COLS as nat)->0,
            52,
        ),
{
    let lines = wrap_lines(text);
    let pages = chunk_strings(&lines, lines_per_page());
    proof {
        lemma_chunks_map(lines@, 52);
    }
    assert(pages@.map_values(|p: Vec<String>| strings_of(p@)) =~= pages@.map_values(
        |c: Vec<String>| c@,
    ).map_values(|c: Seq<String>| strings_of(c)));
    pages
}

/// Chunking commutes with viewing the strings.
pub proof fn lemma_chunks_map(s: Seq<String>, n: nat)
    requires
        n > 0,
    ensures
        chunks_of(s, n).map_values(|c: Seq<String>| strings_of(c)) == chunks_of(strings_of(s), n),
    decreases s.len(),
{
    let f = |c: Seq<String>| strings_of(c);
    if s.len() == 0 {
        assert(chunks_of(s, n).map_values(f) =~= chunks_of(strings_of(s), n));
    } else if s.len() <= n {
        assert(chunks_of(s, n).map_values(f) =~= chunks_of(strings_of(s), n));
    } else {
        lemma_chunks_map(s.skip(n as int), n);
        assert(strings_of(s).skip(n as int) =~= strings_of(s.skip(n as int)));
        assert(strings_of(s).take(n as int) =~= strings_of(s.take(n as int)));
        assert(chunks_of(s, n).map_values(f) =~= seq![strings_of(s.take(n as int))] + chunks_of(
            s.skip(n as int),
            n,
        ).map_values(f));
        assert(chunks_of(s, n).map_values(f) =~= chunks_of(strings_of(s), n));
    }
}

// ── HTML → text ─────────────────────────────────────────────────────────────

/// What a closing `>` does, given the (trimmed, lowercased) tag text.
pub enum TagEffect {
    ScriptStart,
    ScriptEnd,
    Break,
    Nothing,
}

/// The effect of a tag: `script…` starts a script, `/script…` ends it, and
/// tags starting with `br`, `p`, `/p`, `div`, `/div` or `li` break the line.
pub open spec fn tag_effect(tag: Seq<char>) -> TagEffect {
    if has_prefix(tag, seq!['s', 'c', 'r', 'i', 'p', 't']) {
        TagEffect::ScriptStart
    } else if has_prefix(tag, seq!['/', 's', 'c', 'r', 'i', 'p', 't']) {
        TagEffect::ScriptEnd
    } else if has_prefix(tag, seq!['b', 'r']) || has_prefix(tag, seq!['p']) || has_prefix(
        tag,
        seq!['/', 'p'],
    ) || has_prefix(tag, seq!['d', 'i', 'v']) || has_prefix(tag, seq!['/', 'd', 'i', 'v'])
        || has_prefix(tag, seq!['l', 'i']) {
        TagEffect::Break
    } else {
        TagEffect::Nothing
    }
}

/// Scanner state: inside a tag, inside a script, the current tag text, the
/// text collected so far.
pub open spec fn html_step(st: (bool, bool, Seq<char>, Seq<char>), c: char) -> (
    bool,
    bool,
    Seq<char>,
    Seq<char>,
) {
    if c == '<' {
        (true, st.1, seq![], st.3)
    } else if c == '>' {
        match tag_effect(lowercase_of(trim(st.2))) {
            TagEffect::ScriptStart => (false, true, st.2, st.3),
            TagEffect::ScriptEnd => (false, false, st.2, st.3),
            TagEffect::Break => (false, st.1, st.2, st.3.push('\n')),
            TagEffect::Nothing => (false, st.1, st.2, st.3),
        }
    } else if st.0 {
        (st.0, st.1, st.2.push(c), st.3)
    } else if !st.1 {
        (st.0, st.1, st.2, st.3.push(c))
    } else {
        st
    }
}

pub open spec fn html_scan(s: Seq<char>) -> (bool, bool, Seq<char>, Seq<char>)
    decreases s.len(),
{
    if s.len() == 0 {
        (false, false, seq![], seq![])
    } else {
        html_step(html_scan(s.drop_last()), s.last())
    }
}

/// A line with its white-space runs collapsed to single spaces and its ends
/// trimmed (`split_whitespace` joined by `" "`).
pub open spec fn squeeze(l: Seq<char>) -> Seq<char> {
    join(words_of(l), seq![' '])
}

/// The squeezed lines that are not empty, in order.
pub open spec fn kept_lines(ls: Seq<Seq<char>>) -> Seq<Seq<char>>
    decreases ls.len(),
{
    if ls.len() == 0 {
        seq![]
    } else if squeeze(ls.last()).len() == 0 {
        kept_lines(ls.drop_last())
    } else {
        kept_lines(ls.drop_last()).push(squeeze(ls.last()))
    }
}

/// The visible text of an HTML document: tags removed, script content
/// dropped, a line break for `br`/`p`/`div`/`li` tags, white space
/// squeezed and blank lines dropped.
pub open spec fn html_text(html: Seq<char>) -> Seq<char> {
    join(kept_lines(lines_of(html_scan(html).3)), seq!['\n'])
}

proof fn lemma_scan_lacks_brackets(s: Seq<char>)
    ensures
        lacks(html_scan(s).3, '<'),
        lacks(html_scan(s).3, '>'),
    decreases s.len(),
{
    if s.len() > 0 {
        lemma_scan_lacks_brackets(s.drop_last());
        let st = html_scan(s.drop_last());
        let t = html_scan(s).3;
        assert forall|i: int| 0 <= i < t.len() implies t[i] != '<' && t[i] != '>' by {
            if i < st.3.len() {
                assert(t[i] == st.3[i]);
            }
        }
    }
}

proof fn lemma_kept_lines_lack(ls: Seq<Seq<char>>, c: char)
    requires
        c != ' ',
        all_lack(ls, c),
    ensures
        all_lack(kept_lines(ls), c),
    decreases ls.len(),
{
    if ls.len() > 0 {
        let p = ls.drop_last();
        assert forall|k: int| 0 <= k < p.len() implies lacks(#[trigger] p[k], c) by {
            assert(p[k] == ls[k]);
        }
        lemma_kept_lines_lack(p, c);
        assert(lacks(ls.last(), c)) by {
            assert(ls[ls.len() - 1] == ls.last());
        }
        lemma_words_lack(ls.last(), c);
        lemma_join_lack(words_of(ls.last()), seq![' '], c);
        let q = kept_lines(ls);
        let kp = kept_lines(p);
        assert forall|k: int| 0 <= k < q.len() implies lacks(#[trigger] q[k], c) by {
            if k < kp.len() {
                assert(q[k] == kp[k]);
            }
        }
    }
}

/// The visible text of an HTML document holds no markup: neither `<` nor
/// `>` survives, whatever the input.
pub proof fn law_html_text_has_no_markup(html: Seq<char>)
    ensures
        !contains_char(html_text(html), '<'),
        !contains_char(html_text(html), '>'),
{
    lemma_scan_lacks_brackets(html);
    let t = html_scan(html).3;
    lemma_lines_lack(t, '<');
    lemma_lines_lack(t, '>');
    lemma_kept_lines_lack(lines_of(t), '<');
    lemma_kept_lines_lack(lines_of(t), '>');
    lemma_join_lack(kept_lines(lines_of(t)), seq!['\n'], '<');
    lemma_join_lack(kept_lines(lines_of(t)), seq!['\n'], '>');
}

proof fn lemma_html_scan_push(s: Seq<char>, c: char)
    ensures
        html_scan(s.push(c)) == html_step(html_scan(s), c),
{
    assert(s.push(c).drop_last() =~= s);
}

/// Reading `<` and then tag text `t` leaves the scanner inside a tag that
/// holds exactly `t`, with the script state and the text so far unchanged.
proof fn lemma_html_tag_text(s: Seq<char>, t: Seq<char>)
    requires
        !contains_char(t, '<'),
        !contains_char(t, '>'),
    ensures
        html_scan(s.push('<') + t) == (true, html_scan(s).1, t, html_scan(s).3),
    decreases t.len(),
{
    if t.len() == 0 {
        assert(s.push('<') + t =~= s.push('<'));
        lemma_html_scan_push(s, '<');
        assert(t =~= Seq::<char>::empty());
    } else {
        let u = t.drop_last();
        assert(!contains_char(u, '<') && !contains_char(u, '>')) by {
            assert forall|i: int| 0 <= i < u.len() implies u[i] == t[i] by {}
        }
        lemma_html_tag_text(s, u);
        assert(s.push('<') + t =~= (s.push('<') + u).push(t.last()));
        assert(t.last() == t[t.len() - 1]);
        lemma_html_scan_push(s.push('<') + u, t.last());
        assert(u.push(t.last()) =~= t);
    }
}

/// A tag whose trimmed, lowercased text starts with `br`, `p`, `/p`,
/// `div`, `/div` or `li` ends the current line: after `s`, reading
/// `<t>` adds exactly one line break to the text and leaves the scanner
/// outside any tag with its script state unchanged.
pub proof fn law_block_tags_break_lines(s: Seq<char>, t: Seq<char>)
    requires
        !contains_char(t, '<'),
        !contains_char(t, '>'),
        has_prefix(lowercase_of(trim(t)), seq!['b', 'r']) || has_prefix(
            lowercase_of(trim(t)),
            seq!['p'],
        ) || has_prefix(lowercase_of(trim(t)), seq!['/', 'p']) || has_prefix(
            lowercase_of(trim(t)),
            seq!['d', 'i', 'v'],
        ) || has_prefix(lowercase_of(trim(t)), seq!['/', 'd', 'i', 'v']) || has_prefix(
            lowercase_of(trim(t)),
            seq!['l', 'i'],
        ),
    ensures
        html_scan(s.push('<') + t.push('>')).3 == html_scan(s).3.push('\n'),
        html_scan(s.push('<') + t.push('>')).1 == html_scan(s).1,
        !html_scan(s.push('<') + t.push('>')).0,
{
    lemma_html_tag_text(s, t);
    assert(s.push('<') + t.push('>') =~= (s.push('<') + t).push('>'));
    lemma_html_scan_push(s.push('<') + t, '>');
    let tag = lowercase_of(trim(t));
    if tag.len() > 0 {
        assert(tag[0] == tag[0]);
    }
    if tag.len() > 1 {
        assert(tag[1] == tag[1]);
    }
}

/// A tag that is neither a script tag nor a line-breaking one adds nothing
/// to the text: after `s`, reading `<t>` leaves the text and the script
/// state as they were.
pub proof fn law_other_tags_add_nothing(s: Seq<char>, t: Seq<char>)
    requires
        !contains_char(t, '<'),
        !contains_char(t, '>'),
        !has_prefix(lowercase_of(trim(t)), seq!['s', 'c', 'r', 'i', 'p', 't']),
        !has_prefix(lowercase_of(trim(t)), seq!['/', 's', 'c', 'r', 'i', 'p', 't']),
        !has_prefix(lowercase_of(trim(t)), seq!['b', 'r']),
        !has_prefix(lowercase_of(trim(t)), seq!['p']),
        !has_prefix(lowercase_of(trim(t)), seq!['/', 'p']),
        !has_prefix(lowercase_of(trim(t)), seq!['d', 'i', 'v']),
        !has_prefix(lowercase_of(trim(t)), seq!['/', 'd', 'i', 'v']),
        !has_prefix(lowercase_of(trim(t)), seq!['l', 'i']),
    ensures
        html_scan(s.push('<') + t.push('>')).3 == html_scan(s).3,
        html_scan(s.push('<') + t.push('>')).1 == html_scan(s).1,
        !html_scan(s.push('<') + t.push('>')).0,
{
    lemma_html_tag_text(s, t);
    assert(s.push('<') + t.push('>') =~= (s.push('<') + t).push('>'));
    lemma_html_scan_push(s.push('<') + t, '>');
}

/// A tag whose trimmed, lowercased text starts with `script` hides what
/// follows: the text stays as it was and the scanner is inside a script.
pub proof fn law_script_start_hides(s: Seq<char>, t: Seq<char>)
    requires
        !contains_char(t, '<'),
        !contains_char(t, '>'),
        has_prefix(lowercase_of(trim(t)), seq!['s', 'c', 'r', 'i', 'p', 't']),
    ensures
        html_scan(s.push('<') + t.push('>')).3 == html_scan(s).3,
        html_scan(s.push('<') + t.push('>')).1,
        !html_scan(s.push('<') + t.push('>')).0,
{
    lemma_html_tag_text(s, t);
    assert(s.push('<') + t.push('>') =~= (s.push('<') + t).push('>'));
    lemma_html_scan_push(s.push('<') + t, '>');
}

/// A tag whose trimmed, lowercased text starts with `/script` ends a
/// script: the text stays as it was and what follows is visible again.
pub proof fn law_script_end_shows(s: Seq<char>, t: Seq<char>)
    requires
        !contains_char(t, '<'),
        !contains_char(t, '>'),
        has_prefix(lowercase_of(trim(t)), seq!['/', 's', 'c', 'r', 'i', 'p', 't']),
    ensures
        html_scan(s.push('<') + t.push('>')).3 == html_scan(s).3,
        !html_scan(s.push('<') + t.push('>')).1,
        !html_scan(s.push('<') + t.push('>')).0,
{
    lemma_html_tag_text(s, t);
    assert(s.push('<') + t.push('>') =~= (s.push('<') + t).push('>'));
    lemma_html_scan_push(s.push('<') + t, '>');
    let tag = lowercase_of(trim(t));
    assert(tag[0] == '/');
}

/// A character outside tags is kept in the text unless it lies inside a
/// script, where it is dropped.
pub proof fn law_text_outside_tags(s: Seq<char>, c: char)
    requires
        c != '<',
        c != '>',
        !html_scan(s).0,
    ensures
        html_scan(s.push(c)).3 == if html_scan(s).1 {
            html_scan(s).3
        } else {
            html_scan(s).3.push(c)
        },
{
    lemma_html_scan_push(s, c);
}

fn tag_effect_of(tag: &Vec<char>) -> (e: TagEffect)
    ensures
        e == tag_effect(tag@),
{
    let script: [char; 6] = ['s', 'c', 'r', 'i', 'p', 't'];
    let end_script: [char; 7] = ['/', 's', 'c', 'r', 'i', 'p', 't'];
    let br: [char; 2] = ['b', 'r'];
    let p: [char; 1] = ['p'];
    let end_p: [char; 2] = ['/', 'p'];
    let div: [char; 3] = ['d', 'i', 'v'];
    let end_div: [char; 4] = ['/', 'd', 'i', 'v'];
    let li: [char; 2] = ['l', 'i'];
    assert(script@ =~= seq!['s', 'c', 'r', 'i', 'p', 't']);
    assert(end_script@ =~= seq!['/', 's', 'c', 'r', 'i', 'p', 't']);
    assert(br@ =~= seq!['b', 'r']);
    assert(p@ =~= seq!['p']);
    assert(end_p@ =~= seq!['/', 'p']);
    assert(div@ =~= seq!['d', 'i', 'v']);
    assert(end_div@ =~= seq!['/', 'd', 'i', 'v']);
    assert(li@ =~= seq!['l', 'i']);
    if starts_with_chars(tag, &script) {
        TagEffect::ScriptStart
    } else if starts_with_chars(tag, &end_script) {
        TagEffect::ScriptEnd
    } else if starts_with_chars(tag, &br) || starts_with_chars(tag, &p) || starts_with_chars(
        tag,
        &end_p,
    ) || starts_with_chars(tag, &div) || starts_with_chars(tag, &end_div) || starts_with_chars(
        tag,
        &li,
    ) {
        TagEffect::Break
    } else {
        TagEffect::Nothing
    }
}

/// The visible text of an HTML document (see `html_text`).
pub fn text_from_html(html: &str) -> (r: String)
    ensures
        r@ == html_text(html@),
{
    let s = str_chars(html);
    let mut in_tag = false;
    let mut in_script = false;
    let mut tag_buf: Vec<char> = Vec::new();
    let mut result: Vec<char> = Vec::new();
    let mut i: usize = 0;
    while i < s.len()
        invariant
            i <= s.len(),
            (in_tag, in_script, tag_buf@, result@) == html_scan(s@.take(i as int)),
        decreases s.len() - i,
    {
        let c = s[i];
        assert(s@.take(i + 1).drop_last() =~= s@.take(i as int));
        if c == '<' {
            in_tag = true;
            tag_buf = Vec::new();
            assert(tag_buf@ =~= seq![]);
        } else if c == '>' {
            let trimmed = trim_chars(&tag_buf);
            let tag = lowercase_chars(&trimmed);
            match tag_effect_of(&tag) {
                TagEffect::ScriptStart => {
                    in_script = true;
                },
                TagEffect::ScriptEnd => {
                    in_script = false;
                },
                TagEffect::Break => {
                    result.push('\n');
                },
                TagEffect::Nothing => {},
            }
            in_tag = false;
        } else if in_tag {
            tag_buf.push(c);
        } else if !in_script {
            result.push(c);
        }
        i = i + 1;
    }
    assert(s@.take(s.len() as int) =~= s@);
    let lines = split_lines(&result);
    let ghost ls = seqs_of(lines@);
    let mut kept: Vec<Vec<char>> = Vec::new();
    let space: Vec<char> = vec![' '];
    assert(space@ =~= seq![' ']);
    let mut j: usize = 0;
    assert(ls.take(0) =~= Seq::<Seq<char>>::empty());
    assert(seqs_of(kept@) =~= Seq::<Seq<char>>::empty());
    while j < lines.len()
        invariant
            j <= lines.len(),
            ls == seqs_of(lines@),
            space@ == seq![' '],
            seqs_of(kept@) == kept_lines(ls.take(j as int)),
        decreases lines.len() - j,
    {
        assert(ls.take(j + 1).drop_last() =~= ls.take(j as int));
        assert(ls.take(j + 1).last() == lines@[j as int]@);
        let words = split_words(&lines[j]);
        let sq = join_chars(&words, &space);
        if sq.len() > 0 {
            push_seq(&mut kept, sq);
        }
        j = j + 1;
    }
    assert(ls.take(lines.len() as int) =~= ls);
    let nl: Vec<char> = vec!['\n'];
    assert(nl@ =~= seq!['\n']);
    let out = join_chars(&kept, &nl);
    chars_to_string(&out)
}

// ── Markdown ─────────────────────────────────────────────────────────────────

/// The Markdown parser events that text extraction distinguishes.
pub enum MdEvent {
    Text(String),
    Code(String),
    SoftBreak,
    HardBreak,
    EndParagraph,
    EndHeading,
    EndItem,
    EndCodeBlock,
    Other,
}

/// `MdEvent` with its strings taken by their characters.
pub enum MdEventView {
    Text(Seq<char>),
    Code(Seq<char>),
    SoftBreak,
    HardBreak,
    EndParagraph,
    EndHeading,
    EndItem,
    EndCodeBlock,
    Other,
}

impl View for MdEvent {
    type V = MdEventView;

    open spec fn view(&self) -> MdEventView {
        match self {
            MdEvent::Text(t) => MdEventView::Text(t@),
            MdEvent::Code(t) => MdEventView::Code(t@),
            MdEvent::SoftBreak => MdEventView::SoftBreak,
            MdEvent::HardBreak => MdEventView::HardBreak,
            MdEvent::EndParagraph => MdEventView::EndParagraph,
            MdEvent::EndHeading => MdEventView::EndHeading,
            MdEvent::EndItem => MdEventView::EndItem,
            MdEvent::EndCodeBlock => MdEventView::EndCodeBlock,
            MdEvent::Other => MdEventView::Other,
        }
    }
}

/// The views of a sequence of Markdown events.
pub open spec fn md_views(v: Seq<MdEvent>) -> Seq<MdEventView> {
    v.map_values(|e: MdEvent| e@)
}

/// Name for the event stream that `pulldown_cmark::Parser::new_ext` with
/// `Options::all()` yields for a document, each event reduced to `MdEvent`.
pub uninterp spec fn markdown_events_of(md: Seq<char>) -> Seq<MdEventView>;

/// Name for the HTML that `pulldown_cmark::html::push_html` writes for a
/// document parsed with `Options::all()`.
pub uninterp spec fn markdown_html_of(md: Seq<char>) -> Seq<char>;

/// Runs the Markdown parser over `md` (all extensions on) and reduces each
/// event to the cases that text extraction tells apart; claims only that the
/// result is a function of `md`.
#[verifier::external_body]
fn markdown_events(md: &str) -> (r: Vec<MdEvent>)
    ensures
        md_views(r@) == markdown_events_of(md@),
{
    pulldown_cmark::Parser::new_ext(md, pulldown_cmark::Options::all()).map(|e| match e {
        Event::Text(t) => MdEvent::Text(t.to_string()),
        Event::Code(t) => MdEvent::Code(t.to_string()),
        Event::SoftBreak => MdEvent::SoftBreak,
        Event::HardBreak => MdEvent::HardBreak,
        Event::End(End::Paragraph) => MdEvent::EndParagraph,
        Event::End(End::Heading(_)) => MdEvent::EndHeading,
        Event::End(End::Item) => MdEvent::EndItem,
        Event::End(End::CodeBlock) => MdEvent::EndCodeBlock,
        _ => MdEvent::Other,
    }).collect()
}

/// Renders `md` to HTML with `pulldown_cmark::html::push_html` (all
/// extensions on); claims only that the result is a function of `md`.
#[verifier::external_body]
fn markdown_html(md: &str) -> (r: String)
    ensures
        r@ == markdown_html_of(md@),
{
    let mut body = String::new();
    let parser = pulldown_cmark::Parser::new_ext(md, pulldown_cmark::Options::all());
    pulldown_cmark::html::push_html(&mut body, parser);
    body
}

/// What one event adds to the extracted text.
pub open spec fn md_step(out: Seq<char>, e: MdEventView) -> Seq<char> {
    match e {
        MdEventView::Text(t) => out + t,
        MdEventView::Code(t) => out + t,
        MdEventView::SoftBreak => out.push('\n'),
        MdEventView::HardBreak => out.push('\n'),
        MdEventView::EndParagraph => out + seq!['\n', '\n'],
        MdEventView::EndHeading => out + seq!['\n', '\n'],
        MdEventView::EndItem => out.push('\n'),
        MdEventView::EndCodeBlock => out.push('\n'),
        MdEventView::Other => out,
    }
}

/// The text of an event stream, before trimming.
pub open spec fn md_scan(events: Seq<MdEventView>) -> Seq<char>
    decreases events.len(),
{
    if events.len() == 0 {
        seq![]
    } else {
        md_step(md_scan(events.drop_last()), events.last())
    }
}

/// The plain text of a Markdown event stream: text and code spans, a line
/// break for soft and hard breaks and the end of items and code blocks, a
/// blank line after paragraphs and headings; trimmed.
pub open spec fn md_text(events: Seq<MdEventView>) -> Seq<char> {
    trim(md_scan(events))
}

/// What one event adds to the extracted text, whatever came before it.
proof fn lemma_md_step_appends(x: Seq<char>, y: Seq<char>, e: MdEventView)
    ensures
        md_step(x + y, e) == x + md_step(y, e),
{
    match e {
        MdEventView::Text(t) => {
            assert((x + y) + t =~= x + (y + t));
        },
        MdEventView::Code(t) => {
            assert((x + y) + t =~= x + (y + t));
        },
        MdEventView::EndParagraph => {
            assert((x + y) + seq!['\n', '\n'] =~= x + (y + seq!['\n', '\n']));
        },
        MdEventView::EndHeading => {
            assert((x + y) + seq!['\n', '\n'] =~= x + (y + seq!['\n', '\n']));
        },
        MdEventView::Other => {},
        _ => {
            assert((x + y).push('\n') =~= x + y.push('\n'));
        },
    }
}

/// The text of two event streams one after the other is the text of the
/// first followed by the text of the second.
pub proof fn law_md_scan_concat(a: Seq<MdEventView>, b: Seq<MdEventView>)
    ensures
        md_scan(a + b) == md_scan(a) + md_scan(b),
    decreases b.len(),
{
    if b.len() == 0 {
        assert(a + b =~= a);
        assert(md_scan(a) + md_scan(b) =~= md_scan(a));
    } else {
        law_md_scan_concat(a, b.drop_last());
        assert((a + b).drop_last() =~= a + b.drop_last());
        assert((a + b).last() == b.last());
        lemma_md_step_appends(md_scan(a), md_scan(b.drop_last()), b.last());
    }
}

/// What each event adds to the text of the events before it: text and code
/// spans their characters, a soft or hard line break, the end of an item or
/// a code block one newline, the end of a paragraph or heading two, any
/// other event nothing.
pub proof fn law_md_event_adds(e: Seq<MdEventView>, ev: MdEventView)
    ensures
        md_scan(e.push(ev)) == md_scan(e) + match ev {
            MdEventView::Text(t) => t,
            MdEventView::Code(t) => t,
            MdEventView::SoftBreak => seq!['\n'],
            MdEventView::HardBreak => seq!['\n'],
            MdEventView::EndParagraph => seq!['\n', '\n'],
            MdEventView::EndHeading => seq!['\n', '\n'],
            MdEventView::EndItem => seq!['\n'],
            MdEventView::EndCodeBlock => seq!['\n'],
            MdEventView::Other => Seq::<char>::empty(),
        },
{
    assert(e.push(ev).drop_last() =~= e);
    lemma_md_step_appends(md_scan(e), Seq::<char>::empty(), ev);
    assert(md_scan(e) + Seq::<char>::empty() =~= md_scan(e));
    match ev {
        MdEventView::Text(t) => assert(Seq::<char>::empty() + t =~= t),
        MdEventView::Code(t) => assert(Seq::<char>::empty() + t =~= t),
        MdEventView::EndParagraph => assert(Seq::<char>::empty() + seq!['\n', '\n'] =~= seq!['\n', '\n']),
        MdEventView::EndHeading => assert(Seq::<char>::empty() + seq!['\n', '\n'] =~= seq!['\n', '\n']),
        MdEventView::Other => {},
        _ => assert(Seq::<char>::empty().push('\n') =~= seq!['\n']),
    }
}

/// A hard line break between two pieces of text keeps them on separate
/// lines: the text of `a`, a hard break and `b` is `a`, a newline and `b`,
/// trimmed.
pub proof fn law_md_hard_break_separates(a: Seq<char>, b: Seq<char>)
    ensures
        md_text(seq![MdEventView::Text(a), MdEventView::HardBreak, MdEventView::Text(b)]) == trim(
            a + seq!['\n'] + b,
        ),
{
    let e0 = Seq::<MdEventView>::empty();
    let e1 = e0.push(MdEventView::Text(a));
    let e2 = e1.push(MdEventView::HardBreak);
    let e3 = e2.push(MdEventView::Text(b));
    assert(e3 =~= seq![MdEventView::Text(a), MdEventView::HardBreak, MdEventView::Text(b)]);
    law_md_event_adds(e0, MdEventView::Text(a));
    law_md_event_adds(e1, MdEventView::HardBreak);
    law_md_event_adds(e2, MdEventView::Text(b));
    assert(md_scan(e0) =~= Seq::<char>::empty());
    assert(md_scan(e3) =~= a + seq!['\n'] + b);
}

/// The plain text of a Markdown event stream (see `md_text`).
pub fn text_from_markdown_events(events: &Vec<MdEvent>) -> (r: String)
    ensures
        r@ == md_text(md_views(events@)),
{
    let ghost ev = md_views(events@);
    let mut out: Vec<char> = Vec::new();
    let mut i: usize = 0;
    while i < events.len()
        invariant
            i <= events.len(),
            ev == md_views(events@),
            out@ == md_scan(ev.take(i as int)),
        decreases events.len() - i,
    {
        assert(ev.take(i + 1).drop_last() =~= ev.take(i as int));
        assert(ev.take(i + 1).last() == events@[i as int]@);
        match &events[i] {
            MdEvent::Text(t) => {
                let cs = str_chars(t.as_str());
                crate::chars::extend_chars(&mut out, &cs);
            },
            MdEvent::Code(t) => {
                let cs = str_chars(t.as_str());
                crate::chars::extend_chars(&mut out, &cs);
            },
            MdEvent::SoftBreak => {
                out.push('\n');
            },
            MdEvent::HardBreak => {
                out.push('\n');
            },
            MdEvent::EndParagraph => {
                out.push('\n');
                out.push('\n');
            },
            MdEvent::EndHeading => {
                out.push('\n');
                out.push('\n');
            },
            MdEvent::EndItem => {
                out.push('\n');
            },
            MdEvent::EndCodeBlock => {
                out.push('\n');
            },
            MdEvent::Other => {},
        }
        i = i + 1;
    }
    assert(ev.take(events.len() as int) =~= ev);
    let t = trim_chars(&out);
    chars_to_string(&t)
}

/// The plain text of a Markdown document: its parsed events reduced as
/// `md_text` says.
pub fn text_from_markdown(md: &str) -> (r: String)
    ensures
        r@ == md_text(markdown_events_of(md@)),
{
    let events = markdown_events(md);
    text_from_markdown_events(&events)
}

/// The HTML page that wraps a rendered Markdown body.
pub open spec fn md_page(body: Seq<char>) -> Seq<char> {
    "<!DOCTYPE html>\n<html>\n<head><meta charset=\"UTF-8\"><style>body{font-family:sans-serif;max-width:800px;margin:auto;padding:2rem}</style></head>\n<body>\n"@
        + body + "\n</body>\n</html>"@
}

/// A complete HTML page for a Markdown document: the rendered body inside a
/// fixed head and body.
pub fn html_from_markdown(md: &str) -> (r: String)
    ensures
        r@ == md_page(markdown_html_of(md@)),
{
    let body = markdown_html(md);
    let mut out = str_chars(
        "<!DOCTYPE html>\n<html>\n<head><meta charset=\"UTF-8\"><style>body{font-family:sans-serif;max-width:800px;margin:auto;padding:2rem}</style></head>\n<body>\n",
    );
    let b = str_chars(body.as_str());
    crate::chars::extend_chars(&mut out, &b);
    let tail = str_chars("\n</body>\n</html>");
    crate::chars::extend_chars(&mut out, &tail);
    chars_to_string(&out)
}

// ── PDF page layout of documents ─────────────────────────────────────────────

/// The pages of text laid out for a PDF (see `text_pages`).
pub fn pdf_pages(text: &str) -> (r: Vec<Vec<String>>)
    ensures
        r@.map_values(|p: Vec<String>| strings_of(p@)) == chunks_of(
            wrap_text(text@, MAX_COLS as nat)->0,
            52,
        ),
{
    text_pages(text)
}

/// The PDF pages of a Markdown document: its plain text (see
/// `text_from_markdown`) laid out in pages.
pub fn md_to_pdf(md: &str) -> (r: Vec<Vec<String>>)
    ensures
        r@.map_values(|p: Vec<String>| strings_of(p@)) == chunks_of(
            wrap_text(md_text(markdown_events_of(md@)), MAX_COLS as nat)->0,
            52,
        ),
{
    let text = text_from_markdown(md);
    pdf_pages(text.as_str())
}

/// The PDF pages of an HTML document: its visible text (see
/// `text_from_html`) laid out in pages.
pub fn html_to_pdf(html: &str) -> (r: Vec<Vec<String>>)
    ensures
        r@.map_values(|p: Vec<String>| strings_of(p@)) == chunks_of(
            wrap_text(html_text(html@), MAX_COLS as nat)->0,
            52,
        ),
{
    let text = text_from_html(html);
    pdf_pages(text.as_str())
}

} // verus!
