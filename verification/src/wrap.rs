//! Word wrapping of plain text to a number of columns of a monospace font,
//! and pagination of the wrapped lines, as used when text is laid out on
//! PDF pages.

use vstd::prelude::*;
use crate::chars::{
    is_ws, lines_of, push_seq, seqs_of, split_lines, sub_chars, trim_start, trim_start_chars,
    chars_to_string,
};

verus! {

/// Columns that `c` takes in the monospace layout: one per character.
pub open spec fn col_width(c: char) -> nat {
    1
}

/// Columns that `s` takes in the monospace layout.
pub open spec fn col_len(s: Seq<char>) -> nat
    decreases s.len(),
{
    if s.len() == 0 {
        0
    } else {
        col_len(s.drop_last()) + col_width(s.last())
    }
}

/// The character index at which the first `max` columns of `s` end, when
/// `s` has that many.
pub open spec fn boundary_index(s: Seq<char>, max: nat) -> Option<int> {
    if exists|k: int| 0 <= k <= s.len() && col_len(#[trigger] s.take(k)) == max {
        Some(choose|k: int| 0 <= k <= s.len() && col_len(#[trigger] s.take(k)) == max)
    } else {
        None
    }
}

/// Index of the last `' '` among the first `k` characters of `s`.
pub open spec fn last_space_before(s: Seq<char>, k: int) -> Option<int>
    decreases k,
{
    if k <= 0 {
        None
    } else if s[k - 1] == ' ' {
        Some(k - 1)
    } else {
        last_space_before(s, k - 1)
    }
}

/// Where a too-long line is cut: after the last space within the first `max`
/// columns (at the space), else at column `max`; `None` when no prefix of
/// the line ends at column `max`.
pub open spec fn cut_point(s: Seq<char>, max: nat) -> Option<int> {
    match boundary_index(s, max) {
        None => None,
        Some(k) => match last_space_before(s, k) {
            Some(j) => Some(j),
            None => Some(k),
        },
    }
}

/// The pieces a line that is being cut breaks into; `None` where the
/// cutting panics or never ends.
pub open spec fn wrap_rest(rem: Seq<char>, max: nat) -> Option<Seq<Seq<char>>>
    decreases rem.len(),
{
    if col_len(rem) <= max {
        if rem.len() == 0 {
            Some(seq![])
        } else {
            Some(seq![rem])
        }
    } else {
        match cut_point(rem, max) {
            None => None,
            Some(c) => {
                let rest = trim_start(rem.skip(c));
                if rest.len() < rem.len() {
                    match wrap_rest(rest, max) {
                        None => None,
                        Some(t) => Some(seq![rem.take(c)] + t),
                    }
                } else {
                    None
                }
            },
        }
    }
}

/// The pieces one input line becomes: itself when it fits in `max` columns.
pub open spec fn wrap_line(line: Seq<char>, max: nat) -> Option<Seq<Seq<char>>> {
    if col_len(line) <= max {
        Some(seq![line])
    } else {
        wrap_rest(line, max)
    }
}

/// The pieces of all `lines`, in order.
pub open spec fn wrap_all(lines: Seq<Seq<char>>, max: nat) -> Option<Seq<Seq<char>>>
    decreases lines.len(),
{
    if lines.len() == 0 {
        Some(seq![])
    } else {
        match (wrap_all(lines.drop_last(), max), wrap_line(lines.last(), max)) {
            (Some(a), Some(b)) => Some(a + b),
            _ => None,
        }
    }
}

/// The wrapped lines of `text` at width `max` columns; `None` where wrapping
/// panics or never ends.
pub open spec fn wrap_text(text: Seq<char>, max: nat) -> Option<Seq<Seq<char>>> {
    wrap_all(lines_of(text), max)
}

/// The views of a sequence of strings.
pub open spec fn strings_of(v: Seq<String>) -> Seq<Seq<char>> {
    v.map_values(|x: String| x@)
}

pub proof fn lemma_col_len_take_step(s: Seq<char>, i: int)
    requires
        0 <= i < s.len(),
    ensures
        col_len(s.take(i + 1)) == col_len(s.take(i)) + col_width(s[i]),
{
    assert(s.take(i + 1).drop_last() =~= s.take(i));
}

pub proof fn lemma_col_len_mono(s: Seq<char>, j: int, k: int)
    requires
        0 <= j <= k <= s.len(),
    ensures
        col_len(s.take(j)) + (k - j) <= col_len(s.take(k)),
    decreases k - j,
{
    if j < k {
        lemma_col_len_mono(s, j, k - 1);
        lemma_col_len_take_step(s, k - 1);
    }
}

pub proof fn lemma_col_len_full(s: Seq<char>)
    ensures
        col_len(s.take(s.len() as int)) == col_len(s),
{
    assert(s.take(s.len() as int) =~= s);
}

/// Columns that `c` takes.
pub fn char_cols(c: char) -> (w: usize)
    ensures
        w == col_width(c),
{
    1
}

/// Whether `s` takes more than `max` columns.
pub fn exceeds(s: &Vec<char>, max: usize) -> (r: bool)
    ensures
        r == (col_len(s@) > max),
{
    let mut i: usize = 0;
    let mut b: usize = 0;
    while i < s.len()
        invariant
            i <= s.len(),
            b == col_len(s@.take(i as int)),
            b <= max,
        decreases s.len() - i,
    {
        let w = char_cols(s[i]);
        proof {
            lemma_col_len_take_step(s@, i as int);
        }
        if w > max - b {
            proof {
                lemma_col_len_mono(s@, i + 1, s@.len() as int);
                lemma_col_len_full(s@);
            }
            return true;
        }
        b = b + w;
        i = i + 1;
    }
    proof {
        lemma_col_len_full(s@);
    }
    false
}

/// The cut index of a line longer than `max` columns.
fn cut_index(s: &Vec<char>, max: usize) -> (c: Option<usize>)
    requires
        col_len(s@) > max,
    ensures
        c is Some <==> cut_point(s@, max as nat) is Some,
        c is Some ==> c->0 as int == cut_point(s@, max as nat)->0 && c->0 <= s.len(),
{
    let mut i: usize = 0;
    let mut b: usize = 0;
    proof {
        lemma_col_len_full(s@);
    }
    // find the smallest i whose prefix reaches max columns
    while b < max
        invariant
            i <= s.len(),
            b == col_len(s@.take(i as int)),
            b <= max,
            col_len(s@) > max,
        decreases s.len() - i,
    {
        if i >= s.len() {
            proof {
                lemma_col_len_full(s@);
            }
            assert(false);
            return None;
        }
        let w = char_cols(s[i]);
        proof {
            lemma_col_len_take_step(s@, i as int);
        }
        if w > max - b {
            // no prefix ends exactly at column max
            proof {
                assert forall|k: int| 0 <= k <= s@.len() implies col_len(#[trigger] s@.take(k))
                    != max by {
                    if k <= i {
                        lemma_col_len_mono(s@, k, i as int);
                        if k < i {
                            assert(col_len(s@.take(k)) < b);
                        }
                    } else {
                        lemma_col_len_mono(s@, i + 1, k);
                    }
                }
                assert(boundary_index(s@, max as nat) is None);
            }
            return None;
        }
        b = b + w;
        i = i + 1;
    }
    proof {
        assert(col_len(s@.take(i as int)) == max);
        let k = choose|k: int| 0 <= k <= s@.len() && col_len(#[trigger] s@.take(k)) == max;
        if k < i {
            lemma_col_len_mono(s@, k, i as int);
        } else if k > i {
            lemma_col_len_mono(s@, i as int, k);
        }
        assert(boundary_index(s@, max as nat) == Some(i as int));
    }
    let k = i;
    let mut j = k;
    while j > 0
        invariant
            j <= k <= s.len(),
            k == i,
            boundary_index(s@, max as nat) == Some(i as int),
            last_space_before(s@, k as int) == last_space_before(s@, j as int),
        decreases j,
    {
        if s[j - 1] == ' ' {
            return Some(j - 1);
        }
        j = j - 1;
    }
    Some(k)
}

/// Cuts a line into pieces; `false` (and `out` unspecified) where the
/// cutting panics or never ends.
fn wrap_rest_chars(line: &Vec<char>, max: usize, out: &mut Vec<Vec<char>>) -> (ok: bool)
    ensures
        ok <==> wrap_rest(line@, max as nat) is Some,
        ok ==> seqs_of(final(out)@) == seqs_of(old(out)@) + wrap_rest(line@, max as nat)->0,
{
    let mut rem = sub_chars(line, 0, line.len());
    assert(rem@ =~= line@);
    assert(seqs_of(out@) =~= seqs_of(old(out)@) + Seq::<Seq<char>>::empty());
    while exceeds(&rem, max)
        invariant
            wrap_rest(line@, max as nat) is Some <==> wrap_rest(rem@, max as nat) is Some,
            wrap_rest(rem@, max as nat) is Some ==> seqs_of(old(out)@) + wrap_rest(
                line@,
                max as nat,
            )->0 == seqs_of(out@) + wrap_rest(rem@, max as nat)->0,
        decreases rem.len(),
    {
        let c = match cut_index(&rem, max) {
            Some(c) => c,
            None => {
                return false;
            },
        };
        let piece = sub_chars(&rem, 0, c);
        let tail = sub_chars(&rem, c, rem.len());
        let next = trim_start_chars(&tail);
        assert(tail@ =~= rem@.skip(c as int));
        assert(piece@ =~= rem@.take(c as int));
        if next.len() >= rem.len() {
            return false;
        }
        let ghost t = wrap_rest(next@, max as nat);
        assert(t is Some ==> wrap_rest(rem@, max as nat)->0 == seq![piece@] + t->0);
        push_seq(out, piece);
        assert(t is Some ==> seqs_of(out@) + t->0 =~= (seqs_of(out@).drop_last()) + (seq![piece@]
            + t->0));
        rem = next;
    }
    if rem.len() > 0 {
        push_seq(out, rem);
    } else {
        assert(seqs_of(out@) + Seq::<Seq<char>>::empty() =~= seqs_of(out@));
    }
    true
}

pub proof fn lemma_wrap_all_prefix(lines: Seq<Seq<char>>, max: nat, i: int)
    requires
        0 <= i <= lines.len(),
        wrap_all(lines, max) is Some,
    ensures
        wrap_all(lines.take(i), max) is Some,
        i < lines.len() ==> wrap_line(lines[i], max) is Some,
    decreases lines.len() - i,
{
    if i == lines.len() {
        assert(lines.take(i) =~= lines);
    } else {
        let d = lines.drop_last();
        if i < d.len() {
            lemma_wrap_all_prefix(d, max, i);
            assert(d.take(i) =~= lines.take(i));
            assert(d[i] == lines[i]);
        } else {
            assert(d.take(i) =~= lines.take(i)) by {
                assert(d =~= lines.take(i));
                assert(d.take(i) =~= d);
            }
            assert(d =~= lines.take(i));
        }
    }
}

/// Wraps every line of `text` to at most `max` columns, cutting at the last
/// space before the limit when there is one.
pub fn wrap_chars(text: &Vec<char>, max: usize) -> (r: Option<Vec<Vec<char>>>)
    ensures
        r is Some <==> wrap_text(text@, max as nat) is Some,
        r is Some ==> seqs_of(r->0@) == wrap_text(text@, max as nat)->0,
{
    let lines = split_lines(text);
    let ghost ls = seqs_of(lines@);
    let mut out: Vec<Vec<char>> = Vec::new();
    let mut i: usize = 0;
    assert(ls.take(0) =~= Seq::<Seq<char>>::empty());
    assert(seqs_of(out@) =~= Seq::<Seq<char>>::empty());
    while i < lines.len()
        invariant
            ls == seqs_of(lines@),
            ls == lines_of(text@),
            i <= lines.len(),
            wrap_all(ls.take(i as int), max as nat) == Some(seqs_of(out@)),
        decreases lines.len() - i,
    {
        proof {
            assert(ls.take(i + 1).drop_last() =~= ls.take(i as int));
            assert(ls.take(i + 1).last() == lines@[i as int]@);
        }
        let line = &lines[i];
        if exceeds(line, max) {
            if !wrap_rest_chars(line, max, &mut out) {
                proof {
                    assert(wrap_all(ls.take(i + 1), max as nat) is None);
                    if wrap_all(ls, max as nat) is Some {
                        lemma_wrap_all_prefix(ls, max as nat, i + 1);
                    }
                }
                return None;
            }
        } else {
            let copy = sub_chars(line, 0, line.len());
            assert(copy@ =~= line@);
            push_seq(&mut out, copy);
        }
        i = i + 1;
    }
    assert(ls.take(lines.len() as int) =~= ls);
    Some(out)
}

/// Whether wrapping `text` at `max` columns completes (it never ends when
/// `max` is 0 and a line is not empty; see `law_wrapping_completes`).
pub open spec fn wrappable(text: Seq<char>, max: nat) -> bool {
    wrap_text(text, max) is Some
}

proof fn lemma_col_len_is_len(s: Seq<char>)
    ensures
        col_len(s) == s.len(),
    decreases s.len(),
{
    if s.len() > 0 {
        lemma_col_len_is_len(s.drop_last());
    }
}

proof fn lemma_trim_start_shorter(s: Seq<char>)
    ensures
        trim_start(s).len() <= s.len(),
        s.len() > 0 && is_ws(s[0]) ==> trim_start(s).len() < s.len(),
    decreases s.len(),
{
    if s.len() > 0 && is_ws(s[0]) {
        lemma_trim_start_shorter(s.drop_first());
    }
}

proof fn lemma_wrap_rest_completes(rem: Seq<char>, max: nat)
    requires
        max > 0,
    ensures
        wrap_rest(rem, max) is Some,
    decreases rem.len(),
{
    lemma_col_len_is_len(rem);
    if col_len(rem) > max {
        let m = max as int;
        lemma_col_len_is_len(rem.take(m));
        assert(col_len(rem.take(m)) == max);
        let k = boundary_index(rem, max)->0;
        lemma_col_len_is_len(rem.take(k));
        assert(k == m);
        lemma_last_space_range(rem, k);
        let c = cut_point(rem, max)->0;
        let t = rem.skip(c);
        lemma_trim_start_shorter(t);
        if c < k {
            assert(t[0] == rem[c]);
        }
        lemma_wrap_rest_completes(trim_start(t), max);
    }
}

proof fn lemma_wrap_all_completes(lines: Seq<Seq<char>>, max: nat)
    requires
        max > 0,
    ensures
        wrap_all(lines, max) is Some,
    decreases lines.len(),
{
    if lines.len() > 0 {
        lemma_wrap_all_completes(lines.drop_last(), max);
        lemma_wrap_rest_completes(lines.last(), max);
    }
}

/// Wrapping at a positive width always completes: every text can be laid
/// out at `max` columns when `max` is at least 1.
pub proof fn law_wrapping_completes(text: Seq<char>, max: nat)
    requires
        max > 0,
    ensures
        wrappable(text, max),
{
    lemma_wrap_all_completes(lines_of(text), max);
}

/// Converts character vectors to strings.
pub fn to_strings(v: &Vec<Vec<char>>) -> (r: Vec<String>)
    ensures
        strings_of(r@) == seqs_of(v@),
{
    let mut r: Vec<String> = Vec::new();
    let mut i: usize = 0;
    while i < v.len()
        invariant
            i <= v.len(),
            strings_of(r@) == seqs_of(v@).take(i as int),
        decreases v.len() - i,
    {
        let s = chars_to_string(&v[i]);
        let ghost r0 = r@;
        r.push(s);
        assert(r@ == r0.push(s));
        assert(strings_of(r@) =~= strings_of(r0).push(s@));
        assert(seqs_of(v@).take(i + 1) =~= seqs_of(v@).take(i as int).push(v@[i as int]@));
        i = i + 1;
        assert(strings_of(r@) =~= seqs_of(v@).take(i as int));
    }
    assert(seqs_of(v@).take(v.len() as int) =~= seqs_of(v@));
    r
}


pub proof fn lemma_last_space_range(s: Seq<char>, k: int)
    ensures
        last_space_before(s, k) matches Some(j) ==> 0 <= j < k && s[j] == ' ',
    decreases k,
{
    if k > 0 && s[k - 1] != ' ' {
        lemma_last_space_range(s, k - 1);
    }
}

pub proof fn lemma_wrap_rest_width(rem: Seq<char>, max: nat)
    requires
        wrap_rest(rem, max) is Some,
    ensures
        forall|i: int|
            0 <= i < wrap_rest(rem, max)->0.len() ==> col_len(
                #[trigger] wrap_rest(rem, max)->0[i],
            ) <= max,
    decreases rem.len(),
{
    if col_len(rem) > max {
        let c = cut_point(rem, max)->0;
        let k = boundary_index(rem, max)->0;
        let rest = trim_start(rem.skip(c));
        lemma_wrap_rest_width(rest, max);
        lemma_last_space_range(rem, k);
        assert(0 <= k <= rem.len() && col_len(rem.take(k)) == max);
        assert(0 <= c <= k);
        lemma_col_len_mono(rem, c, k);
        let t = wrap_rest(rest, max)->0;
        assert forall|i: int| 0 <= i < wrap_rest(rem, max)->0.len() implies col_len(
            #[trigger] wrap_rest(rem, max)->0[i],
        ) <= max by {
            if i > 0 {
                assert(wrap_rest(rem, max)->0[i] == t[i - 1]);
            }
        }
    }
}

pub proof fn lemma_wrap_all_width(lines: Seq<Seq<char>>, max: nat)
    requires
        wrap_all(lines, max) is Some,
    ensures
        forall|i: int|
            0 <= i < wrap_all(lines, max)->0.len() ==> col_len(
                #[trigger] wrap_all(lines, max)->0[i],
            ) <= max,
    decreases lines.len(),
{
    if lines.len() > 0 {
        let a = wrap_all(lines.drop_last(), max)->0;
        let b = wrap_line(lines.last(), max)->0;
        lemma_wrap_all_width(lines.drop_last(), max);
        if col_len(lines.last()) > max {
            lemma_wrap_rest_width(lines.last(), max);
        }
        assert forall|i: int| 0 <= i < wrap_all(lines, max)->0.len() implies col_len(
            #[trigger] wrap_all(lines, max)->0[i],
        ) <= max by {
            if i < a.len() {
                assert(wrap_all(lines, max)->0[i] == a[i]);
            } else {
                assert(wrap_all(lines, max)->0[i] == b[i - a.len()]);
            }
        }
    }
}

/// Wrapping never yields a line longer than the width: every line that
/// `wrap_text` produces takes at most `max` columns.
pub proof fn law_wrapped_lines_fit(text: Seq<char>, max: nat)
    requires
        wrappable(text, max),
    ensures
        forall|i: int|
            0 <= i < wrap_text(text, max)->0.len() ==> col_len(
                #[trigger] wrap_text(text, max)->0[i],
            ) <= max,
{
    lemma_wrap_all_width(lines_of(text), max);
}

proof fn lemma_wrap_all_fitting(lines: Seq<Seq<char>>, max: nat)
    requires
        forall|i: int| 0 <= i < lines.len() ==> col_len(#[trigger] lines[i]) <= max,
    ensures
        wrap_all(lines, max) == Some(lines),
    decreases lines.len(),
{
    if lines.len() > 0 {
        let p = lines.drop_last();
        assert forall|i: int| 0 <= i < p.len() implies col_len(#[trigger] p[i]) <= max by {
            assert(p[i] == lines[i]);
        }
        lemma_wrap_all_fitting(p, max);
        assert(col_len(lines[lines.len() - 1]) <= max);
        assert(p + seq![lines.last()] =~= lines);
    }
}

/// Text whose lines all fit in the width is laid out line for line:
/// wrapping changes nothing then.
pub proof fn law_fitting_lines_unchanged(text: Seq<char>, max: nat)
    requires
        forall|i: int| 0 <= i < lines_of(text).len() ==> col_len(#[trigger] lines_of(text)[i]) <= max,
    ensures
        wrap_text(text, max) == Some(lines_of(text)),
{
    lemma_wrap_all_fitting(lines_of(text), max);
}

/// `s` cut into consecutive chunks of `n` items (the last one may be shorter).
pub open spec fn chunks_of<A>(s: Seq<A>, n: nat) -> Seq<Seq<A>>
    decreases s.len(),
{
    if s.len() == 0 || n == 0 {
        seq![]
    } else if s.len() <= n {
        seq![s]
    } else {
        seq![s.take(n as int)] + chunks_of(s.skip(n as int), n)
    }
}

/// The concatenation of a sequence of sequences.
pub open spec fn flatten<A>(parts: Seq<Seq<A>>) -> Seq<A>
    decreases parts.len(),
{
    if parts.len() == 0 {
        seq![]
    } else {
        parts[0] + flatten(parts.drop_first())
    }
}

/// Pagination loses and reorders nothing: the chunks of `s`, read in order,
/// give back `s`, and each holds between one and `n` items.
pub proof fn law_chunks_cover<A>(s: Seq<A>, n: nat)
    requires
        n > 0,
    ensures
        flatten(chunks_of(s, n)) == s,
        forall|i: int|
            0 <= i < chunks_of(s, n).len() ==> 0 < (#[trigger] chunks_of(s, n)[i]).len() <= n,
    decreases s.len(),
{
    if s.len() == 0 {
        assert(flatten(chunks_of(s, n)) =~= s);
    } else if s.len() <= n {
        assert(chunks_of(s, n).drop_first() =~= Seq::<Seq<A>>::empty());
        assert(flatten(chunks_of(s, n).drop_first()) == Seq::<A>::empty());
        assert(flatten(chunks_of(s, n)) =~= s + Seq::<A>::empty());
    } else {
        let rest = s.skip(n as int);
        law_chunks_cover(rest, n);
        let c = chunks_of(s, n);
        assert(c.drop_first() =~= chunks_of(rest, n));
        assert(s.take(n as int) + rest =~= s);
        assert forall|i: int| 0 <= i < c.len() implies 0 < (#[trigger] c[i]).len() <= n by {
            if i > 0 {
                assert(c[i] == chunks_of(rest, n)[i - 1]);
            }
        }
    }
}

/// Splits `v` into consecutive chunks of `n` strings.
pub fn chunk_strings(v: &Vec<String>, n: usize) -> (r: Vec<Vec<String>>)
    requires
        n > 0,
    ensures
        r@.map_values(|c: Vec<String>| c@) == chunks_of(v@, n as nat),
{
    let mut out: Vec<Vec<String>> = Vec::new();
    let mut start: usize = 0;
    let ghost all = v@;
    assert(all.skip(0) =~= all);
    while start < v.len()
        invariant
            all == v@,
            n > 0,
            start <= v.len(),
            out@.map_values(|c: Vec<String>| c@) + chunks_of(all.skip(start as int), n as nat)
                == chunks_of(all, n as nat),
        decreases v.len() - start,
    {
        let end = if v.len() - start <= n {
            v.len()
        } else {
            start + n
        };
        let mut cur: Vec<String> = Vec::new();
        let mut j = start;
        while j < end
            invariant
                all == v@,
                start <= j <= end <= v.len(),
                cur@ == all.subrange(start as int, j as int),
            decreases end - j,
        {
            cur.push(v[j].clone());
            j = j + 1;
            assert(cur@ =~= all.subrange(start as int, j as int));
        }
        let ghost rest = all.skip(start as int);
        let ghost o0 = out@.map_values(|c: Vec<String>| c@);
        if end == v.len() {
            assert(cur@ =~= rest);
            assert(all.skip(end as int) =~= Seq::<String>::empty());
            assert(chunks_of(rest, n as nat) == seq![rest]);
        } else {
            assert(cur@ =~= rest.take(n as int));
            assert(rest.skip(n as int) =~= all.skip(end as int));
            assert(chunks_of(rest, n as nat) == seq![rest.take(n as int)] + chunks_of(
                all.skip(end as int),
                n as nat,
            ));
        }
        out.push(cur);
        assert(out@.map_values(|c: Vec<String>| c@) =~= o0.push(cur@));
        assert(o0.push(cur@) + chunks_of(all.skip(end as int), n as nat) =~= o0 + (seq![cur@]
            + chunks_of(all.skip(end as int), n as nat)));
        start = end;
    }
    assert(all.skip(start as int) =~= Seq::<String>::empty());
    assert(out@.map_values(|c: Vec<String>| c@) + Seq::<Seq<String>>::empty() =~= out@.map_values(
        |c: Vec<String>| c@,
    ));
    out
}

} // verus!
