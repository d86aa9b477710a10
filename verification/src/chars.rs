//! Character-sequence foundations: whitespace, trimming, line and word
//! splitting, joining, and conversions between `str`/`String` and `Vec<char>`.

use vstd::prelude::*;

verus! {

/// The Unicode `White_Space` property, which `char::is_whitespace` tests.
pub open spec fn is_ws(c: char) -> bool {
    let u = c as u32;
    ||| 0x9 <= u <= 0xd
    ||| u == 0x20
    ||| u == 0x85
    ||| u == 0xa0
    ||| u == 0x1680
    ||| 0x2000 <= u <= 0x200a
    ||| u == 0x2028
    ||| u == 0x2029
    ||| u == 0x202f
    ||| u == 0x205f
    ||| u == 0x3000
}

/// Whether `c` is Unicode white space.
pub fn is_whitespace(c: char) -> (r: bool)
    ensures
        r == is_ws(c),
{
    let u = c as u32;
    (0x9 <= u && u <= 0xd) || u == 0x20 || u == 0x85 || u == 0xa0 || u == 0x1680 || (0x2000 <= u
        && u <= 0x200a) || u == 0x2028 || u == 0x2029 || u == 0x202f || u == 0x205f || u == 0x3000
}

/// `s` without its leading white space.
pub open spec fn trim_start(s: Seq<char>) -> Seq<char>
    decreases s.len(),
{
    if s.len() > 0 && is_ws(s[0]) {
        trim_start(s.drop_first())
    } else {
        s
    }
}

/// `s` without its trailing white space.
pub open spec fn trim_end(s: Seq<char>) -> Seq<char>
    decreases s.len(),
{
    if s.len() > 0 && is_ws(s.last()) {
        trim_end(s.drop_last())
    } else {
        s
    }
}

/// `s` without leading and trailing white space.
pub open spec fn trim(s: Seq<char>) -> Seq<char> {
    trim_end(trim_start(s))
}

pub proof fn lemma_trim_start_skip(s: Seq<char>, i: int)
    requires
        0 <= i <= s.len(),
        forall|j: int| 0 <= j < i ==> is_ws(#[trigger] s[j]),
        i == s.len() || !is_ws(s[i]),
    ensures
        trim_start(s) == s.skip(i),
    decreases i,
{
    if i == 0 {
        assert(s.skip(0) =~= s);
    } else {
        let t = s.drop_first();
        assert forall|j: int| 0 <= j < i - 1 implies is_ws(#[trigger] t[j]) by {
            assert(t[j] == s[j + 1]);
        }
        if i - 1 < t.len() {
            assert(t[i - 1] == s[i]);
        }
        lemma_trim_start_skip(t, i - 1);
        assert(t.skip(i - 1) =~= s.skip(i));
    }
}

pub proof fn lemma_trim_end_take(s: Seq<char>, k: int)
    requires
        0 <= k <= s.len(),
        forall|j: int| k <= j < s.len() ==> is_ws(#[trigger] s[j]),
        k == 0 || !is_ws(s[k - 1]),
    ensures
        trim_end(s) == s.take(k),
    decreases s.len() - k,
{
    if k == s.len() {
        assert(s.take(k) =~= s);
    } else {
        let t = s.drop_last();
        assert(is_ws(s[s.len() - 1]));
        assert forall|j: int| k <= j < t.len() implies is_ws(#[trigger] t[j]) by {
            assert(t[j] == s[j]);
        }
        if k > 0 {
            assert(t[k - 1] == s[k - 1]);
        }
        lemma_trim_end_take(t, k);
        assert(t.take(k) =~= s.take(k));
    }
}

/// Index of the first non-white-space character (or the length).
pub fn first_non_ws(s: &Vec<char>, from: usize) -> (i: usize)
    requires
        from <= s.len(),
    ensures
        from <= i <= s.len(),
        forall|j: int| from <= j < i ==> is_ws(#[trigger] s@[j]),
        i == s.len() || !is_ws(s@[i as int]),
{
    let mut i = from;
    while i < s.len()
        invariant
            from <= i <= s.len(),
            forall|j: int| from <= j < i ==> is_ws(#[trigger] s@[j]),
        decreases s.len() - i,
    {
        if !is_whitespace(s[i]) {
            return i;
        }
        i = i + 1;
    }
    i
}

/// The characters `s[lo..hi]` as a new vector.
pub fn sub_chars(s: &Vec<char>, lo: usize, hi: usize) -> (r: Vec<char>)
    requires
        lo <= hi <= s.len(),
    ensures
        r@ == s@.subrange(lo as int, hi as int),
{
    let mut r: Vec<char> = Vec::new();
    let mut i = lo;
    while i < hi
        invariant
            lo <= i <= hi <= s.len(),
            r@ == s@.subrange(lo as int, i as int),
        decreases hi - i,
    {
        r.push(s[i]);
        i = i + 1;
        assert(r@ =~= s@.subrange(lo as int, i as int));
    }
    r
}

/// `s` with its leading white space removed.
pub fn trim_start_chars(s: &Vec<char>) -> (r: Vec<char>)
    ensures
        r@ == trim_start(s@),
{
    let i = first_non_ws(s, 0);
    proof {
        lemma_trim_start_skip(s@, i as int);
    }
    let r = sub_chars(s, i, s.len());
    assert(r@ =~= s@.skip(i as int));
    r
}

/// `s` with leading and trailing white space removed.
pub fn trim_chars(s: &Vec<char>) -> (r: Vec<char>)
    ensures
        r@ == trim(s@),
{
    let t = trim_start_chars(s);
    let mut k = t.len();
    while k > 0 && is_whitespace(t[k - 1])
        invariant
            k <= t.len(),
            forall|j: int| k <= j < t.len() ==> is_ws(#[trigger] t@[j]),
        decreases k,
    {
        k = k - 1;
    }
    proof {
        lemma_trim_end_take(t@, k as int);
    }
    let r = sub_chars(&t, 0, k);
    assert(r@ =~= t@.take(k as int));
    r
}

/// Appends `src` to `dst`.
pub fn extend_chars(dst: &mut Vec<char>, src: &Vec<char>)
    ensures
        final(dst)@ == old(dst)@ + src@,
{
    let ghost d0 = dst@;
    let mut i: usize = 0;
    while i < src.len()
        invariant
            i <= src.len(),
            dst@ == d0 + src@.take(i as int),
        decreases src.len() - i,
    {
        dst.push(src[i]);
        i = i + 1;
        assert(dst@ =~= d0 + src@.take(i as int));
    }
    assert(src@.take(src.len() as int) =~= src@);
}

/// The character sequences held by a vector of character vectors.
pub open spec fn seqs_of(v: Seq<Vec<char>>) -> Seq<Seq<char>> {
    v.map_values(|x: Vec<char>| x@)
}

/// Pushes `item` onto `v`, stating the effect on `seqs_of`.
pub fn push_seq(v: &mut Vec<Vec<char>>, item: Vec<char>)
    ensures
        seqs_of(final(v)@) == seqs_of(old(v)@).push(item@),
{
    v.push(item);
    assert(seqs_of(v@) =~= seqs_of(old(v)@).push(item@));
}

/// A line without the `'\r'` that ends it, if any.
pub open spec fn strip_cr(l: Seq<char>) -> Seq<char> {
    if l.len() > 0 && l.last() == '\r' {
        l.drop_last()
    } else {
        l
    }
}

/// One step of line splitting: finished lines and the line being read.
pub open spec fn lines_step(st: (Seq<Seq<char>>, Seq<char>), c: char) -> (
    Seq<Seq<char>>,
    Seq<char>,
) {
    if c == '\n' {
        (st.0.push(strip_cr(st.1)), seq![])
    } else {
        (st.0, st.1.push(c))
    }
}

pub open spec fn lines_scan(s: Seq<char>) -> (Seq<Seq<char>>, Seq<char>)
    decreases s.len(),
{
    if s.len() == 0 {
        (seq![], seq![])
    } else {
        lines_step(lines_scan(s.drop_last()), s.last())
    }
}

/// The lines of `s` as `str::lines` gives them: split at `'\n'`, a `'\r'`
/// before the `'\n'` dropped, no empty last line after a final `'\n'`.
pub open spec fn lines_of(s: Seq<char>) -> Seq<Seq<char>> {
    let st = lines_scan(s);
    if st.1.len() == 0 {
        st.0
    } else {
        st.0.push(st.1)
    }
}

/// Splits `s` into lines, as `str::lines` does.
pub fn split_lines(s: &Vec<char>) -> (r: Vec<Vec<char>>)
    ensures
        seqs_of(r@) == lines_of(s@),
{
    let mut done: Vec<Vec<char>> = Vec::new();
    let mut cur: Vec<char> = Vec::new();
    let mut i: usize = 0;
    while i < s.len()
        invariant
            i <= s.len(),
            (seqs_of(done@), cur@) == lines_scan(s@.take(i as int)),
        decreases s.len() - i,
    {
        let c = s[i];
        assert(s@.take(i + 1).drop_last() =~= s@.take(i as int));
        if c == '\n' {
            if cur.len() > 0 && cur[cur.len() - 1] == '\r' {
                cur.pop();
            }
            push_seq(&mut done, cur);
            cur = Vec::new();
            assert(cur@ =~= seq![]);
        } else {
            cur.push(c);
        }
        i = i + 1;
    }
    assert(s@.take(s.len() as int) =~= s@);
    if cur.len() > 0 {
        push_seq(&mut done, cur);
    }
    done
}

/// One step of white-space splitting: finished words and the word being read.
pub open spec fn words_step(st: (Seq<Seq<char>>, Seq<char>), c: char) -> (
    Seq<Seq<char>>,
    Seq<char>,
) {
    if is_ws(c) {
        if st.1.len() > 0 {
            (st.0.push(st.1), seq![])
        } else {
            st
        }
    } else {
        (st.0, st.1.push(c))
    }
}

pub open spec fn words_scan(s: Seq<char>) -> (Seq<Seq<char>>, Seq<char>)
    decreases s.len(),
{
    if s.len() == 0 {
        (seq![], seq![])
    } else {
        words_step(words_scan(s.drop_last()), s.last())
    }
}

/// The maximal runs of non-white-space characters of `s`, as
/// `str::split_whitespace` gives them.
pub open spec fn words_of(s: Seq<char>) -> Seq<Seq<char>> {
    let st = words_scan(s);
    if st.1.len() == 0 {
        st.0
    } else {
        st.0.push(st.1)
    }
}

/// `parts` joined with `sep` between neighbours.
pub open spec fn join(parts: Seq<Seq<char>>, sep: Seq<char>) -> Seq<char>
    decreases parts.len(),
{
    if parts.len() == 0 {
        seq![]
    } else if parts.len() == 1 {
        parts[0]
    } else {
        join(parts.drop_last(), sep) + sep + parts.last()
    }
}

/// Whether `c` does not occur in `s`.
pub open spec fn lacks(s: Seq<char>, c: char) -> bool {
    forall|i: int| 0 <= i < s.len() ==> s[i] != c
}

/// Whether `c` occurs in none of `parts`.
pub open spec fn all_lack(parts: Seq<Seq<char>>, c: char) -> bool {
    forall|k: int| 0 <= k < parts.len() ==> lacks(#[trigger] parts[k], c)
}

proof fn lemma_lines_scan_lack(s: Seq<char>, c: char)
    requires
        lacks(s, c),
    ensures
        all_lack(lines_scan(s).0, c),
        lacks(lines_scan(s).1, c),
    decreases s.len(),
{
    if s.len() > 0 {
        let p = s.drop_last();
        assert(lacks(p, c)) by {
            assert forall|i: int| 0 <= i < p.len() implies p[i] != c by {
                assert(p[i] == s[i]);
            }
        }
        lemma_lines_scan_lack(p, c);
        let st = lines_scan(p);
        assert(s.last() != c) by {
            assert(s[s.len() - 1] == s.last());
        }
        if s.last() == '\n' {
            let l = strip_cr(st.1);
            assert(lacks(l, c)) by {
                assert forall|i: int| 0 <= i < l.len() implies l[i] != c by {
                    assert(l[i] == st.1[i]);
                }
            }
            let q = st.0.push(l);
            assert forall|k: int| 0 <= k < q.len() implies lacks(#[trigger] q[k], c) by {
                if k < st.0.len() {
                    assert(q[k] == st.0[k]);
                }
            }
        } else {
            let l = st.1.push(s.last());
            assert forall|i: int| 0 <= i < l.len() implies l[i] != c by {
                if i < st.1.len() {
                    assert(l[i] == st.1[i]);
                }
            }
        }
    }
}

/// A character that does not occur in a text occurs in none of its lines.
pub proof fn lemma_lines_lack(s: Seq<char>, c: char)
    requires
        lacks(s, c),
    ensures
        all_lack(lines_of(s), c),
{
    lemma_lines_scan_lack(s, c);
    let st = lines_scan(s);
    if st.1.len() > 0 {
        let q = st.0.push(st.1);
        assert forall|k: int| 0 <= k < q.len() implies lacks(#[trigger] q[k], c) by {
            if k < st.0.len() {
                assert(q[k] == st.0[k]);
            }
        }
    }
}

proof fn lemma_words_scan_lack(s: Seq<char>, c: char)
    requires
        lacks(s, c),
    ensures
        all_lack(words_scan(s).0, c),
        lacks(words_scan(s).1, c),
    decreases s.len(),
{
    if s.len() > 0 {
        let p = s.drop_last();
        assert(lacks(p, c)) by {
            assert forall|i: int| 0 <= i < p.len() implies p[i] != c by {
                assert(p[i] == s[i]);
            }
        }
        lemma_words_scan_lack(p, c);
        let st = words_scan(p);
        assert(s.last() != c) by {
            assert(s[s.len() - 1] == s.last());
        }
        if is_ws(s.last()) {
            if st.1.len() > 0 {
                let q = st.0.push(st.1);
                assert forall|k: int| 0 <= k < q.len() implies lacks(#[trigger] q[k], c) by {
                    if k < st.0.len() {
                        assert(q[k] == st.0[k]);
                    }
                }
            }
        } else {
            let l = st.1.push(s.last());
            assert forall|i: int| 0 <= i < l.len() implies l[i] != c by {
                if i < st.1.len() {
                    assert(l[i] == st.1[i]);
                }
            }
        }
    }
}

/// A character that does not occur in a text occurs in none of its words.
pub proof fn lemma_words_lack(s: Seq<char>, c: char)
    requires
        lacks(s, c),
    ensures
        all_lack(words_of(s), c),
{
    lemma_words_scan_lack(s, c);
    let st = words_scan(s);
    if st.1.len() > 0 {
        let q = st.0.push(st.1);
        assert forall|k: int| 0 <= k < q.len() implies lacks(#[trigger] q[k], c) by {
            if k < st.0.len() {
                assert(q[k] == st.0[k]);
            }
        }
    }
}

/// Joining parts that lack `c` with a separator that lacks it gives a text
/// that lacks it.
pub proof fn lemma_join_lack(parts: Seq<Seq<char>>, sep: Seq<char>, c: char)
    requires
        all_lack(parts, c),
        lacks(sep, c),
    ensures
        lacks(join(parts, sep), c),
    decreases parts.len(),
{
    if parts.len() == 1 {
        assert(lacks(parts[0], c));
    } else if parts.len() > 1 {
        let p = parts.drop_last();
        assert forall|k: int| 0 <= k < p.len() implies lacks(#[trigger] p[k], c) by {
            assert(p[k] == parts[k]);
        }
        lemma_join_lack(p, sep, c);
        assert(lacks(parts.last(), c)) by {
            assert(parts[parts.len() - 1] == parts.last());
        }
        let j = join(p, sep);
        let r = j + sep + parts.last();
        assert forall|i: int| 0 <= i < r.len() implies r[i] != c by {
            if i < j.len() {
                assert(r[i] == j[i]);
            } else if i < j.len() + sep.len() {
                assert(r[i] == sep[i - j.len()]);
            } else {
                assert(r[i] == parts.last()[i - j.len() - sep.len()]);
            }
        }
    }
}

/// Splits `s` at white space, as `str::split_whitespace` does.
pub fn split_words(s: &Vec<char>) -> (r: Vec<Vec<char>>)
    ensures
        seqs_of(r@) == words_of(s@),
{
    let mut done: Vec<Vec<char>> = Vec::new();
    let mut cur: Vec<char> = Vec::new();
    let mut i: usize = 0;
    while i < s.len()
        invariant
            i <= s.len(),
            (seqs_of(done@), cur@) == words_scan(s@.take(i as int)),
        decreases s.len() - i,
    {
        let c = s[i];
        assert(s@.take(i + 1).drop_last() =~= s@.take(i as int));
        if is_whitespace(c) {
            if cur.len() > 0 {
                push_seq(&mut done, cur);
                cur = Vec::new();
                assert(cur@ =~= seq![]);
            }
        } else {
            cur.push(c);
        }
        i = i + 1;
    }
    assert(s@.take(s.len() as int) =~= s@);
    if cur.len() > 0 {
        push_seq(&mut done, cur);
    }
    done
}

/// Joins `parts` with `sep` between neighbours.
pub fn join_chars(parts: &Vec<Vec<char>>, sep: &Vec<char>) -> (r: Vec<char>)
    ensures
        r@ == join(seqs_of(parts@), sep@),
{
    let mut r: Vec<char> = Vec::new();
    let mut i: usize = 0;
    while i < parts.len()
        invariant
            i <= parts.len(),
            r@ == join(seqs_of(parts@).take(i as int), sep@),
        decreases parts.len() - i,
    {
        let ghost pv = seqs_of(parts@);
        assert(pv.take(i + 1).drop_last() =~= pv.take(i as int));
        assert(pv.take(i + 1).last() == parts@[i as int]@);
        if i > 0 {
            extend_chars(&mut r, sep);
        } else {
            assert(pv.take(0) =~= Seq::<Seq<char>>::empty());
            assert(pv.take(1) =~= seq![pv[0]]);
        }
        extend_chars(&mut r, &parts[i]);
        i = i + 1;
        if i == 1 {
            assert(r@ =~= pv.take(1)[0]);
        }
    }
    assert(seqs_of(parts@).take(parts.len() as int) =~= seqs_of(parts@));
    r
}

/// The characters of `s`.
#[verifier::external_body]
pub(crate) fn str_chars(s: &str) -> (r: Vec<char>)
    ensures
        r@ == s@,
{
    s.chars().collect()
}

/// The string made of the characters of `v`.
#[verifier::external_body]
pub(crate) fn chars_to_string(v: &Vec<char>) -> (r: String)
    ensures
        r@ == v@,
{
    v.iter().collect()
}


/// Whether `s` begins with `p`.
pub open spec fn has_prefix(s: Seq<char>, p: Seq<char>) -> bool {
    p.len() <= s.len() && s.take(p.len() as int) == p
}

/// Whether `s` begins with `p` (as `str::starts_with` with a string pattern).
pub fn starts_with_chars(s: &Vec<char>, p: &[char]) -> (r: bool)
    ensures
        r == has_prefix(s@, p@),
{
    if p.len() > s.len() {
        return false;
    }
    let mut i: usize = 0;
    while i < p.len()
        invariant
            p@.len() <= s@.len(),
            i <= p@.len(),
            s@.take(i as int) == p@.take(i as int),
        decreases p.len() - i,
    {
        if s[i] != p[i] {
            assert(s@.take(p@.len() as int)[i as int] != p@[i as int]);
            return false;
        }
        i = i + 1;
        assert(s@.take(i as int) =~= p@.take(i as int));
    }
    assert(p@.take(p@.len() as int) =~= p@);
    true
}

/// Name for what `str::to_lowercase` returns for a text (Unicode lowercase
/// mapping, with the context rules of the standard library).
pub uninterp spec fn lowercase_of(s: Seq<char>) -> Seq<char>;

/// Whether every character of `s` is ASCII.
pub open spec fn is_ascii_text(s: Seq<char>) -> bool {
    forall|i: int| 0 <= i < s.len() ==> #[trigger] s[i] <= '\u{7f}'
}

/// ASCII lowercasing of one character: `A`–`Z` become `a`–`z`.
pub open spec fn ascii_lower(c: char) -> char {
    if 'A' <= c && c <= 'Z' {
        ((c as int) + 32) as char
    } else {
        c
    }
}

/// ASCII lowercasing of a text.
pub open spec fn ascii_lowered(s: Seq<char>) -> Seq<char> {
    s.map_values(|c: char| ascii_lower(c))
}

/// Calls `str::to_lowercase` on the string made of `s`: the result is a
/// function of the input characters, and for ASCII text it is the ASCII
/// lowercase form (only `A`–`Z` change, to `a`–`z`).
#[verifier::external_body]
pub(crate) fn lowercase_chars(s: &Vec<char>) -> (r: Vec<char>)
    ensures
        r@ == lowercase_of(s@),
        is_ascii_text(s@) ==> r@ == ascii_lowered(s@),
{
    s.iter().collect::<String>().to_lowercase().chars().collect()
}

/// The decimal digit for `d < 10`.
pub open spec fn digit_char(d: nat) -> char {
    if d == 0 {
        '0'
    } else if d == 1 {
        '1'
    } else if d == 2 {
        '2'
    } else if d == 3 {
        '3'
    } else if d == 4 {
        '4'
    } else if d == 5 {
        '5'
    } else if d == 6 {
        '6'
    } else if d == 7 {
        '7'
    } else if d == 8 {
        '8'
    } else {
        '9'
    }
}

/// The decimal notation of `n`, without leading zeros (what `{}` prints).
pub open spec fn decimal(n: nat) -> Seq<char>
    decreases n,
{
    if n < 10 {
        seq![digit_char(n)]
    } else {
        decimal(n / 10).push(digit_char(n % 10))
    }
}

fn digit(d: u128) -> (c: char)
    requires
        d < 10,
    ensures
        c == digit_char(d as nat),
{
    if d == 0 {
        '0'
    } else if d == 1 {
        '1'
    } else if d == 2 {
        '2'
    } else if d == 3 {
        '3'
    } else if d == 4 {
        '4'
    } else if d == 5 {
        '5'
    } else if d == 6 {
        '6'
    } else if d == 7 {
        '7'
    } else if d == 8 {
        '8'
    } else {
        '9'
    }
}

/// Appends the decimal notation of `n` to `out`.
pub fn push_decimal(out: &mut Vec<char>, n: u128)
    ensures
        final(out)@ == old(out)@ + decimal(n as nat),
    decreases n,
{
    if n < 10 {
        out.push(digit(n));
        assert(decimal(n as nat) =~= seq![digit_char(n as nat)]);
    } else {
        push_decimal(out, n / 10);
        out.push(digit(n % 10));
    }
}

/// Appends the characters of `s` to `out`.
pub fn push_str(out: &mut Vec<char>, s: &str)
    ensures
        final(out)@ == old(out)@ + s@,
{
    let cs = str_chars(s);
    extend_chars(out, &cs);
}

/// Whether `c` occurs in `s`.
pub open spec fn contains_char(s: Seq<char>, c: char) -> bool {
    exists|i: int| 0 <= i < s.len() && s[i] == c
}

/// Whether `c` occurs in `s`.
pub fn has_char(s: &Vec<char>, c: char) -> (r: bool)
    ensures
        r == contains_char(s@, c),
{
    let mut i: usize = 0;
    while i < s.len()
        invariant
            i <= s.len(),
            forall|j: int| 0 <= j < i ==> s@[j] != c,
        decreases s.len() - i,
    {
        if s[i] == c {
            return true;
        }
        i = i + 1;
    }
    false
}


/// Whether the characters of `v` are those of `s`.
pub fn chars_eq_str(v: &Vec<char>, s: &str) -> (r: bool)
    ensures
        r == (v@ == s@),
{
    let w = str_chars(s);
    if v.len() != w.len() {
        return false;
    }
    let mut i: usize = 0;
    while i < v.len()
        invariant
            v@.len() == w@.len(),
            w@ == s@,
            i <= v.len(),
            forall|j: int| 0 <= j < i ==> v@[j] == w@[j],
        decreases v.len() - i,
    {
        if v[i] != w[i] {
            assert(v@[i as int] != w@[i as int]);
            return false;
        }
        i = i + 1;
    }
    assert(v@ =~= w@);
    true
}

/// The lowercase form of `s` (`str::to_lowercase`), as characters.
pub fn lowercase_str(s: &str) -> (r: Vec<char>)
    ensures
        r@ == lowercase_of(s@),
        is_ascii_text(s@) ==> lowercase_of(s@) == ascii_lowered(s@),
{
    let cs = str_chars(s);
    lowercase_chars(&cs)
}

} // verus!
