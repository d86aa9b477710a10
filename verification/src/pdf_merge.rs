//! Merging PDF documents page by page: copying into each added page the
//! attributes it inherits from its own page tree, shifting the object
//! numbers of the added document past those of the result, and hanging its
//! pages under the result's page tree.

use vstd::prelude::*;
use crate::chars::{chars_to_string, str_chars};

verus! {

#[verifier::external_type_specification]
#[verifier::external_body]
pub struct ExPdfObjectValue(lopdf::Object);

#[verifier::external_type_specification]
#[verifier::external_body]
pub struct ExPdfStream(lopdf::Stream);

/// A PDF object as the page merge reads and rewrites it: what can hold a
/// reference is spelled out, the rest is carried as lopdf holds it.
pub enum PdfObject {
    /// A reference to an indirect object: its number and generation.
    Reference(u32, u16),
    Integer(i64),
    Array(Vec<PdfObject>),
    /// A dictionary: its entries, in order.
    Dictionary(Vec<(Vec<u8>, PdfObject)>),
    /// A stream: the entries of its dictionary, and the stream itself, whose
    /// own dictionary the entries replace.
    Stream(Vec<(Vec<u8>, PdfObject)>, lopdf::Stream),
    /// Any other object (null, boolean, real, name, string).
    Other(lopdf::Object),
}

/// Whether every reference in `o` can be shifted by `off` within `u32`.
pub open spec fn refs_fit(o: PdfObject, off: u32) -> bool
    decreases o,
{
    match o {
        PdfObject::Reference(n, _) => n + off <= u32::MAX,
        PdfObject::Array(a) => items_fit(a@, off),
        PdfObject::Dictionary(d) => entries_fit(d@, off),
        PdfObject::Stream(d, _) => entries_fit(d@, off),
        _ => true,
    }
}

pub open spec fn items_fit(a: Seq<PdfObject>, off: u32) -> bool
    decreases a,
{
    if a.len() == 0 {
        true
    } else {
        items_fit(a.drop_last(), off) && refs_fit(a.last(), off)
    }
}

pub open spec fn entries_fit(d: Seq<(Vec<u8>, PdfObject)>, off: u32) -> bool
    decreases d,
{
    if d.len() == 0 {
        true
    } else {
        entries_fit(d.drop_last(), off) && refs_fit(d.last().1, off)
    }
}

/// Whether `r` is `o` with every reference number increased by `off`:
/// same shape, same keys and order, same other values.
pub open spec fn renumbered(o: PdfObject, r: PdfObject, off: u32) -> bool
    decreases o,
{
    match o {
        PdfObject::Reference(n, g) => r == PdfObject::Reference((n + off) as u32, g),
        PdfObject::Integer(i) => r == PdfObject::Integer(i),
        PdfObject::Array(a) => r is Array && items_renumbered(a@, r->Array_0@, off),
        PdfObject::Dictionary(d) => r is Dictionary && entries_renumbered(
            d@,
            r->Dictionary_0@,
            off,
        ),
        PdfObject::Stream(d, s) => r is Stream && entries_renumbered(d@, r->Stream_0@, off)
            && r->Stream_1 == s,
        PdfObject::Other(x) => r == PdfObject::Other(x),
    }
}

pub open spec fn items_renumbered(a: Seq<PdfObject>, b: Seq<PdfObject>, off: u32) -> bool
    decreases a,
{
    if a.len() == 0 {
        b.len() == 0
    } else {
        b.len() == a.len() && items_renumbered(a.drop_last(), b.drop_last(), off) && renumbered(
            a.last(),
            b.last(),
            off,
        )
    }
}

pub open spec fn entries_renumbered(
    d: Seq<(Vec<u8>, PdfObject)>,
    e: Seq<(Vec<u8>, PdfObject)>,
    off: u32,
) -> bool
    decreases d,
{
    if d.len() == 0 {
        e.len() == 0
    } else {
        e.len() == d.len() && entries_renumbered(d.drop_last(), e.drop_last(), off)
            && e.last().0@ == d.last().0@ && renumbered(d.last().1, e.last().1, off)
    }
}

/// `o` with every reference number increased by `offset`; `None` exactly
/// when some reference would leave `u32`.
pub fn renumber_refs(obj: PdfObject, offset: u32) -> (r: Option<PdfObject>)
    ensures
        r is Some <==> refs_fit(obj, offset),
        r is Some ==> renumbered(obj, r->0, offset),
    decreases obj,
{
    match obj {
        PdfObject::Reference(n, g) => match n.checked_add(offset) {
            Some(m) => Some(PdfObject::Reference(m, g)),
            None => None,
        },
        PdfObject::Integer(i) => Some(PdfObject::Integer(i)),
        PdfObject::Array(a) => match renumber_items(a, offset) {
            Some(b) => Some(PdfObject::Array(b)),
            None => None,
        },
        PdfObject::Dictionary(d) => match renumber_entries(d, offset) {
            Some(e) => Some(PdfObject::Dictionary(e)),
            None => None,
        },
        PdfObject::Stream(d, s) => match renumber_entries(d, offset) {
            Some(e) => Some(PdfObject::Stream(e, s)),
            None => None,
        },
        PdfObject::Other(x) => Some(PdfObject::Other(x)),
    }
}

proof fn lemma_items_prefix(a: Seq<PdfObject>, off: u32, k: int)
    requires
        0 <= k <= a.len(),
        items_fit(a, off),
    ensures
        items_fit(a.take(k), off),
    decreases a.len(),
{
    if k < a.len() {
        assert(a.drop_last().take(k) =~= a.take(k));
        lemma_items_prefix(a.drop_last(), off, k);
    } else {
        assert(a.take(k) =~= a);
    }
}

fn renumber_items(items: Vec<PdfObject>, offset: u32) -> (r: Option<Vec<PdfObject>>)
    ensures
        r is Some <==> items_fit(items@, offset),
        r is Some ==> items_renumbered(items@, r->0@, offset),
    decreases items,
{
    let ghost orig = items@;
    assert(orig.len() == items.len());
    let mut rest = items;
    let mut out: Vec<PdfObject> = Vec::new();
    let mut k: usize = 0;
    while rest.len() > 0
        invariant
            orig == items@,
            orig.len() <= usize::MAX,
            k <= orig.len(),
            rest@ == orig.skip(k as int),
            items_fit(orig.take(k as int), offset),
            items_renumbered(orig.take(k as int), out@, offset),
        decreases rest.len(),
    {
        assert(k < orig.len());
        let item = rest.remove(0);
        assert(item == orig[k as int]);
        assert(decreases_to!(items => items@));
        assert(decreases_to!(items@ => items@[k as int]));
        let ghost t = orig.take(k + 1);
        assert(t.drop_last() =~= orig.take(k as int));
        match renumber_refs(item, offset) {
            Some(x) => {
                let ghost o0 = out@;
                out.push(x);
                assert(out@.drop_last() =~= o0);
                assert(rest@ =~= orig.skip(k + 1));
                k = k + 1;
            },
            None => {
                proof {
                    if items_fit(orig, offset) {
                        lemma_items_prefix(orig, offset, k + 1);
                    }
                }
                return None;
            },
        }
    }
    assert(orig.take(k as int) =~= orig);
    Some(out)
}

proof fn lemma_entries_prefix(d: Seq<(Vec<u8>, PdfObject)>, off: u32, k: int)
    requires
        0 <= k <= d.len(),
        entries_fit(d, off),
    ensures
        entries_fit(d.take(k), off),
    decreases d.len(),
{
    if k < d.len() {
        assert(d.drop_last().take(k) =~= d.take(k));
        lemma_entries_prefix(d.drop_last(), off, k);
    } else {
        assert(d.take(k) =~= d);
    }
}

fn renumber_entries(entries: Vec<(Vec<u8>, PdfObject)>, offset: u32) -> (r: Option<
    Vec<(Vec<u8>, PdfObject)>,
>)
    ensures
        r is Some <==> entries_fit(entries@, offset),
        r is Some ==> entries_renumbered(entries@, r->0@, offset),
    decreases entries,
{
    let ghost orig = entries@;
    assert(orig.len() == entries.len());
    let mut rest = entries;
    let mut out: Vec<(Vec<u8>, PdfObject)> = Vec::new();
    let mut k: usize = 0;
    while rest.len() > 0
        invariant
            orig == entries@,
            orig.len() <= usize::MAX,
            k <= orig.len(),
            rest@ == orig.skip(k as int),
            entries_fit(orig.take(k as int), offset),
            entries_renumbered(orig.take(k as int), out@, offset),
        decreases rest.len(),
    {
        assert(k < orig.len());
        let (key, value) = rest.remove(0);
        assert(key == orig[k as int].0 && value == orig[k as int].1);
        assert(decreases_to!(entries => entries@));
        assert(decreases_to!(entries@ => entries@[k as int]));
        assert(decreases_to!(entries@[k as int] => entries@[k as int].1));
        let ghost t = orig.take(k + 1);
        assert(t.drop_last() =~= orig.take(k as int));
        match renumber_refs(value, offset) {
            Some(x) => {
                let ghost o0 = out@;
                out.push((key, x));
                assert(out@.drop_last() =~= o0);
                assert(rest@ =~= orig.skip(k + 1));
                k = k + 1;
            },
            None => {
                proof {
                    if entries_fit(orig, offset) {
                        lemma_entries_prefix(orig, offset, k + 1);
                    }
                }
                return None;
            },
        }
    }
    assert(orig.take(k as int) =~= orig);
    Some(out)
}

// ── Dictionaries ─────────────────────────────────────────────────────────────

/// The entries of a dictionary with their keys taken as byte sequences.
pub open spec fn entries_view(d: Seq<(Vec<u8>, PdfObject)>) -> Seq<(Seq<u8>, PdfObject)> {
    d.map_values(|e: (Vec<u8>, PdfObject)| (e.0@, e.1))
}

/// The index of the first entry whose key is `key`.
pub open spec fn first_key(d: Seq<(Seq<u8>, PdfObject)>, key: Seq<u8>) -> Option<int>
    decreases d.len(),
{
    if d.len() == 0 {
        None
    } else {
        match first_key(d.drop_last(), key) {
            Some(i) => Some(i),
            None => if d.last().0 == key {
                Some(d.len() - 1)
            } else {
                None
            },
        }
    }
}

/// The value under `key` (its first entry), if any.
pub open spec fn lookup(d: Seq<(Seq<u8>, PdfObject)>, key: Seq<u8>) -> Option<PdfObject> {
    match first_key(d, key) {
        Some(i) => Some(d[i].1),
        None => None,
    }
}

/// `d` with `v` under `key`: the first entry with that key gets the value
/// in place, or a new entry is appended.
pub open spec fn set_entry(d: Seq<(Seq<u8>, PdfObject)>, key: Seq<u8>, v: PdfObject) -> Seq<
    (Seq<u8>, PdfObject),
> {
    match first_key(d, key) {
        Some(i) => d.update(i, (key, v)),
        None => d.push((key, v)),
    }
}

pub proof fn lemma_first_key(d: Seq<(Seq<u8>, PdfObject)>, key: Seq<u8>)
    ensures
        match first_key(d, key) {
            Some(i) => 0 <= i < d.len() && d[i].0 == key && forall|j: int|
                0 <= j < i ==> #[trigger] d[j].0 != key,
            None => forall|j: int| 0 <= j < d.len() ==> #[trigger] d[j].0 != key,
        },
    decreases d.len(),
{
    if d.len() > 0 {
        lemma_first_key(d.drop_last(), key);
        match first_key(d.drop_last(), key) {
            Some(i) => {
                assert forall|j: int| 0 <= j < i implies #[trigger] d[j].0 != key by {
                    assert(d.drop_last()[j] == d[j]);
                }
            },
            None => {
                assert forall|j: int| 0 <= j < d.len() - 1 implies #[trigger] d[j].0 != key by {
                    assert(d.drop_last()[j] == d[j]);
                }
            },
        }
    }
}

/// The first matching index is the one below which no key matches.
pub proof fn lemma_first_key_at(d: Seq<(Seq<u8>, PdfObject)>, key: Seq<u8>, i: int)
    requires
        0 <= i < d.len(),
        d[i].0 == key,
        forall|j: int| 0 <= j < i ==> #[trigger] d[j].0 != key,
    ensures
        first_key(d, key) == Some(i),
{
    lemma_first_key(d, key);
    match first_key(d, key) {
        Some(k) => {
            if k < i {
                assert(d[k].0 != key);
            } else if k > i {
                assert(d[i].0 != key);
            }
        },
        None => {
            assert(d[i].0 != key);
        },
    }
}

/// Reading a key back after setting it gives the value set; other keys
/// are untouched.
pub proof fn lemma_set_entry(d: Seq<(Seq<u8>, PdfObject)>, key: Seq<u8>, v: PdfObject, other: Seq<
    u8,
>)
    ensures
        lookup(set_entry(d, key, v), key) == Some(v),
        other != key ==> lookup(set_entry(d, key, v), other) == lookup(d, other),
{
    lemma_first_key(d, key);
    lemma_first_key(d, other);
    let s = set_entry(d, key, v);
    match first_key(d, key) {
        Some(i) => {
            assert forall|j: int| 0 <= j < i implies #[trigger] s[j].0 != key by {
                assert(s[j] == d[j]);
            }
            lemma_first_key_at(s, key, i);
        },
        None => {
            assert forall|j: int| 0 <= j < d.len() implies #[trigger] s[j].0 != key by {
                assert(s[j] == d[j]);
            }
            lemma_first_key_at(s, key, d.len() as int);
        },
    }
    if other != key {
        lemma_first_key(s, other);
        match first_key(d, other) {
            Some(k) => {
                assert forall|j: int| 0 <= j < k implies #[trigger] s[j].0 != other by {
                    if s[j] != d[j] {
                        assert(s[j].0 == key);
                    }
                }
                assert(s[k] == d[k]);
                lemma_first_key_at(s, other, k);
            },
            None => {
                match first_key(s, other) {
                    Some(k) => {
                        if k < d.len() && s[k] == d[k] {
                            assert(d[k].0 != other);
                        }
                    },
                    None => {},
                }
            },
        }
    }
}

fn bytes_eq(a: &Vec<u8>, b: &Vec<u8>) -> (r: bool)
    ensures
        r == (a@ == b@),
{
    if a.len() != b.len() {
        return false;
    }
    let mut i: usize = 0;
    while i < a.len()
        invariant
            i <= a.len(),
            a.len() == b.len(),
            forall|j: int| 0 <= j < i ==> a@[j] == b@[j],
        decreases a.len() - i,
    {
        if a[i] != b[i] {
            return false;
        }
        i = i + 1;
    }
    assert(a@ =~= b@);
    true
}

fn find_key(d: &Vec<(Vec<u8>, PdfObject)>, key: &Vec<u8>) -> (r: Option<usize>)
    ensures
        match r {
            Some(i) => first_key(entries_view(d@), key@) == Some(i as int),
            None => first_key(entries_view(d@), key@) is None,
        },
{
    let ghost dv = entries_view(d@);
    let mut i: usize = 0;
    while i < d.len()
        invariant
            i <= d.len(),
            dv == entries_view(d@),
            forall|j: int| 0 <= j < i ==> #[trigger] dv[j].0 != key@,
        decreases d.len() - i,
    {
        if bytes_eq(&d[i].0, key) {
            proof {
                lemma_first_key_at(dv, key@, i as int);
            }
            return Some(i);
        }
        i = i + 1;
    }
    proof {
        lemma_first_key(dv, key@);
        match first_key(dv, key@) {
            Some(k) => {
                assert(dv[k].0 != key@);
            },
            None => {},
        }
    }
    None
}

/// Sets `key` to `v` in the dictionary entries `d` (see `set_entry`).
fn set_value(d: Vec<(Vec<u8>, PdfObject)>, key: Vec<u8>, v: PdfObject) -> (r: Vec<(Vec<u8>, PdfObject)>)
    ensures
        entries_view(r@) == set_entry(entries_view(d@), key@, v),
{
    let mut d = d;
    let ghost dv = entries_view(d@);
    let ghost kv = key@;
    proof {
        lemma_first_key(dv, kv);
    }
    match find_key(&d, &key) {
        Some(i) => {
            let _old = d.remove(i);
            d.insert(i, (key, v));
            assert(entries_view(d@) =~= dv.update(i as int, (kv, v)));
        },
        None => {
            d.push((key, v));
            assert(entries_view(d@) =~= dv.push((kv, v)));
        },
    }
    d
}

// ── The page tree ────────────────────────────────────────────────────────────

/// `Kids`, the key of a page-tree node's children.
pub open spec fn kids_key() -> Seq<u8> {
    seq![75u8, 105u8, 100u8, 115u8]
}

/// `Count`, the key of a page-tree node's page count.
pub open spec fn count_key() -> Seq<u8> {
    seq![67u8, 111u8, 117u8, 110u8, 116u8]
}

/// `Parent`, the key of a page's parent node.
pub open spec fn parent_key() -> Seq<u8> {
    seq![80u8, 97u8, 114u8, 101u8, 110u8, 116u8]
}

/// `Pages`, the key of the catalog's page tree.
pub open spec fn pages_key() -> Seq<u8> {
    seq![80u8, 97u8, 103u8, 101u8, 115u8]
}

/// `Root`, the key of the trailer's catalog.
pub open spec fn root_key() -> Seq<u8> {
    seq![82u8, 111u8, 111u8, 116u8]
}

/// The page count of a page-tree node: its `Count` when that is an
/// integer, else 0.
pub open spec fn count_of(node: Seq<(Seq<u8>, PdfObject)>) -> int {
    match lookup(node, count_key()) {
        Some(PdfObject::Integer(n)) => n as int,
        _ => 0,
    }
}

/// The children of a page-tree node: its `Kids` when that is an array,
/// else none.
pub open spec fn kids_of(node: Seq<(Seq<u8>, PdfObject)>) -> Seq<PdfObject> {
    match lookup(node, kids_key()) {
        Some(PdfObject::Array(a)) => a@,
        _ => seq![],
    }
}

/// References to the given objects, in order.
pub open spec fn page_refs(ids: Seq<(u32, u16)>) -> Seq<PdfObject> {
    ids.map_values(|id: (u32, u16)| PdfObject::Reference(id.0, id.1))
}

/// The node `node` with the pages `ids` appended: its `Kids` set to the old
/// children followed by references to the pages, then its `Count` set to
/// the old count plus the number of pages.
pub open spec fn pages_added(
    node: Seq<(Seq<u8>, PdfObject)>,
    ids: Seq<(u32, u16)>,
    result: Seq<(Seq<u8>, PdfObject)>,
) -> bool {
    &&& lookup(result, kids_key()) matches Some(PdfObject::Array(k)) && k@ == kids_of(node)
        + page_refs(ids)
    &&& result == set_entry(
        set_entry(node, kids_key(), lookup(result, kids_key())->0),
        count_key(),
        PdfObject::Integer((count_of(node) + ids.len()) as i64),
    )
}

/// Appends references to the pages `new_ids` to the children of the
/// page-tree node `node` and adds their number to its count (see
/// `pages_added`).
pub fn add_pages(node: Vec<(Vec<u8>, PdfObject)>, new_ids: &Vec<(u32, u16)>) -> (r: Vec<
    (Vec<u8>, PdfObject),
>)
    requires
        new_ids.len() <= i64::MAX,
        count_of(entries_view(node@)) + new_ids.len() <= i64::MAX,
    ensures
        pages_added(entries_view(node@), new_ids@, entries_view(r@)),
{
    let ghost nv = entries_view(node@);
    let count_k: Vec<u8> = vec![67u8, 111u8, 117u8, 110u8, 116u8];
    let kids_k: Vec<u8> = vec![75u8, 105u8, 100u8, 115u8];
    assert(count_k@ =~= count_key());
    assert(kids_k@ =~= kids_key());
    proof {
        lemma_first_key(nv, count_key());
    }
    let count: i64 = match find_key(&node, &count_k) {
        Some(i) => match &node[i].1 {
            PdfObject::Integer(c) => *c,
            _ => 0,
        },
        None => 0,
    };
    assert(count == count_of(nv));
    proof {
        lemma_first_key(nv, kids_key());
    }
    let mut node = node;
    let kids_pos = find_key(&node, &kids_k);
    let mut kids: Vec<PdfObject> = Vec::new();
    let mut kids_name = kids_k;
    match kids_pos {
        Some(i) => {
            let (k, v) = node.remove(i);
            kids_name = k;
            match v {
                PdfObject::Array(a) => {
                    kids = a;
                },
                _ => {},
            }
        },
        None => {},
    }
    assert(kids_name@ == kids_key());
    assert(kids@ == kids_of(nv));
    let ghost old_kids = kids@;
    let mut j: usize = 0;
    while j < new_ids.len()
        invariant
            j <= new_ids.len(),
            kids@ == old_kids + page_refs(new_ids@.take(j as int)),
        decreases new_ids.len() - j,
    {
        let (n, g) = new_ids[j];
        kids.push(PdfObject::Reference(n, g));
        assert(page_refs(new_ids@.take(j + 1)) =~= page_refs(new_ids@.take(j as int)).push(
            PdfObject::Reference(n, g),
        ));
        j = j + 1;
    }
    assert(new_ids@.take(new_ids.len() as int) =~= new_ids@);
    let kids_obj = PdfObject::Array(kids);
    let ghost ko = kids_obj;
    let ghost kn = kids_name@;
    match kids_pos {
        Some(i) => {
            node.insert(i, (kids_name, kids_obj));
            assert(entries_view(node@) =~= nv.update(i as int, (kn, ko)));
        },
        None => {
            node.push((kids_name, kids_obj));
            assert(entries_view(node@) =~= nv.push((kn, ko)));
        },
    }
    let ghost s1 = entries_view(node@);
    assert(s1 == set_entry(nv, kids_key(), ko));
    let total: i64 = count + new_ids.len() as i64;
    let r = set_value(node, count_k, PdfObject::Integer(total));
    proof {
        assert(count_key() != kids_key()) by {
            assert(count_key().len() != kids_key().len());
        }
        lemma_set_entry(nv, kids_key(), ko, count_key());
        lemma_set_entry(s1, count_key(), PdfObject::Integer(total), kids_key());
    }
    r
}

/// The page `page` with its `Parent` set to the node `parent`; an object
/// that is not a dictionary is returned as it is.
pub fn set_parent(page: PdfObject, parent: (u32, u16)) -> (r: PdfObject)
    ensures
        match page {
            PdfObject::Dictionary(d) => r matches PdfObject::Dictionary(e) && entries_view(e@)
                == set_entry(entries_view(d@), parent_key(), PdfObject::Reference(parent.0, parent.1)),
            _ => r == page,
        },
{
    match page {
        PdfObject::Dictionary(d) => {
            let k: Vec<u8> = vec![80u8, 97u8, 114u8, 101u8, 110u8, 116u8];
            assert(k@ =~= parent_key());
            PdfObject::Dictionary(set_value(d, k, PdfObject::Reference(parent.0, parent.1)))
        },
        other => other,
    }
}

// ── Inherited page attributes ────────────────────────────────────────────────

/// `Resources`, `MediaBox`, `CropBox` and `Rotate`: the attributes a page
/// inherits from the nodes above it in its page tree.
pub open spec fn inheritable_keys() -> Seq<Seq<u8>> {
    seq![
        seq![82u8, 101u8, 115u8, 111u8, 117u8, 114u8, 99u8, 101u8, 115u8],
        seq![77u8, 101u8, 100u8, 105u8, 97u8, 66u8, 111u8, 120u8],
        seq![67u8, 114u8, 111u8, 112u8, 66u8, 111u8, 120u8],
        seq![82u8, 111u8, 116u8, 97u8, 116u8, 101u8],
    ]
}

/// The page `page` after taking attribute `key` from the node `node`, when
/// the page lacks it and the node has it.
pub open spec fn take_attribute(
    page: Seq<(Seq<u8>, PdfObject)>,
    node: Seq<(Seq<u8>, PdfObject)>,
    key: Seq<u8>,
) -> Seq<(Seq<u8>, PdfObject)> {
    if lookup(page, key) is None && lookup(node, key) is Some {
        set_entry(page, key, lookup(node, key)->0)
    } else {
        page
    }
}

/// The page after taking, from the node `node`, each inheritable attribute
/// it still lacks (in the order of `inheritable_keys`).
pub open spec fn inherit_from(page: Seq<(Seq<u8>, PdfObject)>, node: Seq<(Seq<u8>, PdfObject)>) -> Seq<
    (Seq<u8>, PdfObject),
> {
    let k = inheritable_keys();
    take_attribute(
        take_attribute(take_attribute(take_attribute(page, node, k[0]), node, k[1]), node, k[2]),
        node,
        k[3],
    )
}

/// The page with its inherited attributes copied in: the nodes above it,
/// nearest first, each give the attributes the page still lacks.
pub open spec fn inherit_all(
    page: Seq<(Seq<u8>, PdfObject)>,
    ancestors: Seq<Seq<(Seq<u8>, PdfObject)>>,
) -> Seq<(Seq<u8>, PdfObject)>
    decreases ancestors.len(),
{
    if ancestors.len() == 0 {
        page
    } else {
        inherit_all(inherit_from(page, ancestors[0]), ancestors.drop_first())
    }
}

proof fn lemma_lookup_remove(d: Seq<(Seq<u8>, PdfObject)>, j: int, k: Seq<u8>)
    requires
        0 <= j < d.len(),
        d[j].0 != k,
    ensures
        lookup(d.remove(j), k) == lookup(d, k),
{
    let e = d.remove(j);
    lemma_first_key(d, k);
    lemma_first_key(e, k);
    match first_key(d, k) {
        Some(i) => {
            if i < j {
                assert(e[i] == d[i]);
                assert forall|t: int| 0 <= t < i implies #[trigger] e[t].0 != k by {
                    assert(e[t] == d[t]);
                }
                lemma_first_key_at(e, k, i);
            } else {
                assert(e[i - 1] == d[i]);
                assert forall|t: int| 0 <= t < i - 1 implies #[trigger] e[t].0 != k by {
                    if t < j {
                        assert(e[t] == d[t]);
                    } else {
                        assert(e[t] == d[t + 1]);
                    }
                }
                lemma_first_key_at(e, k, i - 1);
            }
        },
        None => {
            match first_key(e, k) {
                Some(i) => {
                    if i < j {
                        assert(e[i] == d[i]);
                    } else {
                        assert(e[i] == d[i + 1]);
                    }
                },
                None => {},
            }
        },
    }
}

/// Takes attribute `key` from `node` into `page` (see `take_attribute`);
/// the node keeps its other attributes.
fn take_attribute_exec(
    page: Vec<(Vec<u8>, PdfObject)>,
    node: Vec<(Vec<u8>, PdfObject)>,
    key: Vec<u8>,
) -> (r: (Vec<(Vec<u8>, PdfObject)>, Vec<(Vec<u8>, PdfObject)>))
    ensures
        entries_view(r.0@) == take_attribute(entries_view(page@), entries_view(node@), key@),
        forall|k: Seq<u8>| k != key@ ==> #[trigger] lookup(entries_view(r.1@), k) == lookup(
            entries_view(node@),
            k,
        ),
{
    let ghost pv = entries_view(page@);
    let ghost nv = entries_view(node@);
    proof {
        lemma_first_key(pv, key@);
        lemma_first_key(nv, key@);
    }
    if find_key(&page, &key).is_some() {
        return (page, node);
    }
    match find_key(&node, &key) {
        None => (page, node),
        Some(j) => {
            let mut node = node;
            let (_k, v) = node.remove(j);
            assert(entries_view(node@) =~= nv.remove(j as int));
            assert forall|k: Seq<u8>| k != key@ implies #[trigger] lookup(entries_view(node@), k)
                == lookup(nv, k) by {
                lemma_lookup_remove(nv, j as int, k);
            }
            let page = set_value(page, key, v);
            (page, node)
        },
    }
}

proof fn lemma_keys_distinct()
    ensures
        forall|i: int, j: int|
            0 <= i < 4 && 0 <= j < 4 && i != j ==> #[trigger] inheritable_keys()[i]
                != #[trigger] inheritable_keys()[j],
{
    let k = inheritable_keys();
    assert(k[0].len() == 9 && k[1].len() == 8 && k[2].len() == 7 && k[3].len() == 6);
}

/// The page `page` with the inheritable attributes it lacks taken from the
/// page-tree node `node` (see `inherit_from`).
fn inherit_from_exec(page: Vec<(Vec<u8>, PdfObject)>, node: Vec<(Vec<u8>, PdfObject)>) -> (r: Vec<
    (Vec<u8>, PdfObject),
>)
    ensures
        entries_view(r@) == inherit_from(entries_view(page@), entries_view(node@)),
{
    let ghost nv = entries_view(node@);
    let ghost k = inheritable_keys();
    proof {
        lemma_keys_distinct();
    }
    let k0: Vec<u8> = vec![82u8, 101u8, 115u8, 111u8, 117u8, 114u8, 99u8, 101u8, 115u8];
    let k1: Vec<u8> = vec![77u8, 101u8, 100u8, 105u8, 97u8, 66u8, 111u8, 120u8];
    let k2: Vec<u8> = vec![67u8, 114u8, 111u8, 112u8, 66u8, 111u8, 120u8];
    let k3: Vec<u8> = vec![82u8, 111u8, 116u8, 97u8, 116u8, 101u8];
    assert(k0@ =~= k[0] && k1@ =~= k[1] && k2@ =~= k[2] && k3@ =~= k[3]);
    let (p, n) = take_attribute_exec(page, node, k0);
    assert(lookup(entries_view(n@), k[1]) == lookup(nv, k[1]));
    assert(lookup(entries_view(n@), k[2]) == lookup(nv, k[2]));
    assert(lookup(entries_view(n@), k[3]) == lookup(nv, k[3]));
    let (p, n) = take_attribute_exec(p, n, k1);
    assert(lookup(entries_view(n@), k[2]) == lookup(nv, k[2]));
    assert(lookup(entries_view(n@), k[3]) == lookup(nv, k[3]));
    let (p, n) = take_attribute_exec(p, n, k2);
    assert(lookup(entries_view(n@), k[3]) == lookup(nv, k[3]));
    let (p, _n) = take_attribute_exec(p, n, k3);
    p
}

/// The page `page` with the attributes it inherits copied in from the nodes
/// above it in its page tree, `ancestors`, nearest first (see
/// `inherit_all`): `Resources`, `MediaBox`, `CropBox` and `Rotate`, each
/// from the nearest node that has it, unless the page has its own.
pub fn inherit_attributes(
    page: Vec<(Vec<u8>, PdfObject)>,
    ancestors: Vec<Vec<(Vec<u8>, PdfObject)>>,
) -> (r: Vec<(Vec<u8>, PdfObject)>)
    ensures
        entries_view(r@) == inherit_all(
            entries_view(page@),
            ancestors@.map_values(|a: Vec<(Vec<u8>, PdfObject)>| entries_view(a@)),
        ),
{
    let ghost av = ancestors@.map_values(|a: Vec<(Vec<u8>, PdfObject)>| entries_view(a@));
    let ghost target = inherit_all(entries_view(page@), av);
    let mut rest = ancestors;
    let mut page = page;
    let mut k: usize = 0;
    assert(av.skip(0) =~= av);
    assert(av.len() == rest.len());
    while rest.len() > 0
        invariant
            k <= av.len(),
            av.len() <= usize::MAX,
            rest@.map_values(|a: Vec<(Vec<u8>, PdfObject)>| entries_view(a@)) == av.skip(k as int),
            inherit_all(entries_view(page@), av.skip(k as int)) == target,
        decreases rest.len(),
    {
        let ghost rv = rest@.map_values(|a: Vec<(Vec<u8>, PdfObject)>| entries_view(a@));
        assert(rv.len() == rest.len());
        assert(k < av.len());
        let node = rest.remove(0);
        assert(entries_view(node@) == rv[0]);
        assert(av.skip(k as int).drop_first() =~= av.skip(k + 1));
        assert(rest@.map_values(|a: Vec<(Vec<u8>, PdfObject)>| entries_view(a@)) =~= rv.drop_first());
        page = inherit_from_exec(page, node);
        k = k + 1;
    }
    assert(rest@.map_values(|a: Vec<(Vec<u8>, PdfObject)>| entries_view(a@)) =~= Seq::<
        Seq<(Seq<u8>, PdfObject)>,
    >::empty());
    page
}

/// The object number `id` moved past `offset`, when it stays within `u32`.
pub open spec fn shifted(id: (u32, u16), offset: u32) -> Option<(u32, u16)> {
    if id.0 + offset <= u32::MAX {
        Some(((id.0 + offset) as u32, id.1))
    } else {
        None
    }
}

/// The object number `id` moved past `offset` (see `shifted`).
pub fn shift_id(id: (u32, u16), offset: u32) -> (r: Option<(u32, u16)>)
    ensures
        r == shifted(id, offset),
{
    match id.0.checked_add(offset) {
        Some(n) => Some((n, id.1)),
        None => None,
    }
}

/// Whether all of `ids` can be moved past `offset`.
pub open spec fn all_shift(ids: Seq<(u32, u16)>, offset: u32) -> bool {
    forall|i: int| 0 <= i < ids.len() ==> #[trigger] shifted(ids[i], offset) is Some
}

/// The object numbers `ids` moved past `offset`, in order; `None` when one
/// would leave `u32`.
pub fn shift_ids(ids: &Vec<(u32, u16)>, offset: u32) -> (r: Option<Vec<(u32, u16)>>)
    ensures
        r is Some <==> all_shift(ids@, offset),
        r matches Some(v) ==> v@.len() == ids@.len() && forall|i: int|
            0 <= i < ids@.len() ==> shifted(ids@[i], offset) == Some(#[trigger] v@[i]),
{
    let mut out: Vec<(u32, u16)> = Vec::new();
    let mut i: usize = 0;
    while i < ids.len()
        invariant
            i <= ids.len(),
            out@.len() == i,
            forall|j: int| 0 <= j < i ==> shifted(ids@[j], offset) == Some(#[trigger] out@[j]),
        decreases ids.len() - i,
    {
        match shift_id(ids[i], offset) {
            Some(x) => out.push(x),
            None => {
                assert(shifted(ids@[i as int], offset) is None);
                return None;
            },
        }
        i = i + 1;
    }
    assert forall|j: int| 0 <= j < ids@.len() implies #[trigger] shifted(ids@[j], offset) is Some by {
        assert(shifted(ids@[j], offset) == Some(out@[j]));
    }
    Some(out)
}

// ── Merging one document into another ───────────────────────────────────────

/// Whether every object of `objs` can be moved past `offset`: its number
/// and every reference in it stay within `u32`.
pub open spec fn objects_fit(objs: Seq<((u32, u16), PdfObject)>, offset: u32) -> bool {
    forall|i: int|
        0 <= i < objs.len() ==> #[trigger] shifted(objs[i].0, offset) is Some && refs_fit(
            objs[i].1,
            offset,
        )
}

/// The objects of a document moved past `offset`, in order: each object's
/// number and every reference in it increased by `offset`; `None` when a
/// number would leave `u32`.
#[verifier::spinoff_prover]
pub fn shift_objects(objs: Vec<((u32, u16), PdfObject)>, offset: u32) -> (r: Option<
    Vec<((u32, u16), PdfObject)>,
>)
    ensures
        r is Some <==> objects_fit(objs@, offset),
        r is Some ==> r->0@.len() == objs@.len(),
        r is Some ==> forall|i: int|
            0 <= i < objs@.len() ==> shifted(objs@[i].0, offset) == Some(#[trigger] r->0@[i].0),
        r is Some ==> forall|i: int|
            0 <= i < objs@.len() ==> #[trigger] renumbered(objs@[i].1, r->0@[i].1, offset),
{
    let ghost orig = objs@;
    assert(orig.len() == objs.len());
    let mut rest = objs;
    let mut out: Vec<((u32, u16), PdfObject)> = Vec::new();
    let mut k: usize = 0;
    while rest.len() > 0
        invariant
            orig == objs@,
            orig.len() <= usize::MAX,
            k <= orig.len(),
            rest@ == orig.skip(k as int),
            out@.len() == k,
            forall|i: int| 0 <= i < k ==> #[trigger] shifted(orig[i].0, offset) is Some && refs_fit(
                orig[i].1,
                offset,
            ),
            forall|i: int|
                #![trigger out@[i]]
                0 <= i < k ==> shifted(orig[i].0, offset) == Some(out@[i].0) && renumbered(
                    orig[i].1,
                    out@[i].1,
                    offset,
                ),
        decreases rest.len(),
    {
        assert(k < orig.len());
        let (id, obj) = rest.remove(0);
        assert(id == orig[k as int].0 && obj == orig[k as int].1);
        assert(rest@ =~= orig.skip(k + 1));
        let nid = match shift_id(id, offset) {
            Some(x) => x,
            None => {
                assert(shifted(orig[k as int].0, offset) is None);
                return None;
            },
        };
        match renumber_refs(obj, offset) {
            Some(o) => {
                out.push((nid, o));
            },
            None => {
                assert(!refs_fit(orig[k as int].1, offset));
                return None;
            },
        }
        k = k + 1;
    }
    assert(k == orig.len());
    assert forall|i: int| 0 <= i < orig.len() implies #[trigger] shifted(orig[i].0, offset) is Some
        && refs_fit(orig[i].1, offset) by {}
    let r = Some(out);
    assert(orig == objs@);
    assert forall|i: int| 0 <= i < objs@.len() implies shifted(objs@[i].0, offset) == Some(
        #[trigger] r->0@[i].0,
    ) by {
        assert(objs@[i] == orig[i]);
        assert(r->0@[i] == out@[i]);
    }
    assert forall|i: int| 0 <= i < objs@.len() implies #[trigger] renumbered(
        objs@[i].1,
        r->0@[i].1,
        offset,
    ) by {
        assert(objs@[i] == orig[i]);
        assert(r->0@[i] == out@[i]);
        assert(renumbered(orig[i].1, out@[i].1, offset));
    }
    r
}

/// Hangs the pages `pages` of a document being added, moved past `offset`,
/// under the page-tree root `root` of the result (see `add_pages`), and
/// gives their new numbers, in order; `None` when a number would leave
/// `u32` or the page count `i64`.
pub fn append_pages(root: Vec<(Vec<u8>, PdfObject)>, pages: &Vec<(u32, u16)>, offset: u32) -> (r:
    Option<(Vec<(Vec<u8>, PdfObject)>, Vec<(u32, u16)>)>)
    requires
        pages.len() <= i64::MAX,
    ensures
        r is Some <==> all_shift(pages@, offset) && count_of(entries_view(root@)) + pages.len()
            <= i64::MAX,
        r matches Some((node, ids)) ==> {
            &&& ids@.len() == pages@.len()
            &&& forall|i: int|
                0 <= i < pages@.len() ==> shifted(pages@[i], offset) == Some(#[trigger] ids@[i])
            &&& pages_added(entries_view(root@), ids@, entries_view(node@))
        },
{
    let ids = match shift_ids(pages, offset) {
        Some(v) => v,
        None => {
            return None;
        },
    };
    let count_k: Vec<u8> = vec![67u8, 111u8, 117u8, 110u8, 116u8];
    assert(count_k@ =~= count_key());
    let ghost rv = entries_view(root@);
    proof {
        lemma_first_key(rv, count_key());
    }
    let count: i64 = match find_key(&root, &count_k) {
        Some(i) => match &root[i].1 {
            PdfObject::Integer(c) => *c,
            _ => 0,
        },
        None => 0,
    };
    assert(count == count_of(rv));
    if count > i64::MAX - pages.len() as i64 {
        return None;
    }
    let node = add_pages(root, &ids);
    Some((node, ids))
}

/// A merge keeps every page, in order: after the pages of a document are
/// appended to a page-tree root, its children are the root's own children
/// followed by the added pages, each moved past the offset, in their order;
/// and a root whose count matched its children still does.
pub proof fn law_merged_pages_in_order(
    root: Seq<(Seq<u8>, PdfObject)>,
    pages: Seq<(u32, u16)>,
    offset: u32,
    ids: Seq<(u32, u16)>,
    node: Seq<(Seq<u8>, PdfObject)>,
)
    requires
        ids.len() == pages.len(),
        forall|i: int| 0 <= i < pages.len() ==> shifted(pages[i], offset) == Some(#[trigger] ids[i]),
        count_of(root) + pages.len() <= i64::MAX,
        pages_added(root, ids, node),
    ensures
        kids_of(node) == kids_of(root) + pages.map_values(
            |p: (u32, u16)| PdfObject::Reference((p.0 + offset) as u32, p.1),
        ),
        count_of(root) == kids_of(root).len() ==> count_of(node) == kids_of(node).len(),
{
    let kv = lookup(node, kids_key())->0;
    let s1 = set_entry(root, kids_key(), kv);
    let c = PdfObject::Integer((count_of(root) + ids.len()) as i64);
    assert(count_key() != kids_key()) by {
        assert(count_key().len() != kids_key().len());
    }
    lemma_set_entry(s1, count_key(), c, kids_key());
    lemma_set_entry(root, kids_key(), kv, count_key());
    assert(page_refs(ids) =~= pages.map_values(
        |p: (u32, u16)| PdfObject::Reference((p.0 + offset) as u32, p.1),
    )) by {
        assert forall|i: int| 0 <= i < pages.len() implies page_refs(ids)[i] == pages.map_values(
            |p: (u32, u16)| PdfObject::Reference((p.0 + offset) as u32, p.1),
        )[i] by {
            assert(shifted(pages[i], offset) == Some(ids[i]));
        }
    }
    if count_of(root) == kids_of(root).len() {
        law_added_pages_are_counted(root, ids, node);
    }
}

// ── Finding the page tree ────────────────────────────────────────────────────

/// The catalog named by the trailer: its `Root` reference, or why there is
/// none.
pub open spec fn catalog_ref(trailer: Seq<(Seq<u8>, PdfObject)>) -> Result<(u32, u16), Seq<char>> {
    match lookup(trailer, root_key()) {
        None => Err("Catalog introuvable"@),
        Some(PdfObject::Reference(n, g)) => Ok((n, g)),
        Some(_) => Err("Root non-reference"@),
    }
}

/// The root of the page tree named by the catalog object (`None` when the
/// catalog could not be found), or why there is none.
pub open spec fn pages_ref(catalog: Option<PdfObject>) -> Result<(u32, u16), Seq<char>> {
    match catalog {
        None => Err("Catalog objet introuvable"@),
        Some(PdfObject::Dictionary(d)) => match lookup(entries_view(d@), pages_key()) {
            None => Err("Pages absent du catalog"@),
            Some(PdfObject::Reference(n, g)) => Ok((n, g)),
            Some(_) => Err("Pages non-reference"@),
        },
        Some(_) => Err("Catalog non-dict"@),
    }
}

fn message(s: &str) -> (r: String)
    ensures
        r@ == s@,
{
    let cs = str_chars(s);
    chars_to_string(&cs)
}

fn reference_under(d: &Vec<(Vec<u8>, PdfObject)>, key: &Vec<u8>) -> (r: Option<Option<(u32, u16)>>)
    ensures
        match lookup(entries_view(d@), key@) {
            None => r is None,
            Some(PdfObject::Reference(n, g)) => r == Some(Some((n, g))),
            Some(_) => r == Some(None::<(u32, u16)>),
        },
{
    proof {
        lemma_first_key(entries_view(d@), key@);
    }
    match find_key(d, key) {
        None => None,
        Some(i) => match &d[i].1 {
            PdfObject::Reference(n, g) => Some(Some((*n, *g))),
            _ => Some(None),
        },
    }
}

/// The catalog reference of a trailer's entries (see `catalog_ref`).
pub fn catalog_id(trailer: &Vec<(Vec<u8>, PdfObject)>) -> (r: Result<(u32, u16), String>)
    ensures
        match r {
            Ok(id) => catalog_ref(entries_view(trailer@)) == Ok::<(u32, u16), Seq<char>>(id),
            Err(m) => catalog_ref(entries_view(trailer@)) == Err::<(u32, u16), Seq<char>>(m@),
        },
{
    let k: Vec<u8> = vec![82u8, 111u8, 111u8, 116u8];
    assert(k@ =~= root_key());
    match reference_under(trailer, &k) {
        None => Err(message("Catalog introuvable")),
        Some(Some(id)) => Ok(id),
        Some(None) => Err(message("Root non-reference")),
    }
}

/// The page-tree root of a catalog object (see `pages_ref`).
pub fn pages_root_id(catalog: &Option<PdfObject>) -> (r: Result<(u32, u16), String>)
    ensures
        match r {
            Ok(id) => pages_ref(*catalog) == Ok::<(u32, u16), Seq<char>>(id),
            Err(m) => pages_ref(*catalog) == Err::<(u32, u16), Seq<char>>(m@),
        },
{
    match catalog {
        None => Err(message("Catalog objet introuvable")),
        Some(PdfObject::Dictionary(d)) => {
            let k: Vec<u8> = vec![80u8, 97u8, 103u8, 101u8, 115u8];
            assert(k@ =~= pages_key());
            match reference_under(d, &k) {
                None => Err(message("Pages absent du catalog")),
                Some(Some(id)) => Ok(id),
                Some(None) => Err(message("Pages non-reference")),
            }
        },
        Some(_) => Err(message("Catalog non-dict")),
    }
}

// ── Ancestors of a page ──────────────────────────────────────────────────────

/// The node that a dictionary names as its parent: its `Parent` entry, when
/// that is a reference.
pub open spec fn parent_ref(d: Seq<(Seq<u8>, PdfObject)>) -> Option<(u32, u16)> {
    match lookup(d, parent_key()) {
        Some(PdfObject::Reference(n, g)) => Some((n, g)),
        _ => None,
    }
}

/// The index of the first dictionary numbered `id` in `nodes`, searching
/// from position `from` on.
pub open spec fn node_index_from(
    nodes: Seq<((u32, u16), Vec<(Vec<u8>, PdfObject)>)>,
    id: (u32, u16),
    from: int,
) -> Option<int>
    decreases nodes.len() - from,
{
    if from < 0 || from >= nodes.len() {
        None
    } else if nodes[from].0 == id {
        Some(from)
    } else {
        node_index_from(nodes, id, from + 1)
    }
}

/// The positions in `nodes` of the chain of parents that starts at `next`:
/// each found node is followed by the node it names as its parent, until a
/// parent is missing or is no dictionary of `nodes`, or `budget` nodes have
/// been taken.
pub open spec fn ancestor_chain(
    nodes: Seq<((u32, u16), Vec<(Vec<u8>, PdfObject)>)>,
    next: Option<(u32, u16)>,
    budget: nat,
) -> Seq<int>
    decreases budget,
{
    if budget == 0 {
        seq![]
    } else {
        match next {
            None => seq![],
            Some(id) => match node_index_from(nodes, id, 0) {
                None => seq![],
                Some(i) => seq![i] + ancestor_chain(
                    nodes,
                    parent_ref(entries_view(nodes[i].1@)),
                    (budget - 1) as nat,
                ),
            },
        }
    }
}

fn find_node(nodes: &Vec<((u32, u16), Vec<(Vec<u8>, PdfObject)>)>, id: (u32, u16)) -> (r: Option<
    usize,
>)
    ensures
        match r {
            Some(i) => node_index_from(nodes@, id, 0) == Some(i as int) && i < nodes.len(),
            None => node_index_from(nodes@, id, 0) is None,
        },
{
    let mut i: usize = 0;
    while i < nodes.len()
        invariant
            i <= nodes.len(),
            node_index_from(nodes@, id, 0) == node_index_from(nodes@, id, i as int),
        decreases nodes.len() - i,
    {
        let (n, g) = nodes[i].0;
        if n == id.0 && g == id.1 {
            return Some(i);
        }
        i = i + 1;
    }
    None
}

fn parent_of(d: &Vec<(Vec<u8>, PdfObject)>) -> (r: Option<(u32, u16)>)
    ensures
        r == parent_ref(entries_view(d@)),
{
    let k: Vec<u8> = vec![80u8, 97u8, 114u8, 101u8, 110u8, 116u8];
    assert(k@ =~= parent_key());
    match reference_under(d, &k) {
        Some(Some(id)) => Some(id),
        _ => None,
    }
}

/// The page-tree nodes above `page`, nearest first, as positions in
/// `nodes` (the dictionaries of a document with their object numbers):
/// the chain of `Parent` references from `page`, stopping at a reference to
/// no dictionary of `nodes` and after at most `limit` nodes (see
/// `ancestor_chain`).
pub fn ancestor_indices(
    nodes: &Vec<((u32, u16), Vec<(Vec<u8>, PdfObject)>)>,
    page: &Vec<(Vec<u8>, PdfObject)>,
    limit: usize,
) -> (r: Vec<usize>)
    ensures
        r@.map_values(|i: usize| i as int) == ancestor_chain(
            nodes@,
            parent_ref(entries_view(page@)),
            limit as nat,
        ),
        forall|k: int| 0 <= k < r.len() ==> r@[k] < nodes.len(),
{
    let ghost whole = ancestor_chain(nodes@, parent_ref(entries_view(page@)), limit as nat);
    let mut out: Vec<usize> = Vec::new();
    let mut next = parent_of(page);
    let mut budget: usize = limit;
    while budget > 0
        invariant
            out.len() + budget == limit,
            whole == ancestor_chain(nodes@, parent_ref(entries_view(page@)), limit as nat),
            out@.map_values(|i: usize| i as int) + ancestor_chain(nodes@, next, budget as nat)
                == whole,
            forall|k: int| 0 <= k < out.len() ==> out@[k] < nodes.len(),
        decreases budget,
    {
        let found = match next {
            None => None,
            Some(id) => find_node(nodes, id),
        };
        match found {
            None => {
                assert(ancestor_chain(nodes@, next, budget as nat) == Seq::<int>::empty());
                assert(out@.map_values(|i: usize| i as int) + Seq::<int>::empty()
                    =~= out@.map_values(|i: usize| i as int));
                return out;
            },
            Some(i) => {
                let ghost before = out@.map_values(|i: usize| i as int);
                let ghost rest = ancestor_chain(nodes@, next, budget as nat);
                out.push(i);
                next = parent_of(&nodes[i].1);
                budget = budget - 1;
                assert(rest == seq![i as int] + ancestor_chain(nodes@, next, budget as nat));
                assert(out@.map_values(|i: usize| i as int) =~= before.push(i as int));
                assert(out@.map_values(|i: usize| i as int) + ancestor_chain(
                    nodes@,
                    next,
                    budget as nat,
                ) =~= before + rest);
            },
        }
    }
    assert(out@.map_values(|i: usize| i as int) + Seq::<int>::empty() =~= out@.map_values(
        |i: usize| i as int,
    ));
    out
}

// ── Laws ─────────────────────────────────────────────────────────────────────

/// Adding pages keeps a page-tree node consistent: when its count was the
/// number of its children, it still is.
pub proof fn law_added_pages_are_counted(
    node: Seq<(Seq<u8>, PdfObject)>,
    ids: Seq<(u32, u16)>,
    result: Seq<(Seq<u8>, PdfObject)>,
)
    requires
        count_of(node) == kids_of(node).len(),
        count_of(node) + ids.len() <= i64::MAX,
        pages_added(node, ids, result),
    ensures
        count_of(result) == kids_of(result).len(),
        kids_of(result) == kids_of(node) + page_refs(ids),
{
    let kv = lookup(result, kids_key())->0;
    let s1 = set_entry(node, kids_key(), kv);
    let c = PdfObject::Integer((count_of(node) + ids.len()) as i64);
    assert(count_key() != kids_key()) by {
        assert(count_key().len() != kids_key().len());
    }
    lemma_set_entry(s1, count_key(), c, kids_key());
    lemma_set_entry(node, kids_key(), kv, count_key());
}

/// Renumbering by zero changes nothing: every object is its own
/// renumbering by offset 0.
pub proof fn law_renumber_zero(o: PdfObject)
    ensures
        renumbered(o, o, 0),
    decreases o,
{
    match o {
        PdfObject::Array(x) => {
            lemma_items_zero(x@);
        },
        PdfObject::Dictionary(d) => {
            lemma_entries_zero(d@);
        },
        PdfObject::Stream(d, _) => {
            lemma_entries_zero(d@);
        },
        _ => {},
    }
}

proof fn lemma_items_zero(x: Seq<PdfObject>)
    ensures
        items_renumbered(x, x, 0),
    decreases x,
{
    if x.len() > 0 {
        lemma_items_zero(x.drop_last());
        law_renumber_zero(x.last());
    }
}

proof fn lemma_entries_zero(x: Seq<(Vec<u8>, PdfObject)>)
    ensures
        entries_renumbered(x, x, 0),
    decreases x,
{
    if x.len() > 0 {
        lemma_entries_zero(x.drop_last());
        law_renumber_zero(x.last().1);
    }
}

/// Renumbering twice moves every reference by the sum of the offsets.
pub proof fn law_renumber_compose(o: PdfObject, r1: PdfObject, r2: PdfObject, a: u32, b: u32)
    requires
        a + b <= u32::MAX,
        refs_fit(o, (a + b) as u32),
        renumbered(o, r1, a),
        renumbered(r1, r2, b),
    ensures
        renumbered(o, r2, (a + b) as u32),
    decreases o,
{
    match o {
        PdfObject::Array(x) => {
            lemma_items_compose(x@, r1->Array_0@, r2->Array_0@, a, b);
        },
        PdfObject::Dictionary(d) => {
            lemma_entries_compose(d@, r1->Dictionary_0@, r2->Dictionary_0@, a, b);
        },
        PdfObject::Stream(d, _) => {
            lemma_entries_compose(d@, r1->Stream_0@, r2->Stream_0@, a, b);
        },
        _ => {},
    }
}

proof fn lemma_items_compose(x: Seq<PdfObject>, y: Seq<PdfObject>, z: Seq<PdfObject>, a: u32, b: u32)
    requires
        a + b <= u32::MAX,
        items_fit(x, (a + b) as u32),
        items_renumbered(x, y, a),
        items_renumbered(y, z, b),
    ensures
        items_renumbered(x, z, (a + b) as u32),
    decreases x,
{
    if x.len() > 0 {
        lemma_items_compose(x.drop_last(), y.drop_last(), z.drop_last(), a, b);
        law_renumber_compose(x.last(), y.last(), z.last(), a, b);
    }
}

proof fn lemma_entries_compose(
    x: Seq<(Vec<u8>, PdfObject)>,
    y: Seq<(Vec<u8>, PdfObject)>,
    z: Seq<(Vec<u8>, PdfObject)>,
    a: u32,
    b: u32,
)
    requires
        a + b <= u32::MAX,
        entries_fit(x, (a + b) as u32),
        entries_renumbered(x, y, a),
        entries_renumbered(y, z, b),
    ensures
        entries_renumbered(x, z, (a + b) as u32),
    decreases x,
{
    if x.len() > 0 {
        lemma_entries_compose(x.drop_last(), y.drop_last(), z.drop_last(), a, b);
        law_renumber_compose(x.last().1, y.last().1, z.last().1, a, b);
    }
}

} // verus!
