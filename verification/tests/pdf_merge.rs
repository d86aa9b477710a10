use universal_converter::pdf_merge::{
    add_pages, ancestor_indices, append_pages, catalog_id, inherit_attributes, pages_root_id, shift_objects, renumber_refs, set_parent, shift_id, shift_ids, PdfObject,
};

fn key(s: &str) -> Vec<u8> {
    s.as_bytes().to_vec()
}

fn name(s: &str) -> PdfObject {
    PdfObject::Other(lopdf::Object::Name(key(s)))
}

fn is_ref(o: &PdfObject, n: u32, g: u16) -> bool {
    matches!(o, PdfObject::Reference(a, b) if *a == n && *b == g)
}

fn entry<'a>(d: &'a [(Vec<u8>, PdfObject)], k: &str) -> &'a PdfObject {
    &d.iter().find(|(x, _)| x.as_slice() == k.as_bytes()).unwrap().1
}

#[test]
fn renumber_shifts_every_reference() {
    let obj = PdfObject::Array(vec![
        PdfObject::Reference(1, 0),
        PdfObject::Integer(5),
        PdfObject::Dictionary(vec![(key("A"), PdfObject::Reference(2, 3)), (key("B"), name("X"))]),
    ]);
    match renumber_refs(obj, 10) {
        Some(PdfObject::Array(items)) => {
            assert_eq!(items.len(), 3);
            assert!(is_ref(&items[0], 11, 0));
            assert!(matches!(items[1], PdfObject::Integer(5)));
            match &items[2] {
                PdfObject::Dictionary(d) => {
                    assert_eq!(d[0].0, key("A"));
                    assert!(is_ref(&d[0].1, 12, 3));
                    assert_eq!(d[1].0, key("B"));
                    assert!(matches!(&d[1].1, PdfObject::Other(lopdf::Object::Name(n)) if n == &key("X")));
                }
                _ => panic!("expected a dictionary"),
            }
        }
        _ => panic!("expected an array"),
    }
}

#[test]
fn renumber_keeps_stream_content() {
    let stream = lopdf::Stream::new(lopdf::Dictionary::new(), b"BT ET".to_vec());
    let obj = PdfObject::Stream(vec![(key("Font"), PdfObject::Reference(7, 0))], stream);
    match renumber_refs(obj, 3) {
        Some(PdfObject::Stream(d, s)) => {
            assert!(is_ref(&d[0].1, 10, 0));
            assert_eq!(s.content, b"BT ET".to_vec());
        }
        _ => panic!("expected a stream"),
    }
}

#[test]
fn renumber_refuses_overflow() {
    assert!(renumber_refs(PdfObject::Reference(u32::MAX, 0), 1).is_none());
    let nested = PdfObject::Dictionary(vec![(key("K"), PdfObject::Array(vec![PdfObject::Reference(u32::MAX - 1, 0)]))]);
    assert!(renumber_refs(nested, 2).is_none());
    assert!(renumber_refs(PdfObject::Reference(u32::MAX, 0), 0).is_some());
    assert!(renumber_refs(PdfObject::Integer(1), u32::MAX).is_some());
}

#[test]
fn ids_are_shifted() {
    assert_eq!(shift_id((4, 1), 10), Some((14, 1)));
    assert_eq!(shift_id((u32::MAX, 0), 1), None);
    assert_eq!(shift_ids(&vec![(1, 0), (2, 0)], 5), Some(vec![(6, 0), (7, 0)]));
    assert_eq!(shift_ids(&vec![(1, 0), (u32::MAX, 0)], 5), None);
    assert_eq!(shift_ids(&vec![], 5), Some(vec![]));
}

#[test]
fn pages_are_appended_to_the_tree() {
    let node = vec![
        (key("Type"), name("Pages")),
        (key("Kids"), PdfObject::Array(vec![PdfObject::Reference(3, 0)])),
        (key("Count"), PdfObject::Integer(1)),
    ];
    let r = add_pages(node, &vec![(20, 0), (21, 0)]);
    assert_eq!(r.len(), 3);
    assert_eq!(r[0].0, key("Type"));
    assert_eq!(r[1].0, key("Kids"));
    match &r[1].1 {
        PdfObject::Array(k) => {
            assert_eq!(k.len(), 3);
            assert!(is_ref(&k[0], 3, 0) && is_ref(&k[1], 20, 0) && is_ref(&k[2], 21, 0));
        }
        _ => panic!("expected kids"),
    }
    assert_eq!(r[2].0, key("Count"));
    assert!(matches!(r[2].1, PdfObject::Integer(3)));
}

#[test]
fn missing_kids_and_count_are_added() {
    let node = vec![(key("Count"), name("bad")), (key("Type"), name("Pages"))];
    let r = add_pages(node, &vec![(9, 0)]);
    assert_eq!(r.len(), 3);
    assert_eq!(r[0].0, key("Count"));
    assert!(matches!(r[0].1, PdfObject::Integer(1)));
    assert_eq!(r[2].0, key("Kids"));
    match &r[2].1 {
        PdfObject::Array(k) => assert!(k.len() == 1 && is_ref(&k[0], 9, 0)),
        _ => panic!("expected kids"),
    }
    let empty = add_pages(vec![], &vec![]);
    assert_eq!(empty.len(), 2);
    assert!(matches!(entry(&empty, "Count"), PdfObject::Integer(0)));
    assert!(matches!(entry(&empty, "Kids"), PdfObject::Array(k) if k.is_empty()));
}

#[test]
fn parent_is_set_on_pages() {
    let page = PdfObject::Dictionary(vec![(key("Type"), name("Page")), (key("Parent"), PdfObject::Reference(1, 0))]);
    match set_parent(page, (40, 0)) {
        PdfObject::Dictionary(d) => {
            assert_eq!(d.len(), 2);
            assert_eq!(d[1].0, key("Parent"));
            assert!(is_ref(&d[1].1, 40, 0));
        }
        _ => panic!("expected a dictionary"),
    }
    match set_parent(PdfObject::Dictionary(vec![]), (2, 0)) {
        PdfObject::Dictionary(d) => assert!(d.len() == 1 && is_ref(&d[0].1, 2, 0)),
        _ => panic!("expected a dictionary"),
    }
    assert!(matches!(set_parent(PdfObject::Integer(4), (2, 0)), PdfObject::Integer(4)));
}

#[test]
fn catalog_is_found_from_the_trailer() {
    let trailer = vec![(key("Size"), PdfObject::Integer(9)), (key("Root"), PdfObject::Reference(1, 0))];
    assert_eq!(catalog_id(&trailer), Ok((1, 0)));
    assert_eq!(catalog_id(&vec![]), Err("Catalog introuvable".to_string()));
    assert_eq!(
        catalog_id(&vec![(key("Root"), PdfObject::Integer(1))]),
        Err("Root non-reference".to_string())
    );
}

#[test]
fn page_tree_root_from_the_catalog() {
    let cat = Some(PdfObject::Dictionary(vec![(key("Type"), name("Catalog")), (key("Pages"), PdfObject::Reference(2, 0))]));
    assert_eq!(pages_root_id(&cat), Ok((2, 0)));
    assert_eq!(pages_root_id(&None), Err("Catalog objet introuvable".to_string()));
    assert_eq!(pages_root_id(&Some(PdfObject::Integer(1))), Err("Catalog non-dict".to_string()));
    assert_eq!(
        pages_root_id(&Some(PdfObject::Dictionary(vec![]))),
        Err("Pages absent du catalog".to_string())
    );
    assert_eq!(
        pages_root_id(&Some(PdfObject::Dictionary(vec![(key("Pages"), name("x"))]))),
        Err("Pages non-reference".to_string())
    );
}

#[test]
fn renumbering_twice_adds_the_offsets() {
    let make = || PdfObject::Array(vec![PdfObject::Reference(5, 0), PdfObject::Dictionary(vec![(key("P"), PdfObject::Reference(9, 2))])]);
    let twice = renumber_refs(renumber_refs(make(), 3).unwrap(), 4).unwrap();
    let once = renumber_refs(make(), 7).unwrap();
    for obj in [twice, once] {
        match obj {
            PdfObject::Array(items) => {
                assert!(is_ref(&items[0], 12, 0));
                match &items[1] {
                    PdfObject::Dictionary(d) => assert!(is_ref(&d[0].1, 16, 2)),
                    _ => panic!("expected a dictionary"),
                }
            }
            _ => panic!("expected an array"),
        }
    }
}

#[test]
fn added_pages_keep_count_equal_to_kids() {
    let node = vec![
        (key("Kids"), PdfObject::Array(vec![PdfObject::Reference(3, 0), PdfObject::Reference(4, 0)])),
        (key("Count"), PdfObject::Integer(2)),
    ];
    let r = add_pages(node, &vec![(30, 0), (31, 0), (32, 0)]);
    let kids = match entry(&r, "Kids") {
        PdfObject::Array(k) => k.len() as i64,
        _ => panic!("expected kids"),
    };
    assert!(matches!(entry(&r, "Count"), PdfObject::Integer(n) if *n == kids && kids == 5));
}

#[test]
fn pages_inherit_attributes_from_their_tree() {
    let page = vec![(key("Type"), name("Page")), (key("MediaBox"), PdfObject::Reference(70, 0))];
    let near = vec![(key("Resources"), PdfObject::Reference(10, 0)), (key("MediaBox"), PdfObject::Reference(11, 0))];
    let far = vec![
        (key("Resources"), PdfObject::Reference(20, 0)),
        (key("CropBox"), PdfObject::Reference(21, 0)),
        (key("Rotate"), PdfObject::Integer(90)),
        (key("Kids"), PdfObject::Array(vec![])),
    ];
    let r = inherit_attributes(page, vec![near, far]);
    let keys: Vec<Vec<u8>> = r.iter().map(|(k, _)| k.clone()).collect();
    assert_eq!(keys, vec![key("Type"), key("MediaBox"), key("Resources"), key("CropBox"), key("Rotate")]);
    assert!(is_ref(entry(&r, "MediaBox"), 70, 0));
    assert!(is_ref(entry(&r, "Resources"), 10, 0));
    assert!(is_ref(entry(&r, "CropBox"), 21, 0));
    assert!(matches!(entry(&r, "Rotate"), PdfObject::Integer(90)));
    assert_eq!(inherit_attributes(vec![], vec![]).len(), 0);
}

#[test]
fn objects_move_past_the_offset() {
    let objs = vec![
        ((1, 0), PdfObject::Dictionary(vec![(key("Parent"), PdfObject::Reference(2, 0))])),
        ((2, 0), PdfObject::Integer(7)),
    ];
    let moved = shift_objects(objs, 100).unwrap();
    assert_eq!(moved.len(), 2);
    assert_eq!(moved[0].0, (101, 0));
    assert_eq!(moved[1].0, (102, 0));
    match &moved[0].1 {
        PdfObject::Dictionary(d) => assert!(is_ref(&d[0].1, 102, 0)),
        _ => panic!("expected a dictionary"),
    }
    assert!(shift_objects(vec![((u32::MAX, 0), PdfObject::Integer(1))], 1).is_none());
    assert!(shift_objects(vec![((1, 0), PdfObject::Reference(u32::MAX, 0))], 1).is_none());
}

#[test]
fn appended_pages_follow_the_root_pages_in_order() {
    let root = vec![
        (key("Kids"), PdfObject::Array(vec![PdfObject::Reference(3, 0)])),
        (key("Count"), PdfObject::Integer(1)),
    ];
    let (node, ids) = append_pages(root, &vec![(4, 0), (2, 0)], 10).unwrap();
    assert_eq!(ids, vec![(14, 0), (12, 0)]);
    match entry(&node, "Kids") {
        PdfObject::Array(k) => {
            assert!(k.len() == 3 && is_ref(&k[0], 3, 0) && is_ref(&k[1], 14, 0) && is_ref(&k[2], 12, 0))
        }
        _ => panic!("expected kids"),
    }
    assert!(matches!(entry(&node, "Count"), PdfObject::Integer(3)));
    assert!(append_pages(vec![], &vec![(u32::MAX, 0)], 1).is_none());
    assert!(append_pages(vec![(key("Count"), PdfObject::Integer(i64::MAX))], &vec![(1, 0)], 0).is_none());
}

fn node(parent: Option<(u32, u16)>) -> Vec<(Vec<u8>, PdfObject)> {
    let mut d = vec![(key("Type"), name("Pages"))];
    if let Some((n, g)) = parent {
        d.push((key("Parent"), PdfObject::Reference(n, g)));
    }
    d
}

#[test]
fn ancestors_follow_parent_references() {
    let nodes = vec![((1, 0), node(None)), ((5, 0), node(Some((1, 0)))), ((7, 0), node(Some((5, 0))))];
    assert_eq!(ancestor_indices(&nodes, &node(Some((7, 0))), 10), vec![2, 1, 0]);
    assert_eq!(ancestor_indices(&nodes, &node(Some((5, 0))), 10), vec![1, 0]);
    assert_eq!(ancestor_indices(&nodes, &node(Some((7, 0))), 2), vec![2, 1]);
    assert_eq!(ancestor_indices(&nodes, &node(None), 10), Vec::<usize>::new());
    assert_eq!(ancestor_indices(&nodes, &node(Some((9, 0))), 10), Vec::<usize>::new());
    let not_a_reference = vec![(key("Parent"), PdfObject::Integer(1))];
    assert_eq!(ancestor_indices(&nodes, &not_a_reference, 10), Vec::<usize>::new());
}

#[test]
fn ancestors_of_a_parent_cycle_stop_at_the_limit() {
    let nodes = vec![((3, 0), node(Some((4, 0)))), ((4, 0), node(Some((3, 0))))];
    assert_eq!(ancestor_indices(&nodes, &node(Some((3, 0))), 5), vec![0, 1, 0, 1, 0]);
}
