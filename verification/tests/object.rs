use ghola::object::{Commit, EntryKind, Object, ObjectError, ObjectId, Tree, TreeEntry};

fn id(n: u8) -> ObjectId {
    ObjectId([n; 32])
}

fn entry(name: &str, kind: EntryKind, n: u8) -> TreeEntry {
    TreeEntry {
        name: name.into(),
        kind,
        id: id(n),
    }
}

#[test]
fn identical_content_has_identical_ids_and_different_content_does_not() {
    let a = Object::Blob(b"hello".to_vec());
    assert_eq!(
        a.id().unwrap(),
        Object::Blob(b"hello".to_vec()).id().unwrap()
    );
    assert_ne!(
        a.id().unwrap(),
        Object::Blob(b"hellp".to_vec()).id().unwrap()
    );
}

#[test]
fn a_blob_and_a_tree_with_the_same_payload_bytes_get_different_ids() {
    let empty_blob = Object::Blob(vec![]).id().unwrap();
    let empty_tree = Object::Tree(Tree::default()).id().unwrap();
    assert_ne!(empty_blob, empty_tree);
}

#[test]
fn a_stored_object_verifies_by_hashing_its_own_bytes() {
    let o = Object::Blob(b"data".to_vec());
    let bytes = o.encode().unwrap();
    assert_eq!(ObjectId::of(&bytes), o.id().unwrap());
}

#[test]
fn tree_construction_is_order_independent() {
    let a = Tree::new(vec![
        entry("b", EntryKind::File, 1),
        entry("a", EntryKind::Dir, 2),
        entry("c", EntryKind::File, 3),
    ])
    .unwrap();
    let b = Tree::new(vec![
        entry("c", EntryKind::File, 3),
        entry("a", EntryKind::Dir, 2),
        entry("b", EntryKind::File, 1),
    ])
    .unwrap();
    assert_eq!(
        Object::Tree(a.clone()).id().unwrap(),
        Object::Tree(b).id().unwrap()
    );
    assert_eq!(a.get(b"a").unwrap().kind, EntryKind::Dir);
    assert!(a.get(b"zzz").is_none());
}

#[test]
fn invalid_and_duplicate_names_are_rejected() {
    for bad in ["", ".", "..", "a/b", "a\0b"] {
        assert!(
            matches!(
                Tree::new(vec![entry(bad, EntryKind::File, 1)]),
                Err(ObjectError::InvalidName(_))
            ),
            "{bad:?}"
        );
    }
    assert!(matches!(
        Tree::new(vec![
            entry("a", EntryKind::File, 1),
            entry("a", EntryKind::Dir, 2)
        ]),
        Err(ObjectError::DuplicateName(_))
    ));
}

#[test]
fn a_non_canonical_tree_encoding_is_rejected_not_normalized() {
    let t = Tree::new(vec![
        entry("a", EntryKind::File, 1),
        entry("b", EntryKind::File, 2),
    ])
    .unwrap();
    let mut bytes = Object::Tree(t).encode().unwrap();
    // Swap the two 36-byte entries (kind + len(2) + name(1) + id(32) = 36).
    let (head, body) = bytes.split_at_mut(5);
    let (x, y) = body.split_at_mut(36);
    let _ = head;
    x.swap_with_slice(y);
    assert_eq!(Object::decode(&bytes), Err(ObjectError::UnsortedTree));
}

#[test]
fn commits_round_trip_and_parent_order_matters() {
    let c = Commit {
        tree: id(1),
        parents: vec![id(2), id(3)],
        timestamp: 1_700_000_000,
        author: "Ada <ada@example.com>".into(),
        message: "first\n\nbody ünïcode".into(),
    };
    let o = Object::Commit(c.clone());
    assert_eq!(Object::decode(&o.encode().unwrap()), Ok(o.clone()));
    let mut swapped = c;
    swapped.parents.reverse();
    assert_ne!(Object::Commit(swapped).id().unwrap(), o.id().unwrap());
}

#[test]
fn malformed_input_is_a_typed_error() {
    assert_eq!(Object::decode(&[]), Err(ObjectError::Empty));
    assert_eq!(Object::decode(&[9]), Err(ObjectError::UnknownKind(9)));
    assert_eq!(
        Object::decode(&[2, 1, 0, 0, 0]),
        Err(ObjectError::Truncated)
    );
    assert_eq!(Object::decode(&[3, 0]), Err(ObjectError::Truncated));
    let mut ok = Object::Tree(Tree::default()).encode().unwrap();
    ok.push(0);
    assert_eq!(Object::decode(&ok), Err(ObjectError::TrailingBytes));
}

#[test]
fn hex_round_trips_and_rejects_garbage() {
    let i = ObjectId::of(b"x");
    assert_eq!(ObjectId::from_hex(&i.to_hex()), Some(i));
    assert_eq!(ObjectId::from_hex("zz"), None);
    assert_eq!(ObjectId::from_hex(&"g".repeat(64)), None);
    assert_eq!(ObjectId::from_hex(&"é".repeat(32)), None);
}

#[test]
fn a_huge_declared_tree_count_cannot_force_a_huge_allocation() {
    let mut b = vec![2];
    b.extend(u32::MAX.to_le_bytes());
    assert_eq!(Object::decode(&b), Err(ObjectError::Truncated));
}

#[test]
fn the_id_of_the_empty_blob_is_the_sha256_of_its_kind_byte() {
    // SHA-256 of the single byte 0x01.
    assert_eq!(
        ObjectId::of(&[1]).to_hex(),
        "4bf5122f344554c53bde2ebb8cd2b7e3d1600ad631c385a5d7cce23c7785459a"
    );
    assert_eq!(Object::Blob(vec![]).id().unwrap(), ObjectId::of(&[1]));
}

#[test]
fn hex_is_lowercase_and_parsing_accepts_either_case() {
    let i = ObjectId([0xab; 32]);
    assert_eq!(i.to_hex(), "ab".repeat(32));
    assert_eq!(ObjectId::from_hex(&"AB".repeat(32)), Some(i));
    assert_eq!(ObjectId::from_hex(&"ab".repeat(31)), None);
}

#[test]
fn blob_encoding_is_the_kind_byte_then_the_content() {
    assert_eq!(Object::Blob(b"hi".to_vec()).encode().unwrap(), vec![1, b'h', b'i']);
    assert_eq!(Object::decode(&[1, 7, 8]), Ok(Object::Blob(vec![7, 8])));
}

#[test]
fn tree_entries_come_out_sorted() {
    let t = Tree::new(vec![
        entry("b", EntryKind::File, 1),
        entry("a", EntryKind::File, 2),
    ])
    .unwrap();
    let names: Vec<Vec<u8>> = t.entries().iter().map(|e| e.name.clone()).collect();
    assert_eq!(names, vec![b"a".to_vec(), b"b".to_vec()]);
}
