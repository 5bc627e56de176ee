use ghola::myers::{diff, Patch, PatchError, PatchOp};

fn d(a: &str, b: &str) -> Patch<char> {
    diff(
        &a.chars().collect::<Vec<_>>(),
        &b.chars().collect::<Vec<_>>(),
    )
}

#[test]
fn the_papers_example_has_edit_distance_five() {
    let p = d("ABCABBA", "CBABAC");
    assert_eq!(p.edit_distance(), 5);
    let a: Vec<char> = "ABCABBA".chars().collect();
    assert_eq!(p.apply(&a).unwrap().iter().collect::<String>(), "CBABAC");
}

#[test]
fn identical_and_empty_inputs() {
    assert_eq!(d("", "").ops, vec![]);
    assert_eq!(d("abc", "abc").ops, vec![PatchOp::Equal(3)]);
    assert_eq!(d("", "ab").ops, vec![PatchOp::Insert(vec!['a', 'b'])]);
    assert_eq!(d("ab", "").ops, vec![PatchOp::Delete(2)]);
}

#[test]
fn a_single_change_in_the_middle() {
    let p = d("abcde", "abXde");
    assert_eq!(
        p.ops,
        vec![
            PatchOp::Equal(2),
            PatchOp::Delete(1),
            PatchOp::Insert(vec!['X']),
            PatchOp::Equal(2)
        ]
    );
}

#[test]
fn applying_to_the_wrong_source_is_an_error() {
    let p = d("abc", "abd");
    assert!(matches!(
        p.apply(&['a']),
        Err(PatchError::SourceTooShort { .. })
    ));
    assert!(matches!(
        p.apply(&['a', 'b', 'c', 'd']),
        Err(PatchError::SourceTooLong { .. })
    ));
}

#[test]
fn a_patch_can_be_inverted() {
    let (a, b): (Vec<char>, Vec<char>) =
        ("kitten".chars().collect(), "sitting".chars().collect());
    let p = diff(&a, &b);
    let back = p.invert(&a).unwrap();
    assert_eq!(back.apply(&b).unwrap(), a);
}

#[test]
fn the_errors_report_what_was_needed_and_available() {
    let p = Patch { ops: vec![PatchOp::Equal(2), PatchOp::Delete(2)] };
    assert_eq!(
        p.apply(&['a', 'b', 'c']),
        Err(PatchError::SourceTooShort { needed: 4, available: 3 })
    );
    assert_eq!(
        p.apply(&['a', 'b', 'c', 'd', 'e']),
        Err(PatchError::SourceTooLong { consumed: 4, available: 5 })
    );
    assert_eq!(
        p.invert(&['a', 'b', 'c']).map(|q| q.ops),
        Err(PatchError::SourceTooShort { needed: 4, available: 3 })
    );
}

#[test]
fn kitten_to_sitting_is_five_edits() {
    // Two substitutions and one insertion, each substitution a delete plus
    // an insert: 2 * 2 + 1.
    assert_eq!(d("kitten", "sitting").edit_distance(), 5);
}

#[test]
fn runs_are_coalesced_and_never_empty() {
    let p = d("aaXbbYcc", "aabbcc");
    assert_eq!(
        p.ops,
        vec![
            PatchOp::Equal(2),
            PatchOp::Delete(1),
            PatchOp::Equal(2),
            PatchOp::Delete(1),
            PatchOp::Equal(2)
        ]
    );
}

#[test]
fn an_inverted_patch_swaps_deletions_and_insertions() {
    let a: Vec<char> = "abc".chars().collect();
    let p = Patch { ops: vec![PatchOp::Delete(1), PatchOp::Insert(vec!['z']), PatchOp::Equal(2)] };
    let q = p.invert(&a).unwrap();
    assert_eq!(
        q.ops,
        vec![PatchOp::Insert(vec!['a']), PatchOp::Delete(1), PatchOp::Equal(2)]
    );
}

#[test]
fn byte_sequences_diff_too() {
    let a = b"hello world".to_vec();
    let b = b"hello there world".to_vec();
    let p = diff(&a, &b);
    assert_eq!(p.apply(&a).unwrap(), b);
    assert_eq!(p.edit_distance(), 6);
}
