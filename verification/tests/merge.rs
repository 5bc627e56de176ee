use ghola::merge::{merge3, merge_text, render_with_markers, Chunk, Kind, Merge3};

fn m(base: &str, ours: &str, theirs: &str) -> Merge3<Vec<u8>> {
    merge_text(base.as_bytes(), ours.as_bytes(), theirs.as_bytes())
}

fn clean(base: &str, ours: &str, theirs: &str) -> Option<String> {
    m(base, ours, theirs)
        .clean()
        .map(|v| String::from_utf8(v.concat()).unwrap())
}

#[test]
fn changes_in_different_places_merge_cleanly() {
    assert_eq!(
        clean("a\nb\nc\nd\ne\n", "A\nb\nc\nd\ne\n", "a\nb\nc\nd\nE\n").as_deref(),
        Some("A\nb\nc\nd\nE\n")
    );
}

#[test]
fn an_identical_change_on_both_sides_is_taken_once() {
    assert_eq!(
        clean("a\nb\n", "a\nX\n", "a\nX\n").as_deref(),
        Some("a\nX\n")
    );
}

#[test]
fn different_changes_to_the_same_line_conflict() {
    let merged = m("a\nb\nc\n", "a\nOURS\nc\n", "a\nTHEIRS\nc\n");
    assert!(merged.has_conflicts());
    assert_eq!(
        String::from_utf8(render_with_markers(&merged, "ours", "theirs")).unwrap(),
        "a\n<<<<<<< ours\nOURS\n=======\nTHEIRS\n>>>>>>> theirs\nc\n"
    );
    assert_eq!(merged.clean(), None);
}

#[test]
fn adjacent_edits_are_reported_not_silently_combined() {
    assert!(m("a\nb\nc\n", "A\nb\nc\n", "a\nB\nc\n").has_conflicts());
}

#[test]
fn one_side_deleting_and_the_other_editing_the_same_line_conflicts() {
    assert!(m("a\nb\nc\n", "a\nc\n", "a\nB\nc\n").has_conflicts());
}

#[test]
fn a_deletion_far_from_an_edit_merges_cleanly() {
    assert_eq!(
        clean("1\n2\n3\n4\n5\n", "1\n3\n4\n5\n", "1\n2\n3\n4\nFIVE\n").as_deref(),
        Some("1\n3\n4\nFIVE\n")
    );
}

#[test]
fn two_insertions_at_the_same_point_conflict_unless_identical() {
    assert!(m("a\nc\n", "a\nX\nc\n", "a\nY\nc\n").has_conflicts());
    assert_eq!(
        clean("a\nc\n", "a\nX\nc\n", "a\nX\nc\n").as_deref(),
        Some("a\nX\nc\n")
    );
}

#[test]
fn an_empty_base_with_two_different_files_conflicts() {
    assert!(m("", "x\n", "y\n").has_conflicts());
    assert_eq!(clean("", "x\n", "x\n").as_deref(), Some("x\n"));
    assert_eq!(clean("", "", "y\n").as_deref(), Some("y\n"));
}

#[test]
fn markers_stay_on_their_own_lines_when_a_side_lacks_a_final_newline() {
    let merged = m("a\n", "ours", "theirs");
    let out = String::from_utf8(render_with_markers(&merged, "o", "t")).unwrap();
    assert_eq!(out, "<<<<<<< o\nours\n=======\ntheirs\n>>>>>>> t\n");
}

#[test]
fn the_alignment_columns_give_back_the_inputs() {
    let base: Vec<u8> = vec![1, 2, 3, 4, 5, 6];
    let ours: Vec<u8> = vec![1, 9, 3, 4, 5];
    let theirs: Vec<u8> = vec![0, 1, 2, 3, 4, 6, 7];
    let r = merge3(&base, &ours, &theirs);
    let (mut b, mut o, mut t) = (Vec::new(), Vec::new(), Vec::new());
    for c in &r.chunks {
        match c {
            Chunk::Same(v) => {
                b.extend(v);
                o.extend(v);
                t.extend(v);
            }
            Chunk::Changed { base, ours, theirs } => {
                assert_ne!(c.kind(), Kind::Same);
                b.extend(base);
                o.extend(ours);
                t.extend(theirs);
            }
        }
    }
    assert_eq!((b, o, t), (base, ours, theirs));
}

#[test]
fn a_one_sided_change_applies_cleanly() {
    let base: Vec<u8> = vec![1, 2, 3];
    let x: Vec<u8> = vec![3, 2, 1, 0];
    assert_eq!(merge3(&base, &base, &x).clean(), Some(x.clone()));
    assert_eq!(merge3(&base, &x, &base).clean(), Some(x));
}

#[test]
fn kinds_are_classified_by_which_side_changed() {
    let c = |b: &[u8], o: &[u8], t: &[u8]| Chunk::Changed {
        base: b.to_vec(),
        ours: o.to_vec(),
        theirs: t.to_vec(),
    };
    assert_eq!(Chunk::Same(vec![1u8]).kind(), Kind::Same);
    assert_eq!(c(&[1], &[2], &[1]).kind(), Kind::OnlyOurs);
    assert_eq!(c(&[1], &[1], &[2]).kind(), Kind::OnlyTheirs);
    assert_eq!(c(&[1], &[2], &[2]).kind(), Kind::Both);
    assert_eq!(c(&[1], &[2], &[3]).kind(), Kind::Conflict);
}

#[test]
fn rendering_without_conflicts_is_the_clean_merge() {
    let merged = m("a\nb\nc\n", "A\nb\nc\n", "a\nb\nC\n");
    assert!(!merged.has_conflicts());
    let clean = merged.clean().unwrap().concat();
    assert_eq!(render_with_markers(&merged, "o", "t"), clean);
}
