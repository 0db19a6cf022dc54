//! Tests for the comparison memo tables and the edit script layer.

use npingler::seqdiff::apply_edit_script;
use npingler::seqdiff::diff_slices;
use npingler::seqdiff::EditOp;
use npingler::strings_set::FxStringDiffSet;
use npingler::strings_set::FxStringsDiffSet;
use npingler::strings_set::SetAdd;

fn strings(items: &[&str]) -> Vec<String> {
    items.iter().map(|s| s.to_string()).collect()
}

#[test]
fn scalar_pair_second_insert_already_present() {
    let mut memo = FxStringDiffSet::with_capacity(8);
    assert_eq!(memo.insert("old-builder", "new-builder"), SetAdd::New);
    assert_eq!(memo.insert("old-builder", "new-builder"), SetAdd::AlreadyPresent);
    assert_eq!(memo.insert("old-builder", "new-builder"), SetAdd::AlreadyPresent);
}

#[test]
fn scalar_pair_distinct_pairs_are_new() {
    let mut memo = FxStringDiffSet::with_capacity(8);
    assert_eq!(memo.insert("a", "b"), SetAdd::New);
    assert_eq!(memo.insert("a", "c"), SetAdd::New);
    assert_eq!(memo.insert("d", "b"), SetAdd::New);
}

#[test]
fn scalar_pair_order_matters() {
    let mut memo = FxStringDiffSet::with_capacity(8);
    assert_eq!(memo.insert("a", "b"), SetAdd::New);
    assert_eq!(memo.insert("b", "a"), SetAdd::New);
}

#[test]
fn scalar_pair_boundary_is_kept() {
    // "ab" + "c" against "a" + "bc": the split between old and new reaches
    // the digest.
    let mut memo = FxStringDiffSet::with_capacity(8);
    assert_eq!(memo.insert("ab", "c"), SetAdd::New);
    assert_eq!(memo.insert("a", "bc"), SetAdd::New);
}

#[test]
fn sequence_pair_second_insert_already_present() {
    let mut memo = FxStringsDiffSet::with_capacity(8);
    let old_v = strings(&["-c", "make"]);
    let new_v = strings(&["-c", "make", "install"]);
    assert_eq!(memo.insert(&old_v, &new_v), SetAdd::New);
    assert_eq!(memo.insert(&old_v, &new_v), SetAdd::AlreadyPresent);
}

#[test]
fn sequence_pair_element_boundaries_are_kept() {
    // ["ab","c"] and ["a","bc"] hold the same characters but different
    // elements; length prefixes keep them apart.
    let mut memo = FxStringsDiffSet::with_capacity(8);
    assert_eq!(memo.insert(&strings(&["ab", "c"]), &strings(&[])), SetAdd::New);
    assert_eq!(memo.insert(&strings(&["a", "bc"]), &strings(&[])), SetAdd::New);
}

#[test]
fn sequence_pair_sides_are_kept_apart() {
    let mut memo = FxStringsDiffSet::with_capacity(8);
    assert_eq!(memo.insert(&strings(&["x"]), &strings(&[])), SetAdd::New);
    assert_eq!(memo.insert(&strings(&[]), &strings(&["x"])), SetAdd::New);
}

fn round_trip(old_items: &[&str], new_items: &[&str]) {
    let old_v = strings(old_items);
    let new_v = strings(new_items);
    let ops = diff_slices(&old_v, &new_v);
    let rebuilt = apply_edit_script(&old_v, &new_v, &ops);
    assert_eq!(rebuilt, new_v);
}

#[test]
fn equal_sequences_yield_equal_runs_only() {
    let v = strings(&["a", "b", "a"]);
    let w = strings(&["a", "b", "a"]);
    for op in diff_slices(&v, &w) {
        assert!(matches!(op, EditOp::Equal { .. }));
    }
    let empty: Vec<String> = Vec::new();
    assert!(diff_slices(&empty, &empty).is_empty());
}

#[test]
fn edit_script_round_trips() {
    round_trip(&[], &[]);
    round_trip(&[], &["a"]);
    round_trip(&["a"], &[]);
    round_trip(&["a", "b", "c"], &["a", "b", "c"]);
    round_trip(&["-c", "make"], &["-c", "make", "install"]);
    round_trip(&["x", "y", "z"], &["p", "q"]);
    round_trip(&["a", "a", "b", "a"], &["a", "b", "a", "a"]);
    round_trip(&["same", "old", "same"], &["same", "new", "same"]);
}
