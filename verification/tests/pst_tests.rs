//! Tests of the tree construction and the range query.

use rt_datastructure::primitives::bbox::BBox;
use rt_datastructure::primitives::label::Label;
use rt_datastructure::pst_3d::root::{Root, SplitDimension};
use rt_datastructure::pst_3d::Pst3d;

#[test]
fn test_root_new() {
    let r = Root::new(Label::new(1, 2, 9, 1, 1, 1, "A".to_string()));

    assert!(r.m_t == 9);
    assert!(*r.m_data.get_label() == "A".to_string());
    assert!(r.m_type == SplitDimension::UNDEF);
}

#[test]
fn test_pst_init() {
    let mut f: Vec<Root> = Vec::new();
    f.push(Root::new(Label::new(1, 2, 9, 1, 1, 1, "A".to_string())));
    f.push(Root::new(Label::new(2, 3, 8, 2, 1, 1, "B".to_string())));
    f.push(Root::new(Label::new(3, 4, 7, 3, 1, 1, "C".to_string())));

    let root_idx = Root::init_pst3d(&mut f);
    assert!(root_idx == 0);

    assert!(f[root_idx].m_type == SplitDimension::X);
    assert!(f[root_idx].m_left_child.is_some());
    assert!(f[root_idx].m_right_child.is_some());

    assert!(f[root_idx].m_left_child.unwrap() == 1);
    assert!(f[root_idx].m_right_child.unwrap() == 2);
}

fn ten_labels() -> Vec<Label> {
    // T_i at position (i, i + 1) with t = 11 - i and id = i.
    let mut v = Vec::new();
    for i in 1..=10 {
        v.push(Label::new(
            i,
            i + 1,
            11 - i,
            i,
            1,
            1,
            format!("T{}", i),
        ));
    }
    v
}

/// The concrete scenario: querying x in [4, 7], y in [5, 8] with
/// min_t = 4 returns exactly T4, T5 and T6; T7 has t = 4, which is not
/// strictly greater than the threshold, and is excluded.
#[test]
fn test_query_concrete_scenario() {
    let t = Pst3d::new(ten_labels());

    let bb = BBox::new(4, 5, 7, 8);
    let r = t.get(&bb, 4);

    assert_eq!(r.len(), 3);
    let mut ids: Vec<i64> = r.iter().map(|l| l.get_osm_id()).collect();
    ids.sort();
    assert_eq!(ids, vec![4, 5, 6]);
}

/// Oracle equivalence on a small mixed input: the query returns exactly
/// the labels with t > min_t inside the box, duplicates included.
#[test]
fn test_query_oracle_small() {
    let mut v = Vec::new();
    v.push(Label::new(0, 0, 5, 1, 1, 1, "a".to_string()));
    v.push(Label::new(0, 0, 5, 1, 1, 1, "a".to_string()));
    v.push(Label::new(2, 2, 3, 2, 1, 1, "b".to_string()));
    v.push(Label::new(5, -1, 9, 3, 1, 1, "c".to_string()));
    v.push(Label::new(-4, 1, 7, 4, 1, 1, "d".to_string()));
    let t = Pst3d::new(v);

    // Box x in [-1, 3], y in [-1, 3], min_t = 4: both copies of "a" are
    // inside with t = 5 > 4; "b" is inside but t = 3; "c" and "d" are
    // outside the box.
    let bb = BBox::new(-1, -1, 3, 3);
    let r = t.get(&bb, 4);
    assert_eq!(r.len(), 2);
    assert!(r.iter().all(|l| l.get_osm_id() == 1));

    // min_t = 2 adds "b".
    let r2 = t.get(&bb, 2);
    assert_eq!(r2.len(), 3);
}

/// Full-extent round trip: querying with the aggregate bounding box of
/// all inputs and a threshold below every t returns all labels exactly
/// once.
#[test]
fn test_query_full_extent() {
    let labels = ten_labels();
    let mut agg = BBox::new_empty();
    for l in &labels {
        agg.add_to_box(l);
    }
    let t = Pst3d::new(labels);

    let r = t.get(&agg, 0);
    assert_eq!(r.len(), 10);
    let mut ids: Vec<i64> = r.iter().map(|l| l.get_osm_id()).collect();
    ids.sort();
    assert_eq!(ids, vec![1, 2, 3, 4, 5, 6, 7, 8, 9, 10]);
}

/// Empty-tree safety: building from zero labels and querying returns an
/// empty list without failure.
#[test]
fn test_empty_tree() {
    let t = Pst3d::new(Vec::new());

    let bb = BBox::new(-100, -100, 100, 100);
    assert_eq!(t.get(&bb, 0).len(), 0);
    assert_eq!(t.get(&BBox::new_empty(), -100).len(), 0);
    assert!(t.to_string() == "PSKdT is empty!");
}

/// Labels with equal coordinates and equal times are all stored and all
/// returned.
#[test]
fn test_query_duplicates() {
    let mut v = Vec::new();
    for i in 0..4 {
        v.push(Label::new(1, 1, 5, i, 1, 1, "same".to_string()));
    }
    let t = Pst3d::new(v);
    let bb = BBox::new(1, 1, 1, 1);
    assert_eq!(t.get(&bb, 4).len(), 4);
    assert_eq!(t.get(&bb, 5).len(), 0);
}

/// Negative elimination times are handled: the maximum selection is
/// seeded from the data, not from zero.
#[test]
fn test_query_negative_times() {
    let mut v = Vec::new();
    v.push(Label::new(0, 0, -5, 1, 1, 1, "n1".to_string()));
    v.push(Label::new(1, 1, -2, 2, 1, 1, "n2".to_string()));
    v.push(Label::new(2, 2, -9, 3, 1, 1, "n3".to_string()));
    let t = Pst3d::new(v);

    let bb = BBox::new(-10, -10, 10, 10);
    let r = t.get(&bb, -10);
    assert_eq!(r.len(), 3);

    let r2 = t.get(&bb, -3);
    assert_eq!(r2.len(), 1);
    assert_eq!(r2[0].get_osm_id(), 2);
}

#[test]
fn test_pst_to_string_small() {
    let mut v = Vec::new();
    v.push(Label::new(1, 2, 9, 1, 1, 1, "A".to_string()));
    v.push(Label::new(2, 3, 8, 2, 1, 1, "B".to_string()));
    v.push(Label::new(3, 4, 7, 3, 1, 1, "C".to_string()));
    let t = Pst3d::new(v);

    let expected = "\
x-node (split: 2): Label [#1]: 'A' at (1, 2) with prio 1, elim-t: 9 and label factor: 1\n\
l    leaf-node (split: NaN): Label [#2]: 'B' at (2, 3) with prio 1, elim-t: 8 and label factor: 1\n\
r    leaf-node (split: NaN): Label [#3]: 'C' at (3, 4) with prio 1, elim-t: 7 and label factor: 1";

    assert!(t.to_string() == expected);
}

/// The t-pruning test is strict: a node whose t equals the threshold is
/// excluded together with its whole subtree.
#[test]
fn test_query_threshold_strict() {
    let t = Pst3d::new(ten_labels());
    let bb = BBox::new(1, 2, 10, 11);

    // Only t values 11 - i for i = 1..10, i.e. 1..10, are present.
    assert_eq!(t.get(&bb, 10).len(), 0);
    assert_eq!(t.get(&bb, 9).len(), 1);
    assert_eq!(t.get(&bb, 1).len(), 9);
    assert_eq!(t.get(&bb, 0).len(), 10);
}
