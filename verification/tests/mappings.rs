//! The secondary indices: table-mapping membership queries and spatial
//! range queries, including the query capability interface.

use peano::mappings::{
    BoxQuery, ComponentSetQuery, Query, SpatialMapping, TableMapping,
};

#[test]
fn table_query_matches_supersets_only() {
    let mut t = TableMapping::new(3);
    t.push_row(10, vec![true, false, true]);
    t.push_row(11, vec![true, true, true]);
    t.push_row(12, vec![false, true, false]);
    // Ask for component 0.
    let r = t.query(&vec![true, false, false]);
    assert!(r.contains(&10) && r.contains(&11) && !r.contains(&12));
    // Ask for components 0 and 2.
    let r = t.query(&vec![true, false, true]);
    assert!(r.contains(&10) && r.contains(&11) && !r.contains(&12));
    // Ask for nothing: everyone qualifies.
    let r = t.query(&vec![false, false, false]);
    assert_eq!(r.len(), 3);
}

#[test]
fn table_rows_follow_membership_changes() {
    let mut t = TableMapping::new(2);
    t.push_row(5, vec![true, false]);
    let r = t.query(&vec![false, true]);
    assert!(r.is_empty());
    // The entity gains component 1.
    t.set_row(0, 5, vec![true, true]);
    let r = t.query(&vec![false, true]);
    assert_eq!(r, vec![5]);
    // The entity is destroyed.
    t.remove_row(0);
    assert_eq!(t.row_count(), 0);
    let r = t.query(&vec![false, true]);
    assert!(r.is_empty());
}

#[test]
fn component_set_query_through_capability() {
    let mut t = TableMapping::new(2);
    t.push_row(1, vec![true, true]);
    t.push_row(2, vec![false, true]);
    let q = ComponentSetQuery { mask: vec![true, false] };
    let out = q.query(t);
    assert_eq!(out, vec![1]);
}

#[test]
fn spatial_insert_update_remove_query() {
    let mut s = SpatialMapping::new();
    s.insert(1, 0, 0);
    s.insert(2, 10, 10);
    s.insert(3, -5, 3);
    let r = s.query_box(-6, -1, 1, 5);
    assert!(r.contains(&1) && r.contains(&3) && !r.contains(&2));
    // Update-on-move: entity 2 walks into the box.
    assert!(s.update_position(2, 0, 1));
    let r = s.query_box(-6, -1, 1, 5);
    assert!(r.contains(&2));
    // An unknown entity cannot be moved.
    assert!(!s.update_position(99, 0, 0));
    // Removal drops membership.
    assert!(s.remove(1));
    assert!(!s.remove(1));
    let r = s.query_box(-6, -1, 1, 5);
    assert!(!r.contains(&1) && r.contains(&2) && r.contains(&3));
}

#[test]
fn spatial_box_bounds_are_inclusive() {
    let mut s = SpatialMapping::new();
    s.insert(7, 2, 3);
    let r = s.query_box(2, 3, 2, 3);
    assert_eq!(r, vec![7]);
    let r = s.query_box(3, 3, 4, 4);
    assert!(r.is_empty());
}

#[test]
fn box_query_through_capability() {
    let mut s = SpatialMapping::new();
    s.insert(4, 1, 1);
    s.insert(5, 100, 100);
    let q = BoxQuery { x0: 0, y0: 0, x1: 2, y1: 2 };
    let out = q.query(s);
    assert_eq!(out, vec![4]);
}
