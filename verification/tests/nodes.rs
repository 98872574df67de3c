use aabb_quadtree::geom::{Point, Rect};
use aabb_quadtree::entries::{any_close, copy_entries, match_all, remove_from, sort_dedup};
use aabb_quadtree::node::{QuadTreeConfig, QuadNode};
use aabb_quadtree::ItemId;

fn rect(l: i32, t: i32, r: i32, b: i32) -> Rect {
    Rect { top_left: Point { x: l, y: t }, bottom_right: Point { x: r, y: b } }
}

fn config(allow_duplicates: bool, min: usize, max: usize, depth: usize) -> QuadTreeConfig {
    QuadTreeConfig {
        allow_duplicates: allow_duplicates,
        max_children: max,
        min_children: min,
        max_depth: depth,
        epsilon: 1,
    }
}

fn collect(node: &QuadNode, region: Rect) -> Vec<(ItemId, Rect)> {
    let mut out: Vec<(ItemId, Rect)> = Vec::new();
    node.query(region, &mut out);
    out
}

#[test]
fn sort_dedup_orders_by_key_and_keeps_each_entry_once() {
    let a = rect(0, 0, 1, 1);
    let b = rect(2, 2, 3, 3);
    let mut list = vec![(ItemId(5), a), (ItemId(1), b), (ItemId(5), a), (ItemId(3), a), (ItemId(1), b)];
    sort_dedup(&mut list);
    assert_eq!(list, vec![(ItemId(1), b), (ItemId(3), a), (ItemId(5), a)]);
    let mut empty: Vec<(ItemId, Rect)> = Vec::new();
    sort_dedup(&mut empty);
    assert!(empty.is_empty());
}

#[test]
fn remove_from_takes_the_first_match_and_fills_the_gap_with_the_last() {
    let a = rect(0, 0, 1, 1);
    let mut list = vec![(ItemId(1), a), (ItemId(2), a), (ItemId(3), a), (ItemId(4), a)];
    assert!(remove_from(&mut list, ItemId(2)));
    assert_eq!(list, vec![(ItemId(1), a), (ItemId(4), a), (ItemId(3), a)]);
    assert!(!remove_from(&mut list, ItemId(2)));
    assert_eq!(list.len(), 3);
    assert!(remove_from(&mut list, ItemId(3)));
    assert_eq!(list, vec![(ItemId(1), a), (ItemId(4), a)]);
}

#[test]
fn match_all_appends_the_entries_that_meet_the_region() {
    let list = vec![(ItemId(1), rect(0, 0, 2, 2)), (ItemId(2), rect(5, 5, 6, 6)), (ItemId(3), rect(2, 2, 3, 3))];
    let mut out = vec![(ItemId(9), rect(9, 9, 9, 9))];
    match_all(&list, rect(1, 1, 2, 2), &mut out);
    assert_eq!(out, vec![(ItemId(9), rect(9, 9, 9, 9)), (ItemId(1), rect(0, 0, 2, 2)), (ItemId(3), rect(2, 2, 3, 3))]);
}

#[test]
fn any_close_finds_only_the_same_box_at_one_step() {
    let list = vec![(ItemId(1), rect(0, 0, 2, 2)), (ItemId(2), rect(5, 5, 6, 6))];
    assert!(any_close(&list, &rect(5, 5, 6, 6), 1));
    assert!(!any_close(&list, &rect(5, 5, 6, 7), 1));
    assert!(any_close(&list, &rect(5, 5, 6, 7), 2));
    assert_eq!(copy_entries(&list), list);
}

#[test]
fn box_over_the_centre_goes_to_the_branch_itself() {
    let cfg = config(true, 1, 2, 3);
    let mut node = QuadNode::new_leaf(rect(-10, -10, 10, 10), 0);
    assert!(node.insert(ItemId(0), rect(-5, -5, -5, -5), &cfg));
    assert!(node.insert(ItemId(1), rect(5, 5, 5, 5), &cfg));
    assert!(node.insert(ItemId(2), rect(5, -5, 5, -5), &cfg));
    assert!(node.insert(ItemId(3), rect(-10, -10, 10, 10), &cfg));
    match &node {
        QuadNode::Branch { in_all, element_count, children, depth, aabb } => {
            assert_eq!(*in_all, vec![(ItemId(3), rect(-10, -10, 10, 10))]);
            assert_eq!(*element_count, 4);
            assert_eq!(*depth, 0);
            assert_eq!(*aabb, rect(-10, -10, 10, 10));
            assert_eq!(children.len(), 4);
            assert_eq!(children[0].0, rect(-10, -10, 0, 0));
            assert_eq!(children[3].0, rect(0, 0, 10, 10));
        }
        QuadNode::Leaf { .. } => panic!("the leaf was not split"),
    }
    assert_eq!(collect(&node, rect(-10, 1, -1, 10)), vec![(ItemId(3), rect(-10, -10, 10, 10))]);
}

#[test]
fn item_that_straddles_quadrants_counts_once() {
    let cfg = config(true, 1, 2, 3);
    let mut node = QuadNode::new_leaf(rect(0, 0, 16, 16), 0);
    assert!(node.insert(ItemId(0), rect(1, 1, 2, 2), &cfg));
    assert!(node.insert(ItemId(1), rect(12, 12, 13, 13), &cfg));
    // lies in the two upper quadrants, off the centre
    assert!(node.insert(ItemId(2), rect(6, 1, 10, 2), &cfg));
    match &node {
        QuadNode::Branch { element_count, in_all, .. } => {
            assert_eq!(*element_count, 3);
            assert!(in_all.is_empty());
        }
        QuadNode::Leaf { .. } => panic!("the leaf was not split"),
    }
    // a query over both quadrants collects it twice; sorting and dropping
    // repeats leaves it once
    let mut found = collect(&node, rect(0, 0, 16, 4));
    assert_eq!(found.iter().filter(|e| e.0 == ItemId(2)).count(), 2);
    sort_dedup(&mut found);
    assert_eq!(found, vec![(ItemId(0), rect(1, 1, 2, 2)), (ItemId(2), rect(6, 1, 10, 2))]);
    // taking it out clears both copies
    assert!(node.remove(ItemId(2), rect(6, 1, 10, 2), &cfg));
    assert!(collect(&node, rect(5, 0, 11, 4)).is_empty());
    assert!(!node.remove(ItemId(2), rect(6, 1, 10, 2), &cfg));
    match &node {
        QuadNode::Branch { element_count, .. } => assert_eq!(*element_count, 2),
        QuadNode::Leaf { .. } => panic!("two items are enough for the branch"),
    }
}

#[test]
fn compaction_leaves_one_sorted_leaf() {
    let cfg = config(true, 3, 3, 3);
    let mut node = QuadNode::new_leaf(rect(0, 0, 16, 16), 0);
    node.insert(ItemId(0), rect(12, 12, 13, 13), &cfg);
    node.insert(ItemId(1), rect(1, 12, 2, 13), &cfg);
    node.insert(ItemId(2), rect(7, 1, 9, 2), &cfg);
    node.insert(ItemId(3), rect(1, 1, 2, 2), &cfg);
    assert_eq!(node.bounding_box(), rect(0, 0, 16, 16));
    assert!(matches!(node, QuadNode::Branch { .. }));
    assert!(node.remove(ItemId(3), rect(1, 1, 2, 2), &cfg));
    assert!(matches!(node, QuadNode::Branch { .. }));
    assert!(node.remove(ItemId(1), rect(1, 12, 2, 13), &cfg));
    match &node {
        QuadNode::Leaf { aabb, elements, depth } => {
            assert_eq!(*aabb, rect(0, 0, 16, 16));
            assert_eq!(*depth, 0);
            assert_eq!(*elements, vec![(ItemId(0), rect(12, 12, 13, 13)), (ItemId(2), rect(7, 1, 9, 2))]);
        }
        QuadNode::Branch { .. } => panic!("the branch was not compacted"),
    }
}

#[test]
fn leaf_at_the_depth_limit_is_not_split() {
    let cfg = config(true, 1, 2, 0);
    let mut node = QuadNode::new_leaf(rect(0, 0, 16, 16), 0);
    for i in 0..10 {
        let i: u32 = i;
        assert!(node.insert(ItemId(i), rect(1, 1, 2, 2), &cfg));
    }
    match &node {
        QuadNode::Leaf { elements, .. } => assert_eq!(elements.len(), 10),
        QuadNode::Branch { .. } => panic!("a leaf at the depth limit was split"),
    }
    let mut outline: Vec<(Rect, usize, bool)> = Vec::new();
    node.inspect(&mut outline);
    assert_eq!(outline, vec![(rect(0, 0, 16, 16), 0usize, true)]);
}

#[test]
fn clone_copies_the_whole_subtree() {
    let cfg = config(true, 1, 2, 3);
    let mut node = QuadNode::new_leaf(rect(0, 0, 16, 16), 0);
    node.insert(ItemId(0), rect(1, 1, 2, 2), &cfg);
    node.insert(ItemId(1), rect(12, 12, 13, 13), &cfg);
    node.insert(ItemId(2), rect(6, 1, 10, 2), &cfg);
    node.insert(ItemId(3), rect(7, 7, 9, 9), &cfg);
    let copy = node.clone();
    node.remove(ItemId(0), rect(1, 1, 2, 2), &cfg);
    let mut outline: Vec<(Rect, usize, bool)> = Vec::new();
    copy.inspect(&mut outline);
    assert_eq!(outline.len(), 5);
    let mut all = collect(&copy, rect(0, 0, 16, 16));
    sort_dedup(&mut all);
    assert_eq!(
        all,
        vec![
            (ItemId(0), rect(1, 1, 2, 2)),
            (ItemId(1), rect(12, 12, 13, 13)),
            (ItemId(2), rect(6, 1, 10, 2)),
            (ItemId(3), rect(7, 7, 9, 9)),
        ]
    );
}

#[test]
fn refused_duplicate_leaves_the_node_as_it_was() {
    let cfg = config(false, 1, 4, 3);
    let mut node = QuadNode::new_leaf(rect(0, 0, 16, 16), 0);
    assert!(node.insert(ItemId(0), rect(1, 1, 2, 2), &cfg));
    assert!(!node.insert(ItemId(1), rect(1, 1, 2, 2), &cfg));
    assert_eq!(collect(&node, rect(0, 0, 16, 16)), vec![(ItemId(0), rect(1, 1, 2, 2))]);
}

#[test]
fn straddling_box_is_listed_once_in_each_child_it_meets() {
    let cfg = config(true, 1, 1, 1);
    let mut node = QuadNode::new_leaf(rect(-10, -10, 10, 10), 0);
    assert!(node.insert(ItemId(0), rect(1, 1, 2, 2), &cfg));
    assert!(node.insert(ItemId(1), rect(-5, 1, 5, 2), &cfg));
    assert_eq!(collect(&node, rect(3, 1, 4, 2)), vec![(ItemId(1), rect(-5, 1, 5, 2))]);
    assert_eq!(collect(&node, rect(-4, 1, -3, 2)), vec![(ItemId(1), rect(-5, 1, 5, 2))]);
    // over both lower quadrants: the left child's copy, then the right child's list
    assert_eq!(
        collect(&node, rect(-4, 1, 4, 2)),
        vec![(ItemId(1), rect(-5, 1, 5, 2)), (ItemId(0), rect(1, 1, 2, 2)), (ItemId(1), rect(-5, 1, 5, 2))]
    );
}

#[test]
fn query_appends_the_own_list_first_and_then_the_quadrants_in_order() {
    let cfg = config(true, 1, 2, 1);
    let mut node = QuadNode::new_leaf(rect(0, 0, 16, 16), 0);
    node.insert(ItemId(0), rect(12, 12, 13, 13), &cfg);
    node.insert(ItemId(1), rect(1, 12, 2, 13), &cfg);
    node.insert(ItemId(2), rect(12, 1, 13, 2), &cfg);
    node.insert(ItemId(3), rect(1, 1, 2, 2), &cfg);
    node.insert(ItemId(4), rect(4, 4, 12, 12), &cfg);
    node.insert(ItemId(5), rect(13, 13, 14, 14), &cfg);
    let mut out = vec![(ItemId(9), rect(0, 0, 0, 0))];
    node.query(rect(0, 0, 16, 16), &mut out);
    assert_eq!(
        out,
        vec![
            (ItemId(9), rect(0, 0, 0, 0)),
            (ItemId(4), rect(4, 4, 12, 12)),
            (ItemId(3), rect(1, 1, 2, 2)),
            (ItemId(2), rect(12, 1, 13, 2)),
            (ItemId(1), rect(1, 12, 2, 13)),
            (ItemId(0), rect(12, 12, 13, 13)),
            (ItemId(5), rect(13, 13, 14, 14)),
        ]
    );
}

#[test]
fn box_over_the_centre_leaves_the_children_as_they_were() {
    let cfg = config(false, 1, 2, 3);
    let mut node = QuadNode::new_leaf(rect(-10, -10, 10, 10), 0);
    node.insert(ItemId(0), rect(-5, -5, -5, -5), &cfg);
    node.insert(ItemId(1), rect(5, 5, 5, 5), &cfg);
    node.insert(ItemId(2), rect(5, -5, 5, -5), &cfg);
    let children_before = match &node {
        QuadNode::Branch { children, .. } => format!("{:?}", children),
        QuadNode::Leaf { .. } => panic!("the leaf was not split"),
    };
    assert!(node.insert(ItemId(3), rect(-1, -1, 1, 1), &cfg));
    match &node {
        QuadNode::Branch { children, in_all, element_count, .. } => {
            assert_eq!(format!("{:?}", children), children_before);
            assert_eq!(*in_all, vec![(ItemId(3), rect(-1, -1, 1, 1))]);
            assert_eq!(*element_count, 4);
        }
        QuadNode::Leaf { .. } => panic!("the branch became a leaf"),
    }
    // the same box again is refused, and the node stays as it is
    let whole_before = format!("{:?}", node);
    assert!(!node.insert(ItemId(4), rect(-1, -1, 1, 1), &cfg));
    assert_eq!(format!("{:?}", node), whole_before);
    // a refused box off the centre leaves the node as it is too
    assert!(!node.insert(ItemId(5), rect(5, 5, 5, 5), &cfg));
    assert_eq!(format!("{:?}", node), whole_before);
}

#[test]
fn removal_below_compacts_the_child_that_runs_short() {
    let cfg = config(true, 2, 2, 3);
    let mut node = QuadNode::new_leaf(rect(0, 0, 16, 16), 0);
    node.insert(ItemId(0), rect(1, 1, 1, 1), &cfg);
    node.insert(ItemId(1), rect(6, 6, 6, 6), &cfg);
    node.insert(ItemId(2), rect(6, 1, 6, 1), &cfg);
    node.insert(ItemId(3), rect(12, 12, 12, 12), &cfg);
    node.insert(ItemId(4), rect(13, 13, 13, 13), &cfg);
    let mut outline: Vec<(Rect, usize, bool)> = Vec::new();
    node.inspect(&mut outline);
    // the top-left quadrant took three items and was split
    assert_eq!(outline.len(), 9);
    assert_eq!(outline[1], (rect(0, 0, 8, 8), 1usize, false));
    assert!(node.remove(ItemId(0), rect(1, 1, 1, 1), &cfg));
    assert!(node.remove(ItemId(2), rect(6, 1, 6, 1), &cfg));
    let mut after: Vec<(Rect, usize, bool)> = Vec::new();
    node.inspect(&mut after);
    assert_eq!(
        after,
        vec![
            (rect(0, 0, 16, 16), 0usize, false),
            (rect(0, 0, 8, 8), 1usize, true),
            (rect(8, 0, 16, 8), 1usize, true),
            (rect(0, 8, 8, 16), 1usize, true),
            (rect(8, 8, 16, 16), 1usize, true),
        ]
    );
    assert_eq!(collect(&node, rect(0, 0, 7, 7)), vec![(ItemId(1), rect(6, 6, 6, 6))]);
}
