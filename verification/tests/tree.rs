use aabb_quadtree::geom::{Point, Rect};
use aabb_quadtree::{ItemId, QuadTree, Spatial};

fn rect(l: i32, t: i32, r: i32, b: i32) -> Rect {
    Rect { top_left: Point { x: l, y: t }, bottom_right: Point { x: r, y: b } }
}

fn point(x: i32, y: i32) -> Point {
    Point { x: x, y: y }
}

fn count_kinds<T>(tree: &QuadTree<T>) -> (usize, usize) {
    let mut branches: usize = 0;
    let mut leaves: usize = 0;
    for (_, _, is_leaf) in tree.inspect() {
        if is_leaf {
            leaves += 1;
        } else {
            branches += 1;
        }
    }
    (branches, leaves)
}

fn ids_of<T>(found: &Vec<(&T, &Rect, ItemId)>) -> Vec<u32> {
    found.iter().map(|f| (f.2).0).collect()
}

#[test]
fn similar_points() {
    let mut quad_tree = QuadTree::new(Rect::centered_with_radius(&Point { x: 0, y: 0 }, 10), false, 1, 5, 2);

    let p = Point { x: 0, y: 0 };
    quad_tree.insert(p);
    quad_tree.insert(p);
    assert_eq!(quad_tree.len(), 1);
}

#[test]
fn new_tree_is_one_empty_leaf() {
    let tree: QuadTree<u8> = QuadTree::new(rect(-10, -10, 10, 10), true, 1, 2, 3);
    assert_eq!(tree.len(), 0);
    assert!(tree.is_empty());
    assert_eq!(tree.bounding_box(), rect(-10, -10, 10, 10));
    assert_eq!(tree.inspect(), vec![(rect(-10, -10, 10, 10), 0usize, true)]);
    assert_eq!(tree.first(), None);
    assert!(tree.query(rect(-10, -10, 10, 10)).is_empty());
}

#[test]
fn default_tree_splits_at_seventeen_items() {
    let mut tree: QuadTree<i32> = QuadTree::default(rect(0, 0, 1024, 1024));
    for i in 0..16 {
        let i: i32 = i;
        tree.insert_with_box(i, rect(600 + i, 600 + i, 601 + i, 601 + i));
    }
    assert_eq!(count_kinds(&tree), (0, 1));
    tree.insert_with_box(16, rect(10, 10, 11, 11));
    assert_eq!(count_kinds(&tree), (1, 4));
    // the same box twice is taken: duplicates are allowed by default
    let before: usize = tree.len();
    tree.insert_with_box(17, rect(10, 10, 11, 11));
    assert_eq!(tree.len(), before + 1);
}

#[test]
fn third_insert_into_full_leaf_splits_it_once() {
    let mut tree = QuadTree::new(rect(-10, -10, 10, 10), true, 1, 2, 3);
    tree.insert(point(-5, -5));
    tree.insert(point(5, 5));
    assert_eq!(count_kinds(&tree), (0, 1));
    tree.insert(point(5, -5));
    assert_eq!(count_kinds(&tree), (1, 4));
    assert_eq!(
        tree.inspect(),
        vec![
            (rect(-10, -10, 10, 10), 0usize, false),
            (rect(-10, -10, 0, 0), 1usize, true),
            (rect(0, -10, 10, 0), 1usize, true),
            (rect(-10, 0, 0, 10), 1usize, true),
            (rect(0, 0, 10, 10), 1usize, true),
        ]
    );
    assert_eq!(tree.len(), 3);
}

#[test]
fn points_crowded_in_one_corner_split_down_to_the_depth_limit() {
    let mut tree = QuadTree::new(rect(-10, -10, 10, 10), true, 1, 2, 3);
    tree.insert(point(0, 0));
    tree.insert(point(1, 1));
    assert_eq!(count_kinds(&tree), (0, 1));
    tree.insert(point(2, 2));
    // (1,1) and (2,2) fall into the same quadrant at every level, and the
    // point at the centre touches it too, so that quadrant is split again
    // until the depth limit stops it.
    let nodes = tree.inspect();
    assert_eq!(nodes[0], (rect(-10, -10, 10, 10), 0usize, false));
    assert_eq!(count_kinds(&tree), (3, 10));
    let deepest: usize = nodes.iter().map(|n| n.1).max().unwrap();
    assert_eq!(deepest, 3);
    assert_eq!(tree.len(), 3);
    assert_eq!(ids_of(&tree.query(rect(-10, -10, 10, 10))), vec![0u32, 1, 2]);
}

#[test]
fn box_over_the_whole_tree_is_found_from_every_quadrant() {
    let mut tree = QuadTree::new(rect(-10, -10, 10, 10), true, 1, 2, 3);
    tree.insert(rect(-5, -5, -5, -5));
    tree.insert(rect(5, 5, 5, 5));
    tree.insert(rect(5, -5, 5, -5));
    let shape = tree.inspect();
    let whole = tree.insert(rect(-10, -10, 10, 10));
    // it lies in the root's own list: no node was split for it
    assert_eq!(tree.inspect(), shape);
    assert_eq!(tree.len(), 4);
    for quadrant in [rect(-10, -10, -1, -1), rect(1, -10, 10, -1), rect(-10, 1, -1, 10), rect(1, 1, 10, 10)] {
        let found = tree.query(quadrant);
        assert!(found.iter().any(|f| f.2 == whole));
        assert_eq!(found.iter().filter(|f| f.2 == whole).count(), 1);
    }
    let found = tree.query(rect(-10, 1, -1, 10));
    assert_eq!(ids_of(&found), vec![whole.0]);
    assert_eq!(*found[0].1, rect(-10, -10, 10, 10));
}

#[test]
fn query_of_the_bounding_box_returns_every_item() {
    let mut tree = QuadTree::new(rect(0, 0, 64, 64), true, 1, 2, 4);
    let mut expected: Vec<u32> = Vec::new();
    for i in 0..20 {
        let i: i32 = i;
        let id = tree.insert_with_box(i * 7, rect(3 * i, 2 * i, 3 * i + 4, 2 * i + 9));
        expected.push(id.0);
    }
    let found = tree.query(tree.bounding_box());
    assert_eq!(ids_of(&found), expected);
    assert_eq!(found.len(), tree.len());
    assert_eq!(*found[3].0, 21);
    assert_eq!(*found[3].1, rect(9, 6, 13, 15));
}

#[test]
fn query_returns_exactly_the_items_that_meet_the_region() {
    let mut tree = QuadTree::new(rect(0, 0, 128, 128), true, 2, 3, 5);
    let mut boxes: Vec<(u32, Rect)> = Vec::new();
    let mut seed: u32 = 12345;
    let mut next = |m: u32| -> i32 {
        seed = seed.wrapping_mul(1103515245).wrapping_add(12345);
        ((seed >> 8) % m) as i32
    };
    for _ in 0..200 {
        let l: i32 = next(120);
        let t: i32 = next(120);
        let w: i32 = next(9);
        let h: i32 = next(9);
        let b = rect(l, t, l + w, t + h);
        let id = tree.insert_with_box((), b);
        boxes.push((id.0, b));
    }
    assert_eq!(tree.len(), 200);
    for _ in 0..100 {
        let l: i32 = next(128);
        let t: i32 = next(128);
        let w: i32 = next(40);
        let h: i32 = next(40);
        let region = rect(l, t, l + w, t + h);
        let expected: Vec<u32> =
            boxes.iter().filter(|e| region.does_intersect(&e.1)).map(|e| e.0).collect();
        let found = tree.query(region);
        assert_eq!(ids_of(&found), expected);
        for f in found.iter() {
            assert_eq!(*f.1, boxes[(f.2).0 as usize].1);
        }
    }
    // a region that only touches an item's edge meets it
    let mut small = QuadTree::new(rect(0, 0, 16, 16), true, 1, 2, 3);
    let a = small.insert_with_box('a', rect(2, 2, 4, 4));
    assert_eq!(ids_of(&small.query(rect(4, 4, 6, 6))), vec![a.0]);
    assert_eq!(ids_of(&small.query(rect(5, 5, 6, 6))), Vec::<u32>::new());
}

#[test]
fn removed_item_is_gone_from_get_and_from_every_query() {
    let mut tree = QuadTree::new(rect(0, 0, 32, 32), true, 1, 2, 3);
    let a = tree.insert_with_box("a", rect(1, 1, 30, 3));
    let b = tree.insert_with_box("b", rect(20, 20, 22, 22));
    let c = tree.insert_with_box("c", rect(2, 20, 3, 22));
    let d = tree.insert_with_box("d", rect(14, 14, 18, 18));
    assert_eq!(tree.get(a), Some(&"a"));
    assert_eq!(tree.remove(a), Some(("a", rect(1, 1, 30, 3))));
    assert_eq!(tree.get(a), None);
    assert_eq!(tree.len(), 3);
    assert_eq!(ids_of(&tree.query(rect(0, 0, 32, 32))), vec![b.0, c.0, d.0]);
    assert_eq!(ids_of(&tree.query(rect(0, 0, 32, 4))), Vec::<u32>::new());
    assert_eq!(tree.remove(a), None);
    // a key is not issued again
    let e = tree.insert_with_box("e", rect(1, 1, 30, 3));
    assert_eq!(e, ItemId(4));
    assert_eq!(tree.get(a), None);
    assert_eq!(ids_of(&tree.query(rect(0, 0, 32, 4))), vec![4u32]);
}

#[test]
fn near_duplicate_is_refused_and_its_key_is_spent() {
    let mut tree = QuadTree::new(rect(0, 0, 32, 32), false, 1, 2, 3);
    let a = tree.insert_with_box(1, rect(3, 3, 9, 9));
    let b = tree.insert_with_box(2, rect(3, 3, 9, 9));
    assert_eq!(a, ItemId(0));
    assert_eq!(b, ItemId(1));
    assert_eq!(tree.len(), 1);
    assert_eq!(tree.get(a), Some(&1));
    assert_eq!(tree.get(b), None);
    // one grid step away is no duplicate
    let c = tree.insert_with_box(3, rect(3, 3, 9, 10));
    assert_eq!(c, ItemId(2));
    assert_eq!(tree.len(), 2);
    // still refused after the leaf has been split
    tree.insert_with_box(4, rect(20, 20, 21, 21));
    tree.insert_with_box(5, rect(2, 20, 3, 21));
    assert_eq!(count_kinds(&tree).0 >= 1, true);
    let d = tree.insert_with_box(6, rect(3, 3, 9, 9));
    assert_eq!(d, ItemId(5));
    assert_eq!(tree.get(d), None);
    assert_eq!(tree.len(), 4);
    // a box over the centre is listed in the root, and refused the second time
    let e = tree.insert_with_box(7, rect(10, 10, 20, 20));
    let f = tree.insert_with_box(8, rect(10, 10, 20, 20));
    assert_eq!(tree.get(e), Some(&7));
    assert_eq!(tree.get(f), None);
    assert_eq!(f, ItemId(7));
}

#[test]
fn removing_an_unknown_key_changes_nothing() {
    let mut tree = QuadTree::new(rect(0, 0, 32, 32), true, 1, 2, 3);
    for i in 0..6 {
        let i: i32 = i;
        tree.insert_with_box(i, rect(5 * i, 5 * i, 5 * i + 2, 5 * i + 2));
    }
    let shape = tree.inspect();
    let all = ids_of(&tree.query(rect(0, 0, 32, 32)));
    assert_eq!(tree.remove(ItemId(99)), None);
    assert_eq!(tree.inspect(), shape);
    assert_eq!(tree.len(), 6);
    assert_eq!(ids_of(&tree.query(rect(0, 0, 32, 32))), all);
    // the next key is the one that was due
    assert_eq!(tree.insert_with_box(6, rect(1, 1, 2, 2)), ItemId(6));
}

#[test]
fn branch_left_with_too_few_items_becomes_a_leaf() {
    let mut tree = QuadTree::new(rect(-10, -10, 10, 10), true, 3, 3, 3);
    let a = tree.insert(point(-5, -5));
    let b = tree.insert(point(5, 5));
    let c = tree.insert(point(5, -5));
    // the centre touches all four quadrants: this item lies in each of them
    let d = tree.insert(point(0, 0));
    assert_eq!(count_kinds(&tree), (1, 4));
    assert_eq!(tree.remove(b), Some((point(5, 5), rect(5, 5, 5, 5))));
    // three items are left: the branch stays
    assert_eq!(count_kinds(&tree), (1, 4));
    assert_eq!(tree.remove(a), Some((point(-5, -5), rect(-5, -5, -5, -5))));
    // two items are left, fewer than three: one leaf holds them, each once
    assert_eq!(tree.inspect(), vec![(rect(-10, -10, 10, 10), 0usize, true)]);
    assert_eq!(ids_of(&tree.query(rect(-10, -10, 10, 10))), vec![c.0, d.0]);
    assert_eq!(tree.len(), 2);
    assert_eq!(tree.remove(d), Some((point(0, 0), rect(0, 0, 0, 0))));
    assert_eq!(ids_of(&tree.query(rect(-10, -10, 10, 10))), vec![c.0]);
}

#[test]
fn item_outside_the_tree_is_taken_by_a_leaf_and_refused_by_a_branch() {
    let mut tree = QuadTree::new(rect(0, 0, 16, 16), true, 1, 2, 3);
    let far = tree.insert_with_box('x', rect(100, 100, 101, 101));
    assert_eq!(tree.get(far), Some(&'x'));
    assert_eq!(ids_of(&tree.query(rect(90, 90, 110, 110))), vec![far.0]);
    assert!(tree.query(rect(0, 0, 16, 16)).is_empty());
    tree.insert_with_box('a', rect(1, 1, 2, 2));
    tree.insert_with_box('b', rect(12, 12, 13, 13));
    assert_eq!(count_kinds(&tree), (1, 4));
    // the split left it out of the nodes; the table still holds it
    assert_eq!(tree.get(far), Some(&'x'));
    assert!(tree.query(rect(90, 90, 110, 110)).is_empty());
    let again = tree.insert_with_box('y', rect(100, 100, 101, 101));
    assert_eq!(again, ItemId(3));
    assert_eq!(tree.get(again), None);
    assert_eq!(tree.len(), 3);
    assert_eq!(tree.remove(far), Some(('x', rect(100, 100, 101, 101))));
    assert_eq!(tree.len(), 2);
}

#[test]
fn accessors_report_what_is_stored() {
    let mut tree = QuadTree::new(rect(0, 0, 16, 16), true, 1, 4, 3);
    assert_eq!(tree.first(), None);
    let a = tree.insert_with_box(10u8, rect(1, 1, 2, 2));
    assert_eq!(tree.first(), Some(a));
    let b = tree.insert_with_box(20u8, rect(3, 3, 4, 4));
    let first = tree.first().unwrap();
    assert!(first == a || first == b);
    assert!(!tree.is_empty());
    assert_eq!(tree.len(), 2);
    let mut all: Vec<(u32, u8, Rect)> = tree.iter().iter().map(|e| ((e.0).0, (e.1).0, (e.1).1)).collect();
    all.sort_by_key(|e| e.0);
    assert_eq!(all, vec![(0u32, 10u8, rect(1, 1, 2, 2)), (1u32, 20u8, rect(3, 3, 4, 4))]);
    assert_eq!(tree.get(b), Some(&20u8));
    assert_eq!(tree.get(ItemId(7)), None);
    let copy = tree.clone();
    tree.remove(a);
    assert_eq!(copy.len(), 2);
    assert_eq!(copy.inspect(), vec![(rect(0, 0, 16, 16), 0usize, true)]);
    assert_eq!(ids_of(&copy.query(rect(0, 0, 16, 16))), vec![0u32, 1]);
    assert_eq!(tree.len(), 1);
}

#[test]
fn spatial_values_bring_their_own_box() {
    assert_eq!(rect(1, 2, 3, 4).aabb(), rect(1, 2, 3, 4));
    assert_eq!(point(5, 6).aabb(), rect(5, 6, 5, 6));
    let mut tree = QuadTree::new(rect(0, 0, 16, 16), true, 1, 4, 3);
    let id = tree.insert(rect(1, 2, 3, 4));
    let found = tree.query(rect(3, 4, 10, 10));
    assert_eq!(found.len(), 1);
    assert_eq!(found[0].2, id);
    assert_eq!(*found[0].0, rect(1, 2, 3, 4));
}

#[test]
fn box_over_the_whole_tree_is_found_after_deep_splits() {
    let mut tree = QuadTree::new(rect(-10, -10, 10, 10), true, 1, 2, 3);
    tree.insert(point(0, 0).aabb());
    tree.insert(point(1, 1).aabb());
    tree.insert(point(2, 2).aabb());
    let shape = tree.inspect();
    assert_eq!(count_kinds(&tree), (3, 10));
    let whole = tree.insert(rect(-10, -10, 10, 10));
    assert_eq!(whole, ItemId(3));
    assert_eq!(tree.inspect(), shape);
    for quadrant in tree.bounding_box().split_quad() {
        assert!(tree.query(quadrant).iter().any(|f| f.2 == whole));
    }
    assert_eq!(ids_of(&tree.query(rect(-10, -10, -1, -1))), vec![3u32]);
    assert_eq!(ids_of(&tree.query(rect(-10, -10, 0, 0))), vec![0u32, 3]);
}

#[test]
fn three_points_in_three_quadrants_give_one_branch_and_four_leaves() {
    let mut tree = QuadTree::new(rect(-10, -10, 10, 10), true, 1, 2, 3);
    tree.insert_with_box(0u8, point(1, 1).aabb());
    tree.insert_with_box(1u8, point(-1, -1).aabb());
    tree.insert_with_box(2u8, point(1, -1).aabb());
    assert_eq!(
        tree.inspect(),
        vec![
            (rect(-10, -10, 10, 10), 0usize, false),
            (rect(-10, -10, 0, 0), 1usize, true),
            (rect(0, -10, 10, 0), 1usize, true),
            (rect(-10, 0, 0, 10), 1usize, true),
            (rect(0, 0, 10, 10), 1usize, true),
        ]
    );
    assert_eq!(tree.len(), 3);
}

#[test]
fn refused_duplicate_changes_neither_the_items_nor_the_answers() {
    let mut tree = QuadTree::new(rect(0, 0, 32, 32), false, 1, 4, 3);
    tree.insert_with_box('a', rect(3, 3, 9, 9));
    tree.insert_with_box('b', rect(20, 20, 21, 21));
    let shape = tree.inspect();
    let all = ids_of(&tree.query(rect(0, 0, 32, 32)));
    let n: usize = tree.len();
    let h = tree.insert_with_box('c', rect(3, 3, 9, 9));
    assert_eq!(h, ItemId(2));
    assert_eq!(tree.len(), n);
    assert_eq!(tree.get(h), None);
    assert_eq!(ids_of(&tree.query(rect(0, 0, 32, 32))), all);
    assert_eq!(tree.inspect(), shape);
    assert_eq!(tree.keys_issued(), 3);
}
