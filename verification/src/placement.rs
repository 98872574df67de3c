//! Where the items of a branch lie: over its centre, or in the quadrants
//! that their boxes meet.
use vstd::prelude::*;
use crate::entries::{has_close, Entry};
use crate::geom::Rect;
use crate::node::EPSILON;

verus! {

/// The entries of a branch: those it lists itself and those of its children.
pub open spec fn union4(listed: Set<Entry>, sets: Seq<Set<Entry>>) -> Set<Entry> {
    listed + sets[0] + sets[1] + sets[2] + sets[3]
}

/// What the `j`-th child of a branch with the box `aabb` holds lies off the
/// centre and meets the child's quadrant, and each child whose quadrant it
/// meets holds it too.
pub open spec fn routes_ok(aabb: Rect, sets: Seq<Set<Entry>>, j: int) -> bool {
    let mid = aabb.spec_midpoint();
    let quads = aabb.spec_split_quad();
    forall|e: Entry| #[trigger]
        sets[j].contains(e) ==> {
            &&& !e.1.spec_contains(&mid)
            &&& quads[j].spec_does_intersect(&e.1)
            &&& (quads[0].spec_does_intersect(&e.1) ==> sets[0].contains(e))
            &&& (quads[1].spec_does_intersect(&e.1) ==> sets[1].contains(e))
            &&& (quads[2].spec_does_intersect(&e.1) ==> sets[2].contains(e))
            &&& (quads[3].spec_does_intersect(&e.1) ==> sets[3].contains(e))
        }
}

/// Every entry of a branch lies where its box sends it: over the centre in
/// the branch's own list, otherwise in each quadrant that its box meets.
pub open spec fn placed(aabb: Rect, listed: Set<Entry>, sets: Seq<Set<Entry>>) -> bool {
    &&& sets.len() == 4
    &&& forall|e: Entry| #[trigger] listed.contains(e) ==> e.1.spec_contains(&aabb.spec_midpoint())
    &&& routes_ok(aabb, sets, 0)
    &&& routes_ok(aabb, sets, 1)
    &&& routes_ok(aabb, sets, 2)
    &&& routes_ok(aabb, sets, 3)
}

/// Whether a quadrant of `aabb` meets `item`.
pub open spec fn reaches_quadrant(aabb: Rect, item: Rect) -> bool {
    let quads = aabb.spec_split_quad();
    quads[0].spec_does_intersect(&item) || quads[1].spec_does_intersect(&item)
        || quads[2].spec_does_intersect(&item) || quads[3].spec_does_intersect(&item)
}

/// Whether one of the first `n` quadrants of `aabb` meets `item`.
pub open spec fn reaches_first(aabb: Rect, item: Rect, n: int) -> bool {
    let quads = aabb.spec_split_quad();
    (n > 0 && quads[0].spec_does_intersect(&item)) || (n > 1 && quads[1].spec_does_intersect(&item))
        || (n > 2 && quads[2].spec_does_intersect(&item)) || (n > 3 && quads[3].spec_does_intersect(
        &item,
    ))
}

/// Whether one of the first `n` of the four sets holds `x`.
pub open spec fn found_first(sets: Seq<Set<Entry>>, x: Entry, n: int) -> bool {
    (n > 0 && sets[0].contains(x)) || (n > 1 && sets[1].contains(x)) || (n > 2
        && sets[2].contains(x)) || (n > 3 && sets[3].contains(x))
}

/// A box meets a proper rectangle exactly if it meets one of its quadrants.
pub proof fn lemma_reaches_quadrant(aabb: Rect, item: Rect)
    requires
        aabb.is_proper(),
    ensures
        reaches_quadrant(aabb, item) == aabb.spec_does_intersect(&item),
{
    if aabb.spec_does_intersect(&item) {
        crate::geom::lemma_quadrants_cover(aabb, item, item);
    }
}

/// In a branch, the entries near a box that holds the centre are all in the
/// branch's own list.
pub proof fn lemma_close_listed(aabb: Rect, listed: Set<Entry>, sets: Seq<Set<Entry>>, item: Rect)
    requires
        placed(aabb, listed, sets),
        item.spec_contains(&aabb.spec_midpoint()),
    ensures
        has_close(union4(listed, sets), item, EPSILON) == has_close(listed, item, EPSILON),
{
    if has_close(union4(listed, sets), item, EPSILON) {
        let e = choose|e: Entry| union4(listed, sets).contains(e) && e.1.spec_close_to(&item, EPSILON);
        crate::geom::lemma_close_is_equal(e.1, item);
        assert(listed.contains(e));
    }
    if has_close(listed, item, EPSILON) {
        let e = choose|e: Entry| listed.contains(e) && e.1.spec_close_to(&item, EPSILON);
        assert(union4(listed, sets).contains(e));
    }
}

/// In a branch, the entries near a box that lies off the centre are in each
/// child whose quadrant the box meets.
pub proof fn lemma_close_routed(
    aabb: Rect,
    listed: Set<Entry>,
    sets: Seq<Set<Entry>>,
    item: Rect,
    j: int,
)
    requires
        placed(aabb, listed, sets),
        !item.spec_contains(&aabb.spec_midpoint()),
        0 <= j < 4,
        aabb.spec_split_quad()[j].spec_does_intersect(&item),
    ensures
        has_close(union4(listed, sets), item, EPSILON) == has_close(sets[j], item, EPSILON),
{
    if has_close(union4(listed, sets), item, EPSILON) {
        let e = choose|e: Entry| union4(listed, sets).contains(e) && e.1.spec_close_to(&item, EPSILON);
        crate::geom::lemma_close_is_equal(e.1, item);
        assert(!listed.contains(e));
        assert(sets[0].contains(e) || sets[1].contains(e) || sets[2].contains(e) || sets[3].contains(e));
        assert(sets[j].contains(e));
    }
    if has_close(sets[j], item, EPSILON) {
        let e = choose|e: Entry| sets[j].contains(e) && e.1.spec_close_to(&item, EPSILON);
        assert(union4(listed, sets).contains(e));
    }
}

/// Listing in a branch an entry whose box holds the centre keeps every
/// entry in its place.
pub proof fn lemma_placed_listed(aabb: Rect, listed: Set<Entry>, sets: Seq<Set<Entry>>, x: Entry)
    requires
        placed(aabb, listed, sets),
        x.1.spec_contains(&aabb.spec_midpoint()),
    ensures
        placed(aabb, listed.insert(x), sets),
{
}

/// Giving an entry whose box lies off the centre to each child whose
/// quadrant it meets, or to none, keeps every entry in its place.
pub proof fn lemma_placed_routed(
    aabb: Rect,
    listed: Set<Entry>,
    sets: Seq<Set<Entry>>,
    after: Seq<Set<Entry>>,
    x: Entry,
    taken: bool,
)
    requires
        placed(aabb, listed, sets),
        !x.1.spec_contains(&aabb.spec_midpoint()),
        after.len() == 4,
        forall|j: int|
            0 <= j < 4 ==> #[trigger] after[j] == if taken && aabb.spec_split_quad()[j].spec_does_intersect(
                &x.1,
            ) {
                sets[j].insert(x)
            } else {
                sets[j]
            },
    ensures
        placed(aabb, listed, after),
        union4(listed, after) == if taken && reaches_quadrant(aabb, x.1) {
            union4(listed, sets).insert(x)
        } else {
            union4(listed, sets)
        },
{
    assert(after[0] == after[0] && after[1] == after[1] && after[2] == after[2] && after[3]
        == after[3]);
    assert(routes_ok(aabb, after, 0));
    assert(routes_ok(aabb, after, 1));
    assert(routes_ok(aabb, after, 2));
    assert(routes_ok(aabb, after, 3));
    if taken && reaches_quadrant(aabb, x.1) {
        assert(union4(listed, after) =~= union4(listed, sets).insert(x));
    } else {
        assert(union4(listed, after) =~= union4(listed, sets));
    }
}

/// Taking one entry away from the list and the children of a branch keeps
/// every other entry in its place.
pub proof fn lemma_placed_removed(
    aabb: Rect,
    listed: Set<Entry>,
    sets: Seq<Set<Entry>>,
    after: Seq<Set<Entry>>,
    x: Entry,
)
    requires
        placed(aabb, listed, sets),
        after.len() == 4,
        forall|j: int| 0 <= j < 4 ==> #[trigger] after[j] == sets[j].remove(x),
    ensures
        placed(aabb, listed.remove(x), after),
        union4(listed.remove(x), after) == union4(listed, sets).remove(x),
{
    assert(after[0] == after[0] && after[1] == after[1] && after[2] == after[2] && after[3]
        == after[3]);
    assert(routes_ok(aabb, after, 0));
    assert(routes_ok(aabb, after, 1));
    assert(routes_ok(aabb, after, 2));
    assert(routes_ok(aabb, after, 3));
    assert(union4(listed.remove(x), after) =~= union4(listed, sets).remove(x));
}

} // verus!
