//! Lists and sets of indexed items: what may be said of them, and the
//! loops over them that the nodes share.
use vstd::prelude::*;
use crate::geom::Rect;
use crate::node::EPSILON;
use crate::ItemId;

verus! {

/// One indexed item: its key and its bounding box.
pub type Entry = (ItemId, Rect);

/// No key occurs twice in the list.
pub open spec fn distinct_handles(s: Seq<Entry>) -> bool {
    forall|i: int, j: int| 0 <= i < j < s.len() ==> s[i].0 != s[j].0
}

/// The keys of the list grow from each entry to the next.
pub open spec fn ascending(s: Seq<Entry>) -> bool {
    forall|i: int, j: int| 0 <= i < j < s.len() ==> s[i].0.0 < s[j].0.0
}

/// The keys of the list do not fall from one entry to the next.
pub open spec fn nondecreasing(s: Seq<Entry>) -> bool {
    forall|i: int, j: int| 0 <= i < j < s.len() ==> s[i].0.0 <= s[j].0.0
}

/// Each key stands with one box only.
pub open spec fn functional(s: Set<Entry>) -> bool {
    forall|a: Entry, b: Entry| s.contains(a) && s.contains(b) && a.0 == b.0 ==> a == b
}

/// No two entries have boxes within `epsilon` of each other.
pub open spec fn spread(s: Set<Entry>, epsilon: i32) -> bool {
    forall|a: Entry, b: Entry|
        s.contains(a) && s.contains(b) && a != b ==> !a.1.spec_close_to(&b.1, epsilon)
}

/// Some entry has a box within `epsilon` of `aabb`.
pub open spec fn has_close(s: Set<Entry>, aabb: Rect, epsilon: i32) -> bool {
    exists|e: Entry| s.contains(e) && e.1.spec_close_to(&aabb, epsilon)
}

/// Some entry has the key `id`.
pub open spec fn has_handle(s: Set<Entry>, id: ItemId) -> bool {
    exists|e: Entry| s.contains(e) && e.0 == id
}

/// The entries whose box meets `aabb`.
pub open spec fn matching(s: Set<Entry>, aabb: Rect) -> Set<Entry> {
    Set::new(|e: Entry| s.contains(e) && aabb.spec_does_intersect(&e.1))
}

/// The entries of the list whose box meets `aabb`, in their order.
pub open spec fn matching_seq(s: Seq<Entry>, aabb: Rect) -> Seq<Entry> {
    s.filter(|e: Entry| aabb.spec_does_intersect(&e.1))
}

/// Whether `i` is the first place of the list that holds the key `id`.
pub open spec fn first_with(s: Seq<Entry>, id: ItemId, i: int) -> bool {
    &&& 0 <= i < s.len()
    &&& s[i].0 == id
    &&& forall|k: int| 0 <= k < i ==> s[k].0 != id
}

/// A list in which no key occurs twice has as many entries as its set.
pub proof fn lemma_distinct_len(s: Seq<Entry>)
    requires
        distinct_handles(s),
    ensures
        s.to_set().len() == s.len(),
        s.to_set().finite(),
{
    assert(s.no_duplicates()) by {
        assert forall|i: int, j: int| 0 <= i < s.len() && 0 <= j < s.len() && i != j implies s[i]
            != s[j] by {
            if i < j {
                assert(s[i].0 != s[j].0);
            } else {
                assert(s[j].0 != s[i].0);
            }
        }
    }
    s.unique_seq_to_set();
    vstd::seq_lib::seq_to_set_is_finite(s);
}

/// A list without repeated entries whose keys do not fall, and in which each
/// key stands with one box only, has rising keys.
pub proof fn lemma_ascending(s: Seq<Entry>)
    requires
        nondecreasing(s),
        s.no_duplicates(),
        functional(s.to_set()),
    ensures
        ascending(s),
        distinct_handles(s),
{
    assert forall|i: int, j: int| 0 <= i < j < s.len() implies s[i].0.0 < s[j].0.0 by {
        assert(s.to_set().contains(s[i]));
        assert(s.to_set().contains(s[j]));
        assert(s[i] != s[j]);
    }
}

/// Adding an entry that no entry is near keeps the boxes apart.
pub proof fn lemma_spread_insert(s: Set<Entry>, x: Entry)
    requires
        spread(s, EPSILON),
        !has_close(s, x.1, EPSILON),
    ensures
        spread(s.insert(x), EPSILON),
{
    assert forall|a: Entry, b: Entry|
        s.insert(x).contains(a) && s.insert(x).contains(b) && a != b implies !a.1.spec_close_to(
        &b.1,
        EPSILON,
    ) by {
        crate::geom::lemma_close_is_equal(a.1, b.1);
        crate::geom::lemma_close_is_equal(b.1, a.1);
        if a == x {
            assert(s.contains(b));
        } else if b == x {
            assert(s.contains(a));
        }
    }
}

/// The listed entries that meet a box are, as a set, the entries of the
/// list's set that meet it.
pub proof fn lemma_matching_seq_set(s: Seq<Entry>, aabb: Rect)
    ensures
        matching_seq(s, aabb).to_set() == matching(s.to_set(), aabb),
{
    let pred = |e: Entry| aabb.spec_does_intersect(&e.1);
    let f = s.filter(pred);
    assert forall|e: Entry| f.to_set().contains(e) <==> matching(s.to_set(), aabb).contains(e) by {
        if f.to_set().contains(e) {
            let i = choose|i: int| 0 <= i < f.len() && f[i] == e;
            s.lemma_filter_pred(pred, i);
            s.lemma_filter_contains_rev(pred, e);
        }
        if matching(s.to_set(), aabb).contains(e) {
            let i = choose|i: int| 0 <= i < s.len() && s[i] == e;
            s.lemma_filter_contains(pred, i);
        }
    }
    assert(f.to_set() =~= matching(s.to_set(), aabb));
}

/// Taking a key out of a list in which no key occurs twice leaves the other
/// entries, and no key twice.
pub proof fn lemma_remove_from_set(before: Seq<Entry>, after: Seq<Entry>, id: ItemId, i: int)
    requires
        distinct_handles(before),
        first_with(before, id, i),
        after == before.update(i, before.last()).drop_last(),
    ensures
        distinct_handles(after),
        after.to_set() == before.to_set().remove(before[i]),
        after.len() == before.len() - 1,
{
    let n = before.len() as int;
    assert forall|a: int, b: int| 0 <= a < b < after.len() implies after[a].0 != after[b].0 by {
        let pa = if a == i { n - 1 } else { a };
        let pb = if b == i { n - 1 } else { b };
        assert(after[a] == before[pa]);
        assert(after[b] == before[pb]);
        if pa < pb {
            assert(before[pa].0 != before[pb].0);
        } else {
            assert(before[pb].0 != before[pa].0);
        }
    }
    assert forall|e: Entry| after.to_set().contains(e) <==> before.to_set().remove(
        before[i],
    ).contains(e) by {
        if after.to_set().contains(e) {
            let a = choose|a: int| 0 <= a < after.len() && after[a] == e;
            let pa = if a == i { n - 1 } else { a };
            assert(before[pa] == e);
            assert(before.to_set().contains(e));
            if e == before[i] {
                if pa < i {
                    assert(before[pa].0 != before[i].0);
                } else {
                    assert(before[i].0 != before[pa].0);
                }
            }
        }
        if before.to_set().remove(before[i]).contains(e) {
            let b = choose|b: int| 0 <= b < before.len() && before[b] == e;
            if b == n - 1 {
                assert(after[i] == e);
            } else {
                assert(after[b] == e);
            }
            assert(after.to_set().contains(e));
        }
    }
    assert(after.to_set() =~= before.to_set().remove(before[i]));
}

/// Puts `x` at the place `k` of a list.
proof fn lemma_insert_set(s: Seq<Entry>, k: int, x: Entry)
    requires
        0 <= k <= s.len(),
    ensures
        s.insert(k, x).to_set() == s.to_set().insert(x),
{
    let t = s.insert(k, x);
    assert forall|e: Entry| t.to_set().contains(e) <==> s.to_set().insert(x).contains(e) by {
        if t.to_set().contains(e) {
            let i = choose|i: int| 0 <= i < t.len() && t[i] == e;
            if i < k {
                assert(s[i] == e);
            } else if i > k {
                assert(s[i - 1] == e);
            }
        }
        if s.to_set().contains(e) {
            let i = choose|i: int| 0 <= i < s.len() && s[i] == e;
            if i < k {
                assert(t[i] == e);
            } else {
                assert(t[i + 1] == e);
            }
        }
        if e == x {
            assert(t[k] == e);
        }
    }
    assert(t.to_set() =~= s.to_set().insert(x));
}

/// Whether some box of the list lies within `epsilon` of `aabb`.
pub fn any_close(list: &Vec<Entry>, aabb: &Rect, epsilon: i32) -> (found: bool)
    ensures
        found == has_close(list@.to_set(), *aabb, epsilon),
{
    let mut i: usize = 0;
    while i < list.len()
        invariant
            i <= list.len(),
            forall|k: int| 0 <= k < i ==> !(#[trigger] list@[k]).1.spec_close_to(aabb, epsilon),
        decreases list.len() - i,
    {
        if list[i].1.close_to(aabb, epsilon) {
            assert(list@.to_set().contains(list@[i as int]));
            return true;
        }
        i += 1;
    }
    assert forall|e: Entry| list@.to_set().contains(e) implies !e.1.spec_close_to(
        aabb,
        epsilon,
    ) by {
        let k = choose|k: int| 0 <= k < list@.len() && list@[k] == e;
        assert(!list@[k].1.spec_close_to(aabb, epsilon));
    }
    false
}

/// Takes the first entry with the key `item` out of the list, and puts the
/// last entry in its place.
pub fn remove_from(v: &mut Vec<Entry>, item: ItemId) -> (removed: bool)
    ensures
        removed == has_handle(old(v)@.to_set(), item),
        !removed ==> *final(v) == *old(v),
        removed ==> exists|i: int|
            first_with(old(v)@, item, i) && final(v)@ == old(v)@.update(
                i,
                old(v)@.last(),
            ).drop_last(),
{
    let mut i: usize = 0;
    while i < v.len()
        invariant
            i <= v.len(),
            *v == *old(v),
            forall|k: int| 0 <= k < i ==> (#[trigger] v@[k]).0 != item,
        decreases v.len() - i,
    {
        if v[i].0 == item {
            assert(first_with(v@, item, i as int));
            assert(v@.to_set().contains(v@[i as int]));
            v.swap_remove(i);
            return true;
        }
        i += 1;
    }
    assert forall|e: Entry| v@.to_set().contains(e) implies e.0 != item by {
        let k = choose|k: int| 0 <= k < v@.len() && v@[k] == e;
        assert(v@[k].0 != item);
    }
    false
}

/// Appends to `out` the entries of the list whose box meets `query_aabb`.
pub fn match_all(elements: &Vec<Entry>, query_aabb: Rect, out: &mut Vec<Entry>)
    ensures
        final(out)@ == old(out)@ + matching_seq(elements@, query_aabb),
{
    let ghost pred = |e: Entry| query_aabb.spec_does_intersect(&e.1);
    let mut i: usize = 0;
    assert(elements@.take(0) =~= Seq::<Entry>::empty());
    while i < elements.len()
        invariant
            i <= elements.len(),
            pred == |e: Entry| query_aabb.spec_does_intersect(&e.1),
            out@ == old(out)@ + elements@.take(i as int).filter(pred),
        decreases elements.len() - i,
    {
        let entry = elements[i];
        proof {
            let next = elements@.take(i as int + 1);
            assert(next.drop_last() =~= elements@.take(i as int));
            assert(next.last() == entry);
            reveal(Seq::filter);
        }
        if query_aabb.does_intersect(&entry.1) {
            out.push(entry);
        }
        assert(out@ =~= old(out)@ + elements@.take(i as int + 1).filter(pred));
        i += 1;
    }
    assert(elements@.take(i as int) =~= elements@);
}

/// Sorts the list by key and drops repeated entries.
pub fn sort_dedup(list: &mut Vec<Entry>)
    ensures
        final(list)@.to_set() == old(list)@.to_set(),
        final(list)@.no_duplicates(),
        nondecreasing(final(list)@),
{
    let mut taken: Vec<Entry> = Vec::new();
    std::mem::swap(&mut taken, list);
    let mut out: Vec<Entry> = Vec::new();
    let mut i: usize = 0;
    assert(taken@.take(0).to_set() =~= out@.to_set());
    while i < taken.len()
        invariant
            i <= taken.len(),
            taken@ == old(list)@,
            out@.to_set() == taken@.take(i as int).to_set(),
            out@.no_duplicates(),
            nondecreasing(out@),
        decreases taken.len() - i,
    {
        let x = taken[i];
        let mut k: usize = 0;
        while k < out.len() && out[k].0.0 < x.0.0
            invariant
                k <= out.len(),
                forall|a: int| 0 <= a < k ==> (#[trigger] out@[a]).0.0 < x.0.0,
            decreases out.len() - k,
        {
            k += 1;
        }
        let mut m: usize = k;
        let mut seen = false;
        while m < out.len() && out[m].0.0 == x.0.0 && !seen
            invariant
                k <= m <= out.len(),
                nondecreasing(out@),
                forall|a: int| k <= a < m ==> (#[trigger] out@[a]).0.0 == x.0.0,
                seen ==> out@.contains(x),
                !seen ==> forall|a: int| k <= a < m ==> (#[trigger] out@[a]) != x,
            decreases out.len() - m + if seen { 0int } else { 1int },
        {
            if out[m].0 == x.0 && out[m].1 == x.1 {
                seen = true;
                assert(out@[m as int] == x);
            } else {
                m += 1;
            }
        }
        proof {
            let prev = taken@.take(i as int);
            let next = taken@.take(i as int + 1);
            assert(next =~= prev.push(x));
            prev.lemma_push_to_set_commute(x);
        }
        if !seen {
            proof {
                assert forall|a: int| 0 <= a < out@.len() implies out@[a] != x by {
                    if a < k {
                    } else if a < m {
                    } else {
                        assert(out@[m as int].0.0 <= out@[a].0.0);
                    }
                }
                lemma_insert_set(out@, k as int, x);
            }
            let ghost before = out@;
            out.insert(k, x);
            proof {
                assert forall|a: int, b: int| 0 <= a < b < out@.len() implies out@[a].0.0
                    <= out@[b].0.0 by {
                    let pa = if a < k { a } else { a - 1 };
                    let pb = if b < k { b } else { b - 1 };
                    if a != k && b != k {
                        assert(before[pa].0.0 <= before[pb].0.0);
                    } else if a == k {
                        assert(before[pb].0.0 >= x.0.0) by {
                            if (k as int) < before.len() {
                                assert(before[k as int].0.0 <= before[pb].0.0 || pb == k);
                            }
                        }
                    }
                }
                assert forall|a: int, b: int|
                    0 <= a < out@.len() && 0 <= b < out@.len() && a != b implies out@[a] != out@[b] by {
                    let pa = if a < k { a } else { a - 1 };
                    let pb = if b < k { b } else { b - 1 };
                    if a != k && b != k {
                        assert(before[pa] != before[pb]);
                    } else if a == k {
                        assert(before[pb] != x);
                    } else {
                        assert(before[pa] != x);
                    }
                }
            }
        } else {
            assert(out@.to_set().insert(x) =~= out@.to_set());
        }
        i += 1;
    }
    proof {
        assert(taken@.take(i as int) =~= taken@);
    }
    *list = out;
}

/// A copy of the list.
pub fn copy_entries(list: &Vec<Entry>) -> (copy: Vec<Entry>)
    ensures
        copy@ == list@,
{
    let mut copy: Vec<Entry> = Vec::new();
    let mut i: usize = 0;
    while i < list.len()
        invariant
            i <= list.len(),
            copy@ == list@.take(i as int),
        decreases list.len() - i,
    {
        copy.push(list[i]);
        assert(copy@ =~= list@.take(i as int + 1));
        i += 1;
    }
    assert(list@.take(i as int) =~= list@);
    copy
}

} // verus!
