//! A quadtree over axis-aligned bounding boxes on an integer grid: a map
//! from boxes to items that answers which items lie over a region.
//!
//! A [`QuadTree`] keeps each item's payload and box in a table under the key
//! it issued for the item, and keeps the keys and boxes a second time in a
//! tree of [`node::QuadNode`]s that splits the plane into quadrants. The table
//! says what is stored; the tree is how a region is searched.
use vstd::prelude::*;

pub mod entries;
pub mod geom;
pub mod node;
pub mod placement;
pub mod table;

use crate::geom::{Point, Rect};
use crate::entries::{ascending, has_handle, lemma_ascending, matching, sort_dedup, Entry};
use crate::node::{QuadTreeConfig, QuadNode, NodeInfo, EPSILON};
use crate::table::{
    Table,
    table_entries,
    table_first,
    table_get,
    table_insert,
    table_len,
    table_new,
    table_remove,
};

verus! {

/// The key of one stored item, unique within the tree that issued it.
///
/// A key is only meaningful to the tree it came from.
#[derive(Eq, PartialEq, Ord, PartialOrd, Hash, Clone, Copy, Debug, Structural)]
pub struct ItemId(pub u32);

/// Something that has a bounding box.
///
/// A payload need not have one, but one that has can be inserted without
/// naming its box.
pub trait Spatial {
    /// The bounding box of the value.
    spec fn spec_aabb(&self) -> Rect;

    /// The bounding box of the value.
    fn aabb(&self) -> (r: Rect)
        ensures
            r == self.spec_aabb(),
    ;
}

impl Spatial for Rect {
    open spec fn spec_aabb(&self) -> Rect {
        *self
    }

    fn aabb(&self) -> (r: Rect) {
        *self
    }
}

impl Spatial for Point {
    open spec fn spec_aabb(&self) -> Rect {
        Rect::spec_null_at(*self)
    }

    fn aabb(&self) -> (r: Rect) {
        Rect::null_at(self)
    }
}

/// A map from bounding boxes to items, which can be asked for the items
/// whose box meets a region.
#[derive(Debug, Clone)]
pub struct QuadTree<T> {
    root: QuadNode,
    config: QuadTreeConfig,
    id: u32,
    elements: Table<(T, Rect)>,
}

/// The key with the number `k`.
pub open spec fn key_of(k: u32) -> ItemId {
    ItemId(k)
}

impl<T> QuadTree<T> {
    /// What is stored: under each live key, the item's payload and box.
    pub closed spec fn items(&self) -> Map<ItemId, (T, Rect)> {
        Map::new(|id: ItemId| self.elements@.contains_key(id.0), |id: ItemId| self.elements@[id.0])
    }

    /// The root of the tree of nodes.
    pub closed spec fn root(&self) -> QuadNode {
        self.root
    }

    /// The settings the tree was made with.
    pub closed spec fn config(&self) -> QuadTreeConfig {
        self.config
    }

    /// The number of keys issued so far, which is the number of the next key.
    pub closed spec fn issued(&self) -> u32 {
        self.id
    }

    /// The table holds finitely many keys.
    pub closed spec fn table_finite(&self) -> bool {
        self.elements@.dom().finite()
    }

    /// The box that the tree was made over.
    pub open spec fn bounds(&self) -> Rect {
        self.root().bounds()
    }

    /// The keys and boxes that the nodes hold.
    pub open spec fn indexed(&self) -> Set<Entry> {
        self.root().entries()
    }

    /// Whether the nodes would take an item with the box `aabb`.
    pub open spec fn accepts(&self, aabb: Rect) -> bool {
        self.root().accepts(aabb, &self.config())
    }

    /// The keys that a query at `aabb` finds.
    pub open spec fn reach(&self, aabb: Rect) -> Set<ItemId> {
        Set::new(
            |id: ItemId|
                self.items().contains_key(id) && self.root().hits(aabb).contains(
                    (id, self.items()[id].1),
                ),
        )
    }

    /// The stored keys whose box meets `aabb`.
    pub open spec fn meeting(&self, aabb: Rect) -> Set<ItemId> {
        Set::new(
            |id: ItemId|
                self.items().contains_key(id) && aabb.spec_does_intersect(&self.items()[id].1),
        )
    }

    /// Every stored box meets the tree's box.
    pub open spec fn anchored(&self) -> bool {
        forall|id: ItemId| #[trigger]
            self.items().contains_key(id) ==> self.bounds().spec_does_intersect(&self.items()[id].1)
    }

    /// Every stored box lies within the tree's box.
    pub open spec fn enclosed(&self) -> bool {
        forall|id: ItemId| #[trigger]
            self.items().contains_key(id) ==> self.bounds().encloses(&self.items()[id].1)
    }

    /// The tree's invariant. The nodes are well-formed under the settings.
    /// Finitely many items are stored. Every key in use has been issued. What the nodes hold is stored, with
    /// the same box; and what is stored with a box that meets the tree's
    /// box, the nodes hold.
    pub open spec fn wf(&self) -> bool {
        &&& self.config().valid()
        &&& self.root().wf(&self.config())
        &&& self.root().level() == 0
        &&& self.table_finite()
        &&& self.items().dom().finite()
        &&& self.indexed().len() <= self.issued()
        &&& forall|id: ItemId| #[trigger] self.items().contains_key(id) ==> id.0 < self.issued()
        &&& forall|e: Entry| #[trigger]
            self.indexed().contains(e) ==> self.items().contains_key(e.0) && self.items()[e.0].1
                == e.1
        &&& forall|id: ItemId| #[trigger]
            self.items().contains_key(id) && self.bounds().spec_does_intersect(&self.items()[id].1)
                ==> self.indexed().contains((id, self.items()[id].1))
    }

    /// A tree holds finitely many items.
    proof fn lemma_items_finite(&self)
        requires
            self.table_finite(),
        ensures
            self.items().dom().finite(),
            self.items().len() == self.elements@.len(),
    {
        let f = |k: u32| key_of(k);
        assert(self.elements@.dom().map(f) =~= self.items().dom()) by {
            assert forall|id: ItemId| self.items().dom().contains(id) implies self.elements@.dom().map(
                f,
            ).contains(id) by {
                assert(self.elements@.dom().contains(id.0));
                assert(f(id.0) == id);
            }
        }
        vstd::set_lib::lemma_map_size(self.elements@.dom(), self.items().dom(), f);
    }

    /// An empty tree over the box `size`.
    ///
    /// * `allow_duplicates`: if false, an item is refused when an item with
    ///   the same box is already there.
    /// * `min_children`: a branch that is left with fewer items becomes a leaf.
    /// * `max_children`: a leaf that holds this many items is split before
    ///   it takes another.
    /// * `max_depth`: the depth at which leaves are no longer split.
    pub fn new(
        size: Rect,
        allow_duplicates: bool,
        min_children: usize,
        max_children: usize,
        max_depth: usize,
    ) -> (tree: QuadTree<T>)
        requires
            size.is_proper(),
            1 <= min_children <= max_children,
        ensures
            tree.wf(),
            tree.items() == Map::<ItemId, (T, Rect)>::empty(),
            tree.issued() == 0,
            tree.bounds() == size,
            tree.root() is Leaf,
            tree.root().level() == 0,
            tree.indexed() == Set::<Entry>::empty(),
            tree.config() == (QuadTreeConfig {
                allow_duplicates,
                max_children,
                min_children,
                max_depth,
                epsilon: EPSILON,
            }),
    {
        let tree = QuadTree {
            root: QuadNode::new_leaf(size, 0),
            config: QuadTreeConfig {
                allow_duplicates: allow_duplicates,
                max_children: max_children,
                min_children: min_children,
                max_depth: max_depth,
                epsilon: EPSILON,
            },
            id: 0,
            elements: table_new(),
        };
        proof {
            assert(tree.items() =~= Map::<ItemId, (T, Rect)>::empty());
            tree.lemma_items_finite();
        }
        tree
    }

    /// An empty tree over the box `size` that allows duplicates, splits a
    /// leaf of 16 items, turns a branch of fewer than 4 items back into a
    /// leaf, and is at most 8 levels deep.
    pub fn default(size: Rect) -> (tree: QuadTree<T>)
        requires
            size.is_proper(),
        ensures
            tree.wf(),
            tree.items() == Map::<ItemId, (T, Rect)>::empty(),
            tree.issued() == 0,
            tree.bounds() == size,
            tree.root() is Leaf,
            tree.indexed() == Set::<Entry>::empty(),
            tree.config() == (QuadTreeConfig {
                allow_duplicates: true,
                max_children: 16,
                min_children: 4,
                max_depth: 8,
                epsilon: EPSILON,
            }),
    {
        QuadTree::new(size, true, 4, 16, 8)
    }

    /// Inserts an item with the given box, and returns the key issued for
    /// it.
    ///
    /// A key is issued whether or not the item is stored. It is stored if
    /// the nodes take it: see [`QuadNode::accepts`].
    pub fn insert_with_box(&mut self, t: T, aabb: Rect) -> (id: ItemId)
        requires
            old(self).wf(),
            old(self).issued() < u32::MAX,
        ensures
            final(self).wf(),
            id == ItemId(old(self).issued()),
            final(self).issued() == old(self).issued() + 1,
            final(self).config() == old(self).config(),
            final(self).bounds() == old(self).bounds(),
            final(self).items() == if old(self).accepts(aabb) {
                old(self).items().insert(id, (t, aabb))
            } else {
                old(self).items()
            },
            final(self).indexed() == if old(self).accepts(aabb) {
                old(self).root().kept(&old(self).config()).insert((id, aabb))
            } else {
                old(self).root().kept(&old(self).config())
            },
            final(self).root().is_branch() == old(self).root().routed(&old(self).config()),
            !old(self).root().routed(&old(self).config()) ==> final(self).root()->elements@
                == if old(self).accepts(aabb) {
                old(self).root()->elements@.push((id, aabb))
            } else {
                old(self).root()->elements@
            },
            old(self).root().is_branch() ==> final(self).root()->in_all@ == if old(self).accepts(aabb)
                && aabb.spec_contains(&old(self).bounds().spec_midpoint()) {
                old(self).root()->in_all@.push((id, aabb))
            } else {
                old(self).root()->in_all@
            },
            old(self).root().grown(&final(self).root(), id, aabb, &old(self).config()),
            !old(self).accepts(aabb) && old(self).root().settles(aabb, &old(self).config()) ==> {
                &&& old(self).root().same_as(&final(self).root())
                &&& final(self).root().outline() == old(self).root().outline()
                &&& forall|region: Rect| final(self).reach(region) == old(self).reach(region)
            },
            old(self).anchored() && old(self).bounds().spec_does_intersect(&aabb)
                ==> final(self).anchored(),
            old(self).enclosed() && old(self).bounds().encloses(&aabb) ==> final(self).enclosed(),
            old(self).enclosed() && old(self).bounds().encloses(&aabb) ==> forall|region: Rect|
                #[trigger] final(self).reach(region) == if old(self).accepts(aabb)
                    && region.spec_does_intersect(&aabb) {
                    old(self).reach(region).insert(id)
                } else {
                    old(self).reach(region)
                },
    {
        let ghost pre = *self;
        let item_id = ItemId(self.id);
        proof {
            pre.root().lemma_entries_finite();
            assert(!has_handle(pre.indexed(), item_id));
        }
        self.id += 1;
        if self.root.insert(item_id, aabb, &self.config) {
            table_insert(&mut self.elements, item_id.0, (t, aabb));
            proof {
                assert(self.items() =~= pre.items().insert(item_id, (t, aabb)));
            }
        }
        proof {
            assert(self.items() =~= if pre.accepts(aabb) {
                pre.items().insert(item_id, (t, aabb))
            } else {
                pre.items()
            });
            vstd::set_lib::lemma_len_subset(pre.root().kept(&pre.config()), pre.indexed());
            self.lemma_items_finite();
            if pre.enclosed() && pre.bounds().encloses(&aabb) {
                assert forall|region: Rect| #[trigger] self.reach(region) == if pre.accepts(aabb)
                    && region.spec_does_intersect(&aabb) {
                    pre.reach(region).insert(item_id)
                } else {
                    pre.reach(region)
                } by {
                    pre.lemma_query_exact(region);
                    self.lemma_query_exact(region);
                    assert(self.meeting(region) =~= if pre.accepts(aabb) && region.spec_does_intersect(
                        &aabb,
                    ) {
                        pre.meeting(region).insert(item_id)
                    } else {
                        pre.meeting(region)
                    });
                }
            }
            if !pre.accepts(aabb) && pre.root().settles(aabb, &pre.config()) {
                pre.root().lemma_refused_same(&self.root(), item_id, aabb, &pre.config());
                pre.root().lemma_same_views(&self.root(), aabb);
                assert forall|region: Rect| self.reach(region) == pre.reach(region) by {
                    pre.root().lemma_same_views(&self.root(), region);
                    assert(self.reach(region) =~= pre.reach(region));
                }
            }
        }
        item_id
    }

    /// A key of the tree, if it holds any item: which one is not said.
    pub fn first(&self) -> (id: Option<ItemId>)
        ensures
            match id {
                Some(id) => self.items().contains_key(id),
                None => self.items().dom() =~= Set::<ItemId>::empty(),
            },
    {
        match table_first(&self.elements) {
            Some(k) => Some(ItemId(k)),
            None => {
                assert forall|id: ItemId| !self.items().contains_key(id) by {
                    assert(!self.elements@.dom().contains(id.0));
                }
                None
            },
        }
    }

    /// Inserts an item with its own bounding box.
    pub fn insert(&mut self, t: T) -> (id: ItemId) where T: Spatial
        requires
            old(self).wf(),
            old(self).issued() < u32::MAX,
        ensures
            final(self).wf(),
            id == ItemId(old(self).issued()),
            final(self).issued() == old(self).issued() + 1,
            final(self).config() == old(self).config(),
            final(self).bounds() == old(self).bounds(),
            final(self).items() == if old(self).accepts(t.spec_aabb()) {
                old(self).items().insert(id, (t, t.spec_aabb()))
            } else {
                old(self).items()
            },
            final(self).indexed() == if old(self).accepts(t.spec_aabb()) {
                old(self).root().kept(&old(self).config()).insert((id, t.spec_aabb()))
            } else {
                old(self).root().kept(&old(self).config())
            },
            final(self).root().is_branch() == old(self).root().routed(&old(self).config()),
            !old(self).root().routed(&old(self).config()) ==> final(self).root()->elements@
                == if old(self).accepts(t.spec_aabb()) {
                old(self).root()->elements@.push((id, t.spec_aabb()))
            } else {
                old(self).root()->elements@
            },
            old(self).root().is_branch() ==> final(self).root()->in_all@ == if old(self).accepts(
                t.spec_aabb(),
            ) && t.spec_aabb().spec_contains(&old(self).bounds().spec_midpoint()) {
                old(self).root()->in_all@.push((id, t.spec_aabb()))
            } else {
                old(self).root()->in_all@
            },
            old(self).root().grown(&final(self).root(), id, t.spec_aabb(), &old(self).config()),
            !old(self).accepts(t.spec_aabb()) && old(self).root().settles(
                t.spec_aabb(),
                &old(self).config(),
            ) ==> {
                &&& old(self).root().same_as(&final(self).root())
                &&& final(self).root().outline() == old(self).root().outline()
                &&& forall|region: Rect| final(self).reach(region) == old(self).reach(region)
            },
            old(self).anchored() && old(self).bounds().spec_does_intersect(&t.spec_aabb())
                ==> final(self).anchored(),
            old(self).enclosed() && old(self).bounds().encloses(&t.spec_aabb())
                ==> final(self).enclosed(),
    {
        let b = t.aabb();
        self.insert_with_box(t, b)
    }

    /// The payload stored under the key, if any.
    pub fn get(&self, id: ItemId) -> (payload: Option<&T>)
        ensures
            payload == (if self.items().contains_key(id) {
                Some(&self.items()[id].0)
            } else {
                None
            }),
    {
        match table_get(&self.elements, id.0) {
            Some(e) => Some(&e.0),
            None => None,
        }
    }

    /// The payload, box and key of each item whose box meets `bounding_box`,
    /// by rising key.
    pub fn query(&self, bounding_box: Rect) -> (found: Vec<(&T, &Rect, ItemId)>)
        requires
            self.wf(),
        ensures
            forall|i: int|
                0 <= i < found@.len() ==> {
                    &&& self.items().contains_key((#[trigger] found@[i]).2)
                    &&& *found@[i].0 == self.items()[found@[i].2].0
                    &&& *found@[i].1 == self.items()[found@[i].2].1
                    &&& bounding_box.spec_does_intersect(found@[i].1)
                },
            forall|i: int, j: int| 0 <= i < j < found@.len() ==> found@[i].2.0 < found@[j].2.0,
            forall|id: ItemId|
                self.reach(bounding_box).contains(id) <==> exists|i: int|
                    0 <= i < found@.len() && (#[trigger] found@[i]).2 == id,
            found@.len() == self.reach(bounding_box).len(),
            self.enclosed() ==> self.reach(bounding_box) == self.meeting(bounding_box),
            self.anchored() && bounding_box == self.bounds() ==> self.reach(bounding_box)
                == self.items().dom() && found@.len() == self.items().len(),
    {
        let mut ids: Vec<Entry> = Vec::new();
        proof {
            self.root().lemma_wf_shaped(&self.config());
            self.root().lemma_hits_sound(bounding_box);
        }
        self.root.query(bounding_box, &mut ids);
        proof {
            assert(ids@.skip(0) =~= ids@);
        }
        sort_dedup(&mut ids);
        proof {
            assert forall|a: Entry, b: Entry|
                ids@.to_set().contains(a) && ids@.to_set().contains(b) && a.0 == b.0 implies a
                == b by {
                assert(self.indexed().contains(a) && self.indexed().contains(b));
            }
            lemma_ascending(ids@);
        }
        let mut found: Vec<(&T, &Rect, ItemId)> = Vec::new();
        let mut k: usize = 0;
        while k < ids.len()
            invariant
                k <= ids.len(),
                found@.len() == k,
                self.wf(),
                ids@.to_set() == self.root().hits(bounding_box),
                self.root().hits(bounding_box).subset_of(
                    matching(self.indexed(), bounding_box),
                ),
                forall|i: int|
                    0 <= i < k ==> {
                        &&& (#[trigger] found@[i]).2 == ids@[i].0
                        &&& self.items().contains_key(found@[i].2)
                        &&& *found@[i].0 == self.items()[found@[i].2].0
                        &&& *found@[i].1 == self.items()[found@[i].2].1
                        &&& *found@[i].1 == ids@[i].1
                    },
            decreases ids.len() - k,
        {
            let (id, _) = ids[k];
            proof {
                assert(ids@.to_set().contains(ids@[k as int]));
                assert(self.indexed().contains(ids@[k as int]));
                assert(self.items().contains_key(id));
            }
            let e = match table_get(&self.elements, id.0) {
                Some(e) => e,
                None => vstd::pervasive::unreached(),
            };
            found.push((&e.0, &e.1, id));
            k += 1;
        }
        proof {
            assert forall|i: int| 0 <= i < found@.len() implies bounding_box.spec_does_intersect(
                (#[trigger] found@[i]).1,
            ) by {
                assert(ids@.to_set().contains(ids@[i]));
            }
            assert forall|id: ItemId| self.reach(bounding_box).contains(id) <==> exists|i: int|
                0 <= i < found@.len() && (#[trigger] found@[i]).2 == id by {
                if self.reach(bounding_box).contains(id) {
                    let e = (id, self.items()[id].1);
                    assert(ids@.to_set().contains(e));
                    let i = choose|i: int| 0 <= i < ids@.len() && ids@[i] == e;
                    assert(found@[i].2 == id);
                }
                if exists|i: int| 0 <= i < found@.len() && (#[trigger] found@[i]).2 == id {
                    let i = choose|i: int| 0 <= i < found@.len() && (#[trigger] found@[i]).2 == id;
                    assert(ids@.to_set().contains(ids@[i]));
                }
            }
            self.lemma_reach_len(bounding_box, ids@);
            if self.enclosed() {
                self.lemma_query_exact(bounding_box);
            }
            if self.anchored() && bounding_box == self.bounds() {
                self.lemma_query_all();
            }
        }
        found
    }

    /// The keys that a query finds are as many as the entries it collects.
    proof fn lemma_reach_len(&self, aabb: Rect, ids: Seq<Entry>)
        requires
            self.wf(),
            ids.to_set() == self.root().hits(aabb),
            ascending(ids),
        ensures
            self.reach(aabb).finite(),
            self.reach(aabb).len() == ids.len(),
    {
        self.root().lemma_hits_sound(aabb);
        let keys = ids.map_values(|e: Entry| e.0);
        assert(keys.no_duplicates()) by {
            assert forall|i: int, j: int| 0 <= i < keys.len() && 0 <= j < keys.len() && i != j implies keys[i]
                != keys[j] by {
                if i < j {
                    assert(ids[i].0.0 < ids[j].0.0);
                } else {
                    assert(ids[j].0.0 < ids[i].0.0);
                }
            }
        }
        keys.unique_seq_to_set();
        vstd::seq_lib::seq_to_set_is_finite(keys);
        assert(keys.to_set() =~= self.reach(aabb)) by {
            assert forall|id: ItemId| keys.to_set().contains(id) <==> self.reach(aabb).contains(
                id,
            ) by {
                if keys.to_set().contains(id) {
                    let i = choose|i: int| 0 <= i < keys.len() && keys[i] == id;
                    assert(ids.to_set().contains(ids[i]));
                    assert(self.indexed().contains(ids[i]));
                }
                if self.reach(aabb).contains(id) {
                    let e = (id, self.items()[id].1);
                    assert(ids.to_set().contains(e));
                    let i = choose|i: int| 0 <= i < ids.len() && ids[i] == e;
                    assert(keys[i] == id);
                }
            }
        }
    }

    /// In a tree whose stored boxes all lie within its box, a query finds
    /// exactly the stored items whose box meets the queried one.
    pub proof fn lemma_query_exact(&self, aabb: Rect)
        requires
            self.wf(),
            self.enclosed(),
        ensures
            self.reach(aabb) == self.meeting(aabb),
    {
        self.root().lemma_hits_sound(aabb);
        assert forall|id: ItemId| self.meeting(aabb).contains(id) implies self.reach(aabb).contains(
            id,
        ) by {
            let e = (id, self.items()[id].1);
            assert(self.bounds().encloses(&e.1));
            assert(self.indexed().contains(e));
            self.root().lemma_hits_complete(&self.config(), aabb, e);
        }
        assert forall|id: ItemId| self.reach(aabb).contains(id) implies self.meeting(aabb).contains(
            id,
        ) by {
            let e = (id, self.items()[id].1);
            assert(matching(self.indexed(), aabb).contains(e));
        }
        assert(self.reach(aabb) =~= self.meeting(aabb));
    }

    /// In a tree whose stored boxes all meet its box, a query at the tree's
    /// box finds every stored item.
    pub proof fn lemma_query_all(&self)
        requires
            self.wf(),
            self.anchored(),
        ensures
            self.reach(self.bounds()) == self.items().dom(),
            self.reach(self.bounds()).len() == self.items().len(),
    {
        assert forall|id: ItemId| self.items().contains_key(id) implies self.reach(
            self.bounds(),
        ).contains(id) by {
            let e = (id, self.items()[id].1);
            assert(self.indexed().contains(e));
            self.root().lemma_hits_complete(&self.config(), self.bounds(), e);
        }
        assert(self.reach(self.bounds()) =~= self.items().dom());
    }

    /// No query finds a key under which nothing is stored.
    pub proof fn lemma_absent_not_found(&self, id: ItemId, aabb: Rect)
        requires
            self.wf(),
            !self.items().contains_key(id),
        ensures
            !self.reach(aabb).contains(id),
            forall|b: Rect| !self.root().hits(aabb).contains((id, b)),
    {
        self.root().lemma_hits_sound(aabb);
        assert forall|b: Rect| !self.root().hits(aabb).contains((id, b)) by {
            if self.root().hits(aabb).contains((id, b)) {
                assert(self.indexed().contains((id, b)));
            }
        }
    }

    /// Where duplicates are refused, a tree whose nodes hold an item does
    /// not take another with a box within `EPSILON` of that item's.
    pub proof fn lemma_near_duplicate_refused(&self, first: ItemId, aabb: Rect)
        requires
            self.wf(),
            !self.config().allow_duplicates,
            self.items().contains_key(first),
            self.indexed().contains((first, self.items()[first].1)),
            self.items()[first].1.spec_close_to(&aabb, EPSILON),
        ensures
            !self.accepts(aabb),
    {
    }

    /// Where duplicates are refused: once an item has been taken, the tree
    /// does not take another whose box is within `EPSILON` of that item's.
    pub proof fn lemma_second_of_two_refused(
        before: &QuadTree<T>,
        after: &QuadTree<T>,
        id: ItemId,
        t: T,
        aabb: Rect,
        next: Rect,
    )
        requires
            before.wf(),
            after.wf(),
            !before.config().allow_duplicates,
            after.config() == before.config(),
            before.accepts(aabb),
            after.items() == before.items().insert(id, (t, aabb)),
            after.indexed() == before.root().kept(&before.config()).insert((id, aabb)),
            aabb.spec_close_to(&next, EPSILON),
        ensures
            !after.accepts(next),
    {
        assert(after.indexed().contains((id, aabb)));
    }

    /// The number of keys issued so far.
    pub fn keys_issued(&self) -> (n: u32)
        ensures
            n == self.issued(),
    {
        self.id
    }

    /// Takes the item with the key `item_id` out of the tree, and returns
    /// its payload and box, if it was there.
    ///
    /// If that leaves the root, a branch, with fewer than `min_children`
    /// items, the root becomes a leaf that holds them.
    pub fn remove(&mut self, item_id: ItemId) -> (gone: Option<(T, Rect)>)
        requires
            old(self).wf(),
        ensures
            final(self).wf(),
            gone == (if old(self).items().contains_key(item_id) {
                Some(old(self).items()[item_id])
            } else {
                None
            }),
            final(self).items() == old(self).items().remove(item_id),
            final(self).issued() == old(self).issued(),
            final(self).config() == old(self).config(),
            final(self).bounds() == old(self).bounds(),
            forall|e: Entry|
                final(self).indexed().contains(e) <==> old(self).indexed().contains(e) && e.0
                    != item_id,
            forall|aabb: Rect| !final(self).reach(aabb).contains(item_id),
            !old(self).items().contains_key(item_id) ==> {
                &&& final(self).items() == old(self).items()
                &&& final(self).root().same_as(&old(self).root())
                &&& final(self).indexed() == old(self).indexed()
                &&& final(self).root().outline() == old(self).root().outline()
                &&& forall|aabb: Rect| final(self).reach(aabb) == old(self).reach(aabb)
            },
            final(self).root().is_branch() == (old(self).root().is_branch() && !(has_handle(
                old(self).indexed(),
                item_id,
            ) && old(self).indexed().len() - 1 < old(self).config().min_children)),
            old(self).root().is_branch() && !final(self).root().is_branch() ==> ascending(
                final(self).root()->elements@,
            ),
            old(self).items().contains_key(item_id) ==> old(self).root().shrunk(
                &final(self).root(),
                item_id,
                old(self).items()[item_id].1,
                &old(self).config(),
            ),
            old(self).anchored() ==> final(self).anchored(),
            old(self).enclosed() ==> final(self).enclosed(),
            old(self).enclosed() ==> forall|region: Rect|
                #[trigger] final(self).reach(region) == old(self).reach(region).remove(item_id),
    {
        let ghost pre = *self;
        proof {
            pre.root().lemma_wf_shaped(&pre.config());
            pre.root().lemma_same_refl();
            pre.root().lemma_entries_finite();
        }
        let gone = match table_remove(&mut self.elements, item_id.0) {
            Some((item, aabb)) => {
                self.root.remove(item_id, aabb, &self.config);
                Some((item, aabb))
            },
            None => None,
        };
        proof {
            assert(self.items() =~= pre.items().remove(item_id));
            if !pre.items().contains_key(item_id) {
                assert(self.items() =~= pre.items());
                assert forall|aabb: Rect| self.reach(aabb) == pre.reach(aabb) by {
                    self.root().lemma_same_views(&pre.root(), aabb);
                    assert(self.reach(aabb) =~= pre.reach(aabb));
                }
                self.root().lemma_same_views(&pre.root(), pre.bounds());
            }
            vstd::set_lib::lemma_len_subset(self.indexed(), pre.indexed());
            assert forall|e: Entry|
                self.indexed().contains(e) <==> pre.indexed().contains(e) && e.0 != item_id by {
                if pre.indexed().contains(e) && e.0 == item_id {
                    assert(pre.items().contains_key(item_id));
                }
            }
            self.lemma_items_finite();
            if pre.enclosed() {
                assert forall|region: Rect| #[trigger] self.reach(region) == pre.reach(
                    region,
                ).remove(item_id) by {
                    pre.lemma_query_exact(region);
                    self.lemma_query_exact(region);
                    assert(self.meeting(region) =~= pre.meeting(region).remove(item_id));
                }
            }
            assert forall|aabb: Rect| !self.reach(aabb).contains(item_id) by {
                self.lemma_absent_not_found(item_id, aabb);
            }
        }
        gone
    }

    /// Every stored item: its key, with its payload and box. The order is
    /// not said.
    pub fn iter(&self) -> (all: Vec<(ItemId, &(T, Rect))>)
        ensures
            forall|i: int|
                0 <= i < all@.len() ==> self.items().contains_key((#[trigger] all@[i]).0)
                    && *all@[i].1 == self.items()[all@[i].0],
            forall|i: int, j: int| 0 <= i < j < all@.len() ==> all@[i].0 != all@[j].0,
            forall|id: ItemId|
                self.items().contains_key(id) ==> exists|i: int|
                    0 <= i < all@.len() && (#[trigger] all@[i]).0 == id,
    {
        let raw = table_entries(&self.elements);
        let mut all: Vec<(ItemId, &(T, Rect))> = Vec::new();
        let mut i: usize = 0;
        while i < raw.len()
            invariant
                i <= raw.len(),
                all@.len() == i,
                forall|k: int|
                    0 <= k < i ==> (#[trigger] all@[k]).0 == ItemId(raw@[k].0) && all@[k].1
                        == raw@[k].1,
            decreases raw.len() - i,
        {
            let (k, v) = raw[i];
            all.push((ItemId(k), v));
            i += 1;
        }
        proof {
            assert forall|id: ItemId| self.items().contains_key(id) implies exists|i: int|
                0 <= i < all@.len() && (#[trigger] all@[i]).0 == id by {
                let i = choose|i: int| 0 <= i < raw@.len() && (#[trigger] raw@[i]).0 == id.0;
                assert(all@[i].0 == id);
            }
        }
        all
    }

    /// The box, depth and kind of each node: a node before its children,
    /// the children in the order of their quadrants.
    pub fn inspect(&self) -> (nodes: Vec<NodeInfo>)
        requires
            self.wf(),
        ensures
            nodes@ == self.root().outline(),
    {
        let mut nodes: Vec<NodeInfo> = Vec::new();
        proof {
            self.root().lemma_wf_shaped(&self.config());
        }
        self.root.inspect(&mut nodes);
        assert(nodes@ =~= self.root().outline());
        nodes
    }

    /// The number of items in the tree.
    pub fn len(&self) -> (n: usize)
        requires
            self.wf(),
        ensures
            n == self.items().len(),
    {
        proof {
            self.lemma_items_finite();
        }
        table_len(&self.elements)
    }

    /// Whether the tree holds no item.
    pub fn is_empty(&self) -> (empty: bool)
        requires
            self.wf(),
        ensures
            empty == (self.items().len() == 0),
            empty == (self.items().dom() =~= Set::<ItemId>::empty()),
    {
        proof {
            self.lemma_items_finite();
            if self.items().len() == 0 {
                assert(self.items().dom() =~= Set::<ItemId>::empty());
            }
        }
        table_len(&self.elements) == 0
    }

    /// The box that the tree was made over.
    pub fn bounding_box(&self) -> (r: Rect)
        ensures
            r == self.bounds(),
    {
        self.root.bounding_box()
    }
}

} // verus!
