//! The nodes of the tree: leaves that hold items, and branches that hold
//! four quadrants and the items that lie over their centre.
use vstd::prelude::*;
use crate::entries::{
    any_close,
    ascending,
    copy_entries,
    distinct_handles,
    functional,
    has_close,
    has_handle,
    lemma_ascending,
    lemma_distinct_len,
    lemma_matching_seq_set,
    lemma_remove_from_set,
    lemma_spread_insert,
    match_all,
    matching,
    matching_seq,
    first_with,
    remove_from,
    sort_dedup,
    spread,
    Entry,
};
use crate::geom::Rect;
use crate::placement::{
    found_first,
    lemma_close_listed,
    lemma_close_routed,
    lemma_placed_listed,
    lemma_placed_removed,
    lemma_placed_routed,
    lemma_reaches_quadrant,
    placed,
    reaches_first,
    union4,
};
use crate::ItemId;

verus! {

/// What one node looks like from outside: its box, its depth, and whether it
/// is a leaf.
pub type NodeInfo = (Rect, usize, bool);

/// The distance, in grid steps, below which two boxes count as the same.
/// One step is the resolution of the grid.
pub const EPSILON: i32 = 1;

/// The settings of a tree, fixed when it is made.
#[derive(Debug, Clone, Copy)]
pub struct QuadTreeConfig {
    /// Whether an item is taken when a box near its own is already there.
    pub allow_duplicates: bool,
    /// The number of items at which a leaf is split before it takes another.
    pub max_children: usize,
    /// The number of items below which a branch becomes a leaf again.
    pub min_children: usize,
    /// The depth at which leaves are no longer split.
    pub max_depth: usize,
    /// The distance below which two boxes are near-duplicates.
    pub epsilon: i32,
}

impl QuadTreeConfig {
    /// The settings make sense: a branch keeps at least one item, a leaf
    /// takes at least as many as a branch keeps, and the grid's resolution
    /// is the threshold for near-duplicates.
    pub open spec fn valid(&self) -> bool {
        &&& 1 <= self.min_children
        &&& self.min_children <= self.max_children
        &&& self.epsilon == EPSILON
    }
}

/// A node of the tree.
#[derive(Debug)]
pub enum QuadNode {
    /// A node that has been split into quadrants.
    Branch {
        /// The box that the node covers.
        aabb: Rect,
        /// The four quadrants of the box, each with the node that covers it:
        /// top-left, top-right, bottom-left, bottom-right.
        children: Vec<(Rect, Box<QuadNode>)>,
        /// The items whose box holds the centre of the node's box.
        in_all: Vec<Entry>,
        /// The number of items in the subtree, each counted once.
        element_count: usize,
        /// The depth of the node; the root has depth 0.
        depth: usize,
    },
    /// A node that holds its items in one list.
    Leaf {
        /// The box that the node covers.
        aabb: Rect,
        /// The items of the node.
        elements: Vec<Entry>,
        /// The depth of the node; the root has depth 0.
        depth: usize,
    },
}

/// The sets of entries that the four children of a branch hold.
pub open spec fn kid_sets(kids: Seq<(Rect, Box<QuadNode>)>) -> Seq<Set<Entry>> {
    Seq::new(4, |j: int| kids[j].1.entries())
}

/// What a query at `aabb` appends for the first `n` of the children, child
/// after child.
pub open spec fn kids_found(kids: Seq<(Rect, Box<QuadNode>)>, aabb: Rect, n: int) -> Seq<Entry>
    decreases n,
{
    if n <= 0 {
        Seq::empty()
    } else {
        kids_found(kids, aabb, n - 1) + (if aabb.spec_does_intersect(&kids[n - 1].0) {
            kids[n - 1].1.found(aabb)
        } else {
            Seq::empty()
        })
    }
}

/// The outlines of the first `n` of the children, one after the other.
pub open spec fn kids_outline(kids: Seq<(Rect, Box<QuadNode>)>, n: int) -> Seq<NodeInfo>
    decreases n,
{
    if n <= 0 {
        Seq::empty()
    } else {
        kids_outline(kids, n - 1) + kids[n - 1].1.outline()
    }
}

impl QuadNode {
    /// The node's box.
    pub open spec fn bounds(&self) -> Rect {
        match self {
            QuadNode::Branch { aabb, .. } => *aabb,
            QuadNode::Leaf { aabb, .. } => *aabb,
        }
    }

    /// Whether the node is a branch.
    pub open spec fn is_branch(&self) -> bool {
        self is Branch
    }

    /// The node's depth; the root has depth 0.
    pub open spec fn level(&self) -> usize {
        match self {
            QuadNode::Branch { depth, .. } => *depth,
            QuadNode::Leaf { depth, .. } => *depth,
        }
    }

    /// 0 for a branch, 1 for a leaf.
    pub open spec fn rank(&self) -> nat {
        if self.is_branch() {
            0
        } else {
            1
        }
    }

    /// Every branch of the subtree has four children.
    pub open spec fn shaped(&self) -> bool
        decreases self,
    {
        match self {
            QuadNode::Leaf { .. } => true,
            QuadNode::Branch { children, .. } => children.len() == 4 && forall|j: int|
                0 <= j < 4 ==> (#[trigger] children[j]).1.shaped(),
        }
    }

    /// The number of branches on the longest way down from the node.
    pub open spec fn height(&self) -> nat
        decreases self,
    {
        match self {
            QuadNode::Leaf { .. } => 0,
            QuadNode::Branch { children, .. } => if children.len() == 4 {
                let a = children[0].1.height();
                let b = children[1].1.height();
                let c = children[2].1.height();
                let d = children[3].1.height();
                let ab = if a > b {
                    a
                } else {
                    b
                };
                let cd = if c > d {
                    c
                } else {
                    d
                };
                1 + if ab > cd {
                    ab
                } else {
                    cd
                }
            } else {
                0
            },
        }
    }

    /// Every entry that the subtree holds, in any of its lists.
    pub open spec fn entries(&self) -> Set<Entry>
        decreases self,
    {
        match self {
            QuadNode::Leaf { elements, .. } => elements@.to_set(),
            QuadNode::Branch { children, in_all, .. } => if children.len() == 4 {
                in_all@.to_set() + children[0].1.entries() + children[1].1.entries()
                    + children[2].1.entries() + children[3].1.entries()
            } else {
                in_all@.to_set()
            },
        }
    }

    /// What a query at `aabb` collects: from a leaf, the entries whose box
    /// meets `aabb`; from a branch, those of the entries over its centre,
    /// and what the children whose quadrant meets `aabb` give.
    pub open spec fn hits(&self, aabb: Rect) -> Set<Entry>
        decreases self,
    {
        match self {
            QuadNode::Leaf { elements, .. } => matching(elements@.to_set(), aabb),
            QuadNode::Branch { children, in_all, .. } => if children.len() == 4 {
                matching(in_all@.to_set(), aabb) + (if aabb.spec_does_intersect(&children[0].0) {
                    children[0].1.hits(aabb)
                } else {
                    Set::empty()
                }) + (if aabb.spec_does_intersect(&children[1].0) {
                    children[1].1.hits(aabb)
                } else {
                    Set::empty()
                }) + (if aabb.spec_does_intersect(&children[2].0) {
                    children[2].1.hits(aabb)
                } else {
                    Set::empty()
                }) + (if aabb.spec_does_intersect(&children[3].0) {
                    children[3].1.hits(aabb)
                } else {
                    Set::empty()
                })
            } else {
                matching(in_all@.to_set(), aabb)
            },
        }
    }

    /// The nodes of the subtree, each before its children, the children in
    /// the order of their quadrants.
    pub open spec fn outline(&self) -> Seq<NodeInfo>
        decreases self,
    {
        match self {
            QuadNode::Leaf { aabb, depth, .. } => seq![(*aabb, *depth, true)],
            QuadNode::Branch { aabb, depth, children, .. } => if children.len() == 4 {
                seq![(*aabb, *depth, false)] + children[0].1.outline() + children[1].1.outline()
                    + children[2].1.outline() + children[3].1.outline()
            } else {
                seq![(*aabb, *depth, false)]
            },
        }
    }

    /// The two subtrees have the same nodes, and each node the same fields
    /// and the same lists.
    pub open spec fn same_as(&self, other: &QuadNode) -> bool
        decreases self,
    {
        match self {
            QuadNode::Leaf { aabb, elements, depth } => {
                &&& other is Leaf
                &&& other->Leaf_aabb == *aabb
                &&& other->Leaf_depth == *depth
                &&& other->elements@ == elements@
            },
            QuadNode::Branch { aabb, children, in_all, element_count, depth } => {
                &&& other is Branch
                &&& other->Branch_aabb == *aabb
                &&& other->Branch_depth == *depth
                &&& other->element_count == *element_count
                &&& other->in_all@ == in_all@
                &&& other->children.len() == children.len()
                &&& forall|j: int|
                    0 <= j < children.len() ==> (#[trigger] children[j]).0 == other->children[j].0
                        && children[j].1.same_as(&*other->children[j].1)
            },
        }
    }

    /// The node's invariant under the settings `cfg`.
    ///
    /// A leaf below the deepest level holds at most `max_children` items. A
    /// branch lies above the deepest level and has the four quadrants of its
    /// box as children, one level down. An item whose box holds the centre
    /// of the branch's box is listed in the branch itself; any other is
    /// held by each child whose quadrant its box meets, and by no other.
    /// The branch counts the items of its subtree, each once, and a child
    /// that is a branch holds at least `min_children` of them. No key occurs
    /// with two boxes, and where duplicates are refused no two boxes of the
    /// subtree are near-duplicates.
    pub open spec fn wf(&self, cfg: &QuadTreeConfig) -> bool
        decreases self,
    {
        match self {
            QuadNode::Leaf { aabb, elements, depth } => {
                &&& aabb.is_proper()
                &&& *depth <= cfg.max_depth
                &&& (*depth < cfg.max_depth ==> elements.len() <= cfg.max_children)
                &&& distinct_handles(elements@)
                &&& (!cfg.allow_duplicates ==> spread(elements@.to_set(), cfg.epsilon))
            },
            QuadNode::Branch { aabb, children, in_all, element_count, depth } => {
                &&& aabb.is_proper()
                &&& *depth < cfg.max_depth
                &&& children.len() == 4
                &&& forall|j: int|
                    0 <= j < 4 ==> {
                        &&& (#[trigger] children[j]).0 == aabb.spec_split_quad()[j]
                        &&& children[j].1.bounds() == children[j].0
                        &&& children[j].1.level() == *depth + 1
                        &&& children[j].1.wf(cfg)
                        &&& (children[j].1.is_branch() ==> children[j].1.entries().len()
                            >= cfg.min_children)
                    }
                &&& distinct_handles(in_all@)
                &&& placed(*aabb, in_all@.to_set(), kid_sets(children@))
                &&& functional(self.entries())
                &&& *element_count == self.entries().len()
                &&& (!cfg.allow_duplicates ==> spread(self.entries(), cfg.epsilon))
            },
        }
    }

    /// What a query at `aabb` appends, in order: from a leaf, the entries
    /// of its list whose box meets `aabb`; from a branch, those of the
    /// entries over its centre, and then what each child whose quadrant
    /// meets `aabb` appends, in the order of the quadrants. An entry that
    /// lies in several of these lists comes once for each.
    pub open spec fn found(&self, aabb: Rect) -> Seq<Entry>
        decreases self,
    {
        match self {
            QuadNode::Leaf { elements, .. } => matching_seq(elements@, aabb),
            QuadNode::Branch { children, in_all, .. } => if children.len() == 4 {
                matching_seq(in_all@, aabb) + (if aabb.spec_does_intersect(&children[0].0) {
                    children[0].1.found(aabb)
                } else {
                    Seq::empty()
                }) + (if aabb.spec_does_intersect(&children[1].0) {
                    children[1].1.found(aabb)
                } else {
                    Seq::empty()
                }) + (if aabb.spec_does_intersect(&children[2].0) {
                    children[2].1.found(aabb)
                } else {
                    Seq::empty()
                }) + (if aabb.spec_does_intersect(&children[3].0) {
                    children[3].1.found(aabb)
                } else {
                    Seq::empty()
                })
            } else {
                matching_seq(in_all@, aabb)
            },
        }
    }

    /// The node's own list: the items of a leaf, or the items over the
    /// centre of a branch.
    pub open spec fn own_list(&self) -> Seq<Entry> {
        match self {
            QuadNode::Leaf { elements, .. } => elements@,
            QuadNode::Branch { in_all, .. } => in_all@,
        }
    }

    /// The node is a branch over `aabb` at `depth` that holds nothing: its
    /// list is empty, its count is 0, and its children are four empty
    /// leaves over the quadrants, one level down.
    pub open spec fn fresh_branch(&self, aabb: Rect, depth: usize) -> bool {
        &&& self is Branch
        &&& self.bounds() == aabb
        &&& self.level() == depth
        &&& self->element_count == 0
        &&& self->in_all@ == Seq::<Entry>::empty()
        &&& self->children.len() == 4
        &&& forall|j: int|
            0 <= j < 4 ==> {
                &&& (#[trigger] self->children[j]).0 == aabb.spec_split_quad()[j]
                &&& !self->children[j].1.is_branch()
                &&& self->children[j].1.bounds() == aabb.spec_split_quad()[j]
                &&& self->children[j].1.level() == depth + 1
                &&& self->children[j].1.own_list() == Seq::<Entry>::empty()
            }
    }

    /// `post` is what the node is after it was asked to take the item with
    /// the key `id` and the box `aabb`.
    ///
    /// A leaf that is not split keeps its box and depth, and has the item
    /// at the end of its list if it takes it. A branch keeps its box and
    /// depth, and counts the item if it takes it. If the box holds the
    /// centre, the item goes to the end of the branch's list and the
    /// children stay as they are. Otherwise the list stays, each child
    /// whose quadrant the box meets is what it is after it was asked to take
    /// the item, and the other children stay as they are. A leaf that is
    /// split becomes an empty branch, which is then asked to take the
    /// leaf's items, in the order of its list, and after them the new item.
    pub open spec fn grown(
        &self,
        post: &QuadNode,
        id: ItemId,
        aabb: Rect,
        cfg: &QuadTreeConfig,
    ) -> bool
        decreases cfg.max_depth - self.level(), self.rank(),
    {
        match self {
            QuadNode::Leaf { aabb: own, elements, depth } => if self.will_split(cfg) {
                exists|steps: Seq<QuadNode>|
                    {
                        &&& #[trigger] steps.len() == elements.len() + 2
                        &&& steps[0].fresh_branch(*own, *depth)
                        &&& steps[elements.len() + 1] == *post
                        &&& forall|i: int|
                            0 <= i <= elements.len() ==> {
                                &&& (#[trigger] steps[i]).is_branch()
                                &&& steps[i].level() == *depth
                                &&& steps[i].grown(
                                    &steps[i + 1],
                                    if i < elements.len() {
                                        elements[i].0
                                    } else {
                                        id
                                    },
                                    if i < elements.len() {
                                        elements[i].1
                                    } else {
                                        aabb
                                    },
                                    cfg,
                                )
                            }
                    }
            } else {
                &&& !post.is_branch()
                &&& post.bounds() == *own
                &&& post.level() == *depth
                &&& post.own_list() == if self.accepts(aabb, cfg) {
                    elements@.push((id, aabb))
                } else {
                    elements@
                }
            },
            QuadNode::Branch { aabb: own, children, in_all, element_count, depth } => {
                &&& post.is_branch()
                &&& post.bounds() == *own
                &&& post.level() == *depth
                &&& *depth < cfg.max_depth
                &&& children.len() == 4
                &&& post->children.len() == 4
                &&& post->element_count == if self.accepts(aabb, cfg) {
                    *element_count + 1
                } else {
                    *element_count as int
                }
                &&& post.own_list() == if self.accepts(aabb, cfg) && aabb.spec_contains(
                    &own.spec_midpoint(),
                ) {
                    in_all@.push((id, aabb))
                } else {
                    in_all@
                }
                &&& forall|j: int|
                    0 <= j < 4 ==> {
                        &&& (#[trigger] children[j]).0 == post->children[j].0
                        &&& if !aabb.spec_contains(&own.spec_midpoint())
                            && children[j].0.spec_does_intersect(&aabb) {
                            children[j].1.level() == *depth + 1 && children[j].1.grown(
                                &*post->children[j].1,
                                id,
                                aabb,
                                cfg,
                            )
                        } else {
                            children[j].1.same_as(&*post->children[j].1)
                        }
                    }
            },
        }
    }

    /// `steps` are the stages by which a full leaf is split: an empty
    /// branch first, then the branch after each item of the leaf's list,
    /// the last of them `post`.
    pub open spec fn rebuilt_by(
        &self,
        steps: Seq<QuadNode>,
        post: &QuadNode,
        cfg: &QuadTreeConfig,
    ) -> bool {
        let items = self.own_list();
        &&& steps.len() == items.len() + 1
        &&& steps[0].fresh_branch(self.bounds(), self.level())
        &&& steps[items.len() as int] == *post
        &&& forall|i: int|
            0 <= i < items.len() ==> {
                &&& (#[trigger] steps[i]).is_branch()
                &&& steps[i].level() == self.level()
                &&& steps[i].grown(&steps[i + 1], items[i].0, items[i].1, cfg)
            }
    }

    /// `post` is the branch that stands for the full leaf once it has been
    /// split: an empty branch that was asked to take the leaf's items, in
    /// the order of its list.
    pub open spec fn rebuilt(&self, post: &QuadNode, cfg: &QuadTreeConfig) -> bool {
        exists|steps: Seq<QuadNode>| self.rebuilt_by(steps, post, cfg)
    }

    /// `post` is what the node is after the item with the key `id`, which
    /// was placed with the box `aabb`, was taken out of it.
    ///
    /// A branch that held the item, and is left with fewer than
    /// `min_children` items, becomes a leaf with the same box and depth
    /// that holds the items left, by rising key. Any other node changes as
    /// [`QuadNode::thinned`] says.
    pub open spec fn shrunk(
        &self,
        post: &QuadNode,
        id: ItemId,
        aabb: Rect,
        cfg: &QuadTreeConfig,
    ) -> bool
        decreases self, 1nat,
    {
        if self.is_branch() && self.entries().contains((id, aabb)) && self->element_count - 1
            < cfg.min_children {
            &&& !post.is_branch()
            &&& post.bounds() == self.bounds()
            &&& post.level() == self.level()
            &&& ascending(post.own_list())
            &&& post.own_list().to_set() == self.entries().remove((id, aabb))
        } else {
            self.thinned(post, id, aabb, cfg)
        }
    }

    /// `post` is the node without the item with the key `id`, which was
    /// placed with the box `aabb`, and of the same kind as before.
    ///
    /// A leaf keeps its box and depth; if its list holds the key, the
    /// entry that holds it first gives its place to the last entry. A
    /// branch keeps its box and depth, and counts one item less if it held
    /// the item. If the box holds the centre, the branch's list loses the
    /// entry as a leaf's does, and the children stay as they are.
    /// Otherwise the list stays, each child whose quadrant the box meets
    /// is what it is after the item was taken out of it, and the other
    /// children stay as they are.
    pub open spec fn thinned(
        &self,
        post: &QuadNode,
        id: ItemId,
        aabb: Rect,
        cfg: &QuadTreeConfig,
    ) -> bool
        decreases self, 0nat,
    {
        let gone = self.entries().contains((id, aabb));
        match self {
            QuadNode::Leaf { aabb: own, elements, depth } => {
                &&& !post.is_branch()
                &&& post.bounds() == *own
                &&& post.level() == *depth
                &&& if gone {
                    exists|i: int| #[trigger]
                        first_with(elements@, id, i) && post.own_list() == elements@.update(
                            i,
                            elements@.last(),
                        ).drop_last()
                } else {
                    post.own_list() == elements@
                }
            },
            QuadNode::Branch { aabb: own, children, in_all, element_count, depth } => {
                &&& post.is_branch()
                &&& post.bounds() == *own
                &&& post.level() == *depth
                &&& children.len() == 4
                &&& post->children.len() == 4
                &&& post->element_count == if gone {
                    *element_count - 1
                } else {
                    *element_count as int
                }
                &&& if gone && aabb.spec_contains(&own.spec_midpoint()) {
                    exists|i: int| #[trigger]
                        first_with(in_all@, id, i) && post.own_list() == in_all@.update(
                            i,
                            in_all@.last(),
                        ).drop_last()
                } else {
                    post.own_list() == in_all@
                }
                &&& forall|j: int|
                    0 <= j < 4 ==> {
                        &&& (#[trigger] children[j]).0 == post->children[j].0
                        &&& if !aabb.spec_contains(&own.spec_midpoint())
                            && children[j].0.spec_does_intersect(&aabb) {
                            children[j].1.shrunk(&*post->children[j].1, id, aabb, cfg)
                        } else {
                            children[j].1.same_as(&*post->children[j].1)
                        }
                    }
            },
        }
    }

    /// No leaf that an item with the box `aabb` is handed to is full and
    /// may still be split: the item is placed, or refused, without a split.
    pub open spec fn settles(&self, aabb: Rect, cfg: &QuadTreeConfig) -> bool
        decreases self,
    {
        match self {
            QuadNode::Leaf { .. } => !self.will_split(cfg),
            QuadNode::Branch { aabb: own, children, .. } => aabb.spec_contains(&own.spec_midpoint())
                || (children.len() == 4 && forall|j: int|
                0 <= j < 4 ==> ((#[trigger] children[j]).0.spec_does_intersect(&aabb)
                    ==> children[j].1.settles(aabb, cfg))),
        }
    }

    /// Whether the node is a leaf that is full and may still be split.
    pub open spec fn will_split(&self, cfg: &QuadTreeConfig) -> bool {
        match self {
            QuadNode::Leaf { elements, depth, .. } => elements.len() == cfg.max_children && *depth
                != cfg.max_depth,
            QuadNode::Branch { .. } => false,
        }
    }

    /// Whether the next item is placed by its box: the node is a branch, or
    /// becomes one before the item is placed.
    pub open spec fn routed(&self, cfg: &QuadTreeConfig) -> bool {
        self.is_branch() || self.will_split(cfg)
    }

    /// The entries that are still held once the next item has been dealt
    /// with: all of them, but where a leaf is split those only whose box
    /// meets the leaf's.
    pub open spec fn kept(&self, cfg: &QuadTreeConfig) -> Set<Entry> {
        if self.will_split(cfg) {
            matching(self.entries(), self.bounds())
        } else {
            self.entries()
        }
    }

    /// Whether the node takes an item with the box `item`: where the item is
    /// placed by its box, the box meets the node's; and where duplicates
    /// are refused, no entry's box is near it.
    pub open spec fn accepts(&self, item: Rect, cfg: &QuadTreeConfig) -> bool {
        &&& (self.routed(cfg) ==> self.bounds().spec_does_intersect(&item))
        &&& (cfg.allow_duplicates || !has_close(self.entries(), item, cfg.epsilon))
    }

    /// In a well-formed subtree every branch has four children.
    pub proof fn lemma_wf_shaped(&self, cfg: &QuadTreeConfig)
        requires
            self.wf(cfg),
        ensures
            self.shaped(),
        decreases self,
    {
        match self {
            QuadNode::Leaf { .. } => {},
            QuadNode::Branch { children, .. } => {
                assert forall|j: int| 0 <= j < 4 implies (#[trigger] children[j]).1.shaped() by {
                    children[j].1.lemma_wf_shaped(cfg);
                }
            },
        }
    }

    /// A subtree holds finitely many entries.
    pub proof fn lemma_entries_finite(&self)
        ensures
            self.entries().finite(),
        decreases self,
    {
        match self {
            QuadNode::Leaf { elements, .. } => {
                vstd::seq_lib::seq_to_set_is_finite(elements@);
            },
            QuadNode::Branch { children, in_all, .. } => {
                vstd::seq_lib::seq_to_set_is_finite(in_all@);
                if children.len() == 4 {
                    children[0].1.lemma_entries_finite();
                    children[1].1.lemma_entries_finite();
                    children[2].1.lemma_entries_finite();
                    children[3].1.lemma_entries_finite();
                }
            },
        }
    }

    /// A child is less high than its branch.
    pub proof fn lemma_child_height(&self, j: int)
        requires
            self is Branch,
            self->children.len() == 4,
            0 <= j < 4,
        ensures
            self->children[j].1.height() < self.height(),
    {
    }

    /// The entries of a well-formed branch are those of its list and of its
    /// children.
    pub proof fn lemma_branch_entries(&self)
        requires
            self is Branch,
            self->children.len() == 4,
        ensures
            self.entries() == union4(self->in_all@.to_set(), kid_sets(self->children@)),
            forall|j: int| 0 <= j < 4 ==> #[trigger] self->children[j].1.entries().subset_of(self.entries()),
            forall|i: int| 0 <= i < self->in_all.len() ==> self.entries().contains(#[trigger] self->in_all[i]),
    {
        assert forall|i: int| 0 <= i < self->in_all.len() implies self.entries().contains(
            #[trigger] self->in_all[i],
        ) by {
            assert(self->in_all@.to_set().contains(self->in_all@[i]));
        }
    }

    /// A well-formed leaf holds as many entries as its list is long.
    pub proof fn lemma_leaf_count(&self, cfg: &QuadTreeConfig)
        requires
            self is Leaf,
            self.wf(cfg),
        ensures
            self.entries().len() == self->elements.len(),
    {
        lemma_distinct_len(self->elements@);
    }

    /// A subtree is the same as itself.
    pub proof fn lemma_same_refl(&self)
        requires
            self.shaped(),
        ensures
            self.same_as(self),
        decreases self,
    {
        match self {
            QuadNode::Leaf { .. } => {},
            QuadNode::Branch { children, .. } => {
                assert forall|j: int| 0 <= j < children.len() implies (#[trigger] children[j]).1.same_as(
                    &*children[j].1,
                ) by {
                    children[j].1.lemma_same_refl();
                }
            },
        }
    }

    /// Being the same goes both ways.
    pub proof fn lemma_same_sym(&self, other: &QuadNode)
        requires
            self.same_as(other),
        ensures
            other.same_as(self),
        decreases self,
    {
        match self {
            QuadNode::Leaf { .. } => {},
            QuadNode::Branch { children, .. } => {
                let kids = other->children;
                assert forall|j: int| 0 <= j < kids.len() implies (#[trigger] kids[j]).0
                    == children[j].0 && kids[j].1.same_as(&*children[j].1) by {
                    assert(children[j].0 == kids[j].0);
                    children[j].1.lemma_same_sym(&*kids[j].1);
                }
            },
        }
    }

    /// Two subtrees that are the same hold the same entries, answer each
    /// query alike, and have the same outline.
    pub proof fn lemma_same_views(&self, other: &QuadNode, aabb: Rect)
        requires
            self.same_as(other),
        ensures
            self.bounds() == other.bounds(),
            self.level() == other.level(),
            self.is_branch() == other.is_branch(),
            self.entries() == other.entries(),
            self.hits(aabb) == other.hits(aabb),
            self.outline() == other.outline(),
        decreases self,
    {
        match self {
            QuadNode::Leaf { .. } => {},
            QuadNode::Branch { children, .. } => {
                if children.len() == 4 {
                    let kids = other->children;
                    assert(children[0].0 == kids[0].0 && children[1].0 == kids[1].0 && children[2].0
                        == kids[2].0 && children[3].0 == kids[3].0);
                    children[0].1.lemma_same_views(&*kids[0].1, aabb);
                    children[1].1.lemma_same_views(&*kids[1].1, aabb);
                    children[2].1.lemma_same_views(&*kids[2].1, aabb);
                    children[3].1.lemma_same_views(&*kids[3].1, aabb);
                }
            },
        }
    }

    /// An item that is placed or refused without a split leaves the outline
    /// of the subtree as it was.
    pub proof fn lemma_grown_outline(
        &self,
        post: &QuadNode,
        id: ItemId,
        aabb: Rect,
        cfg: &QuadTreeConfig,
    )
        requires
            self.grown(post, id, aabb, cfg),
            self.settles(aabb, cfg),
        ensures
            post.outline() == self.outline(),
        decreases self,
    {
        match self {
            QuadNode::Leaf { .. } => {},
            QuadNode::Branch { aabb: own, children, .. } => {
                let kids = post->children;
                assert forall|j: int| 0 <= j < 4 implies (#[trigger] kids[j]).1.outline()
                    == children[j].1.outline() by {
                    assert(children[j].0 == kids[j].0);
                    if !aabb.spec_contains(&own.spec_midpoint()) && children[j].0.spec_does_intersect(
                        &aabb,
                    ) {
                        assert(children[j].1.grown(&*kids[j].1, id, aabb, cfg));
                        children[j].1.lemma_grown_outline(&*kids[j].1, id, aabb, cfg);
                    } else {
                        assert(children[j].1.same_as(&*kids[j].1));
                        children[j].1.lemma_same_views(&*kids[j].1, aabb);
                    }
                }
                assert(kids[0].1.outline() == children[0].1.outline());
                assert(kids[1].1.outline() == children[1].1.outline());
                assert(kids[2].1.outline() == children[2].1.outline());
                assert(kids[3].1.outline() == children[3].1.outline());
            },
        }
    }

    /// An item that is refused without a split leaves the subtree as it
    /// was.
    pub proof fn lemma_refused_same(
        &self,
        post: &QuadNode,
        id: ItemId,
        aabb: Rect,
        cfg: &QuadTreeConfig,
    )
        requires
            self.wf(cfg),
            cfg.valid(),
            self.grown(post, id, aabb, cfg),
            self.settles(aabb, cfg),
            !self.accepts(aabb, cfg),
        ensures
            self.same_as(post),
        decreases self,
    {
        match self {
            QuadNode::Leaf { .. } => {},
            QuadNode::Branch { aabb: own, children, in_all, .. } => {
                let kids = post->children;
                self.lemma_branch_entries();
                let sets = kid_sets(children@);
                assert forall|j: int| 0 <= j < 4 implies (#[trigger] children[j]).0 == kids[j].0
                    && children[j].1.same_as(&*kids[j].1) by {
                    assert(children[j].0 == kids[j].0);
                    if !aabb.spec_contains(&own.spec_midpoint()) && children[j].0.spec_does_intersect(
                        &aabb,
                    ) {
                        assert(children[j].1.grown(&*kids[j].1, id, aabb, cfg));
                        assert(children[j].0 == own.spec_split_quad()[j]);
                        crate::geom::lemma_quadrant_meets_whole(*own, j, aabb);
                        lemma_close_routed(*own, in_all@.to_set(), sets, aabb, j);
                        assert(sets[j] == children[j].1.entries());
                        children[j].1.lemma_refused_same(&*kids[j].1, id, aabb, cfg);
                    } else {
                        assert(children[j].1.same_as(&*kids[j].1));
                    }
                }
            },
        }
    }

    /// What a query appends holds, as a set, what the query collects.
    pub proof fn lemma_found_set(&self, aabb: Rect)
        ensures
            self.found(aabb).to_set() == self.hits(aabb),
        decreases self,
    {
        match self {
            QuadNode::Leaf { elements, .. } => {
                lemma_matching_seq_set(elements@, aabb);
            },
            QuadNode::Branch { children, in_all, .. } => {
                lemma_matching_seq_set(in_all@, aabb);
                if children.len() == 4 {
                    let none = Seq::<Entry>::empty();
                    assert(none.to_set() =~= Set::<Entry>::empty());
                    let a = matching_seq(in_all@, aabb);
                    let f0 = if aabb.spec_does_intersect(&children[0].0) {
                        children[0].1.found(aabb)
                    } else {
                        none
                    };
                    let f1 = if aabb.spec_does_intersect(&children[1].0) {
                        children[1].1.found(aabb)
                    } else {
                        none
                    };
                    let f2 = if aabb.spec_does_intersect(&children[2].0) {
                        children[2].1.found(aabb)
                    } else {
                        none
                    };
                    let f3 = if aabb.spec_does_intersect(&children[3].0) {
                        children[3].1.found(aabb)
                    } else {
                        none
                    };
                    children[0].1.lemma_found_set(aabb);
                    children[1].1.lemma_found_set(aabb);
                    children[2].1.lemma_found_set(aabb);
                    children[3].1.lemma_found_set(aabb);
                    vstd::seq_lib::seq_to_set_distributes_over_add(a, f0);
                    vstd::seq_lib::seq_to_set_distributes_over_add(a + f0, f1);
                    vstd::seq_lib::seq_to_set_distributes_over_add(a + f0 + f1, f2);
                    vstd::seq_lib::seq_to_set_distributes_over_add(a + f0 + f1 + f2, f3);
                    assert(self.found(aabb).to_set() =~= self.hits(aabb));
                }
            },
        }
    }

    /// A query collects only entries of the subtree whose box meets the
    /// queried one.
    pub proof fn lemma_hits_sound(&self, aabb: Rect)
        ensures
            self.hits(aabb).subset_of(matching(self.entries(), aabb)),
        decreases self,
    {
        match self {
            QuadNode::Leaf { .. } => {},
            QuadNode::Branch { children, .. } => {
                if children.len() == 4 {
                    children[0].1.lemma_hits_sound(aabb);
                    children[1].1.lemma_hits_sound(aabb);
                    children[2].1.lemma_hits_sound(aabb);
                    children[3].1.lemma_hits_sound(aabb);
                }
            },
        }
    }

    /// A query finds every entry of the subtree whose box has a point in
    /// common with both the queried box and the node's box.
    pub proof fn lemma_hits_complete(&self, cfg: &QuadTreeConfig, aabb: Rect, e: Entry)
        requires
            self.wf(cfg),
            self.entries().contains(e),
            self.bounds().meets_both(&aabb, &e.1),
        ensures
            self.hits(aabb).contains(e),
        decreases self,
    {
        match self {
            QuadNode::Leaf { .. } => {},
            QuadNode::Branch { children, in_all, .. } => {
                self.lemma_branch_entries();
                let sets = kid_sets(children@);
                let quads = self.bounds().spec_split_quad();
                if in_all@.to_set().contains(e) {
                } else {
                    assert(sets[0].contains(e) || sets[1].contains(e) || sets[2].contains(e)
                        || sets[3].contains(e));
                    crate::geom::lemma_quadrants_cover(self.bounds(), aabb, e.1);
                    let j = choose|j: int| 0 <= j < 4 && (#[trigger] quads[j]).meets_both(&aabb, &e.1);
                    assert(sets[j].contains(e));
                    assert(children[j].0 == quads[j]);
                    children[j].1.lemma_hits_complete(cfg, aabb, e);
                    assert(aabb.spec_does_intersect(&children[j].0));
                }
            },
        }
    }

    /// A query at the box of a well-formed branch finds all that the branch
    /// holds.
    pub proof fn lemma_hits_own_bounds(&self, cfg: &QuadTreeConfig)
        requires
            self.wf(cfg),
            self.is_branch(),
        ensures
            self.hits(self.bounds()) == self.entries(),
    {
        self.lemma_hits_sound(self.bounds());
        self.lemma_branch_entries();
        let sets = kid_sets(self->children@);
        assert forall|e: Entry| self.entries().contains(e) implies self.hits(self.bounds()).contains(
            e,
        ) by {
            if self->in_all@.to_set().contains(e) {
                crate::geom::lemma_midpoint_meets(self.bounds(), e.1);
            } else {
                assert(sets[0].contains(e) || sets[1].contains(e) || sets[2].contains(e)
                    || sets[3].contains(e));
                let j = if sets[0].contains(e) {
                    0int
                } else if sets[1].contains(e) {
                    1int
                } else if sets[2].contains(e) {
                    2int
                } else {
                    3int
                };
                assert(self->children[j].0 == self.bounds().spec_split_quad()[j]);
                crate::geom::lemma_quadrant_meets_whole(self.bounds(), j, e.1);
            }
            self.lemma_hits_complete(cfg, self.bounds(), e);
        }
        assert(self.hits(self.bounds()) =~= self.entries());
    }

    /// The node's box.
    pub fn bounding_box(&self) -> (r: Rect)
        ensures
            r == self.bounds(),
    {
        match self {
            QuadNode::Branch { aabb, .. } => *aabb,
            QuadNode::Leaf { aabb, .. } => *aabb,
        }
    }

    /// An empty leaf with the given box and depth.
    pub fn new_leaf(aabb: Rect, depth: usize) -> (leaf: QuadNode)
        ensures
            leaf is Leaf,
            leaf.bounds() == aabb,
            leaf.level() == depth,
            leaf->elements@ == Seq::<Entry>::empty(),
            leaf.entries() == Set::<Entry>::empty(),
    {
        let leaf = QuadNode::Leaf { aabb: aabb, elements: Vec::new(), depth: depth };
        assert(leaf.entries() =~= Set::<Entry>::empty());
        leaf
    }

    /// Appends to `out` the outline of the subtree.
    pub fn inspect(&self, out: &mut Vec<NodeInfo>)
        requires
            self.shaped(),
        ensures
            final(out)@ == old(out)@ + self.outline(),
        decreases self.height(),
    {
        match self {
            QuadNode::Branch { depth, aabb, children, .. } => {
                out.push((*aabb, *depth, false));
                let mut j: usize = 0;
                while j < 4
                    invariant
                        j <= 4,
                        children.len() == 4,
                        self.shaped(),
                        self is Branch,
                        self->children == children,
                        out@ == old(out)@ + seq![(*aabb, *depth, false)] + kids_outline(
                            children@,
                            j as int,
                        ),
                    decreases 4 - j,
                {
                    proof {
                        self.lemma_child_height(j as int);
                        assert(children[j as int].1.shaped());
                    }
                    let ghost mid = out@;
                    children[j].1.inspect(out);
                    assert(out@ =~= old(out)@ + seq![(*aabb, *depth, false)] + kids_outline(
                        children@,
                        j as int + 1,
                    ));
                    j += 1;
                }
                proof {
                    reveal_with_fuel(kids_outline, 5);
                    assert(out@ =~= old(out)@ + self.outline());
                }
            },
            QuadNode::Leaf { depth, aabb, .. } => {
                out.push((*aabb, *depth, true));
                assert(out@ =~= old(out)@ + self.outline());
            },
        }
    }

    /// Places an item in the subtree, and says whether it was taken.
    ///
    /// A full leaf that may still be split is first turned into a branch. A
    /// leaf then takes the item; a branch lists it if its box holds the
    /// branch's centre, and otherwise hands it to each child whose quadrant
    /// the box meets. Where duplicates are refused, an item is not taken if
    /// a box within `epsilon` of its own is already there.
    pub fn insert(&mut self, item_id: ItemId, item_aabb: Rect, config: &QuadTreeConfig) -> (accepted: bool)
        requires
            old(self).wf(config),
            config.valid(),
            !has_handle(old(self).entries(), item_id),
            old(self).entries().len() < usize::MAX,
        ensures
            final(self).wf(config),
            final(self).bounds() == old(self).bounds(),
            final(self).level() == old(self).level(),
            final(self).is_branch() == old(self).routed(config),
            accepted == old(self).accepts(item_aabb, config),
            final(self).entries() == if accepted {
                old(self).kept(config).insert((item_id, item_aabb))
            } else {
                old(self).kept(config)
            },
            !old(self).routed(config) ==> final(self)->elements@ == if accepted {
                old(self)->elements@.push((item_id, item_aabb))
            } else {
                old(self)->elements@
            },
            old(self).is_branch() ==> final(self)->in_all@ == if accepted && item_aabb.spec_contains(
                &old(self).bounds().spec_midpoint(),
            ) {
                old(self)->in_all@.push((item_id, item_aabb))
            } else {
                old(self)->in_all@
            },
            old(self).grown(final(self), item_id, item_aabb, config),
        decreases config.max_depth - old(self).level(), old(self).rank(), 1nat,
    {
        let ghost pre = *self;
        let ghost item = (item_id, item_aabb);
        proof {
            pre.lemma_entries_finite();
            pre.lemma_wf_shaped(config);
        }
        let full = match self {
            QuadNode::Leaf { elements, depth, .. } => elements.len() == config.max_children && *depth
                != config.max_depth,
            QuadNode::Branch { .. } => false,
        };
        if full {
            self.split(config);
            proof {
                vstd::set_lib::lemma_len_subset(self.entries(), pre.entries());
                if has_close(pre.entries(), item_aabb, config.epsilon) && pre.bounds().spec_does_intersect(
                    &item_aabb,
                ) {
                    let e = choose|e: Entry|
                        pre.entries().contains(e) && e.1.spec_close_to(&item_aabb, config.epsilon);
                    crate::geom::lemma_close_is_equal(e.1, item_aabb);
                    assert(self.entries().contains(e));
                }
            }
            let ghost mid = *self;
            let taken = self.insert(item_id, item_aabb, config);
            proof {
                let steps = choose|steps: Seq<QuadNode>| pre.rebuilt_by(steps, &mid, config);
                let all = steps.push(*self);
                let n = pre->elements@.len() as int;
                assert forall|i: int| 0 <= i <= n implies (#[trigger] all[i]).is_branch() && all[i].level()
                    == pre.level() && all[i].grown(
                    &all[i + 1],
                    if i < n {
                        pre->elements@[i].0
                    } else {
                        item_id
                    },
                    if i < n {
                        pre->elements@[i].1
                    } else {
                        item_aabb
                    },
                    config,
                ) by {
                    assert(all[i] == steps[i]);
                    if i < n {
                        assert(all[i + 1] == steps[i + 1]);
                    }
                }
                assert(all.len() == n + 2);
                assert(all[0] == steps[0]);
                assert(all[n + 1] == *self);
            }
            return taken;
        }
        let mut accepted = false;
        let mut below = false;
        match self {
            QuadNode::Branch { aabb, in_all, element_count, .. } => {
                if item_aabb.contains(&aabb.midpoint()) {
                    if config.allow_duplicates || !any_close(in_all, &item_aabb, config.epsilon) {
                        in_all.push((item_id, item_aabb));
                        *element_count += 1;
                        accepted = true;
                    }
                    proof {
                        pre.lemma_branch_entries();
                        let listed = pre->in_all@.to_set();
                        let sets = kid_sets(pre->children@);
                        lemma_close_listed(*aabb, listed, sets, item_aabb);
                        crate::geom::lemma_midpoint_meets(*aabb, item_aabb);
                        if accepted {
                            assert forall|i: int| 0 <= i < pre->in_all.len() implies pre->in_all[i].0
                                != item_id by {
                                assert(pre.entries().contains(pre->in_all[i]));
                            }
                            pre->in_all@.lemma_push_to_set_commute(item);
                            lemma_placed_listed(*aabb, listed, sets, item);
                            assert(union4(listed.insert(item), sets) =~= pre.entries().insert(item));
                            if !config.allow_duplicates {
                                lemma_spread_insert(pre.entries(), item);
                            }
                        }
                    }
                } else {
                    below = true;
                }
            },
            QuadNode::Leaf { elements, .. } => {
                if config.allow_duplicates || !any_close(elements, &item_aabb, config.epsilon) {
                    elements.push((item_id, item_aabb));
                    accepted = true;
                    proof {
                        assert forall|i: int| 0 <= i < pre->elements.len() implies pre->elements[i].0
                            != item_id by {
                            assert(pre.entries().contains(pre->elements@[i]));
                        }
                        pre->elements@.lemma_push_to_set_commute(item);
                        if !config.allow_duplicates {
                            lemma_spread_insert(pre.entries(), item);
                        }
                    }
                }
            },
        }
        if below {
            accepted = self.insert_below(item_id, item_aabb, config);
        } else {
            proof {
                if pre.is_branch() {
                    assert forall|j: int| 0 <= j < 4 implies (#[trigger] pre->children[j]).1.same_as(
                        &*self->children[j].1,
                    ) by {
                        pre->children[j].1.lemma_same_refl();
                    }
                }
            }
        }
        accepted
    }

    /// Hands an item whose box lies off the centre of this branch to each
    /// child whose quadrant the box meets. The item counts once, however
    /// many children take it.
    #[verifier::rlimit(60)]
    #[verifier::spinoff_prover]
    fn insert_below(&mut self, item_id: ItemId, item_aabb: Rect, config: &QuadTreeConfig) -> (accepted:
        bool)
        requires
            old(self).wf(config),
            config.valid(),
            old(self).is_branch(),
            !item_aabb.spec_contains(&old(self).bounds().spec_midpoint()),
            !has_handle(old(self).entries(), item_id),
            old(self).entries().len() < usize::MAX,
        ensures
            final(self).wf(config),
            final(self).bounds() == old(self).bounds(),
            final(self).level() == old(self).level(),
            final(self).is_branch(),
            accepted == old(self).accepts(item_aabb, config),
            final(self).entries() == if accepted {
                old(self).entries().insert((item_id, item_aabb))
            } else {
                old(self).entries()
            },
            final(self)->in_all@ == old(self)->in_all@,
            old(self).grown(final(self), item_id, item_aabb, config),
        decreases config.max_depth - old(self).level(), 0nat, 0nat,
    {
        let ghost pre = *self;
        let ghost item = (item_id, item_aabb);
        let ghost sets0 = kid_sets(pre->children@);
        let ghost listed = pre->in_all@.to_set();
        let ghost quads = pre.bounds().spec_split_quad();
        let ghost taken = config.allow_duplicates || !has_close(
            pre.entries(),
            item_aabb,
            config.epsilon,
        );
        proof {
            pre.lemma_entries_finite();
            pre.lemma_branch_entries();
        }
        let mut did_insert = false;
        match self {
            QuadNode::Branch { children, element_count, .. } => {
                let mut j: usize = 0;
                while j < 4
                    invariant
                        j <= 4,
                        children.len() == 4,
                        pre == *old(self),
                        pre.wf(config),
                        pre is Branch,
                        config.valid(),
                        sets0 == kid_sets(pre->children@),
                        listed == pre->in_all@.to_set(),
                        quads == pre.bounds().spec_split_quad(),
                        item == (item_id, item_aabb),
                        taken == (config.allow_duplicates || !has_close(
                            pre.entries(),
                            item_aabb,
                            config.epsilon,
                        )),
                        pre.entries().finite(),
                        pre.entries().len() < usize::MAX,
                        pre.entries() == union4(listed, sets0),
                        !has_handle(pre.entries(), item_id),
                        !item_aabb.spec_contains(&pre.bounds().spec_midpoint()),
                        forall|k: int|
                            0 <= k < 4 ==> {
                                &&& (#[trigger] children[k]).0 == quads[k]
                                &&& children[k].1.bounds() == quads[k]
                                &&& children[k].1.level() == pre.level() + 1
                                &&& children[k].1.wf(config)
                                &&& (children[k].1.is_branch() ==> children[k].1.entries().len()
                                    >= config.min_children)
                            },
                        forall|k: int| j <= k < 4 ==> (#[trigger] children[k]) == pre->children[k],
                        forall|k: int|
                            0 <= k < j ==> (#[trigger] children[k]).1.entries() == if taken
                                && quads[k].spec_does_intersect(&item_aabb) {
                                sets0[k].insert(item)
                            } else {
                                sets0[k]
                            },
                        forall|k: int|
                            0 <= k < j ==> if quads[k].spec_does_intersect(&item_aabb) {
                                pre->children[k].1.grown(
                                    &*(#[trigger] children[k]).1,
                                    item_id,
                                    item_aabb,
                                    config,
                                )
                            } else {
                                children[k] == pre->children[k]
                            },
                        did_insert == (taken && reaches_first(pre.bounds(), item_aabb, j as int)),
                    decreases 4 - j,
                {
                    proof {
                        assert(children[j as int] == pre->children[j as int]);
                        assert(children[j as int].1.entries() == sets0[j as int]);
                    }
                    if children[j].0.does_intersect(&item_aabb) {
                        proof {
                            let child = children[j as int].1;
                            lemma_close_routed(pre.bounds(), listed, sets0, item_aabb, j as int);
                            assert(sets0[j as int].subset_of(pre.entries()));
                            vstd::set_lib::lemma_len_subset(sets0[j as int], pre.entries());
                            assert(matching(sets0[j as int], quads[j as int]) =~= sets0[j as int]);
                            if !child.is_branch() {
                                child.lemma_leaf_count(config);
                            }
                        }
                        if children[j].1.insert(item_id, item_aabb, config) {
                            did_insert = true;
                        }
                    }
                    j += 1;
                }
                if did_insert {
                    *element_count += 1;
                }
            },
            QuadNode::Leaf { .. } => {},
        }
        proof {
            let sets1 = kid_sets(self->children@);
            self.lemma_branch_entries();
            lemma_placed_routed(pre.bounds(), listed, sets0, sets1, item, taken);
            lemma_reaches_quadrant(pre.bounds(), item_aabb);
            if did_insert && !config.allow_duplicates {
                lemma_spread_insert(pre.entries(), item);
            }
            pre.lemma_wf_shaped(config);
            assert forall|k: int| 0 <= k < 4 implies {
                &&& (#[trigger] pre->children[k]).0 == self->children[k].0
                &&& if pre->children[k].0.spec_does_intersect(&item_aabb) {
                    pre->children[k].1.level() == pre.level() + 1 && pre->children[k].1.grown(
                        &*self->children[k].1,
                        item_id,
                        item_aabb,
                        config,
                    )
                } else {
                    pre->children[k].1.same_as(&*self->children[k].1)
                }
            } by {
                assert(self->children[k].0 == quads[k]);
                pre->children[k].1.lemma_same_refl();
            }
        }
        did_insert
    }

    /// Turns a full leaf into a branch over four empty leaves, and places
    /// the leaf's items again, one by one, through the branch.
    fn split(&mut self, config: &QuadTreeConfig)
        requires
            old(self).wf(config),
            config.valid(),
            old(self).will_split(config),
        ensures
            final(self).wf(config),
            final(self).is_branch(),
            final(self).bounds() == old(self).bounds(),
            final(self).level() == old(self).level(),
            final(self).entries() == matching(old(self).entries(), old(self).bounds()),
            old(self).rebuilt(final(self), config),
        decreases config.max_depth - old(self).level(), 1nat, 0nat,
    {
        let ghost pre = *self;
        let mut extracted: Vec<Entry> = Vec::new();
        let (aabb, depth) = match self {
            QuadNode::Leaf { aabb, elements, depth } => {
                std::mem::swap(&mut extracted, elements);
                (*aabb, *depth)
            },
            QuadNode::Branch { aabb, depth, .. } => (*aabb, *depth),
        };
        let split = aabb.split_quad();
        let children = vec![
            (split[0], Box::new(QuadNode::new_leaf(split[0], depth + 1))),
            (split[1], Box::new(QuadNode::new_leaf(split[1], depth + 1))),
            (split[2], Box::new(QuadNode::new_leaf(split[2], depth + 1))),
            (split[3], Box::new(QuadNode::new_leaf(split[3], depth + 1))),
        ];
        *self = QuadNode::Branch {
            aabb: aabb,
            in_all: Vec::new(),
            children: children,
            element_count: 0,
            depth: depth,
        };
        proof {
            assert forall|j: int| 0 <= j < 4 implies (#[trigger] self->children[j]).1.wf(config) by {
                crate::geom::lemma_quadrants_inside(aabb, j);
            }
            self.lemma_branch_entries();
            assert(self.entries() =~= Set::<Entry>::empty());
            assert(extracted@.take(0).to_set() =~= Set::<Entry>::empty());
            assert(self.wf(config));
        }
        let ghost mut steps: Seq<QuadNode> = seq![*self];
        let mut i: usize = 0;
        while i < extracted.len()
            invariant
                i <= extracted.len(),
                steps.len() == i + 1,
                steps[i as int] == *self,
                steps[0].fresh_branch(pre.bounds(), pre.level()),
                forall|m: int|
                    0 <= m < i ==> {
                        &&& (#[trigger] steps[m]).is_branch()
                        &&& steps[m].level() == pre.level()
                        &&& steps[m].grown(&steps[m + 1], extracted@[m].0, extracted@[m].1, config)
                    },
                extracted@ == pre->elements@,
                pre == *old(self),
                pre is Leaf,
                pre.wf(config),
                config.valid(),
                self.wf(config),
                self.is_branch(),
                self.bounds() == pre.bounds(),
                self.level() == pre.level(),
                self.entries() == matching(extracted@.take(i as int).to_set(), pre.bounds()),
            decreases extracted.len() - i,
        {
            let (child_id, child_aabb) = extracted[i];
            proof {
                let seen = extracted@.take(i as int);
                vstd::seq_lib::seq_to_set_is_finite(seen);
                seen.lemma_cardinality_of_set();
                vstd::set_lib::lemma_len_subset(self.entries(), seen.to_set());
                assert forall|e: Entry| seen.to_set().contains(e) implies e.0 != child_id
                    && pre.entries().contains(e) by {
                    let k = choose|k: int| 0 <= k < seen.len() && seen[k] == e;
                    assert(extracted@[k] == e);
                    assert(extracted@[k].0 != extracted@[i as int].0);
                    assert(pre->elements@.to_set().contains(pre->elements@[k]));
                }
                assert(pre.entries().contains(extracted@[i as int]));
                assert(!has_close(self.entries(), child_aabb, config.epsilon)
                    || config.allow_duplicates);
            }
            self.insert(child_id, child_aabb, config);
            proof {
                let ghost sofar = steps;
                steps = steps.push(*self);
                assert forall|m: int| 0 <= m <= i implies {
                    &&& (#[trigger] steps[m]).is_branch()
                    &&& steps[m].level() == pre.level()
                    &&& steps[m].grown(&steps[m + 1], extracted@[m].0, extracted@[m].1, config)
                } by {
                    assert(steps[m] == sofar[m]);
                    if m < i {
                        assert(steps[m + 1] == sofar[m + 1]);
                    }
                }
                let seen = extracted@.take(i as int);
                let next = extracted@.take(i as int + 1);
                assert(next =~= seen.push(extracted@[i as int]));
                seen.lemma_push_to_set_commute(extracted@[i as int]);
                assert(self.entries() =~= matching(next.to_set(), pre.bounds()));
            }
            i += 1;
        }
        proof {
            assert(extracted@.take(i as int) =~= extracted@);
            assert(pre.rebuilt_by(steps, &*self, config));
        }
    }

    /// Takes the item with the key `item_id` out of the subtree, and says
    /// whether it was there. `item_aabb` is the box it was placed with.
    ///
    /// A branch that is left with fewer than `min_children` items becomes a
    /// leaf that holds them, sorted by key.
    pub fn remove(&mut self, item_id: ItemId, item_aabb: Rect, config: &QuadTreeConfig) -> (removed: bool)
        requires
            old(self).wf(config),
            config.valid(),
            forall|e: Entry| old(self).entries().contains(e) && e.0 == item_id ==> e.1 == item_aabb,
        ensures
            final(self).wf(config),
            final(self).bounds() == old(self).bounds(),
            final(self).level() == old(self).level(),
            removed == old(self).entries().contains((item_id, item_aabb)),
            final(self).entries() == old(self).entries().remove((item_id, item_aabb)),
            final(self).is_branch() == (old(self).is_branch() && !(removed && old(self).entries().len() - 1 < config.min_children)),
            !removed ==> final(self).same_as(old(self)),
            old(self).is_branch() && !final(self).is_branch() ==> ascending(final(self)->elements@),
            old(self).shrunk(final(self), item_id, item_aabb, config),
        decreases config.max_depth - old(self).level(), 1nat,
    {
        let ghost pre = *self;
        let ghost item = (item_id, item_aabb);
        proof {
            pre.lemma_entries_finite();
            pre.lemma_wf_shaped(config);
            pre.lemma_same_refl();
        }
        let mut removed = false;
        let mut below = false;
        match self {
            QuadNode::Branch { aabb, in_all, element_count, .. } => {
                if item_aabb.contains(&aabb.midpoint()) {
                    removed = remove_from(in_all, item_id);
                    proof {
                        pre.lemma_branch_entries();
                        let listed = pre->in_all@.to_set();
                        let sets = kid_sets(pre->children@);
                        assert(!sets[0].contains(item) && !sets[1].contains(item) && !sets[2].contains(
                            item,
                        ) && !sets[3].contains(item));
                        if removed {
                            let i = choose|i: int|
                                first_with(pre->in_all@, item_id, i) && in_all@ == pre->in_all@.update(
                                    i,
                                    pre->in_all@.last(),
                                ).drop_last();
                            assert(pre.entries().contains(pre->in_all@[i]));
                            lemma_remove_from_set(pre->in_all@, in_all@, item_id, i);
                            assert forall|j: int| 0 <= j < 4 implies #[trigger] sets[j]
                                == sets[j].remove(item) by {
                                assert(sets[j].remove(item) =~= sets[j]);
                            }
                            lemma_placed_removed(*aabb, listed, sets, sets, item);
                            assert(union4(listed.remove(item), sets) =~= pre.entries().remove(item));
                        } else {
                            assert(!listed.contains(item));
                        }
                    }
                    if removed {
                        *element_count -= 1;
                    }
                } else {
                    below = true;
                }
            },
            QuadNode::Leaf { elements, .. } => {
                removed = remove_from(elements, item_id);
                proof {
                    if removed {
                        let i = choose|i: int|
                            first_with(pre->elements@, item_id, i) && elements@
                                == pre->elements@.update(i, pre->elements@.last()).drop_last();
                        assert(pre.entries().contains(pre->elements@[i]));
                        lemma_remove_from_set(pre->elements@, elements@, item_id, i);
                    }
                }
            },
        }
        if below {
            removed = self.remove_below(item_id, item_aabb, config);
        } else {
            proof {
                if pre.is_branch() {
                    assert forall|j: int| 0 <= j < 4 implies (#[trigger] pre->children[j]).1.same_as(
                        &*self->children[j].1,
                    ) by {
                        pre->children[j].1.lemma_same_refl();
                    }
                }
                assert(pre.thinned(&*self, item_id, item_aabb, config));
            }
        }
        let under = match self {
            QuadNode::Branch { element_count, .. } => *element_count < config.min_children,
            QuadNode::Leaf { .. } => false,
        };
        if removed && under {
            self.compact(config);
        }
        removed
    }

    /// Takes an item whose box lies off the centre of this branch out of
    /// each child whose quadrant the box meets. The item counts once.
    fn remove_below(&mut self, item_id: ItemId, item_aabb: Rect, config: &QuadTreeConfig) -> (removed:
        bool)
        requires
            old(self).wf(config),
            config.valid(),
            old(self).is_branch(),
            !item_aabb.spec_contains(&old(self).bounds().spec_midpoint()),
            forall|e: Entry| old(self).entries().contains(e) && e.0 == item_id ==> e.1 == item_aabb,
        ensures
            final(self).wf(config),
            final(self).bounds() == old(self).bounds(),
            final(self).level() == old(self).level(),
            final(self).is_branch(),
            removed == old(self).entries().contains((item_id, item_aabb)),
            final(self).entries() == old(self).entries().remove((item_id, item_aabb)),
            !removed ==> final(self).same_as(old(self)),
            old(self).thinned(final(self), item_id, item_aabb, config),
        decreases config.max_depth - old(self).level(), 0nat,
    {
        let ghost pre = *self;
        let ghost item = (item_id, item_aabb);
        let ghost sets0 = kid_sets(pre->children@);
        let ghost listed = pre->in_all@.to_set();
        let ghost quads = pre.bounds().spec_split_quad();
        proof {
            pre.lemma_entries_finite();
            pre.lemma_branch_entries();
            pre.lemma_wf_shaped(config);
        }
        let mut did_remove = false;
        match self {
            QuadNode::Branch { children, element_count, .. } => {
                let mut j: usize = 0;
                while j < 4
                    invariant
                        j <= 4,
                        children.len() == 4,
                        pre == *old(self),
                        pre.wf(config),
                        pre.shaped(),
                        pre is Branch,
                        config.valid(),
                        sets0 == kid_sets(pre->children@),
                        listed == pre->in_all@.to_set(),
                        quads == pre.bounds().spec_split_quad(),
                        item == (item_id, item_aabb),
                        pre.entries().finite(),
                        pre.entries() == union4(listed, sets0),
                        forall|e: Entry|
                            pre.entries().contains(e) && e.0 == item_id ==> e.1 == item_aabb,
                        forall|k: int|
                            0 <= k < 4 ==> {
                                &&& (#[trigger] children[k]).0 == quads[k]
                                &&& children[k].1.bounds() == quads[k]
                                &&& children[k].1.level() == pre.level() + 1
                                &&& children[k].1.wf(config)
                                &&& (children[k].1.is_branch() ==> children[k].1.entries().len()
                                    >= config.min_children)
                            },
                        forall|k: int| j <= k < 4 ==> (#[trigger] children[k]) == pre->children[k],
                        forall|k: int|
                            0 <= k < j ==> (#[trigger] children[k]).1.entries() == sets0[k].remove(item),
                        !did_remove ==> forall|k: int|
                            0 <= k < j ==> (#[trigger] children[k]).1.same_as(&*pre->children[k].1),
                        forall|k: int|
                            0 <= k < j ==> if quads[k].spec_does_intersect(&item_aabb) {
                                pre->children[k].1.shrunk(
                                    &*(#[trigger] children[k]).1,
                                    item_id,
                                    item_aabb,
                                    config,
                                )
                            } else {
                                children[k] == pre->children[k]
                            },
                        did_remove == found_first(sets0, item, j as int),
                    decreases 4 - j,
                {
                    proof {
                        assert(children[j as int] == pre->children[j as int]);
                        assert(children[j as int].1.entries() == sets0[j as int]);
                        assert(sets0[j as int].subset_of(pre.entries()));
                        pre->children[j as int].1.lemma_same_refl();
                        pre->children[j as int].1.lemma_entries_finite();
                    }
                    if children[j].0.does_intersect(&item_aabb) {
                        if children[j].1.remove(item_id, item_aabb, config) {
                            did_remove = true;
                        }
                    } else {
                        assert(sets0[j as int].remove(item) =~= sets0[j as int]);
                    }
                    j += 1;
                }
                proof {
                    assert(pre.entries().contains(item) == did_remove);
                    if did_remove {
                        assert(pre.entries().len() >= 1);
                    }
                }
                if did_remove {
                    *element_count -= 1;
                }
            },
            QuadNode::Leaf { .. } => {},
        }
        proof {
            let sets1 = kid_sets(self->children@);
            self.lemma_branch_entries();
            assert(listed.remove(item) =~= listed);
            lemma_placed_removed(pre.bounds(), listed, sets0, sets1, item);
            assert forall|k: int| 0 <= k < 4 implies {
                &&& (#[trigger] pre->children[k]).0 == self->children[k].0
                &&& if pre->children[k].0.spec_does_intersect(&item_aabb) {
                    pre->children[k].1.shrunk(&*self->children[k].1, item_id, item_aabb, config)
                } else {
                    pre->children[k].1.same_as(&*self->children[k].1)
                }
            } by {
                assert(self->children[k].0 == quads[k]);
                pre->children[k].1.lemma_same_refl();
            }
        }
        did_remove
    }

    /// Turns a branch that holds fewer than `min_children` items into a
    /// leaf that holds them, sorted by key.
    fn compact(&mut self, config: &QuadTreeConfig)
        requires
            old(self).wf(config),
            config.valid(),
            old(self).is_branch(),
            old(self).entries().len() < config.min_children,
        ensures
            final(self).wf(config),
            !final(self).is_branch(),
            final(self).bounds() == old(self).bounds(),
            final(self).level() == old(self).level(),
            final(self).entries() == old(self).entries(),
            ascending(final(self)->elements@),
    {
        let ghost pre = *self;
        proof {
            pre.lemma_wf_shaped(config);
            pre.lemma_hits_own_bounds(config);
            pre.lemma_entries_finite();
        }
        let (size, aabb, depth) = match self {
            QuadNode::Branch { element_count, aabb, depth, .. } => (*element_count, *aabb, *depth),
            QuadNode::Leaf { elements, aabb, depth } => (elements.len(), *aabb, *depth),
        };
        let mut elements: Vec<Entry> = Vec::with_capacity(size);
        self.query(aabb, &mut elements);
        proof {
            assert(elements@.skip(0) =~= elements@);
        }
        sort_dedup(&mut elements);
        proof {
            lemma_ascending(elements@);
            elements@.unique_seq_to_set();
        }
        *self = QuadNode::Leaf { aabb: aabb, elements: elements, depth: depth };
    }

    /// Appends to `out` what the subtree holds for a query at `query_aabb`:
    /// see [`QuadNode::found`].
    pub fn query(&self, query_aabb: Rect, out: &mut Vec<Entry>)
        requires
            self.shaped(),
        ensures
            final(out)@ == old(out)@ + self.found(query_aabb),
            final(out)@.skip(old(out)@.len() as int).to_set() == self.hits(query_aabb),
        decreases self.height(),
    {
        let ghost before = out@;
        match self {
            QuadNode::Branch { in_all, children, .. } => {
                match_all(in_all, query_aabb, out);
                let mut j: usize = 0;
                assert(out@ =~= before + matching_seq(in_all@, query_aabb) + kids_found(
                    children@,
                    query_aabb,
                    0,
                ));
                while j < 4
                    invariant
                        j <= 4,
                        children.len() == 4,
                        self.shaped(),
                        self is Branch,
                        self->children == children,
                        out@ == before + matching_seq(in_all@, query_aabb) + kids_found(
                            children@,
                            query_aabb,
                            j as int,
                        ),
                    decreases 4 - j,
                {
                    let ghost mid = out@;
                    if query_aabb.does_intersect(&children[j].0) {
                        proof {
                            self.lemma_child_height(j as int);
                            assert(children[j as int].1.shaped());
                        }
                        children[j].1.query(query_aabb, out);
                    }
                    assert(out@ =~= before + matching_seq(in_all@, query_aabb) + kids_found(
                        children@,
                        query_aabb,
                        j as int + 1,
                    ));
                    j += 1;
                }
                proof {
                    reveal_with_fuel(kids_found, 5);
                    assert(out@ =~= before + self.found(query_aabb));
                }
            },
            QuadNode::Leaf { elements, .. } => {
                match_all(elements, query_aabb, out);
            },
        }
        proof {
            self.lemma_found_set(query_aabb);
            assert(out@.skip(before.len() as int) =~= self.found(query_aabb));
        }
    }
}

impl Clone for QuadNode {
    /// A copy of the subtree, node by node.
    fn clone(&self) -> (copy: QuadNode)
        ensures
            self.same_as(&copy),
        decreases self,
    {
        match self {
            QuadNode::Branch { aabb, children, in_all, element_count, depth } => {
                let mut kids: Vec<(Rect, Box<QuadNode>)> = Vec::new();
                let mut j: usize = 0;
                while j < children.len()
                    invariant
                        j <= children.len(),
                        kids.len() == j,
                        self is Branch,
                        self->children == children,
                        forall|k: int|
                            0 <= k < j ==> (#[trigger] children[k]).0 == kids[k].0
                                && children[k].1.same_as(&*kids[k].1),
                    decreases children.len() - j,
                {
                    assert(decreases_to!(self => *children[j as int].1));
                    let child = (*children[j].1).clone();
                    kids.push((children[j].0, Box::new(child)));
                    j += 1;
                }
                QuadNode::Branch {
                    aabb: *aabb,
                    children: kids,
                    in_all: copy_entries(in_all),
                    element_count: *element_count,
                    depth: *depth,
                }
            },
            QuadNode::Leaf { aabb, elements, depth } => QuadNode::Leaf {
                aabb: *aabb,
                elements: copy_entries(elements),
                depth: *depth,
            },
        }
    }
}

} // verus!
