//! The mathematical model of the tree.
//!
//! The arena ([`Vec<Root>`](crate::pst_3d::root::Root)) stores one node per
//! label; children are integer indices.  A ghost [`GTree`] mirrors the index
//! structure of one subtree and certifies that the index links form a finite
//! tree.  [`gt_wf`] states the two construction invariants over such a
//! mirror: the max-heap order on the elimination time `t`, and the local
//! spatial partition of each split node.

use vstd::prelude::*;
use crate::primitives::label::Label;
use crate::primitives::bbox::BBox;
use crate::pst_3d::root::{Root, SplitDimension};

verus! {

/// The two real split dimensions; a leaf's marker is excluded.
pub open spec fn axis_dim(dim: SplitDimension) -> bool {
    dim is X || dim is Y
}

/// The dimension the children of a `dim`-split node are split by.
pub open spec fn spec_flip(dim: SplitDimension) -> SplitDimension {
    if dim is X {
        SplitDimension::Y
    } else {
        SplitDimension::X
    }
}

/// A label's coordinate in the given dimension.
pub open spec fn key_of(l: Label, dim: SplitDimension) -> i64 {
    if dim is X {
        l.m_x
    } else {
        l.m_y
    }
}

/// The predicate a query answers: elimination time strictly above `min_t`
/// and position inside the closed box.
pub open spec fn query_pred(b: BBox, min_t: i64) -> spec_fn(Label) -> bool {
    |l: Label| l.m_t > min_t && b.spec_contains(l.m_x, l.m_y)
}

/// A ghost mirror of one subtree: the arena index of its root and the
/// mirrors of its children.  Such a value is finite by construction, so its
/// existence certifies that the arena's index links are acyclic.
pub struct GTree {
    pub idx: int,
    pub left: Option<Box<GTree>>,
    pub right: Option<Box<GTree>>,
}

/// The arena indices of an optional subtree, in pre-order.
pub open spec fn opt_idxs(o: Option<Box<GTree>>) -> Seq<int>
    decreases o,
{
    match o {
        None => Seq::empty(),
        Some(t) => t.idxs(),
    }
}

impl GTree {
    /// The arena indices of this subtree, in pre-order.
    pub open spec fn idxs(self) -> Seq<int>
        decreases self,
    {
        seq![self.idx] + opt_idxs(self.left) + opt_idxs(self.right)
    }
}

/// The label stored at an arena index, as a function of the index.
pub open spec fn lab_at(data: Seq<Root>) -> spec_fn(int) -> Label {
    |j: int| data[j].m_data
}

/// The labels stored at a sequence of arena indices.
pub open spec fn sel_labels(data: Seq<Root>, idxs: Seq<int>) -> Seq<Label> {
    idxs.map_values(lab_at(data))
}

/// The labels of a subtree, in pre-order.
pub open spec fn tree_labels(data: Seq<Root>, gt: GTree) -> Seq<Label> {
    sel_labels(data, gt.idxs())
}

/// All labels of an arena, in arena order.
pub open spec fn arena_labels(data: Seq<Root>) -> Seq<Label> {
    data.map_values(|r: Root| r.m_data)
}

/// A sequence of borrowed labels, as the sequence of their values.
pub open spec fn deref_labels(s: Seq<&Label>) -> Seq<Label> {
    s.map_values(|l: &Label| *l)
}

/// Well-formedness of the subtree mirrored by `gt`, whose root is split by
/// `dim`:
/// - every index is a valid arena slot whose cached `m_t` agrees with its
///   label;
/// - the node's stored split axis is `dim` if it has a child and the leaf
///   marker otherwise, and its child links agree with the mirror;
/// - max-heap order: every node of a child subtree has `m_t` at most the
///   node's `m_t`;
/// - spatial partition: every label of the left subtree has its
///   `dim`-coordinate `<=` the node's threshold, and every label of the
///   right subtree has its `dim`-coordinate `>` the threshold;
/// - the children are well-formed with the flipped dimension.
pub open spec fn gt_wf(data: Seq<Root>, gt: GTree, dim: SplitDimension) -> bool
    decreases gt,
{
    let i = gt.idx;
    &&& 0 <= i < data.len()
    &&& data[i].m_t == data[i].m_data.m_t
    &&& data[i].m_type == (if gt.left is Some || gt.right is Some {
        dim
    } else {
        SplitDimension::UNDEF
    })
    &&& (match gt.left {
        None => data[i].m_left_child is None,
        Some(l) => {
            &&& data[i].m_left_child == Some(l.idx as usize)
            &&& gt_wf(data, *l, spec_flip(dim))
            &&& (forall|j: int| #[trigger] l.idxs().contains(j) ==> data[j].m_t <= data[i].m_t)
            &&& (forall|j: int|
                #[trigger] l.idxs().contains(j) ==> key_of(data[j].m_data, dim) <= data[i].m_split)
        },
    })
    &&& (match gt.right {
        None => data[i].m_right_child is None,
        Some(r) => {
            &&& data[i].m_right_child == Some(r.idx as usize)
            &&& gt_wf(data, *r, spec_flip(dim))
            &&& (forall|j: int| #[trigger] r.idxs().contains(j) ==> data[j].m_t <= data[i].m_t)
            &&& (forall|j: int|
                #[trigger] r.idxs().contains(j) ==> key_of(data[j].m_data, dim) > data[i].m_split)
        },
    })
}

/// The height of an optional subtree mirror.
pub open spec fn opt_height(o: Option<Box<GTree>>) -> int
    decreases o,
{
    match o {
        None => 0,
        Some(t) => t.height(),
    }
}

impl GTree {
    /// The height of this subtree mirror: one for the root plus the taller
    /// child.
    pub open spec fn height(self) -> int
        decreases self,
    {
        1 + (if opt_height(self.left) >= opt_height(self.right) {
            opt_height(self.left)
        } else {
            opt_height(self.right)
        })
    }
}

/// A subtree is at most as high as it has nodes.
pub proof fn lemma_gt_height_le_idxs(gt: GTree)
    ensures
        1 <= gt.height() <= gt.idxs().len(),
    decreases gt,
{
    assert(gt.idxs() == seq![gt.idx] + opt_idxs(gt.left) + opt_idxs(gt.right));
    if let Some(l) = gt.left {
        lemma_gt_height_le_idxs(*l);
    }
    if let Some(r) = gt.right {
        lemma_gt_height_le_idxs(*r);
    }
}

/// Every index of a well-formed subtree is a valid arena slot, caches its
/// label's `t`, and is dominated by the subtree root's `t`; the root index
/// itself is among them.
pub proof fn lemma_gt_wf_members(data: Seq<Root>, gt: GTree, dim: SplitDimension)
    requires
        gt_wf(data, gt, dim),
    ensures
        forall|j: int| #[trigger] gt.idxs().contains(j)
            ==> 0 <= j < data.len()
                && data[j].m_t == data[j].m_data.m_t
                && data[j].m_t <= data[gt.idx].m_t,
        gt.idxs().contains(gt.idx),
    decreases gt,
{
    let li = opt_idxs(gt.left);
    let ri = opt_idxs(gt.right);
    assert(gt.idxs() == seq![gt.idx] + li + ri);
    assert(gt.idxs()[0] == gt.idx);
    if let Some(l) = gt.left {
        lemma_gt_wf_members(data, *l, spec_flip(dim));
    }
    if let Some(r) = gt.right {
        lemma_gt_wf_members(data, *r, spec_flip(dim));
    }
    assert forall|j: int| #[trigger] gt.idxs().contains(j) implies 0 <= j < data.len()
        && data[j].m_t == data[j].m_data.m_t
        && data[j].m_t <= data[gt.idx].m_t by {
        let k = choose|k: int| 0 <= k < gt.idxs().len() && gt.idxs()[k] == j;
        if k == 0 {
            assert(j == gt.idx);
        } else if k < 1 + li.len() {
            assert(li[k - 1] == j);
            assert(li.contains(j));
            let l = gt.left.unwrap();
            assert(l.idxs().contains(j));
        } else {
            assert(ri[k - 1 - li.len()] == j);
            assert(ri.contains(j));
            let r = gt.right.unwrap();
            assert(r.idxs().contains(j));
        }
    }
}

/// The heap invariant, as a named law: in a well-formed subtree, the
/// root's elimination time is at least the elimination time of every node
/// of the subtree.  Since well-formedness holds recursively, this applies
/// at every node of a built tree.
pub proof fn lemma_heap_invariant(data: Seq<Root>, gt: GTree, dim: SplitDimension)
    requires
        gt_wf(data, gt, dim),
    ensures
        forall|j: int| #[trigger] gt.idxs().contains(j) ==> data[j].m_t <= data[gt.idx].m_t,
{
    lemma_gt_wf_members(data, gt, dim);
}

/// The spatial invariant, as a named law: at a well-formed `dim`-split
/// node, every label of the left subtree has its `dim`-coordinate at most
/// the split threshold, and every label of the right subtree has its
/// `dim`-coordinate strictly greater.  Since well-formedness holds
/// recursively with the flipped dimension, this applies at every node of a
/// built tree.
pub proof fn lemma_spatial_invariant(data: Seq<Root>, gt: GTree, dim: SplitDimension)
    requires
        gt_wf(data, gt, dim),
    ensures
        gt.left matches Some(l) ==> forall|j: int|
            #[trigger] l.idxs().contains(j) ==> key_of(data[j].m_data, dim) <= data[gt.idx].m_split,
        gt.right matches Some(r) ==> forall|j: int|
            #[trigger] r.idxs().contains(j) ==> key_of(data[j].m_data, dim) > data[gt.idx].m_split,
{
}

/// Well-formedness and the label sequence of a subtree depend only on the
/// arena slots the subtree occupies: rewriting any other slot preserves
/// both.
pub proof fn lemma_gt_wf_frame(d1: Seq<Root>, d2: Seq<Root>, gt: GTree, dim: SplitDimension)
    requires
        gt_wf(d1, gt, dim),
        d1.len() == d2.len(),
        forall|j: int| #[trigger] gt.idxs().contains(j) ==> d2[j] == d1[j],
    ensures
        gt_wf(d2, gt, dim),
        tree_labels(d2, gt) == tree_labels(d1, gt),
    decreases gt,
{
    let li = opt_idxs(gt.left);
    let ri = opt_idxs(gt.right);
    assert(gt.idxs() == seq![gt.idx] + li + ri);
    assert(gt.idxs()[0] == gt.idx);
    assert(gt.idxs().contains(gt.idx));
    assert forall|j: int| #[trigger] li.contains(j) implies gt.idxs().contains(j) by {
        let k = choose|k: int| 0 <= k < li.len() && li[k] == j;
        assert(gt.idxs()[1 + k] == j);
    }
    assert forall|j: int| #[trigger] ri.contains(j) implies gt.idxs().contains(j) by {
        let k = choose|k: int| 0 <= k < ri.len() && ri[k] == j;
        assert(gt.idxs()[1 + li.len() + k] == j);
    }
    if let Some(l) = gt.left {
        lemma_gt_wf_frame(d1, d2, *l, spec_flip(dim));
    }
    if let Some(r) = gt.right {
        lemma_gt_wf_frame(d1, d2, *r, spec_flip(dim));
    }
    assert forall|k: int| 0 <= k < gt.idxs().len() implies tree_labels(d2, gt)[k] == tree_labels(
        d1,
        gt,
    )[k] by {
        assert(gt.idxs().contains(gt.idxs()[k]));
    }
    assert(tree_labels(d2, gt) =~= tree_labels(d1, gt));
}

} // verus!
