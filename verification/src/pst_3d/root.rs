//! Tree nodes, the construction algorithm and the recursive range query.

use vstd::prelude::*;
use vstd::string::StringExecFns;
use crate::primitives::label::{label_render, Label};
use crate::primitives::bbox::BBox;
use crate::primitives::render::{dec_int, push_dec_i64};
use crate::pst_3d::model::{
    axis_dim, spec_flip, key_of, lab_at, GTree, opt_idxs, tree_labels, sel_labels, gt_wf,
    lemma_gt_wf_frame, lemma_gt_wf_members, arena_labels, deref_labels, query_pred,
};
use crate::pst_3d::perm::{
    lemma_map_values_add, lemma_map_values_to_multiset_eq, lemma_filter_none,
    lemma_filter_singleton,
};
use vstd::multiset::Multiset;

verus! {

/// The possible split dimensions of a node.  `UNDEF` marks a leaf: a node
/// without children, whose split threshold is meaningless.
#[derive(PartialEq, Eq, Structural, Clone, Copy, Debug)]
pub enum SplitDimension {
    X,
    Y,
    UNDEF,
}

/// A tree node: the label itself, its elimination time `m_t` (cached from
/// the label), the split dimension, the split threshold and the optional
/// arena indices of the left and right child.
///
/// The split threshold is the maximum coordinate of the left subtree in the
/// split dimension; every right-subtree coordinate is strictly greater.  For
/// a leaf (`m_type == UNDEF`) the threshold carries no meaning.
pub struct Root {
    pub m_t: i64,
    pub m_data: Label,
    pub m_type: SplitDimension,
    pub m_split: i64,
    pub m_left_child: Option<usize>,
    pub m_right_child: Option<usize>,
}

impl Root {
    /// Construct a new, unconnected node from the given label.
    ///
    /// The node starts as a leaf; [`Root::init_pst3d`] links a forest of
    /// such nodes into a single tree.
    pub fn new(l: Label) -> (r: Root)
        ensures
            r.m_t == l.m_t,
            r.m_data == l,
            r.m_type == SplitDimension::UNDEF,
            r.m_split == 0i64,
            r.m_left_child is None,
            r.m_right_child is None,
    {
        let t = l.get_t();
        Root {
            m_t: t,
            m_data: l,

            m_type: SplitDimension::UNDEF,
            m_split: 0,
            m_left_child: None,
            m_right_child: None,
        }
    }
}

/// A lightweight reference to one arena slot, carrying all the information
/// the construction needs: the slot index and the label's coordinates and
/// elimination time.
#[derive(Clone, Copy)]
pub(crate) struct RootRef {
    pub m_x: i64,
    pub m_y: i64,
    pub m_t: i64,

    pub m_idx: usize,
}

impl RootRef {
    /// Initialize a new reference to the node `r` at arena index `idx`.
    pub(crate) fn new(r: &Root, idx: usize) -> (rr: RootRef)
        ensures
            rr.m_x == r.m_data.m_x,
            rr.m_y == r.m_data.m_y,
            rr.m_t == r.m_data.m_t,
            rr.m_idx == idx,
    {
        RootRef {
            m_t: r.m_data.get_t(),
            m_x: r.m_data.get_x(),
            m_y: r.m_data.get_y(),

            m_idx: idx,
        }
    }
}

/// A reference mirrors its arena slot: the index is in range, the copied
/// coordinates and time agree with the slot's label, and the slot's cached
/// `m_t` agrees with its label.
pub(crate) open spec fn valid_ref(r: RootRef, data: Seq<Root>) -> bool {
    &&& 0 <= r.m_idx < data.len()
    &&& r.m_x == data[r.m_idx as int].m_data.m_x
    &&& r.m_y == data[r.m_idx as int].m_data.m_y
    &&& r.m_t == data[r.m_idx as int].m_data.m_t
    &&& data[r.m_idx as int].m_t == data[r.m_idx as int].m_data.m_t
}

/// Every reference of the sequence mirrors its slot and occurs exactly
/// once.  Since a mirroring reference is determined by its index, this also
/// makes the indices pairwise distinct.  The formulation is in terms of the
/// multiset, so any permutation or sub-multiset keeps it.
pub(crate) open spec fn refs_valid(refs: Seq<RootRef>, data: Seq<Root>) -> bool {
    forall|r: RootRef| #[trigger]
        refs.contains(r) ==> valid_ref(r, data) && refs.to_multiset().count(r) == 1
}

/// Whether some reference of the sequence points at arena slot `i`.
pub(crate) open spec fn refs_has_idx(refs: Seq<RootRef>, i: int) -> bool {
    exists|k: int| 0 <= k < refs.len() && refs[k].m_idx == i
}

/// The label a reference points at, as a function of the reference.
pub(crate) open spec fn lab_of(data: Seq<Root>) -> spec_fn(RootRef) -> Label {
    |r: RootRef| data[r.m_idx as int].m_data
}

/// The labels the references point at, in reference order.
pub(crate) open spec fn ref_labels(refs: Seq<RootRef>, data: Seq<Root>) -> Seq<Label> {
    refs.map_values(lab_of(data))
}

/// A reference's coordinate in the given dimension.
pub(crate) open spec fn rkey(r: RootRef, dim: SplitDimension) -> i64 {
    if dim is X {
        r.m_x
    } else {
        r.m_y
    }
}

/// The dimension the children of a `dim`-split node are split by.
fn flip_dimension(dim: SplitDimension) -> (r: SplitDimension)
    requires
        axis_dim(dim),
    ensures
        r == spec_flip(dim),
{
    match dim {
        SplitDimension::X => SplitDimension::Y,
        _ => SplitDimension::X,
    }
}

/// A reference's coordinate in the given dimension.
fn coord_of(r: RootRef, dim: SplitDimension) -> (c: i64)
    ensures
        c == rkey(r, dim),
{
    match dim {
        SplitDimension::X => r.m_x,
        _ => r.m_y,
    }
}

/// In the reference vector find a reference whose `t` value is maximal,
/// remove it and return it.  The maximum is seeded from the first element,
/// so it is correct also when every `t` is negative.
pub(crate) fn find_root_idx(refs: &mut Vec<RootRef>) -> (r: RootRef)
    requires
        old(refs)@.len() > 0,
    ensures
        old(refs)@.to_multiset().count(r) > 0,
        final(refs)@.to_multiset() == old(refs)@.to_multiset().remove(r),
        final(refs)@.len() == old(refs)@.len() - 1,
        forall|k: int| 0 <= k < old(refs)@.len() ==> old(refs)@[k].m_t <= r.m_t,
{
    let mut max_t: i64 = refs[0].m_t;
    let mut max_idx: usize = 0;
    let mut i: usize = 1;
    while i < refs.len()
        invariant
            refs@ == old(refs)@,
            1 <= i <= refs@.len(),
            max_idx < i,
            max_t == refs@[max_idx as int].m_t,
            forall|k: int| 0 <= k < i ==> refs@[k].m_t <= max_t,
        decreases refs@.len() - i,
    {
        if refs[i].m_t > max_t {
            max_t = refs[i].m_t;
            max_idx = i;
        }
        i += 1;
    }

    let r = refs.swap_remove(max_idx);
    assert(r.m_t == max_t);
    proof {
        broadcast use vstd::seq_lib::group_to_multiset_ensures;
        broadcast use vstd::multiset::group_multiset_axioms;

        let s = old(refs)@;
        let mi = max_idx as int;
        let n = s.len();
        assert(s.contains(s[mi]));
        assert(s.contains(s[n - 1]));
        if mi == n - 1 {
            assert(s.update(mi, s.last()) =~= s);
            assert(refs@ =~= s.remove(n - 1));
        } else {
            let u = s.update(mi, s.last());
            assert(u.to_multiset() == s.to_multiset().insert(s.last()).remove(s[mi]));
            assert(refs@ =~= u.remove(n - 1));
            assert(u[n - 1] == s.last());
            assert(refs@.to_multiset() == u.to_multiset().remove(s.last()));
            assert(refs@.to_multiset() =~= s.to_multiset().remove(s[mi]));
        }
    }
    r
}

/// Sort the reference vector ascending by the coordinate of the given
/// dimension, by straight insertion.  The result is a permutation of the
/// input.
pub(crate) fn sort_refs(refs: &mut Vec<RootRef>, dim: SplitDimension)
    ensures
        final(refs)@.len() == old(refs)@.len(),
        final(refs)@.to_multiset() == old(refs)@.to_multiset(),
        forall|p: int, q: int|
            0 <= p <= q < final(refs)@.len() ==> rkey(final(refs)@[p], dim) <= rkey(
                final(refs)@[q],
                dim,
            ),
{
    let ghost orig = refs@;
    if refs.len() == 0 {
        return ;
    }
    let mut i: usize = 1;
    while i < refs.len()
        invariant
            1 <= i <= refs@.len(),
            refs@.len() == orig.len(),
            refs@.to_multiset() == orig.to_multiset(),
            forall|p: int, q: int|
                0 <= p <= q < i ==> rkey(refs@[p], dim) <= rkey(refs@[q], dim),
        decreases refs@.len() - i,
    {
        let x = refs[i];
        let mut k: usize = i;
        while k > 0 && coord_of(refs[k - 1], dim) > coord_of(x, dim)
            invariant
                k <= i < refs@.len(),
                forall|j: int| k <= j < i ==> rkey(refs@[j], dim) > rkey(x, dim),
            decreases k,
        {
            k -= 1;
        }
        let ghost before = refs@;
        let y = refs.remove(i);
        refs.insert(k, y);
        proof {
            broadcast use vstd::seq_lib::group_to_multiset_ensures;
            broadcast use vstd::multiset::group_multiset_axioms;

            let after = refs@;
            assert(y == before[i as int]);
            assert(before.remove(i as int).to_multiset() == before.to_multiset().remove(y));
            assert(after.to_multiset() == before.remove(i as int).to_multiset().insert(y));
            assert(before.contains(y));
            assert(after.to_multiset() =~= before.to_multiset());

            let ki = k as int;
            let ii = i as int;
            assert forall|j: int| 0 <= j < ki implies after[j] == before[j] by {}
            assert(after[ki] == y);
            assert forall|j: int| ki < j <= ii implies after[j] == before[j - 1] by {}
            assert forall|p: int, q: int| 0 <= p <= q < ii + 1 implies rkey(after[p], dim)
                <= rkey(after[q], dim) by {
                if ki > 0 {
                    assert(rkey(before[ki - 1], dim) <= rkey(y, dim));
                }
                if p == ki && q > ki {
                    assert(rkey(after[q], dim) == rkey(before[q - 1], dim));
                    assert(rkey(before[q - 1], dim) > rkey(y, dim));
                }
                if p < ki && q == ki {
                    assert(rkey(after[p], dim) == rkey(before[p], dim));
                    assert(rkey(before[p], dim) <= rkey(before[ki - 1], dim));
                }
            }
        }
        i += 1;
    }
}

/// A sub-multiset of a valid reference sequence is itself valid, and its
/// members occur in the larger sequence.
proof fn lemma_refs_valid_sub(part: Seq<RootRef>, whole: Seq<RootRef>, data: Seq<Root>)
    requires
        refs_valid(whole, data),
        forall|r: RootRef| #[trigger]
            part.to_multiset().count(r) <= whole.to_multiset().count(r),
    ensures
        refs_valid(part, data),
        forall|r: RootRef| #[trigger] part.contains(r) ==> whole.contains(r),
        forall|i: int| #[trigger] refs_has_idx(part, i) ==> refs_has_idx(whole, i),
{
    broadcast use vstd::seq_lib::group_to_multiset_ensures;

    assert forall|r: RootRef| #[trigger] part.contains(r) implies valid_ref(r, data)
        && part.to_multiset().count(r) == 1 && whole.contains(r) by {
        assert(part.to_multiset().count(r) > 0);
        assert(whole.to_multiset().count(r) > 0);
        assert(whole.contains(r));
    }
    assert forall|i: int| #[trigger] refs_has_idx(part, i) implies refs_has_idx(whole, i) by {
        let k = choose|k: int| 0 <= k < part.len() && part[k].m_idx == i;
        assert(part.contains(part[k]));
        assert(whole.contains(part[k]));
        let k2 = choose|k2: int| 0 <= k2 < whole.len() && whole[k2] == part[k];
        assert(whole[k2].m_idx == i);
    }
}

/// Two reference sequences whose multisets add up to at most a valid
/// sequence's multiset point at disjoint sets of arena slots.
proof fn lemma_refs_idx_disjoint(a: Seq<RootRef>, b: Seq<RootRef>, whole: Seq<RootRef>, data: Seq<Root>)
    requires
        refs_valid(whole, data),
        forall|r: RootRef|
            #![trigger a.to_multiset().count(r)]
            #![trigger b.to_multiset().count(r)]
            a.to_multiset().count(r) + b.to_multiset().count(r) <= whole.to_multiset().count(r),
    ensures
        forall|i: int| #[trigger] refs_has_idx(a, i) ==> !refs_has_idx(b, i),
{
    broadcast use vstd::seq_lib::group_to_multiset_ensures;

    assert forall|r: RootRef| #[trigger] a.to_multiset().count(r)
        <= whole.to_multiset().count(r) by {}
    assert forall|r: RootRef| #[trigger] b.to_multiset().count(r)
        <= whole.to_multiset().count(r) by {}
    lemma_refs_valid_sub(a, whole, data);
    lemma_refs_valid_sub(b, whole, data);
    assert forall|i: int| #[trigger] refs_has_idx(a, i) implies !refs_has_idx(b, i) by {
        if refs_has_idx(b, i) {
            let ka = choose|k: int| 0 <= k < a.len() && a[k].m_idx == i;
            let kb = choose|k: int| 0 <= k < b.len() && b[k].m_idx == i;
            let ra = a[ka];
            let rb = b[kb];
            assert(a.contains(ra));
            assert(b.contains(rb));
            assert(valid_ref(ra, data));
            assert(valid_ref(rb, data));
            assert(ra == rb);
            assert(a.to_multiset().count(ra) >= 1);
            assert(b.to_multiset().count(ra) >= 1);
            assert(whole.to_multiset().count(ra) >= 2);
            assert(whole.contains(ra));
        }
    }
}

/// The midpoint of two ordered values, rounded towards the lower one.
fn midpoint(a: i64, b: i64) -> (m: i64)
    requires
        a <= b,
    ensures
        a <= m <= b,
        m == a + (b - a) / 2,
{
    let d: u128 = ((b as i128) - (a as i128)) as u128;
    let h: u128 = d / 2;
    assert(d == b - a);
    assert(h == (b - a) / 2);
    assert(0 <= h <= d);
    let m: i64 = ((a as i128) + (h as i128)) as i64;
    m
}

/// From the given reference vector construct the subtree split by `dim` and
/// write the split metadata of every referenced arena slot.
///
/// The reference with the maximum `t` becomes the subtree's root.  The rest
/// is sorted ascending by the `dim`-coordinate and partitioned at a
/// threshold chosen between the two middle coordinates, advanced past any
/// run of coordinates equal to the threshold, so the left part is `<=` the
/// threshold and the right part is strictly greater.  The parts become the
/// left and right subtree, each split by the flipped dimension.
///
/// Returns the arena index of the subtree's root together with a ghost
/// mirror of the built subtree: the mirror is well-formed and carries
/// exactly the referenced labels.
#[verifier::rlimit(100)]
#[verifier::spinoff_prover]
fn create_root(dim: SplitDimension, refs: Vec<RootRef>, data: &mut Vec<Root>) -> (res: (
    usize,
    Ghost<GTree>,
))
    requires
        axis_dim(dim),
        refs@.len() > 0,
        refs_valid(refs@, old(data)@),
    ensures
        final(data)@.len() == old(data)@.len(),
        res.0 < final(data)@.len(),
        refs_has_idx(refs@, res.0 as int),
        forall|i: int|
            0 <= i < final(data)@.len() && !refs_has_idx(refs@, i) ==> final(data)@[i] == old(
                data,
            )@[i],
        forall|i: int|
            0 <= i < final(data)@.len() ==> final(data)@[i].m_data == old(data)@[i].m_data
                && final(data)@[i].m_t == old(data)@[i].m_t,
        gt_wf(final(data)@, res.1@, dim),
        res.1@.idx == res.0 as int,
        tree_labels(final(data)@, res.1@).to_multiset() == ref_labels(
            refs@,
            old(data)@,
        ).to_multiset(),
        forall|j: int| #[trigger] res.1@.idxs().contains(j) ==> refs_has_idx(refs@, j),
    decreases refs@.len(),
{
    broadcast use vstd::seq_lib::group_to_multiset_ensures;
    broadcast use vstd::multiset::group_multiset_axioms;

    let ghost refs0 = refs@;
    let ghost data0 = data@;
    let mut root_refs = refs;
    let removed = find_root_idx(&mut root_refs);
    let ghost rest = root_refs@;
    proof {
        assert(refs0.contains(removed));
        assert(valid_ref(removed, data0));
        assert forall|r: RootRef| #[trigger] rest.to_multiset().count(r)
            <= refs0.to_multiset().count(r) by {}
        lemma_refs_valid_sub(rest, refs0, data0);
        assert(rest.to_multiset().count(removed) == 0);
        assert(!refs_has_idx(rest, removed.m_idx as int)) by {
            if refs_has_idx(rest, removed.m_idx as int) {
                let k = choose|k: int| 0 <= k < rest.len() && rest[k].m_idx == removed.m_idx;
                assert(rest.contains(rest[k]));
                assert(valid_ref(rest[k], data0));
                assert(rest[k] == removed);
            }
        }
    }
    let root_idx = removed.m_idx;

    let mut split_value: i64 = 0i64;
    let mut left_child_idx: Option<usize> = None;
    let mut right_child_idx: Option<usize> = None;
    let ghost mut gl: Option<Box<GTree>> = None;
    let ghost mut gr: Option<Box<GTree>> = None;
    let ghost mut left_refs: Seq<RootRef> = Seq::empty();
    let ghost mut right_refs: Seq<RootRef> = Seq::empty();
    let ghost mut d_mid: Seq<Root> = data@;

    if root_refs.len() == 1 {
        split_value = coord_of(root_refs[0], dim);
        proof {
            left_refs = rest;
            assert(rest.to_multiset() =~= left_refs.to_multiset().add(
                right_refs.to_multiset(),
            )) by {
                assert(right_refs.to_multiset() =~= Multiset::<RootRef>::empty());
            }
            assert forall|k: int| 0 <= k < left_refs.len() implies rkey(left_refs[k], dim)
                <= split_value by {}
        }
        let fd = flip_dimension(dim);
        let (li, lg) = create_root(fd, root_refs, data);
        left_child_idx = Some(li);
        proof {
            gl = Some(Box::new(lg@));
            d_mid = data@;
        }
    } else if root_refs.len() > 1 {
        sort_refs(&mut root_refs, dim);
        let ghost sorted = root_refs@;
        proof {
            assert forall|r: RootRef| #[trigger] sorted.to_multiset().count(r)
                <= refs0.to_multiset().count(r) by {}
            lemma_refs_valid_sub(sorted, refs0, data0);
        }
        let mut median_idx: usize = root_refs.len() / 2;
        assert(1 <= median_idx < root_refs@.len());
        let ca = coord_of(root_refs[median_idx - 1], dim);
        let cb = coord_of(root_refs[median_idx], dim);
        assert(ca <= cb);
        split_value = midpoint(ca, cb);
        proof {
            assert forall|j: int| 0 <= j < median_idx implies rkey(sorted[j], dim)
                <= split_value by {
                assert(rkey(sorted[j], dim) <= rkey(sorted[median_idx - 1], dim));
            }
            assert forall|j: int| median_idx <= j < sorted.len() implies rkey(sorted[j], dim)
                >= split_value by {
                assert(rkey(sorted[median_idx as int], dim) <= rkey(sorted[j], dim));
            }
        }
        while median_idx < root_refs.len() && coord_of(root_refs[median_idx], dim) == split_value
            invariant
                root_refs@ == sorted,
                1 <= median_idx <= sorted.len(),
                forall|p: int, q: int|
                    0 <= p <= q < sorted.len() ==> rkey(sorted[p], dim) <= rkey(sorted[q], dim),
                forall|j: int| 0 <= j < median_idx ==> rkey(sorted[j], dim) <= split_value,
                forall|j: int| median_idx <= j < sorted.len() ==> rkey(sorted[j], dim) >= split_value,
            decreases sorted.len() - median_idx,
        {
            median_idx += 1;
        }
        proof {
            assert forall|j: int| median_idx <= j < sorted.len() implies rkey(sorted[j], dim)
                > split_value by {
                assert(rkey(sorted[median_idx as int], dim) <= rkey(sorted[j], dim));
            }
        }
        if median_idx >= root_refs.len() {
            proof {
                left_refs = sorted;
                assert(rest.to_multiset() =~= left_refs.to_multiset().add(
                    right_refs.to_multiset(),
                )) by {
                    assert(right_refs.to_multiset() =~= Multiset::<RootRef>::empty());
                }
            }
            let fd = flip_dimension(dim);
            let (li, lg) = create_root(fd, root_refs, data);
            left_child_idx = Some(li);
            proof {
                gl = Some(Box::new(lg@));
                d_mid = data@;
            }
        } else {
            let last = root_refs.split_off(median_idx);
            proof {
                left_refs = root_refs@;
                right_refs = last@;
                assert(sorted =~= left_refs + right_refs);
                vstd::seq_lib::lemma_multiset_commutative(left_refs, right_refs);
                assert(rest.to_multiset() == left_refs.to_multiset().add(
                    right_refs.to_multiset(),
                ));
                assert forall|r: RootRef| #[trigger] left_refs.to_multiset().count(r)
                    <= refs0.to_multiset().count(r) by {
                    assert(rest.to_multiset().count(r) == left_refs.to_multiset().count(r)
                        + right_refs.to_multiset().count(r));
                    assert(rest.to_multiset() == refs0.to_multiset().remove(removed));
                }
                lemma_refs_valid_sub(left_refs, refs0, data0);
                assert forall|r: RootRef| #[trigger] right_refs.to_multiset().count(r)
                    <= refs0.to_multiset().count(r) by {
                    assert(rest.to_multiset().count(r) == left_refs.to_multiset().count(r)
                        + right_refs.to_multiset().count(r));
                    assert(rest.to_multiset() == refs0.to_multiset().remove(removed));
                }
                lemma_refs_valid_sub(right_refs, refs0, data0);
                assert forall|k: int| 0 <= k < left_refs.len() implies rkey(left_refs[k], dim)
                    <= split_value by {
                    assert(left_refs[k] == sorted[k]);
                }
                assert forall|k: int| 0 <= k < right_refs.len() implies rkey(right_refs[k], dim)
                    > split_value by {
                    assert(right_refs[k] == sorted[median_idx + k]);
                }
            }
            let fd = flip_dimension(dim);
            let (li, lg) = create_root(fd, root_refs, data);
            left_child_idx = Some(li);
            proof {
                gl = Some(Box::new(lg@));
                d_mid = data@;
                assert forall|r: RootRef| #[trigger] right_refs.contains(r) implies valid_ref(
                    r,
                    d_mid,
                ) && right_refs.to_multiset().count(r) == 1 by {
                    assert(valid_ref(r, data0));
                }
            }
            let (ri, rg) = create_root(fd, last, data);
            right_child_idx = Some(ri);
            proof {
                gr = Some(Box::new(rg@));
            }
        }
    } else {
        proof {
            assert(rest.len() == 0);
            assert(rest.to_multiset() =~= left_refs.to_multiset().add(right_refs.to_multiset()));
        }
    }

    proof {
        assert(root_idx < data@.len());
    }
    let node_type = if left_child_idx.is_some() || right_child_idx.is_some() {
        dim
    } else {
        SplitDimension::UNDEF
    };
    let ghost d2 = data@;
    data[root_idx].m_type = node_type;
    data[root_idx].m_split = split_value;
    data[root_idx].m_left_child = left_child_idx;
    data[root_idx].m_right_child = right_child_idx;

    let ghost gt = GTree { idx: root_idx as int, left: gl, right: gr };
    proof {
        let d3 = data@;
        assert(d3 =~= d2.update(
            root_idx as int,
            Root {
                m_type: node_type,
                m_split: split_value,
                m_left_child: left_child_idx,
                m_right_child: right_child_idx,
                ..d2[root_idx as int]
            },
        ));

        // Every label and every cached time survives the construction.
        assert forall|i: int| 0 <= i < d3.len() implies d3[i].m_data == data0[i].m_data
            && d3[i].m_t == data0[i].m_t by {
            assert(d_mid[i].m_data == data0[i].m_data && d_mid[i].m_t == data0[i].m_t);
            assert(d2[i].m_data == d_mid[i].m_data && d2[i].m_t == d_mid[i].m_t);
        }

        // The multiset of the original references splits into the removed
        // root, the left part and the right part.
        assert(refs0.to_multiset() =~= seq![removed].to_multiset().add(rest.to_multiset())) by {
            assert(seq![removed] =~= Seq::<RootRef>::empty().push(removed));
            assert(seq![removed].to_multiset() =~= Multiset::<RootRef>::empty().insert(removed));
        }
        assert(refs0.to_multiset() == (seq![removed] + rest).to_multiset()) by {
            vstd::seq_lib::lemma_multiset_commutative(seq![removed], rest);
        }

        // Index membership chains.
        assert forall|r: RootRef| #[trigger] left_refs.to_multiset().count(r)
            <= rest.to_multiset().count(r) by {
            assert(rest.to_multiset().count(r) == left_refs.to_multiset().count(r)
                + right_refs.to_multiset().count(r));
        }
        assert forall|r: RootRef| #[trigger] right_refs.to_multiset().count(r)
            <= rest.to_multiset().count(r) by {
            assert(rest.to_multiset().count(r) == left_refs.to_multiset().count(r)
                + right_refs.to_multiset().count(r));
        }
        lemma_refs_valid_sub(left_refs, rest, data0);
        lemma_refs_valid_sub(right_refs, rest, data0);
        assert forall|r: RootRef|
            #![trigger left_refs.to_multiset().count(r)]
            #![trigger right_refs.to_multiset().count(r)]
            left_refs.to_multiset().count(r) + right_refs.to_multiset().count(r)
            <= rest.to_multiset().count(r) by {
            assert(rest.to_multiset().count(r) == left_refs.to_multiset().count(r)
                + right_refs.to_multiset().count(r));
        }
        lemma_refs_idx_disjoint(left_refs, right_refs, rest, data0);

        // The root's slot is pointed at by no remaining reference.
        assert(!refs_has_idx(left_refs, root_idx as int));
        assert(!refs_has_idx(right_refs, root_idx as int));

        // Every index of a part is backed by a valid original reference,
        // which yields the heap bound and the spatial bound.
        assert forall|j: int| #[trigger] refs_has_idx(left_refs, j) implies 0 <= j < d3.len()
            && d3[j].m_t <= d3[root_idx as int].m_t
            && key_of(d3[j].m_data, dim) <= split_value
            && refs_has_idx(refs0, j) by {
            let k = choose|k: int| 0 <= k < left_refs.len() && left_refs[k].m_idx == j;
            let r = left_refs[k];
            assert(left_refs.contains(r));
            assert(rest.contains(r));
            assert(refs0.contains(r));
            assert(valid_ref(r, data0));
            let k0 = choose|k0: int| 0 <= k0 < refs0.len() && refs0[k0] == r;
            assert(refs0[k0].m_t <= removed.m_t);
            assert(rkey(r, dim) <= split_value);
        }
        assert forall|j: int| #[trigger] refs_has_idx(right_refs, j) implies 0 <= j < d3.len()
            && d3[j].m_t <= d3[root_idx as int].m_t
            && key_of(d3[j].m_data, dim) > split_value
            && refs_has_idx(refs0, j) by {
            let k = choose|k: int| 0 <= k < right_refs.len() && right_refs[k].m_idx == j;
            let r = right_refs[k];
            assert(right_refs.contains(r));
            assert(rest.contains(r));
            assert(refs0.contains(r));
            assert(valid_ref(r, data0));
            let k0 = choose|k0: int| 0 <= k0 < refs0.len() && refs0[k0] == r;
            assert(refs0[k0].m_t <= removed.m_t);
            assert(rkey(r, dim) > split_value);
        }

        // Facts about the left subtree, if it exists.
        if let Some(lbox) = gl {
            let lt = *lbox;
            // The right call left the left subtree's slots alone, and so did
            // the final write.
            assert forall|j: int| #[trigger] lt.idxs().contains(j) implies d3[j] == d_mid[j] by {
                assert(refs_has_idx(left_refs, j));
                assert(!refs_has_idx(right_refs, j));
                assert(j != root_idx as int);
            }
            lemma_gt_wf_frame(d_mid, d3, lt, spec_flip(dim));
        }
        if let Some(rbox) = gr {
            let rt = *rbox;
            assert forall|j: int| #[trigger] rt.idxs().contains(j) implies d3[j] == d2[j] by {
                assert(refs_has_idx(right_refs, j));
                assert(j != root_idx as int);
            }
            lemma_gt_wf_frame(d2, d3, rt, spec_flip(dim));
        }

        // Well-formedness of the assembled node.
        assert(d3[root_idx as int].m_t == removed.m_t);
        assert(d3[root_idx as int].m_t == d3[root_idx as int].m_data.m_t);
        if let Some(lbox) = gl {
            assert forall|j: int| #[trigger] (*lbox).idxs().contains(j) implies d3[j].m_t
                <= d3[root_idx as int].m_t && key_of(d3[j].m_data, dim) <= d3[root_idx as int].m_split by {
                assert(refs_has_idx(left_refs, j));
            }
        }
        if let Some(rbox) = gr {
            assert forall|j: int| #[trigger] (*rbox).idxs().contains(j) implies d3[j].m_t
                <= d3[root_idx as int].m_t && key_of(d3[j].m_data, dim) > d3[root_idx as int].m_split by {
                assert(refs_has_idx(right_refs, j));
            }
        }
        assert(gt_wf(d3, gt, dim));

        // The subtree's indices all come from the original references.
        assert(gt.idxs() == seq![gt.idx] + opt_idxs(gl) + opt_idxs(gr));
        assert(refs_has_idx(refs0, root_idx as int)) by {
            let k0 = choose|k0: int| 0 <= k0 < refs0.len() && refs0[k0] == removed;
            assert(refs0[k0].m_idx == root_idx);
        }
        assert forall|j: int| #[trigger] gt.idxs().contains(j) implies refs_has_idx(refs0, j) by {
            let k = choose|k: int| 0 <= k < gt.idxs().len() && gt.idxs()[k] == j;
            let li = opt_idxs(gl);
            let ri = opt_idxs(gr);
            if k == 0 {
                assert(j == root_idx as int);
            } else if k < 1 + li.len() {
                assert(li[k - 1] == j);
                assert(li.contains(j));
                assert(refs_has_idx(left_refs, j));
            } else {
                assert(ri[k - 1 - li.len()] == j);
                assert(ri.contains(j));
                assert(refs_has_idx(right_refs, j));
            }
        }

        // The labels of the subtree are exactly the referenced labels.
        let self_seq = seq![gt.idx];
        let lseq = sel_labels(d3, opt_idxs(gl));
        let rseq = sel_labels(d3, opt_idxs(gr));
        assert(gt.idxs() =~= self_seq + (opt_idxs(gl) + opt_idxs(gr)));
        lemma_map_values_add(self_seq, opt_idxs(gl) + opt_idxs(gr), lab_at(d3));
        lemma_map_values_add(opt_idxs(gl), opt_idxs(gr), lab_at(d3));
        assert(tree_labels(d3, gt) == sel_labels(d3, self_seq) + (lseq + rseq));
        vstd::seq_lib::lemma_multiset_commutative(sel_labels(d3, self_seq), lseq + rseq);
        vstd::seq_lib::lemma_multiset_commutative(lseq, rseq);
        assert(tree_labels(d3, gt).to_multiset() == sel_labels(d3, self_seq).to_multiset().add(
            lseq.to_multiset().add(rseq.to_multiset()),
        ));
        assert(sel_labels(d3, self_seq) =~= seq![data0[root_idx as int].m_data]);

        if let Some(lbox) = gl {
            assert(sel_labels(d3, opt_idxs(gl)) == tree_labels(d3, *lbox));
            assert(tree_labels(d3, *lbox).to_multiset() == ref_labels(left_refs, data0).to_multiset());
        } else {
            assert(sel_labels(d3, opt_idxs(gl)) =~= Seq::<Label>::empty());
            assert(ref_labels(left_refs, data0) =~= Seq::<Label>::empty());
        }
        if let Some(rbox) = gr {
            assert(sel_labels(d3, opt_idxs(gr)) == tree_labels(d3, *rbox));
            assert(ref_labels(right_refs, d_mid) =~= ref_labels(right_refs, data0)) by {
                assert forall|k: int| 0 <= k < right_refs.len() implies ref_labels(
                    right_refs,
                    d_mid,
                )[k] == ref_labels(right_refs, data0)[k] by {
                    assert(right_refs.contains(right_refs[k]));
                    assert(valid_ref(right_refs[k], data0));
                }
            }
            assert(tree_labels(d3, *rbox).to_multiset() == ref_labels(right_refs, data0).to_multiset());
        } else {
            assert(sel_labels(d3, opt_idxs(gr)) =~= Seq::<Label>::empty());
            assert(ref_labels(right_refs, data0) =~= Seq::<Label>::empty());
        }

        // Assemble the reference side.
        lemma_map_values_to_multiset_eq(refs0, seq![removed] + rest, lab_of(data0));
        lemma_map_values_add(seq![removed], rest, lab_of(data0));
        vstd::seq_lib::lemma_multiset_commutative(
            ref_labels(seq![removed], data0),
            ref_labels(rest, data0),
        );
        assert(ref_labels(refs0, data0).to_multiset() == ref_labels(
            seq![removed],
            data0,
        ).to_multiset().add(ref_labels(rest, data0).to_multiset()));
        assert(ref_labels(seq![removed], data0) =~= seq![data0[root_idx as int].m_data]);
        assert((left_refs + right_refs).to_multiset() == left_refs.to_multiset().add(
            right_refs.to_multiset(),
        )) by {
            vstd::seq_lib::lemma_multiset_commutative(left_refs, right_refs);
        }
        lemma_map_values_to_multiset_eq(rest, left_refs + right_refs, lab_of(data0));
        lemma_map_values_add(left_refs, right_refs, lab_of(data0));
        vstd::seq_lib::lemma_multiset_commutative(
            ref_labels(left_refs, data0),
            ref_labels(right_refs, data0),
        );
        assert(ref_labels(rest, data0).to_multiset() == ref_labels(
            left_refs,
            data0,
        ).to_multiset().add(ref_labels(right_refs, data0).to_multiset()));
        assert(lseq.to_multiset() == ref_labels(left_refs, data0).to_multiset());
        assert(rseq.to_multiset() == ref_labels(right_refs, data0).to_multiset());
        assert(sel_labels(d3, self_seq).to_multiset() == ref_labels(
            seq![removed],
            data0,
        ).to_multiset());
        assert(tree_labels(d3, gt).to_multiset() == ref_labels(refs0, data0).to_multiset());

        // Slots no reference points at are untouched.
        assert forall|i: int| 0 <= i < d3.len() && !refs_has_idx(refs0, i) implies d3[i]
            == data0[i] by {
            assert(!refs_has_idx(left_refs, i));
            assert(!refs_has_idx(right_refs, i));
            assert(i != root_idx as int);
        }
    }
    (root_idx, Ghost(gt))
}

impl Root {
    /// Link a forest of unconnected nodes into a single tree, starting with
    /// a split by x, and return the root's arena index.
    ///
    /// The function writes the split dimension, split threshold and child
    /// indices of every node.  Afterwards a well-formed ghost mirror of the
    /// whole arena exists: the built tree satisfies the heap invariant on
    /// `t` and the alternating spatial partition, and its labels are
    /// exactly the arena's labels, each exactly once.
    pub fn init_pst3d(data: &mut Vec<Root>) -> (root_idx: usize)
        requires
            old(data)@.len() > 0,
            forall|i: int|
                0 <= i < old(data)@.len() ==> old(data)@[i].m_t == old(data)@[i].m_data.m_t,
        ensures
            final(data)@.len() == old(data)@.len(),
            forall|i: int|
                0 <= i < final(data)@.len() ==> final(data)@[i].m_data == old(data)@[i].m_data
                    && final(data)@[i].m_t == old(data)@[i].m_t,
            root_idx < final(data)@.len(),
            exists|gt: GTree|
                {
                    &&& gt_wf(final(data)@, gt, SplitDimension::X)
                    &&& gt.idx == root_idx as int
                    &&& tree_labels(final(data)@, gt).to_multiset() == arena_labels(
                        final(data)@,
                    ).to_multiset()
                },
    {
        broadcast use vstd::seq_lib::group_to_multiset_ensures;

        let ghost data0 = data@;
        let mut refs: Vec<RootRef> = Vec::with_capacity(data.len());
        let mut idx: usize = 0;
        while idx < data.len()
            invariant
                data@ == data0,
                idx <= data0.len(),
                refs@.len() == idx,
                forall|k: int|
                    0 <= k < idx ==> (#[trigger] refs@[k]).m_idx == k && valid_ref(
                        refs@[k],
                        data0,
                    ),
                forall|i: int| 0 <= i < data0.len() ==> data0[i].m_t == data0[i].m_data.m_t,
            decreases data0.len() - idx,
        {
            let rr = RootRef::new(&data[idx], idx);
            refs.push(rr);
            idx += 1;
        }
        proof {
            assert(refs@.no_duplicates());
            refs@.lemma_multiset_has_no_duplicates();
            assert forall|r: RootRef| #[trigger] refs@.contains(r) implies valid_ref(r, data0)
                && refs@.to_multiset().count(r) == 1 by {
                let k = choose|k: int| 0 <= k < refs@.len() && refs@[k] == r;
                assert(refs@[k].m_idx == k);
            }
        }
        let ghost refs0 = refs@;
        let (ridx, gt) = create_root(SplitDimension::X, refs, data);
        proof {
            assert(ref_labels(refs0, data0) =~= arena_labels(data0));
            assert(arena_labels(data@) =~= arena_labels(data0));
        }
        ridx
    }

    /// Collect the labels of the subtree rooted at `self` that lie in
    /// `bbox` and whose elimination time is strictly greater than `min_t`.
    ///
    /// `self` must be an entry of `data` that roots a well-formed subtree;
    /// the result then holds exactly the subtree's labels that satisfy the
    /// query predicate.
    pub fn get<'a>(&'a self, bbox: &BBox, min_t: i64, data: &'a Vec<Root>) -> (r: Vec<&'a Label>)
        requires
            exists|gt: GTree, dim: SplitDimension|
                {
                    &&& axis_dim(dim)
                    &&& gt_wf(data@, gt, dim)
                    &&& data@[gt.idx] == *self
                },
        ensures
            exists|gt: GTree, dim: SplitDimension|
                {
                    &&& axis_dim(dim)
                    &&& gt_wf(data@, gt, dim)
                    &&& data@[gt.idx] == *self
                    &&& deref_labels(r@) == tree_labels(data@, gt).filter(
                        query_pred(*bbox, min_t),
                    )
                },
    {
        let ghost (gt, dim) = choose|gt: GTree, dim: SplitDimension|
            {
                &&& axis_dim(dim)
                &&& gt_wf(data@, gt, dim)
                &&& data@[gt.idx] == *self
            };
        query_rec(self, bbox, min_t, data, Ghost(gt), Ghost(dim))
    }

    /// Get the human-readable rendering of the subtree rooted at `self`,
    /// one line per node, indented by `level` at the root and one level
    /// deeper per generation.
    pub fn to_string(&self, level: i32, data: &Vec<Root>) -> (r: String)
        requires
            0 <= level,
            exists|gt: GTree, dim: SplitDimension|
                {
                    &&& axis_dim(dim)
                    &&& gt_wf(data@, gt, dim)
                    &&& data@[gt.idx] == *self
                    &&& level + gt.height() <= i32::MAX
                },
        ensures
            exists|gt: GTree, dim: SplitDimension|
                {
                    &&& axis_dim(dim)
                    &&& gt_wf(data@, gt, dim)
                    &&& data@[gt.idx] == *self
                    &&& r@ == tree_render(data@, gt, level as int)
                },
    {
        let ghost (gt, dim) = choose|gt: GTree, dim: SplitDimension|
            {
                &&& axis_dim(dim)
                &&& gt_wf(data@, gt, dim)
                &&& data@[gt.idx] == *self
                &&& level + gt.height() <= i32::MAX
            };
        render_rec(self, level, data, Ghost(gt), Ghost(dim))
    }
}

/// The indentation prefix of a node at the given depth: four spaces per
/// level.
pub open spec fn prefix_sp(level: int) -> Seq<char>
    decreases level,
{
    if level <= 0 {
        Seq::empty()
    } else {
        prefix_sp(level - 1) + "    "@
    }
}

/// The marker of a node's split dimension in the diagnostic rendering.
pub open spec fn kind_mark(d: SplitDimension) -> Seq<char> {
    if d is X {
        "x-node"@
    } else if d is Y {
        "y-node"@
    } else {
        "leaf-node"@
    }
}

/// A node's split threshold in the diagnostic rendering: a leaf has no
/// threshold, which is shown by a not-a-number marker.
pub open spec fn split_mark(r: Root) -> Seq<char> {
    if r.m_type is UNDEF {
        "NaN"@
    } else {
        dec_int(r.m_split as int)
    }
}

/// One line of the diagnostic rendering, without children: indentation,
/// split marker, threshold and the label's rendering.
pub open spec fn node_line(r: Root, level: int) -> Seq<char> {
    prefix_sp(level) + kind_mark(r.m_type) + " (split: "@ + split_mark(r) + "): "@ + label_render(
        r.m_data,
    )
}

/// The diagnostic rendering of a whole subtree: the node's line, then each
/// child's rendering one level deeper, prefixed by a left or right marker
/// on a new line.
pub open spec fn tree_render(data: Seq<Root>, gt: GTree, level: int) -> Seq<char>
    decreases gt,
{
    node_line(data[gt.idx], level) + (match gt.left {
        Some(l) => "\nl"@ + tree_render(data, *l, level + 1),
        None => Seq::empty(),
    }) + (match gt.right {
        Some(r) => "\nr"@ + tree_render(data, *r, level + 1),
        None => Seq::empty(),
    })
}

/// The recursive diagnostic rendering below one well-formed subtree.
pub(crate) fn render_rec(
    node: &Root,
    level: i32,
    data: &Vec<Root>,
    Ghost(gt): Ghost<GTree>,
    Ghost(dim): Ghost<SplitDimension>,
) -> (r: String)
    requires
        axis_dim(dim),
        gt_wf(data@, gt, dim),
        data@[gt.idx] == *node,
        0 <= level,
        level + gt.height() <= i32::MAX,
    ensures
        r@ == tree_render(data@, gt, level as int),
    decreases gt,
{
    let mut s = String::new();
    let mut i: i32 = 0;
    while i < level
        invariant
            0 <= i <= level,
            s@ == prefix_sp(i as int),
        decreases level - i,
    {
        s.append("    ");
        i += 1;
    }
    match node.m_type {
        SplitDimension::X => {
            s.append("x-node");
        },
        SplitDimension::Y => {
            s.append("y-node");
        },
        SplitDimension::UNDEF => {
            s.append("leaf-node");
        },
    }
    proof {
        assert(s@ == prefix_sp(level as int) + kind_mark(node.m_type));
    }
    s.append(" (split: ");
    match node.m_type {
        SplitDimension::UNDEF => {
            s.append("NaN");
        },
        _ => {
            push_dec_i64(&mut s, node.m_split);
        },
    }
    s.append("): ");
    let lbl = node.m_data.to_string();
    s.append(lbl.as_str());
    proof {
        assert(s@ =~= node_line(*node, level as int));
    }

    if let Some(idx) = node.m_left_child {
        proof {
            assert(gt.left is Some);
        }
        let ghost lt = *gt.left.unwrap();
        proof {
            assert(gt_wf(data@, lt, spec_flip(dim)));
            assert(idx == lt.idx as usize);
            assert(0 <= lt.idx < data@.len());
            assert(gt.height() >= 1 + lt.height());
            crate::pst_3d::model::lemma_gt_height_le_idxs(lt);
            assert(data.len() == data@.len());
            assert(idx as int == lt.idx);
        }
        s.append("\nl");
        let cs = render_rec(&data[idx], level + 1, data, Ghost(lt), Ghost(spec_flip(dim)));
        s.append(cs.as_str());
    }
    if let Some(idx) = node.m_right_child {
        proof {
            assert(gt.right is Some);
        }
        let ghost rt = *gt.right.unwrap();
        proof {
            assert(gt_wf(data@, rt, spec_flip(dim)));
            assert(idx == rt.idx as usize);
            assert(0 <= rt.idx < data@.len());
            assert(gt.height() >= 1 + rt.height());
            crate::pst_3d::model::lemma_gt_height_le_idxs(rt);
            assert(data.len() == data@.len());
            assert(idx as int == rt.idx);
        }
        s.append("\nr");
        let cs = render_rec(&data[idx], level + 1, data, Ghost(rt), Ghost(spec_flip(dim)));
        s.append(cs.as_str());
    }
    proof {
        assert(s@ =~= tree_render(data@, gt, level as int));
    }
    s
}

/// The recursive range query below one well-formed subtree.
///
/// Pruning is sound and complete: a subtree is skipped on the heap bound
/// only when every label below fails the time test, and on a spatial bound
/// only when every label below lies outside the box.  The result is
/// therefore exactly the filter of the subtree's labels.
#[verifier::rlimit(100)]
#[verifier::spinoff_prover]
pub(crate) fn query_rec<'a>(
    node: &'a Root,
    bbox: &BBox,
    min_t: i64,
    data: &'a Vec<Root>,
    Ghost(gt): Ghost<GTree>,
    Ghost(dim): Ghost<SplitDimension>,
) -> (res: Vec<&'a Label>)
    requires
        axis_dim(dim),
        gt_wf(data@, gt, dim),
        data@[gt.idx] == *node,
    ensures
        deref_labels(res@) == tree_labels(data@, gt).filter(query_pred(*bbox, min_t)),
    decreases gt,
{
    let ghost pred = query_pred(*bbox, min_t);
    let ghost self_seq = seq![gt.idx];
    let ghost lidxs = opt_idxs(gt.left);
    let ghost ridxs = opt_idxs(gt.right);
    proof {
        assert(gt.idxs() =~= self_seq + (lidxs + ridxs));
        lemma_map_values_add(self_seq, lidxs + ridxs, lab_at(data@));
        lemma_map_values_add(lidxs, ridxs, lab_at(data@));
    }

    let mut r: Vec<&'a Label> = Vec::new();

    if node.m_t <= min_t {
        // Heap pruning: every label below has `t` at most this node's `t`.
        proof {
            lemma_gt_wf_members(data@, gt, dim);
            assert forall|k: int| 0 <= k < gt.idxs().len() implies !pred(
                #[trigger] tree_labels(data@, gt)[k],
            ) by {
                let j = gt.idxs()[k];
                assert(gt.idxs().contains(j));
                assert(data@[j].m_data.m_t <= min_t);
            }
            lemma_filter_none(tree_labels(data@, gt), pred);
            assert(deref_labels(r@) =~= Seq::<Label>::empty());
        }
        return r;
    }

    if bbox.is_contained(&node.m_data) {
        r.push(&node.m_data);
    }
    let ghost self_part = r@;
    proof {
        let x = data@[gt.idx].m_data;
        assert(sel_labels(data@, self_seq) =~= seq![x]);
        lemma_filter_singleton(x, pred);
        assert(deref_labels(self_part) =~= sel_labels(data@, self_seq).filter(pred));
    }

    // Visit the left child only if the box can meet the left partition.
    let ghost mut left_part: Seq<&'a Label> = Seq::empty();
    if let Some(idx) = node.m_left_child {
        let append = match node.m_type {
            SplitDimension::X => bbox.get_min_x() <= node.m_split,
            SplitDimension::Y => bbox.get_min_y() <= node.m_split,
            SplitDimension::UNDEF => false,
        };
        proof {
            assert(gt.left is Some);
        }
        let ghost lt = *gt.left.unwrap();
        proof {
            assert(gt_wf(data@, lt, spec_flip(dim)));
            assert(idx == lt.idx as usize);
            assert(0 <= lt.idx < data@.len());
        }
        if append {
            assert(idx < data.len());
            let mut res_l = query_rec(&data[idx], bbox, min_t, data, Ghost(lt), Ghost(
                spec_flip(dim),
            ));
            proof {
                left_part = res_l@;
            }
            r.append(&mut res_l);
        } else {
            // Spatial pruning: every left label lies on the far side of the
            // split threshold, outside the box.
            proof {
                assert forall|k: int| 0 <= k < lidxs.len() implies !pred(
                    #[trigger] sel_labels(data@, lidxs)[k],
                ) by {
                    let j = lidxs[k];
                    assert(lt.idxs().contains(j));
                    assert(key_of(data@[j].m_data, dim) <= data@[gt.idx].m_split);
                }
                lemma_filter_none(sel_labels(data@, lidxs), pred);
            }
        }
    } else {
        proof {
            assert(lidxs =~= Seq::<int>::empty());
            assert(sel_labels(data@, lidxs) =~= Seq::<Label>::empty());
            lemma_filter_none(sel_labels(data@, lidxs), pred);
        }
    }
    proof {
        assert(r@ =~= self_part + left_part);
        assert(deref_labels(left_part) == sel_labels(data@, lidxs).filter(pred));
    }

    // Visit the right child only if the box can meet the right partition.
    let ghost mut right_part: Seq<&'a Label> = Seq::empty();
    if let Some(idx) = node.m_right_child {
        let append = match node.m_type {
            SplitDimension::X => bbox.get_max_x() > node.m_split,
            SplitDimension::Y => bbox.get_max_y() > node.m_split,
            SplitDimension::UNDEF => false,
        };
        proof {
            assert(gt.right is Some);
        }
        let ghost rt = *gt.right.unwrap();
        proof {
            assert(gt_wf(data@, rt, spec_flip(dim)));
            assert(idx == rt.idx as usize);
            assert(0 <= rt.idx < data@.len());
        }
        if append {
            assert(idx < data.len());
            let mut res_r = query_rec(&data[idx], bbox, min_t, data, Ghost(rt), Ghost(
                spec_flip(dim),
            ));
            proof {
                right_part = res_r@;
            }
            r.append(&mut res_r);
        } else {
            proof {
                assert forall|k: int| 0 <= k < ridxs.len() implies !pred(
                    #[trigger] sel_labels(data@, ridxs)[k],
                ) by {
                    let j = ridxs[k];
                    assert(rt.idxs().contains(j));
                    assert(key_of(data@[j].m_data, dim) > data@[gt.idx].m_split);
                }
                lemma_filter_none(sel_labels(data@, ridxs), pred);
            }
        }
    } else {
        proof {
            assert(ridxs =~= Seq::<int>::empty());
            assert(sel_labels(data@, ridxs) =~= Seq::<Label>::empty());
            lemma_filter_none(sel_labels(data@, ridxs), pred);
        }
    }
    proof {
        broadcast use vstd::seq_lib::group_seq_properties;

        assert(r@ =~= (self_part + left_part) + right_part);
        assert(deref_labels(right_part) == sel_labels(data@, ridxs).filter(pred));
        assert(deref_labels(r@) =~= deref_labels(self_part) + deref_labels(left_part)
            + deref_labels(right_part));
        assert(tree_labels(data@, gt) == sel_labels(data@, self_seq) + (sel_labels(data@, lidxs)
            + sel_labels(data@, ridxs)));
        assert(tree_labels(data@, gt).filter(pred) == sel_labels(data@, self_seq).filter(pred)
            + (sel_labels(data@, lidxs) + sel_labels(data@, ridxs)).filter(pred)) by {
            Seq::filter_distributes_over_add(
                sel_labels(data@, self_seq),
                sel_labels(data@, lidxs) + sel_labels(data@, ridxs),
                pred,
            );
        }
        assert((sel_labels(data@, lidxs) + sel_labels(data@, ridxs)).filter(pred) == sel_labels(
            data@,
            lidxs,
        ).filter(pred) + sel_labels(data@, ridxs).filter(pred)) by {
            Seq::filter_distributes_over_add(
                sel_labels(data@, lidxs),
                sel_labels(data@, ridxs),
                pred,
            );
        }
        assert(deref_labels(r@) =~= tree_labels(data@, gt).filter(pred));
    }
    r
}

} // verus!
