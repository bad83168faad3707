//! A three-dimensional priority search tree over point labels.
//!
//! The elements are split alternately by their x and y coordinate, as in a
//! k-d tree, while every node's elimination time `t` dominates the times of
//! its whole subtree, as in a max-heap.  A range query for all labels with
//! `t` above a threshold inside a closed box can therefore prune a subtree
//! either when its root's `t` is too small or when its spatial partition
//! cannot meet the query box.

pub mod model;
pub mod perm;
pub mod root;

use vstd::prelude::*;
use crate::primitives::bbox::BBox;
use crate::primitives::label::Label;
use crate::pst_3d::model::{arena_labels, deref_labels, gt_wf, query_pred, tree_labels, GTree};
use crate::pst_3d::perm::{
    lemma_filter_congruent, lemma_filter_disjoint_union, lemma_filter_excludes, lemma_filter_none,
    lemma_filter_permutation, lemma_filter_all_true,
};
use crate::pst_3d::root::{query_rec, render_rec, tree_render, Root, SplitDimension};

verus! {

/// A label's coordinates lie in the geographic domain: longitude (x) in
/// `[-180, 180]` and latitude (y) in `[-90, 90]`.
pub open spec fn in_geo_domain(l: Label) -> bool {
    -180 <= l.m_x <= 180 && -90 <= l.m_y <= 90
}

/// A query box is valid for the geo adapter: its y-range is proper and
/// inside the latitude domain, and both x-bounds are inside the longitude
/// domain.  `m_max_x < m_min_x` is allowed and means a wraparound box that
/// spans the antimeridian.
pub open spec fn geo_box_ok(b: BBox) -> bool {
    &&& b.m_min_y <= b.m_max_y
    &&& -90 <= b.m_min_y && b.m_max_y <= 90
    &&& -180 <= b.m_min_x <= 180
    &&& -180 <= b.m_max_x <= 180
}

/// Containment in a geo query box, with wraparound: a box with
/// `m_max_x < m_min_x` contains the longitudes from `m_min_x` east across
/// the antimeridian to `m_max_x`.
pub open spec fn geo_wrap_contains(b: BBox, x: i64, y: i64) -> bool {
    if b.m_max_x < b.m_min_x {
        b.m_min_y <= y <= b.m_max_y && (x >= b.m_min_x || x <= b.m_max_x)
    } else {
        b.spec_contains(x, y)
    }
}

/// The predicate a geo query answers: elimination time strictly above
/// `min_t` and position inside the possibly wrapping box.
pub open spec fn geo_query_pred(b: BBox, min_t: i64) -> spec_fn(Label) -> bool {
    |l: Label| l.m_t > min_t && geo_wrap_contains(b, l.m_x, l.m_y)
}

/// Sort the labels descending by their elimination time, by straight
/// insertion.  The result is a permutation of the input.
fn sort_labels_desc(v: &mut Vec<Label>)
    ensures
        final(v)@.len() == old(v)@.len(),
        final(v)@.to_multiset() == old(v)@.to_multiset(),
        forall|p: int, q: int| 0 <= p <= q < final(v)@.len() ==> final(v)@[p].m_t >= final(v)@[q].m_t,
{
    let ghost orig = v@;
    if v.len() == 0 {
        return ;
    }
    let mut i: usize = 1;
    while i < v.len()
        invariant
            1 <= i <= v@.len(),
            v@.len() == orig.len(),
            v@.to_multiset() == orig.to_multiset(),
            forall|p: int, q: int| 0 <= p <= q < i ==> v@[p].m_t >= v@[q].m_t,
        decreases v@.len() - i,
    {
        let ghost before = v@;
        let x = v.remove(i);
        let mut k: usize = i;
        while k > 0 && v[k - 1].m_t < x.m_t
            invariant
                k <= i < before.len(),
                v@ == before.remove(i as int),
                forall|j: int| k <= j < i ==> v@[j].m_t < x.m_t,
            decreases k,
        {
            k -= 1;
        }
        v.insert(k, x);
        proof {
            broadcast use vstd::seq_lib::group_to_multiset_ensures;
            broadcast use vstd::multiset::group_multiset_axioms;

            let after = v@;
            let mid = before.remove(i as int);
            assert(x == before[i as int]);
            assert(mid.to_multiset() == before.to_multiset().remove(x));
            assert(after.to_multiset() == mid.to_multiset().insert(x));
            assert(before.contains(x));
            assert(after.to_multiset() =~= before.to_multiset());

            let ki = k as int;
            let ii = i as int;
            assert forall|j: int| 0 <= j < ki implies after[j] == before[j] by {}
            assert(after[ki] == x);
            assert forall|j: int| ki < j <= ii implies after[j] == before[j - 1] by {}
            assert forall|p: int, q: int| 0 <= p <= q < ii + 1 implies after[p].m_t
                >= after[q].m_t by {
                if ki > 0 {
                    assert(before[ki - 1].m_t >= x.m_t);
                }
                if p == ki && q > ki {
                    assert(after[q].m_t == before[q - 1].m_t);
                    assert(before[q - 1].m_t < x.m_t);
                }
                if p < ki && q == ki {
                    assert(after[p].m_t == before[p].m_t);
                    assert(before[p].m_t >= before[ki - 1].m_t);
                }
            }
        }
        i += 1;
    }
}

/// The 3-dimensional priority search tree: a flat arena of nodes, the arena
/// index of the root (absent exactly when the tree is empty) and the
/// aggregate bounding box of all stored labels.
pub struct Pst3d {
    m_bbox: BBox,

    m_data: Vec<Root>,
    m_root_idx: Option<usize>,
}

impl Pst3d {
    /// The stored labels, in arena order.
    pub closed spec fn labels(self) -> Seq<Label> {
        arena_labels(self.m_data@)
    }

    /// The aggregate bounding box of all stored labels.
    pub closed spec fn spec_bbox(self) -> BBox {
        self.m_bbox
    }

    /// The ghost mirror `gt` roots this tree's whole arena: it is
    /// well-formed starting with an x-split, sits at the root index, and
    /// carries exactly the arena's labels.
    pub closed spec fn rooted_by(self, gt: GTree) -> bool {
        match self.m_root_idx {
            None => false,
            Some(ridx) => {
                &&& gt_wf(self.m_data@, gt, SplitDimension::X)
                &&& gt.idx == ridx as int
                &&& tree_labels(self.m_data@, gt).to_multiset() == arena_labels(
                    self.m_data@,
                ).to_multiset()
            },
        }
    }

    /// The tree is well-formed: unless it is empty, some well-formed mirror
    /// roots the whole arena, so the heap invariant on `t` and the
    /// alternating spatial partition hold, and the tree's labels are the
    /// arena's labels; the aggregate box contains every stored label.
    pub closed spec fn wf(self) -> bool {
        &&& (match self.m_root_idx {
            None => self.m_data@.len() == 0,
            Some(ridx) => ridx < self.m_data@.len() && exists|gt: GTree| self.rooted_by(gt),
        })
        &&& forall|k: int|
            0 <= k < self.labels().len() ==> self.m_bbox.spec_contains(
                (#[trigger] self.labels()[k]).m_x,
                self.labels()[k].m_y,
            )
    }

    /// Build a 3d priority search tree from the given labels, consuming
    /// them.
    ///
    /// The labels are sorted descending by elimination time and moved into
    /// the arena in that order; the tree is then linked over the whole
    /// arena.  The built tree is well-formed and stores exactly the given
    /// labels; it is empty exactly when no label was given.
    pub fn new(labels: Vec<Label>) -> (t: Pst3d)
        ensures
            t.wf(),
            t.labels().to_multiset() == labels@.to_multiset(),
            t.labels().len() == labels@.len(),
            forall|k: int|
                0 <= k < t.labels().len() ==> t.spec_bbox().spec_contains(
                    (#[trigger] t.labels()[k]).m_x,
                    t.labels()[k].m_y,
                ),
    {
        broadcast use vstd::seq_lib::group_to_multiset_ensures;

        let ghost input = labels@;
        let mut labels = labels;
        sort_labels_desc(&mut labels);
        let ghost sorted = labels@;

        let mut v: Vec<Root> = Vec::with_capacity(labels.len());
        let mut bbox = BBox::new_empty();

        while labels.len() > 0
            invariant
                v@.len() + labels@.len() == sorted.len(),
                labels@ == sorted.skip(v@.len() as int),
                forall|k: int|
                    0 <= k < v@.len() ==> (#[trigger] v@[k]).m_data == sorted[k] && v@[k].m_t
                        == v@[k].m_data.m_t,
                forall|k: int|
                    0 <= k < v@.len() ==> bbox.spec_contains(
                        (#[trigger] v@[k]).m_data.m_x,
                        v@[k].m_data.m_y,
                    ),
            decreases labels@.len(),
        {
            proof {
                assert(labels@[0] == sorted[v@.len() as int]);
            }
            let l = labels.remove(0);
            bbox.add_to_box(&l);
            v.push(Root::new(l));
            proof {
                assert(labels@ =~= sorted.skip(v@.len() as int));
            }
        }
        proof {
            assert(arena_labels(v@) =~= sorted);
        }

        let root_idx = if v.len() > 0 {
            let ghost before = v@;
            let r = Root::init_pst3d(&mut v);
            proof {
                assert(arena_labels(v@) =~= arena_labels(before));
            }
            Some(r)
        } else {
            None
        };

        let ghost arena = v@;
        let t = Pst3d { m_bbox: bbox, m_data: v, m_root_idx: root_idx };
        proof {
            assert(t.labels() =~= arena_labels(arena));
            assert(t.labels().to_multiset() == input.to_multiset());
            if let Some(ridx) = root_idx {
                let w0 = choose|gt: GTree|
                    {
                        &&& gt_wf(arena, gt, SplitDimension::X)
                        &&& gt.idx == ridx as int
                        &&& tree_labels(arena, gt).to_multiset() == arena_labels(
                            arena,
                        ).to_multiset()
                    };
                assert(t.rooted_by(w0));
                assert(exists|gt: GTree| t.rooted_by(gt));
            }
        }
        t
    }

    /// Return the labels in `bbox` whose elimination time is strictly
    /// greater than `min_t`.
    ///
    /// As a multiset the result is exactly the stored labels filtered by
    /// the query predicate: every returned label lies in the box with `t`
    /// above the threshold, and every stored label satisfying both is
    /// returned exactly once.  An empty tree yields an empty result.
    pub fn get<'a>(&'a self, bbox: &BBox, min_t: i64) -> (r: Vec<&'a Label>)
        requires
            self.wf(),
        ensures
            deref_labels(r@).to_multiset() == self.labels().filter(
                query_pred(*bbox, min_t),
            ).to_multiset(),
    {
        match self.m_root_idx {
            Some(idx) => {
                let ghost gt = choose|gt: GTree| self.rooted_by(gt);
                proof {
                    assert(self.rooted_by(gt));
                }
                let r = query_rec(
                    &self.m_data[idx],
                    bbox,
                    min_t,
                    &self.m_data,
                    Ghost(gt),
                    Ghost(SplitDimension::X),
                );
                proof {
                    lemma_filter_permutation(
                        tree_labels(self.m_data@, gt),
                        self.labels(),
                        query_pred(*bbox, min_t),
                    );
                }
                r
            },
            None => {
                let r: Vec<&'a Label> = Vec::new();
                proof {
                    lemma_filter_none(self.labels(), query_pred(*bbox, min_t));
                    assert(deref_labels(r@) =~= Seq::<Label>::empty());
                }
                r
            },
        }
    }

    /// The human-readable rendering of the tree: the diagnostic dump of
    /// the root's subtree, or a fixed marker when the tree is empty.
    pub closed spec fn spec_string(self) -> Seq<char> {
        match self.m_root_idx {
            None => "PSKdT is empty!"@,
            Some(ridx) => tree_render(self.m_data@, choose|gt: GTree| self.rooted_by(gt), 0),
        }
    }

    /// Create the human-readable rendering of the tree: one line per node,
    /// indented by depth.
    pub fn to_string(&self) -> (r: String)
        requires
            self.wf(),
            self.labels().len() < 0x7fff_ffff,
        ensures
            r@ == self.spec_string(),
    {
        match self.m_root_idx {
            Some(idx) => {
                let ghost gt = choose|gt: GTree| self.rooted_by(gt);
                proof {
                    broadcast use vstd::seq_lib::group_to_multiset_ensures;

                    assert(self.rooted_by(gt));
                    crate::pst_3d::model::lemma_gt_height_le_idxs(gt);
                    assert(tree_labels(self.m_data@, gt).to_multiset().len() == arena_labels(
                        self.m_data@,
                    ).to_multiset().len());
                    assert(gt.idxs().len() == self.m_data@.len());
                }
                render_rec(
                    &self.m_data[idx],
                    0,
                    &self.m_data,
                    Ghost(gt),
                    Ghost(SplitDimension::X),
                )
            },
            None => {
                let r = String::from_str("PSKdT is empty!");
                r
            },
        }
    }
}

/// A wrapper around [`Pst3d`] for the geographic setting: construction
/// checks that every label lies in the coordinate domain, and queries
/// support wraparound boxes that span the antimeridian.
pub struct GeoPst3d {
    m_pst: Pst3d,
}

impl GeoPst3d {
    /// The stored labels, in arena order.
    pub closed spec fn labels(self) -> Seq<Label> {
        self.m_pst.labels()
    }

    /// The adapter is well-formed: the tree is, and every stored label
    /// lies in the geographic domain.
    pub closed spec fn wf(self) -> bool {
        &&& self.m_pst.wf()
        &&& forall|k: int| 0 <= k < self.labels().len() ==> in_geo_domain(#[trigger] self.labels()[k])
    }

    /// Build a geo tree from the given labels, consuming them.
    ///
    /// Every label's coordinates must lie in the geographic domain
    /// (longitude in `[-180, 180]`, latitude in `[-90, 90]`); a violation
    /// is a caller error, not a runtime condition.
    pub fn new(labels: Vec<Label>) -> (t: GeoPst3d)
        requires
            forall|k: int| 0 <= k < labels@.len() ==> in_geo_domain(#[trigger] labels@[k]),
        ensures
            t.wf(),
            t.labels().to_multiset() == labels@.to_multiset(),
            t.labels().len() == labels@.len(),
    {
        broadcast use vstd::seq_lib::group_to_multiset_ensures;

        let ghost input = labels@;
        let t = GeoPst3d { m_pst: Pst3d::new(labels) };
        proof {
            assert forall|k: int| 0 <= k < t.labels().len() implies in_geo_domain(
                #[trigger] t.labels()[k],
            ) by {
                assert(t.labels().contains(t.labels()[k]));
                assert(input.to_multiset().count(t.labels()[k]) > 0);
                assert(input.contains(t.labels()[k]));
                let j = choose|j: int| 0 <= j < input.len() && input[j] == t.labels()[k];
                assert(in_geo_domain(input[j]));
            }
        }
        t
    }

    /// Return the labels in the given geo box whose elimination time is
    /// strictly greater than `min_t`.
    ///
    /// The box must lie in the geographic domain.  A box with
    /// `max_x < min_x` wraps around the antimeridian: it is served as the
    /// two strips `[min_x, 180]` and `[-180, max_x]` on the same y-range,
    /// queried separately and concatenated; the strips are disjoint, so no
    /// label is returned twice.  As a multiset the result is exactly the
    /// stored labels filtered by the wraparound-aware query predicate.
    pub fn get<'a>(&'a self, bbox: &BBox, min_t: i64) -> (r: Vec<&'a Label>)
        requires
            self.wf(),
            geo_box_ok(*bbox),
        ensures
            deref_labels(r@).to_multiset() == self.labels().filter(
                geo_query_pred(*bbox, min_t),
            ).to_multiset(),
    {
        let ghost gp = geo_query_pred(*bbox, min_t);
        if bbox.get_max_x() < bbox.get_min_x() {
            let b1 = BBox::new(bbox.get_min_x(), bbox.get_min_y(), 180, bbox.get_max_y());
            let b2 = BBox::new(-180, bbox.get_min_y(), bbox.get_max_x(), bbox.get_max_y());
            let mut res = self.m_pst.get(&b1, min_t);
            let ghost first = res@;
            let mut res2 = self.m_pst.get(&b2, min_t);
            let ghost second = res2@;
            proof {
                broadcast use vstd::seq_lib::group_to_multiset_ensures;

                let p1 = query_pred(b1, min_t);
                let p2 = query_pred(b2, min_t);
                assert forall|k: int| 0 <= k < self.labels().len() implies (gp(
                    #[trigger] self.labels()[k],
                ) <==> (p1(self.labels()[k]) || p2(self.labels()[k]))) && !(p1(self.labels()[k])
                    && p2(self.labels()[k])) by {
                    assert(in_geo_domain(self.labels()[k]));
                }
                lemma_filter_disjoint_union(self.labels(), p1, p2, gp);
                vstd::seq_lib::lemma_multiset_commutative(
                    deref_labels(first),
                    deref_labels(second),
                );
            }
            res.append(&mut res2);
            proof {
                assert(deref_labels(res@) == deref_labels(first) + deref_labels(second)) by {
                    assert(deref_labels(res@) =~= deref_labels(first) + deref_labels(second));
                }
            }
            res
        } else {
            let r = self.m_pst.get(bbox, min_t);
            proof {
                assert forall|k: int| 0 <= k < self.labels().len() implies (gp(
                    #[trigger] self.labels()[k],
                ) <==> query_pred(*bbox, min_t)(self.labels()[k])) by {}
                lemma_filter_congruent(self.labels(), query_pred(*bbox, min_t), gp);
            }
            r
        }
    }

    /// The human-readable rendering of the underlying tree.
    pub closed spec fn spec_string(self) -> Seq<char> {
        self.m_pst.spec_string()
    }

    /// Create the human-readable rendering of the underlying tree.
    pub fn to_string(&self) -> (r: String)
        requires
            self.wf(),
            self.labels().len() < 0x7fff_ffff,
        ensures
            r@ == self.spec_string(),
    {
        self.m_pst.to_string()
    }
}

/// Oracle equivalence of queries under permutation: a tree stores a
/// permutation of the labels it was built from, so filtering the stored
/// labels by a query predicate gives, as a multiset, exactly the filter of
/// the original input.  Together with the contracts of [`Pst3d::new`] and
/// [`Pst3d::get`] this says: a query returns exactly the input labels that
/// lie in the box with `t` strictly above the threshold.
pub proof fn lemma_oracle_equivalence(stored: Seq<Label>, input: Seq<Label>, b: BBox, min_t: i64)
    requires
        stored.to_multiset() == input.to_multiset(),
    ensures
        stored.filter(query_pred(b, min_t)).to_multiset() == input.filter(
            query_pred(b, min_t),
        ).to_multiset(),
{
    lemma_filter_permutation(stored, input, query_pred(b, min_t));
}

/// Full-extent round trip: a query whose box contains every stored label
/// and whose threshold lies strictly below every elimination time keeps
/// every label.  Together with the contract of [`Pst3d::get`] this says:
/// such a query returns all `N` stored labels exactly once.
pub proof fn lemma_full_extent(stored: Seq<Label>, b: BBox, min_t: i64)
    requires
        forall|k: int|
            0 <= k < stored.len() ==> b.spec_contains(
                (#[trigger] stored[k]).m_x,
                stored[k].m_y,
            ),
        forall|k: int| 0 <= k < stored.len() ==> (#[trigger] stored[k]).m_t > min_t,
    ensures
        stored.filter(query_pred(b, min_t)) == stored,
{
    lemma_filter_all_true(stored, query_pred(b, min_t));
}

/// Empty-tree safety: with nothing stored, any query filters nothing, so a
/// query against an empty tree returns the empty list.
pub proof fn lemma_empty_query(stored: Seq<Label>, b: BBox, min_t: i64)
    requires
        stored.len() == 0,
    ensures
        stored.filter(query_pred(b, min_t)) == Seq::<Label>::empty(),
{
    lemma_filter_none(stored, query_pred(b, min_t));
}

/// Wraparound exclusion: a wraparound geo query box (`max_x < min_x`)
/// never returns a label whose longitude lies strictly between `max_x` and
/// `min_x`, whatever its latitude or elimination time.
pub proof fn lemma_wraparound_excludes(
    stored: Seq<Label>,
    b: BBox,
    min_t: i64,
    l: Label,
)
    requires
        b.m_max_x < b.m_min_x,
        b.m_max_x < l.m_x < b.m_min_x,
    ensures
        stored.filter(geo_query_pred(b, min_t)).to_multiset().count(l) == 0,
{
    lemma_filter_excludes(stored, geo_query_pred(b, min_t), l);
}

} // verus!
