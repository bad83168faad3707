//! Axis-aligned rectangular areas in two dimensions.

use vstd::prelude::*;
use vstd::string::StringExecFns;
use crate::primitives::label::Label;
use crate::primitives::render::dec_int;
use crate::primitives::render::push_dec_i64;

verus! {

/// The rendering of a box: `[x: min - max, y: min - max]`.
pub open spec fn bbox_render(b: BBox) -> Seq<char> {
    "[x: "@ + dec_int(b.m_min_x as int) + " - "@ + dec_int(b.m_max_x as int) + ", y: "@ + dec_int(
        b.m_min_y as int,
    ) + " - "@ + dec_int(b.m_max_y as int) + "]"@
}

/// An axis-aligned rectangle given by a minimum and a maximum in each
/// dimension.
///
/// A box is *proper* when `m_min_x <= m_max_x` and `m_min_y <= m_max_y`.
/// Two degenerate forms are meaningful as well: the *empty* box
/// (`m_min_* == i64::MAX`, `m_max_* == i64::MIN`), which contains nothing
/// and is the identity for [`BBox::add_box`], and the single-point box
/// (`min == max` in both axes).  The containment test is closed on both
/// ends, so an improper box simply contains no label at all.
#[derive(Clone, Copy, Debug)]
pub struct BBox {
    pub m_max_x: i64,
    pub m_max_y: i64,
    pub m_min_x: i64,
    pub m_min_y: i64,
}

impl BBox {
    /// The closed containment test, on the box's bounds.
    pub open spec fn spec_contains(self, x: i64, y: i64) -> bool {
        self.m_min_x <= x <= self.m_max_x && self.m_min_y <= y <= self.m_max_y
    }

    /// Whether the bounds are in ascending order in both axes.
    pub open spec fn is_proper(self) -> bool {
        self.m_min_x <= self.m_max_x && self.m_min_y <= self.m_max_y
    }

    /// Initialize a new bounding box with the given bounds.
    ///
    /// The constructor stores the bounds as given.  An inverted range is
    /// representable on purpose: the closed containment test makes such a
    /// box contain nothing, the geo adapter reads an x-inverted box as a
    /// wraparound query, and [`BBox::check_coordinate_consistency`]
    /// rejects inverted or out-of-domain geographic ranges.
    pub fn new(min_x: i64, min_y: i64, max_x: i64, max_y: i64) -> (r: BBox)
        ensures
            r.m_min_x == min_x,
            r.m_min_y == min_y,
            r.m_max_x == max_x,
            r.m_max_y == max_y,
    {
        BBox {
            m_max_x: max_x,
            m_max_y: max_y,
            m_min_x: min_x,
            m_min_y: min_y,
        }
    }

    /// Initialize a new empty bounding box: it contains no label, and
    /// extending it with a point yields exactly that point's box.
    pub fn new_empty() -> (r: BBox)
        ensures
            r.m_min_x == i64::MAX,
            r.m_min_y == i64::MAX,
            r.m_max_x == i64::MIN,
            r.m_max_y == i64::MIN,
            forall|x: i64, y: i64| !r.spec_contains(x, y),
    {
        BBox {
            m_max_x: i64::MIN,
            m_max_y: i64::MIN,
            m_min_x: i64::MAX,
            m_min_y: i64::MAX,
        }
    }

    /// Initialize a new bounding box that contains exactly the position of
    /// the given label.
    pub fn new_from_point(l: &Label) -> (r: BBox)
        ensures
            r.m_min_x == l.m_x,
            r.m_min_y == l.m_y,
            r.m_max_x == l.m_x,
            r.m_max_y == l.m_y,
            forall|x: i64, y: i64| r.spec_contains(x, y) <==> x == l.m_x && y == l.m_y,
    {
        BBox {
            m_max_x: l.m_x,
            m_max_y: l.m_y,
            m_min_x: l.m_x,
            m_min_y: l.m_y,
        }
    }

    /// Extend the box to also contain the given label: each bound becomes
    /// the component-wise minimum respectively maximum.  The operation is
    /// order-independent and idempotent, and never shrinks the box.
    pub fn add_to_box(&mut self, l: &Label)
        ensures
            final(self).m_min_x == if l.m_x < old(self).m_min_x { l.m_x } else { old(self).m_min_x },
            final(self).m_min_y == if l.m_y < old(self).m_min_y { l.m_y } else { old(self).m_min_y },
            final(self).m_max_x == if l.m_x > old(self).m_max_x { l.m_x } else { old(self).m_max_x },
            final(self).m_max_y == if l.m_y > old(self).m_max_y { l.m_y } else { old(self).m_max_y },
            final(self).spec_contains(l.m_x, l.m_y),
            forall|x: i64, y: i64| old(self).spec_contains(x, y) ==> final(self).spec_contains(x, y),
    {
        if l.m_x > self.m_max_x {
            self.m_max_x = l.m_x;
        }
        if l.m_y > self.m_max_y {
            self.m_max_y = l.m_y;
        }
        if l.m_x < self.m_min_x {
            self.m_min_x = l.m_x;
        }
        if l.m_y < self.m_min_y {
            self.m_min_y = l.m_y;
        }
    }

    /// Extend the box to also span the given box: each bound becomes the
    /// component-wise minimum respectively maximum.
    pub fn add_box(&mut self, other_box: &Self)
        ensures
            final(self).m_min_x == if other_box.m_min_x < old(self).m_min_x { other_box.m_min_x } else { old(self).m_min_x },
            final(self).m_min_y == if other_box.m_min_y < old(self).m_min_y { other_box.m_min_y } else { old(self).m_min_y },
            final(self).m_max_x == if other_box.m_max_x > old(self).m_max_x { other_box.m_max_x } else { old(self).m_max_x },
            final(self).m_max_y == if other_box.m_max_y > old(self).m_max_y { other_box.m_max_y } else { old(self).m_max_y },
            forall|x: i64, y: i64| old(self).spec_contains(x, y) ==> final(self).spec_contains(x, y),
            forall|x: i64, y: i64| other_box.spec_contains(x, y) ==> final(self).spec_contains(x, y),
    {
        if other_box.m_max_x > self.m_max_x {
            self.m_max_x = other_box.m_max_x;
        }
        if other_box.m_max_y > self.m_max_y {
            self.m_max_y = other_box.m_max_y;
        }
        if other_box.m_min_x < self.m_min_x {
            self.m_min_x = other_box.m_min_x;
        }
        if other_box.m_min_y < self.m_min_y {
            self.m_min_y = other_box.m_min_y;
        }
    }

    /// Get the maximum x value of the box.
    pub fn get_max_x(&self) -> (r: i64)
        ensures
            r == self.m_max_x,
    {
        self.m_max_x
    }

    /// Get the maximum y value of the box.
    pub fn get_max_y(&self) -> (r: i64)
        ensures
            r == self.m_max_y,
    {
        self.m_max_y
    }

    /// Get the minimum x value of the box.
    pub fn get_min_x(&self) -> (r: i64)
        ensures
            r == self.m_min_x,
    {
        self.m_min_x
    }

    /// Get the minimum y value of the box.
    pub fn get_min_y(&self) -> (r: i64)
        ensures
            r == self.m_min_y,
    {
        self.m_min_y
    }

    /// Check whether a label lies in the box: its coordinates must be `>=`
    /// the minimum and `<=` the maximum in each dimension.
    pub fn is_contained(&self, l: &Label) -> (r: bool)
        ensures
            r == self.spec_contains(l.m_x, l.m_y),
    {
        let x_in = l.m_x <= self.m_max_x && l.m_x >= self.m_min_x;
        let y_in = l.m_y <= self.m_max_y && l.m_y >= self.m_min_y;

        x_in && y_in
    }

    /// Get the human-readable rendering of the box.
    pub fn to_string(&self) -> (r: String)
        ensures
            r@ == bbox_render(*self),
    {
        let mut s = String::from_str("[x: ");
        push_dec_i64(&mut s, self.m_min_x);
        s.append(" - ");
        push_dec_i64(&mut s, self.m_max_x);
        s.append(", y: ");
        push_dec_i64(&mut s, self.m_min_y);
        s.append(" - ");
        push_dec_i64(&mut s, self.m_max_y);
        s.append("]");
        proof {
            assert(s@ =~= bbox_render(*self));
        }
        s
    }

    /// Check that the box is a valid geographic coordinate range: the
    /// y-range ascending and inside the latitude domain `[-90, 90]`, and
    /// both x-bounds inside the longitude domain `[-180, 180]`.  The first
    /// violated condition, in this order, names the error.
    pub fn check_coordinate_consistency(&self) -> (r: Result<(), &'static str>)
        ensures
            (r is Ok) <==> (self.m_min_y < self.m_max_y && -90 <= self.m_min_y && self.m_max_y
                <= 90 && -180 <= self.m_min_x <= 180 && -180 <= self.m_max_x <= 180),
            self.m_min_y >= self.m_max_y ==> (r matches Err(m) && m@
                == "lower y bound is greater than upper y bound"@),
            self.m_min_y < self.m_max_y && (self.m_min_y < -90 || self.m_max_y > 90) ==> (
            r matches Err(m) && m@ == "y values have to be in the range [-90, 90]"@),
            self.m_min_y < self.m_max_y && -90 <= self.m_min_y && self.m_max_y <= 90 && (
            self.m_min_x < -180 || self.m_min_x > 180 || self.m_max_x < -180 || self.m_max_x
                > 180) ==> (r matches Err(m) && m@
                == "x values have to be in the range [-180, 180]"@),
    {
        if self.m_min_y >= self.m_max_y {
            return Err("lower y bound is greater than upper y bound");
        } else if self.m_min_y < -90 || self.m_max_y > 90 {
            return Err("y values have to be in the range [-90, 90]");
        } else if (self.m_min_x < -180 || self.m_min_x > 180) || (self.m_max_x < -180
            || self.m_max_x > 180) {
            return Err("x values have to be in the range [-180, 180]");
        }
        Ok(())
    }
}

} // verus!
