//! The point label record: a position, an elimination time, a stable
//! identity, a display priority, a size factor and a display text.

use vstd::prelude::*;
use vstd::string::StringExecFns;
use crate::primitives::render::dec_int;
use crate::primitives::render::push_dec_i64;

verus! {

/// The descriptive rendering of a label: identity, text, position, display
/// priority, elimination time and size factor.
pub open spec fn label_render(l: Label) -> Seq<char> {
    "Label [#"@ + dec_int(l.m_osm_id as int) + "]: '"@ + l.m_label@ + "' at ("@ + dec_int(
        l.m_x as int,
    ) + ", "@ + dec_int(l.m_y as int) + ") with prio "@ + dec_int(l.m_prio as int) + ", elim-t: "@
        + dec_int(l.m_t as int) + " and label factor: "@ + dec_int(l.m_size_factor as int)
}

/// A point label.
///
/// A label is an immutable value: a position (`m_x`, `m_y`), the elimination
/// time `m_t` ("larger survives longer"), a stable numeric identity
/// `m_osm_id`, a display priority `m_prio`, a size factor `m_size_factor`
/// and the display text `m_label`.  No field is derived from any other.
#[derive(Clone)]
pub struct Label {
    pub m_x: i64,
    pub m_y: i64,
    pub m_t: i64,

    pub m_osm_id: i64,
    pub m_prio: i32,
    pub m_size_factor: i64,

    pub m_label: String,
}

impl Label {
    /// Initialize a new label with the given data.
    pub fn new(x: i64, y: i64, t: i64, osm_id: i64, prio: i32, size_factor: i64, label: String) -> (r: Label)
        ensures
            r.m_x == x,
            r.m_y == y,
            r.m_t == t,
            r.m_osm_id == osm_id,
            r.m_prio == prio,
            r.m_size_factor == size_factor,
            r.m_label == label,
    {
        Label {
            m_x: x,
            m_y: y,
            m_t: t,
            m_osm_id: osm_id,
            m_prio: prio,
            m_size_factor: size_factor,
            m_label: label,
        }
    }

    /// Get the label text.
    pub fn get_label(&self) -> (r: &String)
        ensures
            r == &self.m_label,
    {
        &self.m_label
    }

    /// Get the stable numeric identity.
    pub fn get_osm_id(&self) -> (r: i64)
        ensures
            r == self.m_osm_id,
    {
        self.m_osm_id
    }

    /// Get the display priority.
    pub fn get_prio(&self) -> (r: i32)
        ensures
            r == self.m_prio,
    {
        self.m_prio
    }

    /// Get the elimination time.
    pub fn get_t(&self) -> (r: i64)
        ensures
            r == self.m_t,
    {
        self.m_t
    }

    /// Get the x coordinate.
    pub fn get_x(&self) -> (r: i64)
        ensures
            r == self.m_x,
    {
        self.m_x
    }

    /// Get the y coordinate.
    pub fn get_y(&self) -> (r: i64)
        ensures
            r == self.m_y,
    {
        self.m_y
    }

    /// Get the size factor.
    pub fn get_size_factor(&self) -> (r: i64)
        ensures
            r == self.m_size_factor,
    {
        self.m_size_factor
    }

    /// Get the descriptive rendering of the label.
    pub fn to_string(&self) -> (r: String)
        ensures
            r@ == label_render(*self),
    {
        let mut s = String::from_str("Label [#");
        push_dec_i64(&mut s, self.m_osm_id);
        s.append("]: '");
        s.append(self.m_label.as_str());
        s.append("' at (");
        push_dec_i64(&mut s, self.m_x);
        s.append(", ");
        push_dec_i64(&mut s, self.m_y);
        s.append(") with prio ");
        push_dec_i64(&mut s, self.m_prio as i64);
        s.append(", elim-t: ");
        push_dec_i64(&mut s, self.m_t);
        s.append(" and label factor: ");
        push_dec_i64(&mut s, self.m_size_factor);
        proof {
            assert(s@ =~= label_render(*self));
        }
        s
    }

    /// Compare two labels by their elimination time; the order is total.
    pub fn order_t(first: &Self, second: &Self) -> (r: core::cmp::Ordering)
        ensures
            r == (if first.m_t < second.m_t {
                core::cmp::Ordering::Less
            } else if first.m_t > second.m_t {
                core::cmp::Ordering::Greater
            } else {
                core::cmp::Ordering::Equal
            }),
    {
        if first.m_t < second.m_t {
            core::cmp::Ordering::Less
        } else if first.m_t > second.m_t {
            core::cmp::Ordering::Greater
        } else {
            core::cmp::Ordering::Equal
        }
    }

    /// Compare two labels by their x coordinate; the order is total.
    pub fn order_x(first: &Self, second: &Self) -> (r: core::cmp::Ordering)
        ensures
            r == (if first.m_x < second.m_x {
                core::cmp::Ordering::Less
            } else if first.m_x > second.m_x {
                core::cmp::Ordering::Greater
            } else {
                core::cmp::Ordering::Equal
            }),
    {
        if first.m_x < second.m_x {
            core::cmp::Ordering::Less
        } else if first.m_x > second.m_x {
            core::cmp::Ordering::Greater
        } else {
            core::cmp::Ordering::Equal
        }
    }

    /// Compare two labels by their y coordinate; the order is total.
    pub fn order_y(first: &Self, second: &Self) -> (r: core::cmp::Ordering)
        ensures
            r == (if first.m_y < second.m_y {
                core::cmp::Ordering::Less
            } else if first.m_y > second.m_y {
                core::cmp::Ordering::Greater
            } else {
                core::cmp::Ordering::Equal
            }),
    {
        if first.m_y < second.m_y {
            core::cmp::Ordering::Less
        } else if first.m_y > second.m_y {
            core::cmp::Ordering::Greater
        } else {
            core::cmp::Ordering::Equal
        }
    }
}

} // verus!
