//! The 8-bit wrap-around stride value and its half-range comparator.
//!
//! A stride advances by `BIG_STRIDE / priority` each time its task is
//! scheduled and silently wraps at 256.  Two strides are therefore compared
//! through a half-range rule: when the gap between the raw values is at most
//! half the modulus, ordinary ordering holds; a larger gap means one value
//! has wrapped, and the apparent order is inverted.  The rule is meaningful
//! as long as all live strides stay within half the modulus of one another.
//!
//! Ties: two strides with the same raw value compare as equal; a tie between
//! distinct ready tasks is broken by queue position (see the scheduler).

use vstd::prelude::*;

verus! {

/// The stride modulus minus one: the largest single advance, handed out to
/// priority-1 tasks.
pub const BIG_STRIDE: u8 = 255;

/// Half the wrap range: gaps of at most this size are ordered normally.
pub const HALF_BIG_STRIDE: u8 = 127;

/// Wrap-aware strict order: `a` runs sooner than `b`.
///
/// With a gap of at most `HALF_BIG_STRIDE` the raw order stands; with a
/// larger gap the smaller raw value is taken to have wrapped past the larger
/// one, so the order inverts.
pub open spec fn stride_lt(a: u8, b: u8) -> bool {
    if a < b {
        b - a <= HALF_BIG_STRIDE
    } else if a > b {
        a - b > HALF_BIG_STRIDE
    } else {
        false
    }
}

/// Position of stride `s` on the wrap circle, measured from a window base
/// `w`: the distance walked forward from `w` to reach `s`.
pub open spec fn stride_key(s: u8, w: u8) -> int {
    (s as int - w as int) % 256
}

/// All strides of `s` lie in the half window that starts at `w`, the regime
/// in which the half-range comparator is a strict total order.
pub open spec fn strides_coherent(s: Seq<u8>, w: u8) -> bool {
    forall|i: int| 0 <= i < s.len() ==> #[trigger] stride_key(s[i], w) <= HALF_BIG_STRIDE
}

/// Within one half window the wrap-aware order is exactly the order of the
/// distances from the window base.
pub proof fn lemma_stride_lt_is_key_lt(a: u8, b: u8, w: u8)
    requires
        stride_key(a, w) <= HALF_BIG_STRIDE,
        stride_key(b, w) <= HALF_BIG_STRIDE,
    ensures
        stride_lt(a, b) <==> stride_key(a, w) < stride_key(b, w),
{
    assert(stride_key(a, w) == if a >= w { a - w } else { a - w + 256 });
    assert(stride_key(b, w) == if b >= w { b - w } else { b - w + 256 });
}

/// The wrap-aware order never relates two equal raw values, and relates any
/// two distinct ones exactly one way round.
pub proof fn lemma_stride_lt_antisymmetric(a: u8, b: u8)
    ensures
        a == b ==> !stride_lt(a, b),
        a != b ==> (stride_lt(a, b) <==> !stride_lt(b, a)),
{
}

/// An 8-bit wrap-around priority value; the ready task whose stride is
/// wrap-aware smallest is scheduled next.
#[derive(Clone, Copy, Debug)]
pub struct Stride(pub u8);

impl Stride {
    /// Wrap-aware strict comparison, the executable face of [`stride_lt`].
    pub fn wrap_less(&self, other: &Stride) -> (r: bool)
        ensures
            r == stride_lt(self.0, other.0),
    {
        if self.0 < other.0 {
            other.0 - self.0 <= HALF_BIG_STRIDE
        } else if self.0 > other.0 {
            self.0 - other.0 > HALF_BIG_STRIDE
        } else {
            false
        }
    }

    /// Advance the stride by `inc`, wrapping at 256.
    pub fn advance(&mut self, inc: u8)
        ensures
            final(self).0 == (old(self).0 + inc) % 256,
    {
        let wide: u16 = self.0 as u16 + inc as u16;
        self.0 = (wide % 256) as u8;
    }
}

impl PartialEq for Stride {
    /// Strides are equal exactly when their raw values are: ties between
    /// ready tasks are detected here and broken by queue position, never by
    /// the comparator itself.
    fn eq(&self, other: &Self) -> (r: bool) {
        self.0 == other.0
    }
}

impl Eq for Stride {}

impl vstd::std_specs::cmp::PartialEqSpecImpl for Stride {
    open spec fn obeys_eq_spec() -> bool {
        true
    }

    open spec fn eq_spec(&self, other: &Stride) -> bool {
        self.0 == other.0
    }
}

impl PartialOrd for Stride {
    /// The half-range comparator: `Less` means scheduled sooner.
    fn partial_cmp(&self, other: &Self) -> (r: Option<core::cmp::Ordering>) {
        if self.0 == other.0 {
            Some(core::cmp::Ordering::Equal)
        } else if self.wrap_less(other) {
            Some(core::cmp::Ordering::Less)
        } else {
            Some(core::cmp::Ordering::Greater)
        }
    }
}

impl From<Stride> for u8 {
    /// The raw counter value.
    fn from(value: Stride) -> (r: u8) {
        value.0
    }
}

impl vstd::std_specs::convert::FromSpecImpl<Stride> for u8 {
    open spec fn obeys_from_spec() -> bool {
        true
    }

    open spec fn from_spec(v: Stride) -> u8 {
        v.0
    }
}

impl vstd::std_specs::cmp::PartialOrdSpecImpl for Stride {
    open spec fn obeys_partial_cmp_spec() -> bool {
        true
    }

    open spec fn partial_cmp_spec(&self, other: &Stride) -> Option<core::cmp::Ordering> {
        if self.0 == other.0 {
            Some(core::cmp::Ordering::Equal)
        } else if stride_lt(self.0, other.0) {
            Some(core::cmp::Ordering::Less)
        } else {
            Some(core::cmp::Ordering::Greater)
        }
    }
}

} // verus!
