//! Sequence numbers: 16-bit unsigned integers with wrap-around arithmetic.
use vstd::prelude::*;

verus! {

/// Size of the sequence space.
pub const SEQ_SPACE: u32 = 0x1_0000;

/// Half of the sequence space: the largest forward distance at which one
/// sequence still counts as coming after another.
pub const SEQ_HALF: u32 = 0x8000;

/// Forward distance from `a` to `b`, that is `(b - a) mod 2^16`.
pub open spec fn seq_dist(a: u16, b: u16) -> int {
    (b - a) % (SEQ_SPACE as int)
}

/// `a + k` in the wrapping sequence space.
pub open spec fn seq_add(a: u16, k: int) -> u16 {
    ((a + k) % (SEQ_SPACE as int)) as u16
}

/// Wrap-relative order: `a` comes strictly before `b` when the forward
/// distance from `a` to `b` is positive and less than half the space.
pub open spec fn seq_lt(a: u16, b: u16) -> bool {
    0 < seq_dist(a, b) < SEQ_HALF
}

/// A sequence number.
#[derive(Clone, Copy, Debug, PartialEq, Eq, Hash, Structural)]
pub struct Seq16 {
    pub value: u16,
}

impl Seq16 {
    pub fn new(value: u16) -> (r: Seq16)
        ensures
            r.value == value,
    {
        Seq16 { value }
    }

    pub fn value(&self) -> (r: u16)
        ensures
            r == self.value,
    {
        self.value
    }

    /// The sequence `k` steps after this one, wrapping.
    pub fn add(&self, k: u16) -> (r: Seq16)
        ensures
            r.value == seq_add(self.value, k as int),
    {
        Seq16 { value: self.value.wrapping_add(k) }
    }

    /// The forward distance from `a` to `b`: `(b - a) mod 2^16`.
    pub fn dist(a: &Seq16, b: &Seq16) -> (r: u16)
        ensures
            r == seq_dist(a.value, b.value),
    {
        b.value.wrapping_sub(a.value)
    }

    /// Whether this sequence comes strictly before `other` in wrap order.
    pub fn precedes(&self, other: &Seq16) -> (r: bool)
        ensures
            r == seq_lt(self.value, other.value),
    {
        let d = Seq16::dist(self, other);
        0 < d && (d as u32) < SEQ_HALF
    }
}

} // verus!
