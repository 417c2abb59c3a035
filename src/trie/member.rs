//! Membership cells: what a node records about the string that ends at it.
use vstd::prelude::*;

verus! {

/// The value a node keeps for the string that ends there.
///
/// `absent` is the value of a node that no added string ends at; `add` records one
/// more occurrence and hands back the value it had before.
pub trait MemberType: Sized + Copy {
    /// The value of a cell that records no occurrence.
    spec fn spec_absent() -> Self;

    /// The value of the cell after one more occurrence of its string.
    spec fn bumped(self) -> Self;

    /// A cell that records no occurrence.
    fn absent() -> (r: Self)
        ensures
            r == Self::spec_absent(),
    ;

    /// Records one more occurrence and returns the value from before.
    fn add(&mut self) -> (r: Self)
        ensures
            r == *old(self),
            *final(self) == old(self).bumped(),
    ;

    /// Whether the cell records at least one occurrence.
    fn is_member(&self) -> (r: bool)
        ensures
            r == (*self != Self::spec_absent()),
    ;

    /// A recorded occurrence is never forgotten.
    proof fn lemma_bumped_present(self)
        ensures
            self.bumped() != Self::spec_absent(),
    ;
}

/// Presence: `false` until the first occurrence, `true` from then on.
impl MemberType for bool {
    open spec fn spec_absent() -> bool {
        false
    }

    open spec fn bumped(self) -> bool {
        true
    }

    fn absent() -> (r: bool) {
        false
    }

    fn add(&mut self) -> (r: bool) {
        let ret = *self;
        *self = true;
        ret
    }

    fn is_member(&self) -> (r: bool) {
        *self
    }

    proof fn lemma_bumped_present(self) {
    }
}

/// Counting: the number of occurrences. It stops at `u32::MAX` rather than wrap
/// around, so a string once added never reads as absent again.
impl MemberType for u32 {
    open spec fn spec_absent() -> u32 {
        0
    }

    open spec fn bumped(self) -> u32 {
        if self < u32::MAX {
            (self + 1) as u32
        } else {
            self
        }
    }

    fn absent() -> (r: u32) {
        0
    }

    fn add(&mut self) -> (r: u32) {
        let ret = *self;
        if *self < u32::MAX {
            *self += 1;
        }
        ret
    }

    fn is_member(&self) -> (r: bool) {
        *self != 0
    }

    proof fn lemma_bumped_present(self) {
    }
}

} // verus!
