pub mod sm2;

use vstd::prelude::*;

verus! {

/// What a session needs of the scheduling data of a card: a way to review it,
/// and when it is due, the smallest due first.
pub trait Review: Sized {
    type Score: Query;

    /// When the card is due, in days from its last review.
    spec fn spec_due(&self) -> u32;

    fn due(&self) -> (d: u32)
        ensures
            d == self.spec_due(),
    ;

    /// Records a review of the card.
    fn review(&mut self, score: Self::Score);
}

/// A value asked of the learner, such as how well a card was recalled.
pub trait Query: Sized {
    fn query() -> Self;
}

} // verus!
