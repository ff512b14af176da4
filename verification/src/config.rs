//! The review settings of a vault.

use vstd::prelude::*;

verus! {

/// The order in which due cards come up.
#[derive(Debug, Clone, Copy, PartialEq, Eq, Structural)]
pub enum ReviewOrder {
    Due,
    Random,
}

/// What a vault's configuration says of reviews, apart from the retention that the
/// scheduler aims for.
#[derive(Debug, Clone, Copy, PartialEq, Eq, Structural)]
pub struct ReviewSettings {
    pub new_cards_per_day: usize,
    pub max_reviews_per_day: usize,
    pub review_order: ReviewOrder,
    pub bury_siblings: bool,
}

impl Default for ReviewSettings {
    fn default() -> (r: Self)
        ensures
            r == (ReviewSettings {
                new_cards_per_day: 20,
                max_reviews_per_day: 200,
                review_order: ReviewOrder::Due,
                bury_siblings: true,
            }),
    {
        ReviewSettings {
            new_cards_per_day: 20,
            max_reviews_per_day: 200,
            review_order: ReviewOrder::Due,
            bury_siblings: true,
        }
    }
}

impl ReviewSettings {
    /// Whether a configuration with these limits is accepted: a limit of zero would
    /// mean that no review is ever due.
    pub fn limits_are_valid(&self) -> (r: bool)
        ensures
            r == (self.new_cards_per_day > 0 && self.max_reviews_per_day > 0),
    {
        self.new_cards_per_day > 0 && self.max_reviews_per_day > 0
    }
}

} // verus!
