//! Equality and order of decimals, by the numbers they stand for.

use crate::decimal::Decimal;
use crate::model::Fixed;
use crate::scale::scale_up;
use std::cmp::Ordering;
use vstd::prelude::*;
use vstd::std_specs::cmp::{PartialEqSpecImpl, PartialOrdSpecImpl};

verus! {

impl Fixed {
    /// How the number of `self` stands to that of `other`.
    pub open spec fn ordering(self, other: Fixed) -> Ordering {
        if self.below(other) {
            Ordering::Less
        } else if self.same_value(other) {
            Ordering::Equal
        } else {
            Ordering::Greater
        }
    }
}

/// How `x` stands to `y`.
fn order_of(x: i128, y: i128) -> (r: Ordering)
    ensures
        r == if x < y {
            Ordering::Less
        } else if x == y {
            Ordering::Equal
        } else {
            Ordering::Greater
        },
{
    if x < y {
        Ordering::Less
    } else if x == y {
        Ordering::Equal
    } else {
        Ordering::Greater
    }
}

impl Decimal {
    /// Compares the numbers that the two decimals stand for.
    ///
    /// The stored scales do not matter: `12.00` and `12` compare as equal.
    /// The comparison is total and never fails, also where bringing one
    /// significand to the other's scale would leave the machine's range.
    pub fn compare(&self, other: &Decimal) -> (r: Ordering)
        ensures
            r == self@.ordering(other@),
    {
        proof {
            self.lemma_representable();
            other.lemma_representable();
            self@.lemma_aligned_grows(self@.common_scale(other@));
            other@.lemma_aligned_grows(self@.common_scale(other@));
        }
        let sa: u32 = self.scale();
        let sb: u32 = other.scale();
        let x: i128 = self.significand();
        let y: i128 = other.significand();
        if sa >= sb {
            match scale_up(y, sa - sb) {
                Some(lifted) => order_of(x, lifted),
                None => if y > 0 {
                    Ordering::Less
                } else {
                    Ordering::Greater
                },
            }
        } else {
            match scale_up(x, sb - sa) {
                Some(lifted) => order_of(lifted, y),
                None => if x > 0 {
                    Ordering::Greater
                } else {
                    Ordering::Less
                },
            }
        }
    }
}

impl PartialEq for Decimal {
    /// Whether the two decimals stand for the same number.
    fn eq(&self, other: &Decimal) -> (r: bool) {
        match self.compare(other) {
            Ordering::Equal => true,
            _ => false,
        }
    }
}

impl PartialEqSpecImpl for Decimal {
    open spec fn obeys_eq_spec() -> bool {
        true
    }

    open spec fn eq_spec(&self, other: &Decimal) -> bool {
        self@.same_value(other@)
    }
}

impl Eq for Decimal {

}

impl PartialOrd for Decimal {
    /// The order of the numbers that the two decimals stand for.
    fn partial_cmp(&self, other: &Decimal) -> (r: Option<Ordering>) {
        Some(self.compare(other))
    }
}

impl PartialOrdSpecImpl for Decimal {
    open spec fn obeys_partial_cmp_spec() -> bool {
        true
    }

    open spec fn partial_cmp_spec(&self, other: &Decimal) -> Option<Ordering> {
        Some(self@.ordering(other@))
    }
}

} // verus!
