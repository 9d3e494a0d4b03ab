//! Exact rationals stored as integer numerators over one shared denominator.

use vstd::prelude::*;

verus! {

/// The mathematical content of a [`Scaled`] value: entry `i` stands for the
/// rational `numerators[i] / denominator`.
pub struct Rationals {
    pub numerators: Seq<int>,
    pub denominator: int,
}

/// A sequence of exact rationals that share one positive denominator.
///
/// Matrices are stored row by row in `numerators`; the shape is passed
/// alongside, as a number of rows and a number of columns.
#[derive(Debug, PartialEq, Eq)]
pub struct Scaled {
    pub numerators: Vec<i128>,
    pub denominator: i128,
}

impl View for Scaled {
    type V = Rationals;

    open spec fn view(&self) -> Rationals {
        Rationals {
            numerators: Seq::new(self.numerators@.len(), |i: int| self.numerators@[i] as int),
            denominator: self.denominator as int,
        }
    }
}

impl Scaled {
    /// A value is well formed when its denominator is positive.
    pub open spec fn wf(&self) -> bool {
        self.denominator >= 1
    }

    /// The largest absolute value among the numerators, and 0 if there are
    /// none. With it a caller can tell whether a stage of the reduction stays
    /// inside the range of `i128`.
    pub fn largest_magnitude(&self) -> (largest: u128)
        ensures
            largest == max_magnitude(self@.numerators),
    {
        let mut largest: u128 = 0;
        let mut i: usize = 0;
        while i < self.numerators.len()
            invariant
                i <= self.numerators.len(),
                largest == max_magnitude(self@.numerators.take(i as int)),
            decreases self.numerators.len() - i,
        {
            let x: i128 = self.numerators[i];
            let size: u128 = if x >= 0 {
                x as u128
            } else if x == i128::MIN {
                0x8000_0000_0000_0000_0000_0000_0000_0000
            } else {
                (-x) as u128
            };
            proof {
                let next = self@.numerators.take(i as int + 1);
                assert(next.drop_last() =~= self@.numerators.take(i as int));
                assert(next.last() == x);
            }
            if size > largest {
                largest = size;
            }
            i += 1;
        }
        proof {
            assert(self@.numerators.take(i as int) =~= self@.numerators);
        }
        largest
    }

    /// Wraps plain integers: every entry `v` becomes the rational `v / 1`.
    pub fn from_integers(values: Vec<i128>) -> (result: Scaled)
        ensures
            result.wf(),
            result.numerators == values,
            result.denominator == 1,
    {
        Scaled { numerators: values, denominator: 1 }
    }
}

/// The absolute value of `x`.
pub open spec fn magnitude(x: int) -> int {
    if x < 0 {
        -x
    } else {
        x
    }
}

/// The largest absolute value among the entries of `s`, and 0 for the empty
/// sequence.
pub open spec fn max_magnitude(s: Seq<int>) -> int
    decreases s.len(),
{
    if s.len() == 0 {
        0
    } else {
        let rest = max_magnitude(s.drop_last());
        if magnitude(s.last()) > rest {
            magnitude(s.last())
        } else {
            rest
        }
    }
}

/// Every entry of a sequence lies within the sequence's largest magnitude,
/// which is never negative.
pub proof fn lemma_max_magnitude_bounds(s: Seq<int>)
    ensures
        0 <= max_magnitude(s),
        forall|i: int| 0 <= i < s.len() ==> -max_magnitude(s) <= #[trigger] s[i] <= max_magnitude(s),
    decreases s.len(),
{
    if s.len() > 0 {
        lemma_max_magnitude_bounds(s.drop_last());
        assert forall|i: int| 0 <= i < s.len() implies -max_magnitude(s) <= #[trigger] s[i]
            <= max_magnitude(s) by {
            if i < s.len() - 1 {
                assert(s.drop_last()[i] == s[i]);
            }
        }
    }
}

/// A bound that holds for every entry holds for the largest magnitude.
pub proof fn lemma_max_magnitude_within(s: Seq<int>, bound: int)
    requires
        0 <= bound,
        forall|i: int| 0 <= i < s.len() ==> -bound <= #[trigger] s[i] <= bound,
    ensures
        max_magnitude(s) <= bound,
    decreases s.len(),
{
    if s.len() > 0 {
        assert forall|i: int| 0 <= i < s.drop_last().len() implies -bound <= #[trigger] s.drop_last()[i]
            <= bound by {
            assert(s.drop_last()[i] == s[i]);
        }
        lemma_max_magnitude_within(s.drop_last(), bound);
        assert(-bound <= s[s.len() - 1] <= bound);
    }
}

} // verus!
