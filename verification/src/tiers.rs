//! The denominations that the federation signs, and the breakdown of an
//! amount into them.

use vstd::prelude::*;
use crate::amount::{Amount, MintError};
use crate::change::{ascending, coin_total, face_sum, lemma_total_le_face, pays, preferred, search};
use crate::coins::copy_values;

verus! {

/// `counts` writes `amount` as a sum of the denominations `values`.
pub open spec fn breaks_down(values: Seq<u64>, amount: int, counts: Seq<u64>) -> bool {
    counts.len() == values.len() && face_sum(values, counts) == amount
}

/// Some count vector writes `amount` as a sum of the denominations.
pub open spec fn representable(values: Seq<u64>, amount: int) -> bool {
    exists|d: Seq<u64>| #[trigger] breaks_down(values, amount, d)
}

/// The federation's denominations, positive and strictly ascending.
#[derive(Debug)]
pub struct TierSet {
    pub values: Vec<u64>,
}

impl TierSet {
    /// The values are positive and strictly ascending.
    pub open spec fn wf(&self) -> bool {
        ascending(self.values@)
    }

    /// Accepts `values` exactly when they are positive and strictly ascending.
    pub fn new(values: Vec<u64>) -> (r: Option<TierSet>)
        ensures
            ascending(values@) ==> (r matches Some(t) && t.values@ == values@),
            !ascending(values@) ==> r is None,
    {
        let mut i: usize = 0;
        while i < values.len()
            invariant
                i <= values@.len(),
                forall|a: int| 0 <= a < i ==> values@[a] > 0,
                forall|a: int, b: int| 0 <= a < b < i ==> values@[a] < values@[b],
            decreases values@.len() - i,
        {
            if values[i] == 0 {
                return None;
            }
            if i > 0 && values[i - 1] >= values[i] {
                return None;
            }
            i = i + 1;
        }
        Some(TierSet { values })
    }

    /// Writes `amount` as a sum of denominations: in the fewest coins, ties
    /// going to the larger denominations. Fails exactly when no sum of
    /// denominations equals `amount`.
    pub fn decompose(&self, amount: Amount) -> (r: Result<Vec<u64>, MintError>)
        requires
            self.wf(),
        ensures
            r matches Ok(c) ==> breaks_down(self.values@, amount@ as int, c@)
                && forall|d: Seq<u64>| #[trigger] breaks_down(self.values@, amount@ as int, d) ==> preferred(c@, d),
            r matches Err(e) ==> e == MintError::AmountNotRepresentable && !representable(self.values@, amount@ as int),
    {
        let n: usize = self.values.len();
        let mut caps: Vec<u64> = Vec::new();
        while caps.len() < n
            invariant
                caps@.len() <= n,
                forall|j: int| 0 <= j < caps@.len() ==> caps@[j] == u64::MAX,
            decreases n - caps@.len(),
        {
            caps.push(u64::MAX);
        }
        proof {
            assert forall|d: Seq<u64>| #[trigger] breaks_down(self.values@, amount@ as int, d) implies pays(self.values@, caps@, n as int, amount@ as int, d)
                && coin_total(d) <= u64::MAX by {
                lemma_total_le_face(self.values@, d);
            }
        }
        match search(&self.values, &caps, n, amount.units, u64::MAX) {
            Some(p) => Ok(p.counts),
            None => Err(MintError::AmountNotRepresentable),
        }
    }

    /// The denominations, ascending.
    pub fn values(&self) -> (r: Vec<u64>)
        ensures
            r@ == self.values@,
    {
        copy_values(&self.values)
    }
}

} // verus!
