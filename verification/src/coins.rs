//! Coins grouped by denomination, and exact selection from them.

use vstd::prelude::*;
use crate::amount::Amount;
use crate::change::{ascending, coin_total, face_sum, lemma_total_le_face, pays, preferred, search, tally, weigh, Payment};

verus! {

/// The identifier of one coin, drawn at random when the coin is requested.
#[derive(Clone, Copy, Debug, PartialEq, Eq, Structural)]
pub struct Nonce {
    pub hi: u128,
    pub lo: u128,
}

/// An unblinded signature of the federation over a nonce.
#[derive(Clone, Copy, Debug, PartialEq, Eq, Structural)]
pub struct Signature {
    pub a: u128,
    pub b: u128,
    pub c: u128,
}

/// A coin that can be handed over as payment.
#[derive(Clone, Copy, Debug, PartialEq, Eq, Structural)]
pub struct SpendableCoin {
    pub tier: u64,
    pub nonce: Nonce,
    pub signature: Signature,
}

/// How many coins each slot holds.
pub open spec fn slot_counts(slots: Seq<Seq<SpendableCoin>>) -> Seq<u64> {
    Seq::new(slots.len(), |j: int| slots[j].len() as u64)
}

/// Some coin in `slots` carries `nonce`.
pub open spec fn holds(slots: Seq<Seq<SpendableCoin>>, nonce: Nonce) -> bool {
    exists|j: int, i: int| 0 <= j < slots.len() && 0 <= i < slots[j].len() && #[trigger] slots[j][i].nonce == nonce
}

/// No nonce occurs twice in `slots`.
pub open spec fn distinct(slots: Seq<Seq<SpendableCoin>>) -> bool {
    forall|j1: int, i1: int, j2: int, i2: int|
        0 <= j1 < slots.len() && 0 <= i1 < slots[j1].len() && 0 <= j2 < slots.len() && 0 <= i2 < slots[j2].len()
            && #[trigger] slots[j1][i1].nonce == #[trigger] slots[j2][i2].nonce ==> j1 == j2 && i1 == i2
}

/// `picked` is the preferred exact payment of `amount` out of `held`: per
/// denomination the oldest coins, in the fewest coins overall, ties going to
/// the larger denominations.
pub open spec fn is_selection(tiers: Seq<u64>, held: Seq<Seq<SpendableCoin>>, amount: int, picked: Seq<Seq<SpendableCoin>>) -> bool {
    &&& picked.len() == held.len()
    &&& pays(tiers, slot_counts(held), held.len() as int, amount, slot_counts(picked))
    &&& forall|j: int| 0 <= j < held.len() ==> #[trigger] picked[j] == held[j].take(picked[j].len() as int)
    &&& forall|d: Seq<u64>| #[trigger] pays(tiers, slot_counts(held), held.len() as int, amount, d) ==> preferred(slot_counts(picked), d)
}

/// What is left of `held` once `picked` has been taken from the front of each slot.
pub open spec fn is_remainder(held: Seq<Seq<SpendableCoin>>, picked: Seq<Seq<SpendableCoin>>, left: Seq<Seq<SpendableCoin>>) -> bool {
    &&& left.len() == held.len()
    &&& forall|j: int| 0 <= j < held.len() ==> #[trigger] left[j] == held[j].skip(picked[j].len() as int)
}

/// No choice of held coins adds up to `amount`.
pub open spec fn unpayable(tiers: Seq<u64>, held: Seq<Seq<SpendableCoin>>, amount: int) -> bool {
    forall|d: Seq<u64>| !#[trigger] pays(tiers, slot_counts(held), held.len() as int, amount, d)
}

/// Coins by denomination: slot `j` holds the coins of value `tiers[j]`, oldest first.
#[derive(Debug)]
pub struct Coins {
    pub tiers: Vec<u64>,
    pub slots: Vec<Vec<SpendableCoin>>,
}

impl Coins {
    /// The coins slot by slot.
    pub open spec fn view(&self) -> Seq<Seq<SpendableCoin>> {
        Seq::new(self.slots@.len(), |j: int| self.slots@[j]@)
    }

    /// One slot per denomination, every coin in the slot of its denomination.
    pub open spec fn wf(&self) -> bool {
        &&& ascending(self.tiers@)
        &&& self.slots@.len() == self.tiers@.len()
        &&& forall|j: int, i: int| 0 <= j < self.slots@.len() && 0 <= i < self.slots@[j]@.len() ==> (#[trigger] self.slots@[j]@[i]).tier == self.tiers@[j]
    }

    /// Total face value.
    pub open spec fn amount_spec(&self) -> int {
        face_sum(self.tiers@, slot_counts(self@))
    }

    /// Total number of coins.
    pub open spec fn coin_count_spec(&self) -> int {
        coin_total(slot_counts(self@))
    }

    /// The number of coins per denomination.
    pub fn counts(&self) -> (r: Vec<u64>)
        ensures
            r@ == slot_counts(self@),
    {
        let mut r: Vec<u64> = Vec::new();
        let mut j: usize = 0;
        while j < self.slots.len()
            invariant
                j <= self.slots@.len(),
                r@.len() == j,
                forall|i: int| 0 <= i < j ==> r@[i] == self.slots@[i]@.len() as u64,
            decreases self.slots@.len() - j,
        {
            r.push(self.slots[j].len() as u64);
            j = j + 1;
        }
        assert(r@ =~= slot_counts(self@));
        r
    }

    /// No coins, over the given denominations.
    pub fn empty(tiers: &Vec<u64>) -> (r: Coins)
        requires
            ascending(tiers@),
        ensures
            r.wf(),
            r.tiers@ == tiers@,
            forall|j: int| 0 <= j < tiers@.len() ==> #[trigger] r@[j] == Seq::<SpendableCoin>::empty(),
    {
        let mut slots: Vec<Vec<SpendableCoin>> = Vec::new();
        let mut j: usize = 0;
        while j < tiers.len()
            invariant
                j <= tiers@.len(),
                slots@.len() == j,
                forall|i: int| 0 <= i < j ==> (#[trigger] slots@[i])@ == Seq::<SpendableCoin>::empty(),
            decreases tiers@.len() - j,
        {
            slots.push(Vec::new());
            j = j + 1;
        }
        Coins { tiers: copy_values(tiers), slots }
    }

    /// Total face value, unless it does not fit.
    pub fn amount(&self) -> (r: Option<Amount>)
        requires
            self.wf(),
        ensures
            self.amount_spec() <= u64::MAX ==> r == Some(Amount { units: self.amount_spec() as u64 }),
            self.amount_spec() > u64::MAX ==> r is None,
    {
        let counts = self.counts();
        match weigh(&self.tiers, &counts) {
            Some(units) => Some(Amount { units }),
            None => None,
        }
    }

    /// Total number of coins, unless it does not fit.
    pub fn coin_count(&self) -> (r: Option<u64>)
        requires
            self.wf(),
        ensures
            self.coin_count_spec() <= u64::MAX ==> r == Some(self.coin_count_spec() as u64),
            self.coin_count_spec() > u64::MAX ==> r is None,
    {
        let counts = self.counts();
        tally(&counts)
    }

    /// Picks the coins that pay `amount` exactly: the fewest coins, ties
    /// going to the larger denominations, and of each denomination the
    /// oldest. `None` when no choice of coins adds up to `amount`.
    pub fn select_coins(&self, amount: Amount) -> (r: Option<Coins>)
        requires
            self.wf(),
        ensures
            r matches Some(p) ==> p.wf() && p.tiers@ == self.tiers@ && is_selection(self.tiers@, self@, amount@ as int, p@),
            r is None ==> unpayable(self.tiers@, self@, amount@ as int),
    {
        match plan(self, amount) {
            None => None,
            Some(pay) => {
                let mut slots: Vec<Vec<SpendableCoin>> = Vec::new();
                let mut j: usize = 0;
                while j < self.slots.len()
                    invariant
                        self.wf(),
                        j <= self.slots@.len(),
                        slots@.len() == j,
                        pay.counts@.len() == self.slots@.len(),
                        forall|i: int| 0 <= i < self.slots@.len() ==> pay.counts@[i] <= self.slots@[i]@.len(),
                        forall|i: int| 0 <= i < j ==> (#[trigger] slots@[i])@ == self.slots@[i]@.take(pay.counts@[i] as int),
                    decreases self.slots@.len() - j,
                {
                    let want: u64 = pay.counts[j];
                    let have: usize = self.slots[j].len();
                    assert(want <= have);
                    let slot = copy_range(&self.slots[j], 0, want as usize);
                    slots.push(slot);
                    j = j + 1;
                }
                let picked = Coins { tiers: copy_values(&self.tiers), slots };
                proof {
                    assert(slot_counts(picked@) =~= pay.counts@);
                }
                Some(picked)
            },
        }
    }
}

/// The preferred counts per denomination that pay `amount` out of `held`.
pub fn plan(held: &Coins, amount: Amount) -> (r: Option<Payment>)
    requires
        held.wf(),
    ensures
        r matches Some(p) ==> pays(held.tiers@, slot_counts(held@), held@.len() as int, amount@ as int, p.counts@)
            && (forall|d: Seq<u64>| #[trigger] pays(held.tiers@, slot_counts(held@), held@.len() as int, amount@ as int, d) ==> preferred(p.counts@, d))
            && (forall|i: int| 0 <= i < held.slots@.len() ==> p.counts@[i] <= held.slots@[i]@.len()),
        r is None ==> unpayable(held.tiers@, held@, amount@ as int),
{
    let caps = held.counts();
    let r = search(&held.tiers, &caps, held.tiers.len(), amount.units, u64::MAX);
    proof {
        assert forall|d: Seq<u64>| #[trigger] pays(held.tiers@, slot_counts(held@), held@.len() as int, amount@ as int, d) implies coin_total(d) <= u64::MAX by {
            lemma_total_le_face(held.tiers@, d);
        }
        if r is Some {
            let p = r->0;
            assert forall|i: int| 0 <= i < held.slots@.len() implies p.counts@[i] <= held.slots@[i]@.len() by {
                assert(p.counts@[i] <= slot_counts(held@)[i]);
            }
        }
    }
    r
}

/// A copy of `src[from..to]`.
pub fn copy_range<T: Copy>(src: &Vec<T>, from: usize, to: usize) -> (r: Vec<T>)
    requires
        from <= to <= src@.len(),
    ensures
        r@ == src@.subrange(from as int, to as int),
{
    let mut r: Vec<T> = Vec::new();
    let mut i: usize = from;
    while i < to
        invariant
            from <= i <= to <= src@.len(),
            r@ == src@.subrange(from as int, i as int),
        decreases to - i,
    {
        r.push(src[i]);
        assert(r@ =~= src@.subrange(from as int, i + 1));
        i = i + 1;
    }
    r
}

/// A copy of `src`.
pub fn copy_values(src: &Vec<u64>) -> (r: Vec<u64>)
    ensures
        r@ == src@,
{
    let mut r: Vec<u64> = Vec::new();
    let mut i: usize = 0;
    while i < src.len()
        invariant
            i <= src@.len(),
            r@ == src@.take(i as int),
        decreases src@.len() - i,
    {
        r.push(src[i]);
        assert(r@ =~= src@.take(i + 1));
        i = i + 1;
    }
    assert(src@.take(i as int) =~= src@);
    r
}

} // verus!
