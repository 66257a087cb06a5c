//! The wallet's custody of coins: no nonce twice, and a coin leaves the
//! store in the same step in which it is selected.

use vstd::prelude::*;
use crate::amount::Amount;
use crate::change::{ascending, lemma_sums_bump, lemma_sums_split};
use crate::coins::{copy_range, copy_values, distinct, holds, is_remainder, is_selection, plan, slot_counts, unpayable, Coins, Nonce, SpendableCoin};

verus! {

/// The store takes `coin`: its denomination is known and its nonce is new.
pub open spec fn accepts(tiers: Seq<u64>, held: Seq<Seq<SpendableCoin>>, coin: SpendableCoin) -> bool {
    tiers.contains(coin.tier) && !holds(held, coin.nonce)
}

/// The position of denomination `value` in `tiers`.
pub open spec fn slot_of(tiers: Seq<u64>, value: u64) -> int {
    tiers.index_of(value)
}

/// `held` after `coin` was offered: appended to the slot of its denomination
/// if the store takes it, unchanged otherwise.
pub open spec fn put(tiers: Seq<u64>, held: Seq<Seq<SpendableCoin>>, coin: SpendableCoin) -> Seq<Seq<SpendableCoin>> {
    if accepts(tiers, held, coin) {
        held.update(slot_of(tiers, coin.tier), held[slot_of(tiers, coin.tier)].push(coin))
    } else {
        held
    }
}

/// `held` after the coins of `offered` were offered one by one.
pub open spec fn put_all(tiers: Seq<u64>, held: Seq<Seq<SpendableCoin>>, offered: Seq<SpendableCoin>) -> Seq<Seq<SpendableCoin>>
    decreases offered.len(),
{
    if offered.len() == 0 {
        held
    } else {
        put(tiers, put_all(tiers, held, offered.drop_last()), offered.last())
    }
}

/// The items of all slots in one sequence, first slot first.
pub open spec fn in_a_row<T>(slots: Seq<Seq<T>>) -> Seq<T>
    decreases slots.len(),
{
    if slots.len() == 0 {
        Seq::empty()
    } else {
        in_a_row(slots.drop_last()) + slots.last()
    }
}

/// The coins in custody.
#[derive(Debug)]
pub struct CoinStore {
    pub coins: Coins,
}

impl CoinStore {
    /// The coins in custody, slot by slot.
    pub open spec fn view(&self) -> Seq<Seq<SpendableCoin>> {
        self.coins@
    }

    /// Well-formed holdings in which no nonce occurs twice.
    pub open spec fn wf(&self) -> bool {
        self.coins.wf() && distinct(self.coins@)
    }

    /// An empty store over the given denominations.
    pub fn new(tiers: &Vec<u64>) -> (r: CoinStore)
        requires
            ascending(tiers@),
        ensures
            r.wf(),
            r.coins.tiers@ == tiers@,
            forall|j: int| 0 <= j < tiers@.len() ==> #[trigger] r@[j] == Seq::<SpendableCoin>::empty(),
    {
        CoinStore { coins: Coins::empty(tiers) }
    }

    /// The coins in custody, for reading.
    pub fn holdings(&self) -> (r: &Coins)
        ensures
            *r == self.coins,
    {
        &self.coins
    }

    /// Whether a coin with `nonce` is in custody.
    pub fn contains(&self, nonce: Nonce) -> (r: bool)
        ensures
            r == holds(self@, nonce),
    {
        let mut j: usize = 0;
        while j < self.coins.slots.len()
            invariant
                j <= self.coins.slots@.len(),
                forall|a: int, i: int| 0 <= a < j && 0 <= i < self@[a].len() ==> #[trigger] self@[a][i].nonce != nonce,
            decreases self.coins.slots@.len() - j,
        {
            let slot = &self.coins.slots[j];
            let mut i: usize = 0;
            while i < slot.len()
                invariant
                    j < self.coins.slots@.len(),
                    slot@ == self@[j as int],
                    i <= slot@.len(),
                    forall|b: int| 0 <= b < i ==> #[trigger] slot@[b].nonce != nonce,
                decreases slot@.len() - i,
            {
                if slot[i].nonce == nonce {
                    assert(self@[j as int][i as int].nonce == nonce);
                    return true;
                }
                i = i + 1;
            }
            j = j + 1;
        }
        false
    }

    /// Offers one coin. It is taken, and `true` returned, exactly when its
    /// denomination is known and its nonce is not yet in custody.
    pub fn insert_coin(&mut self, coin: SpendableCoin) -> (r: bool)
        requires
            old(self).wf(),
        ensures
            final(self).wf(),
            final(self).coins.tiers@ == old(self).coins.tiers@,
            r == accepts(old(self).coins.tiers@, old(self)@, coin),
            final(self)@ == put(old(self).coins.tiers@, old(self)@, coin),
            r ==> final(self).coins.amount_spec() == old(self).coins.amount_spec() + coin.tier
                && final(self).coins.coin_count_spec() == old(self).coins.coin_count_spec() + 1,
    {
        let mut j: usize = 0;
        let mut found: bool = false;
        while j < self.coins.tiers.len() && !found
            invariant
                j <= self.coins.tiers@.len(),
                *self == *old(self),
                forall|a: int| 0 <= a < j && !found ==> self.coins.tiers@[a] != coin.tier,
                found ==> j < self.coins.tiers@.len() && self.coins.tiers@[j as int] == coin.tier,
            decreases self.coins.tiers@.len() - j + (if found { 0int } else { 1int }),
        {
            if self.coins.tiers[j] == coin.tier {
                found = true;
            } else {
                j = j + 1;
            }
        }
        if !found {
            assert(self@ =~= put(old(self).coins.tiers@, old(self)@, coin));
            return false;
        }
        if self.contains(coin.nonce) {
            return false;
        }
        proof {
            assert(self.coins.tiers@.contains(coin.tier));
            let w = slot_of(self.coins.tiers@, coin.tier);
            assert(w == j);
        }
        let mut slot = self.coins.slots.remove(j);
        slot.push(coin);
        let now: usize = slot.len();
        self.coins.slots.insert(j, slot);
        proof {
            let before = old(self)@;
            let after = self@;
            assert(after =~= before.update(j as int, before[j as int].push(coin)));
            assert(after[j as int].len() == now);
            lemma_sums_bump(self.coins.tiers@, slot_counts(before), slot_counts(after), j as int);
            assert forall|j1: int, i1: int, j2: int, i2: int|
                0 <= j1 < after.len() && 0 <= i1 < after[j1].len() && 0 <= j2 < after.len() && 0 <= i2 < after[j2].len()
                    && #[trigger] after[j1][i1].nonce == #[trigger] after[j2][i2].nonce implies j1 == j2 && i1 == i2 by {
                let new1 = j1 == j && i1 == before[j as int].len();
                let new2 = j2 == j && i2 == before[j as int].len();
                if !new1 {
                    assert(after[j1][i1] == before[j1][i1]);
                }
                if !new2 {
                    assert(after[j2][i2] == before[j2][i2]);
                }
                if new1 && !new2 {
                    assert(before[j2][i2].nonce == coin.nonce);
                }
                if new2 && !new1 {
                    assert(before[j1][i1].nonce == coin.nonce);
                }
            }
            assert forall|a: int, i: int| 0 <= a < self.coins.slots@.len() && 0 <= i < self.coins.slots@[a]@.len() implies (#[trigger] self.coins.slots@[a]@[i]).tier == self.coins.tiers@[a] by {
                assert(self.coins.slots@[a]@ == after[a]);
                if !(a == j && i == before[j as int].len()) {
                    assert(after[a][i] == before[a][i]);
                    assert(before[a] == old(self).coins.slots@[a]@);
                }
            }
        }
        true
    }

    /// Offers the coins of `offered` one by one, smallest denomination
    /// first and oldest first within a denomination.
    pub fn insert(&mut self, offered: &Coins)
        requires
            old(self).wf(),
        ensures
            final(self).wf(),
            final(self).coins.tiers@ == old(self).coins.tiers@,
            final(self)@ == put_all(old(self).coins.tiers@, old(self)@, in_a_row(offered@)),
    {
        let ghost tiers = self.coins.tiers@;
        let ghost start = self@;
        let mut j: usize = 0;
        while j < offered.slots.len()
            invariant
                j <= offered.slots@.len(),
                self.wf(),
                self.coins.tiers@ == tiers,
                self@ == put_all(tiers, start, in_a_row(offered@.take(j as int))),
            decreases offered.slots@.len() - j,
        {
            let slot = &offered.slots[j];
            let ghost done = in_a_row(offered@.take(j as int));
            let mut i: usize = 0;
            assert(done + slot@.take(0) =~= done);
            while i < slot.len()
                invariant
                    i <= slot@.len(),
                    self.wf(),
                    self.coins.tiers@ == tiers,
                    self@ == put_all(tiers, start, done + slot@.take(i as int)),
                decreases slot@.len() - i,
            {
                self.insert_coin(slot[i]);
                proof {
                    let next = done + slot@.take(i + 1);
                    assert(next.drop_last() =~= done + slot@.take(i as int));
                    assert(next.last() == slot@[i as int]);
                }
                i = i + 1;
            }
            proof {
                assert(slot@.take(i as int) =~= slot@);
                assert(offered@.take(j + 1).drop_last() =~= offered@.take(j as int));
                assert(offered@.take(j + 1).last() == slot@);
            }
            j = j + 1;
        }
        assert(offered@.take(j as int) =~= offered@);
    }

    /// Selects the coins that pay `amount` exactly and takes them out of
    /// custody in the same step. `None`, with the store untouched, when no
    /// choice of coins adds up to `amount`.
    pub fn select_and_remove(&mut self, amount: Amount) -> (r: Option<Coins>)
        requires
            old(self).wf(),
        ensures
            final(self).wf(),
            final(self).coins.tiers@ == old(self).coins.tiers@,
            r matches Some(p) ==> p.wf() && p.tiers@ == old(self).coins.tiers@
                && is_selection(old(self).coins.tiers@, old(self)@, amount@ as int, p@)
                && is_remainder(old(self)@, p@, final(self)@)
                && (forall|nonce: Nonce| holds(p@, nonce) ==> !holds(final(self)@, nonce))
                && final(self).coins.amount_spec() + amount@ == old(self).coins.amount_spec()
                && final(self).coins.coin_count_spec() + p.coin_count_spec() == old(self).coins.coin_count_spec(),
            r is None ==> unpayable(old(self).coins.tiers@, old(self)@, amount@ as int) && *final(self) == *old(self),
    {
        match plan(&self.coins, amount) {
            None => None,
            Some(pay) => {
                let mut taken: Vec<Vec<SpendableCoin>> = Vec::new();
                let mut kept: Vec<Vec<SpendableCoin>> = Vec::new();
                let mut j: usize = 0;
                while j < self.coins.slots.len()
                    invariant
                        *self == *old(self),
                        j <= self.coins.slots@.len(),
                        taken@.len() == j,
                        kept@.len() == j,
                        pay.counts@.len() == self.coins.slots@.len(),
                        forall|i: int| 0 <= i < self.coins.slots@.len() ==> pay.counts@[i] <= self.coins.slots@[i]@.len(),
                        forall|i: int| 0 <= i < j ==> (#[trigger] taken@[i])@ == self.coins.slots@[i]@.take(pay.counts@[i] as int),
                        forall|i: int| 0 <= i < j ==> (#[trigger] kept@[i])@ == self.coins.slots@[i]@.skip(pay.counts@[i] as int),
                        forall|i: int| 0 <= i < j ==> (#[trigger] self.coins.slots@[i])@.len() <= usize::MAX,
                    decreases self.coins.slots@.len() - j,
                {
                    let want: u64 = pay.counts[j];
                    let have: usize = self.coins.slots[j].len();
                    assert(want <= have);
                    let front = copy_range(&self.coins.slots[j], 0, want as usize);
                    let back = copy_range(&self.coins.slots[j], want as usize, have);
                    taken.push(front);
                    kept.push(back);
                    j = j + 1;
                }
                let picked = Coins { tiers: copy_values(&self.coins.tiers), slots: taken };
                self.coins.slots = kept;
                proof {
                    let before = old(self)@;
                    let after = self@;
                    assert(crate::coins::slot_counts(picked@) =~= pay.counts@);
                    assert forall|a: int, i: int| 0 <= a < after.len() && 0 <= i < after[a].len() implies #[trigger] after[a][i] == before[a][i + pay.counts@[a]] by {
                        assert(after[a] == kept@[a]@);
                    }
                    assert forall|a: int, i: int| 0 <= a < picked@.len() && 0 <= i < picked@[a].len() implies #[trigger] picked@[a][i] == before[a][i] by {
                        assert(picked@[a] == taken@[a]@);
                    }
                    assert forall|a: int, i: int| 0 <= a < self.coins.slots@.len() && 0 <= i < self.coins.slots@[a]@.len() implies (#[trigger] self.coins.slots@[a]@[i]).tier == self.coins.tiers@[a] by {
                        assert(self.coins.slots@[a]@ == after[a]);
                        assert(after[a][i] == before[a][i + pay.counts@[a]]);
                        assert(before[a][i + pay.counts@[a]] == old(self).coins.slots@[a]@[i + pay.counts@[a]]);
                    }
                    assert forall|a: int, i: int| 0 <= a < picked.slots@.len() && 0 <= i < picked.slots@[a]@.len() implies (#[trigger] picked.slots@[a]@[i]).tier == picked.tiers@[a] by {
                        assert(picked.slots@[a]@ == picked@[a]);
                        assert(picked@[a][i] == before[a][i]);
                        assert(before[a][i] == old(self).coins.slots@[a]@[i]);
                    }
                    assert forall|j1: int, i1: int, j2: int, i2: int|
                        0 <= j1 < after.len() && 0 <= i1 < after[j1].len() && 0 <= j2 < after.len() && 0 <= i2 < after[j2].len()
                            && #[trigger] after[j1][i1].nonce == #[trigger] after[j2][i2].nonce implies j1 == j2 && i1 == i2 by {
                        assert(after[j1][i1] == before[j1][i1 + pay.counts@[j1]]);
                        assert(after[j2][i2] == before[j2][i2 + pay.counts@[j2]]);
                    }
                    assert forall|nonce: Nonce| holds(picked@, nonce) implies !holds(after, nonce) by {
                        if holds(after, nonce) {
                            let (j1, i1) = choose|j1: int, i1: int| 0 <= j1 < picked@.len() && 0 <= i1 < picked@[j1].len() && #[trigger] picked@[j1][i1].nonce == nonce;
                            let (j2, i2) = choose|j2: int, i2: int| 0 <= j2 < after.len() && 0 <= i2 < after[j2].len() && #[trigger] after[j2][i2].nonce == nonce;
                            assert(picked@[j1][i1] == before[j1][i1]);
                            assert(after[j2][i2] == before[j2][i2 + pay.counts@[j2]]);
                            assert(before[j1][i1].nonce == before[j2][i2 + pay.counts@[j2]].nonce);
                        }
                    }
                    assert forall|a: int| 0 <= a < before.len() implies #[trigger] picked@[a] == before[a].take(picked@[a].len() as int) by {
                        assert(picked@[a] == taken@[a]@);
                    }
                    assert forall|a: int| 0 <= a < before.len() implies #[trigger] after[a] == before[a].skip(picked@[a].len() as int) by {
                        assert(after[a] == kept@[a]@);
                        assert(picked@[a] == taken@[a]@);
                    }
                    assert forall|a: int| 0 <= a < before.len() implies slot_counts(before)[a] == slot_counts(picked@)[a] + slot_counts(after)[a] by {
                        assert(old(self).coins.slots@[a]@.len() <= usize::MAX);
                        assert(after[a] == kept@[a]@);
                        assert(picked@[a] == taken@[a]@);
                    }
                    lemma_sums_split(self.coins.tiers@, slot_counts(before), slot_counts(picked@), slot_counts(after));
                }
                Some(picked)
            },
        }
    }
}

} // verus!
