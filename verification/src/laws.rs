//! What holds of the wallet across several steps.

use vstd::prelude::*;
use crate::change::{coin_total, face_sum, pays, preferred, top_heavy};
use crate::client::{all_minted, poll_step, FetchOutcome, MintClient, PollReply};
use crate::coins::{distinct, holds, is_remainder, is_selection, slot_counts, Nonce, SpendableCoin};
use crate::store::{accepts, in_a_row, put, put_all, slot_of};
use crate::tiers::breaks_down;
use crate::tracker::{lemma_minted_or_refused, refused, row_lengths, same_shape, CoinRequest, IssuanceId, SignedToken};

verus! {

/// No slot holds more coins than a 64-bit count can say.
pub open spec fn countable(slots: Seq<Seq<SpendableCoin>>) -> bool {
    forall|j: int| 0 <= j < slots.len() ==> (#[trigger] slots[j]).len() <= u64::MAX
}

/// Two count vectors that are each preferred to the other are the same.
pub proof fn lemma_top_heavy_both_ways(c: Seq<u64>, d: Seq<u64>)
    requires
        top_heavy(c, d),
        top_heavy(d, c),
    ensures
        c == d,
    decreases c.len(),
{
    if c.len() > 0 {
        lemma_top_heavy_both_ways(c.drop_last(), d.drop_last());
        assert(c =~= c.drop_last().push(c.last()));
        assert(d =~= d.drop_last().push(d.last()));
    } else {
        assert(c =~= d);
    }
}

/// The preferred payment is unique: the rule of fewest coins, ties to the
/// larger denominations, leaves no choice.
pub proof fn lemma_preferred_is_unique(c: Seq<u64>, d: Seq<u64>)
    requires
        preferred(c, d),
        preferred(d, c),
    ensures
        c == d,
{
    lemma_top_heavy_both_ways(c, d);
}

/// A selection never uses more coins than any other exact payment out of
/// the same holdings.
pub proof fn lemma_selection_is_minimal(tiers: Seq<u64>, held: Seq<Seq<SpendableCoin>>, amount: int, picked: Seq<Seq<SpendableCoin>>, other: Seq<u64>)
    requires
        is_selection(tiers, held, amount, picked),
        pays(tiers, slot_counts(held), held.len() as int, amount, other),
    ensures
        coin_total(slot_counts(picked)) <= coin_total(other),
{
}

/// Once a selection has been taken out of the store, no selection from
/// what is left returns a coin with a nonce of the first.
pub proof fn lemma_no_double_spend(
    tiers: Seq<u64>,
    before: Seq<Seq<SpendableCoin>>,
    first_amount: int,
    first: Seq<Seq<SpendableCoin>>,
    after: Seq<Seq<SpendableCoin>>,
    second_amount: int,
    second: Seq<Seq<SpendableCoin>>,
)
    requires
        countable(before),
        countable(first),
        countable(after),
        countable(second),
        distinct(before),
        is_selection(tiers, before, first_amount, first),
        is_remainder(before, first, after),
        is_selection(tiers, after, second_amount, second),
    ensures
        forall|nonce: Nonce| holds(first, nonce) ==> !holds(second, nonce),
{
    assert forall|nonce: Nonce| holds(first, nonce) implies !holds(second, nonce) by {
        if holds(second, nonce) {
            let (j1, i1) = choose|j1: int, i1: int| 0 <= j1 < first.len() && 0 <= i1 < first[j1].len() && #[trigger] first[j1][i1].nonce == nonce;
            let (j2, i2) = choose|j2: int, i2: int| 0 <= j2 < second.len() && 0 <= i2 < second[j2].len() && #[trigger] second[j2][i2].nonce == nonce;
            assert(slot_counts(first)[j1] <= slot_counts(before)[j1]);
            assert(slot_counts(first)[j2] <= slot_counts(before)[j2]);
            assert(slot_counts(second)[j2] <= slot_counts(after)[j2]);
            assert(first[j1] == before[j1].take(first[j1].len() as int));
            assert(after[j2] == before[j2].skip(first[j2].len() as int));
            assert(second[j2] == after[j2].take(second[j2].len() as int));
            assert(first[j1][i1] == before[j1][i1]);
            assert(second[j2][i2] == before[j2][i2 + first[j2].len()]);
            assert(before[j1][i1].nonce == before[j2][i2 + first[j2].len()].nonce);
        }
    }
}

/// Tokens that all verified were refused nowhere.
pub proof fn lemma_none_refused(tokens: Seq<SignedToken>)
    requires
        forall|i: int| 0 <= i < tokens.len() ==> (#[trigger] tokens[i]).verified,
    ensures
        refused(tokens) == 0,
    decreases tokens.len(),
{
    if tokens.len() > 0 {
        lemma_none_refused(tokens.drop_last());
    }
}

/// Conservation: when a reissuance requests the breakdown of what its input
/// is worth and every token verifies, the coins that come back are worth
/// what went in.
pub proof fn lemma_conservation(
    tiers: Seq<u64>,
    input: Seq<Seq<SpendableCoin>>,
    breakdown: Seq<u64>,
    asked: Seq<Seq<CoinRequest>>,
    given: Seq<Seq<SignedToken>>,
)
    requires
        breaks_down(tiers, face_sum(tiers, slot_counts(input)), breakdown),
        row_lengths(asked) == breakdown,
        same_shape(asked, given),
        forall|j: int, i: int| 0 <= j < given.len() && 0 <= i < given[j].len() ==> (#[trigger] given[j][i]).verified,
    ensures
        face_sum(tiers, slot_counts(all_minted(tiers, asked, given))) == face_sum(tiers, slot_counts(input)),
{
    let output = all_minted(tiers, asked, given);
    assert forall|j: int| 0 <= j < tiers.len() implies #[trigger] slot_counts(output)[j] == breakdown[j] by {
        assert(given[j].len() == asked[j].len());
        lemma_minted_or_refused(tiers[j], asked[j], given[j]);
        lemma_none_refused(given[j]);
        assert(row_lengths(asked)[j] == asked[j].len() as u64);
    }
    assert(slot_counts(output) =~= breakdown);
}

/// Offering a coin keeps every nonce that was held, and the number of slots.
pub proof fn lemma_put_keeps(tiers: Seq<u64>, held: Seq<Seq<SpendableCoin>>, coin: SpendableCoin, nonce: Nonce)
    requires
        held.len() == tiers.len(),
    ensures
        put(tiers, held, coin).len() == held.len(),
        holds(held, nonce) ==> holds(put(tiers, held, coin), nonce),
{
    let next = put(tiers, held, coin);
    if holds(held, nonce) && accepts(tiers, held, coin) {
        let (j, i) = choose|j: int, i: int| 0 <= j < held.len() && 0 <= i < held[j].len() && #[trigger] held[j][i].nonce == nonce;
        let s = slot_of(tiers, coin.tier);
        assert(0 <= s < tiers.len());
        assert(next[j][i] == held[j][i]);
        assert(next[j][i].nonce == nonce);
    }
}

/// A coin that was offered is not taken a second time.
pub proof fn lemma_put_settles(tiers: Seq<u64>, held: Seq<Seq<SpendableCoin>>, coin: SpendableCoin)
    requires
        held.len() == tiers.len(),
    ensures
        !accepts(tiers, put(tiers, held, coin), coin),
{
    let next = put(tiers, held, coin);
    if accepts(tiers, held, coin) {
        let s = slot_of(tiers, coin.tier);
        assert(0 <= s < tiers.len());
        assert(next[s][held[s].len() as int].nonce == coin.nonce);
    }
}

/// After a batch was offered, none of its coins is taken again.
pub proof fn lemma_batch_settles(tiers: Seq<u64>, held: Seq<Seq<SpendableCoin>>, offered: Seq<SpendableCoin>, i: int)
    requires
        held.len() == tiers.len(),
        0 <= i < offered.len(),
    ensures
        put_all(tiers, held, offered).len() == held.len(),
        !accepts(tiers, put_all(tiers, held, offered), offered[i]),
    decreases offered.len(),
{
    let prev = put_all(tiers, held, offered.drop_last());
    lemma_put_all_len(tiers, held, offered.drop_last());
    lemma_put_keeps(tiers, prev, offered.last(), offered[i].nonce);
    if i == offered.len() - 1 {
        lemma_put_settles(tiers, prev, offered.last());
    } else {
        lemma_batch_settles(tiers, held, offered.drop_last(), i);
    }
}

/// Offering a batch keeps the number of slots.
pub proof fn lemma_put_all_len(tiers: Seq<u64>, held: Seq<Seq<SpendableCoin>>, offered: Seq<SpendableCoin>)
    requires
        held.len() == tiers.len(),
    ensures
        put_all(tiers, held, offered).len() == held.len(),
    decreases offered.len(),
{
    if offered.len() > 0 {
        lemma_put_all_len(tiers, held, offered.drop_last());
        lemma_put_keeps(tiers, put_all(tiers, held, offered.drop_last()), offered.last(), offered.last().nonce);
    }
}

/// A batch of which the store takes no coin leaves the store as it is.
pub proof fn lemma_nothing_taken(tiers: Seq<u64>, held: Seq<Seq<SpendableCoin>>, offered: Seq<SpendableCoin>)
    requires
        forall|i: int| 0 <= i < offered.len() ==> !accepts(tiers, held, #[trigger] offered[i]),
    ensures
        put_all(tiers, held, offered) == held,
    decreases offered.len(),
{
    if offered.len() > 0 {
        assert forall|i: int| 0 <= i < offered.drop_last().len() implies !accepts(tiers, held, #[trigger] offered.drop_last()[i]) by {
            assert(offered.drop_last()[i] == offered[i]);
        }
        lemma_nothing_taken(tiers, held, offered.drop_last());
        assert(offered.last() == offered[offered.len() - 1]);
    }
}

/// Fetching the same coins a second time changes nothing: the store after
/// both offers is the store after the first.
pub proof fn lemma_refetch_changes_nothing(tiers: Seq<u64>, held: Seq<Seq<SpendableCoin>>, offered: Seq<SpendableCoin>)
    requires
        held.len() == tiers.len(),
    ensures
        put_all(tiers, put_all(tiers, held, offered), offered) == put_all(tiers, held, offered),
{
    let once = put_all(tiers, held, offered);
    assert forall|i: int| 0 <= i < offered.len() implies !accepts(tiers, once, #[trigger] offered[i]) by {
        lemma_batch_settles(tiers, held, offered, i);
    }
    lemma_nothing_taken(tiers, once, offered);
}

/// An issuance that a fetch step finished, or gave up after the federation
/// rejected it, is gone: a later fetch step for it changes nothing and
/// completes nothing, whatever the federation answers.
pub proof fn lemma_fetch_is_idempotent(
    start: MintClient,
    id: IssuanceId,
    first: PollReply,
    done: FetchOutcome,
    mid: MintClient,
    second: PollReply,
    again: FetchOutcome,
    end: MintClient,
)
    requires
        poll_step(start, id, first, done, mid),
        done is Completed || (done matches FetchOutcome::Failed(e) && e is FederationRejected),
        poll_step(mid, id, second, again, end),
    ensures
        !mid.tracker.pending(id),
        end == mid,
        !(again is Completed),
{
}

/// The face values of a sequence of coins, added up.
pub open spec fn tier_sum(coins: Seq<SpendableCoin>) -> int
    decreases coins.len(),
{
    if coins.len() == 0 {
        0
    } else {
        tier_sum(coins.drop_last()) + coins.last().tier
    }
}

/// A nonce that is held after a coin was offered was held before, or is
/// that coin's; and no slot shrinks.
pub proof fn lemma_put_origin(tiers: Seq<u64>, held: Seq<Seq<SpendableCoin>>, coin: SpendableCoin, nonce: Nonce)
    requires
        held.len() == tiers.len(),
    ensures
        holds(put(tiers, held, coin), nonce) ==> holds(held, nonce) || coin.nonce == nonce,
        forall|j: int| 0 <= j < held.len() ==> (#[trigger] put(tiers, held, coin)[j]).len() >= held[j].len(),
{
    let next = put(tiers, held, coin);
    if accepts(tiers, held, coin) {
        let s = slot_of(tiers, coin.tier);
        assert(0 <= s < tiers.len());
        if holds(next, nonce) && coin.nonce != nonce {
            let (j, i) = choose|j: int, i: int| 0 <= j < next.len() && 0 <= i < next[j].len() && #[trigger] next[j][i].nonce == nonce;
            assert(next[j][i] == held[j][i]);
            assert(held[j][i].nonce == nonce);
        }
    }
}

/// A nonce that is held after a batch was offered was held before, or is
/// the nonce of a coin of the batch; and no slot shrinks.
pub proof fn lemma_put_all_origin(tiers: Seq<u64>, held: Seq<Seq<SpendableCoin>>, offered: Seq<SpendableCoin>, nonce: Nonce)
    requires
        held.len() == tiers.len(),
    ensures
        put_all(tiers, held, offered).len() == held.len(),
        holds(put_all(tiers, held, offered), nonce) ==> holds(held, nonce)
            || exists|i: int| 0 <= i < offered.len() && (#[trigger] offered[i]).nonce == nonce,
        forall|j: int| 0 <= j < held.len() ==> (#[trigger] put_all(tiers, held, offered)[j]).len() >= held[j].len(),
    decreases offered.len(),
{
    if offered.len() > 0 {
        let prev = put_all(tiers, held, offered.drop_last());
        lemma_put_all_origin(tiers, held, offered.drop_last(), nonce);
        lemma_put_origin(tiers, prev, offered.last(), nonce);
        let next = put_all(tiers, held, offered);
        if holds(next, nonce) && !holds(held, nonce) {
            if offered.last().nonce == nonce {
                assert(offered[offered.len() - 1].nonce == nonce);
            } else {
                let i = choose|i: int| 0 <= i < offered.drop_last().len() && (#[trigger] offered.drop_last()[i]).nonce == nonce;
                assert(offered[i].nonce == nonce);
            }
        }
        assert forall|j: int| 0 <= j < held.len() implies (#[trigger] next[j]).len() >= held[j].len() by {
            assert(prev[j].len() >= held[j].len());
        }
    }
}

/// A batch of coins of known denominations, with nonces that differ from
/// each other and from all that are held, is taken whole: the store's value
/// grows by the value of the batch.
pub proof fn lemma_fresh_batch_adds_value(tiers: Seq<u64>, held: Seq<Seq<SpendableCoin>>, offered: Seq<SpendableCoin>)
    requires
        held.len() == tiers.len(),
        countable(put_all(tiers, held, offered)),
        forall|i: int| 0 <= i < offered.len() ==> tiers.contains((#[trigger] offered[i]).tier),
        forall|i: int| 0 <= i < offered.len() ==> !holds(held, (#[trigger] offered[i]).nonce),
        forall|i: int, k: int| 0 <= i < k < offered.len() ==> (#[trigger] offered[i]).nonce != (#[trigger] offered[k]).nonce,
    ensures
        face_sum(tiers, slot_counts(put_all(tiers, held, offered))) == face_sum(tiers, slot_counts(held)) + tier_sum(offered),
    decreases offered.len(),
{
    if offered.len() > 0 {
        let rest = offered.drop_last();
        let coin = offered.last();
        let prev = put_all(tiers, held, rest);
        let next = put_all(tiers, held, offered);
        lemma_put_all_origin(tiers, held, rest, coin.nonce);
        lemma_put_origin(tiers, prev, coin, coin.nonce);
        assert forall|j: int| 0 <= j < prev.len() implies (#[trigger] prev[j]).len() <= u64::MAX by {
            assert(next[j].len() >= prev[j].len());
        }
        assert forall|i: int| 0 <= i < rest.len() implies tiers.contains((#[trigger] rest[i]).tier) && !holds(held, rest[i].nonce) by {
            assert(rest[i] == offered[i]);
        }
        assert forall|i: int, k: int| 0 <= i < k < rest.len() implies (#[trigger] rest[i]).nonce != (#[trigger] rest[k]).nonce by {
            assert(rest[i] == offered[i] && rest[k] == offered[k]);
        }
        lemma_fresh_batch_adds_value(tiers, held, rest);
        if holds(prev, coin.nonce) {
            assert(!holds(held, offered[offered.len() - 1].nonce));
            let i = choose|i: int| 0 <= i < rest.len() && (#[trigger] rest[i]).nonce == coin.nonce;
            assert(offered[i].nonce == offered[offered.len() - 1].nonce);
        }
        assert(tiers.contains(offered[offered.len() - 1].tier));
        assert(accepts(tiers, prev, coin));
        let s = slot_of(tiers, coin.tier);
        assert(0 <= s < tiers.len() && tiers[s] == coin.tier);
        assert(next[s].len() == prev[s].len() + 1);
        assert(next[s].len() <= u64::MAX);
        crate::change::lemma_sums_bump(tiers, slot_counts(prev), slot_counts(next), s);
    }
}

/// The value of two sequences of coins in a row is the sum of their values.
pub proof fn lemma_tier_sum_concat(a: Seq<SpendableCoin>, b: Seq<SpendableCoin>)
    ensures
        tier_sum(a + b) == tier_sum(a) + tier_sum(b),
    decreases b.len(),
{
    if b.len() > 0 {
        lemma_tier_sum_concat(a, b.drop_last());
        assert((a + b).drop_last() =~= a + b.drop_last());
    } else {
        assert(a + b =~= a);
    }
}

/// Coins of one denomination are worth their number times the denomination.
pub proof fn lemma_tier_sum_uniform(coins: Seq<SpendableCoin>, tier: u64)
    requires
        forall|i: int| 0 <= i < coins.len() ==> (#[trigger] coins[i]).tier == tier,
    ensures
        tier_sum(coins) == tier * coins.len(),
    decreases coins.len(),
{
    if coins.len() > 0 {
        lemma_tier_sum_uniform(coins.drop_last(), tier);
        assert(tier * (coins.len() - 1) + tier == tier * coins.len()) by (nonlinear_arith);
    }
}

/// Slots whose coins carry the denomination of their slot are worth, in a
/// row, their face value; and every coin's denomination is known.
pub proof fn lemma_row_value(tiers: Seq<u64>, slots: Seq<Seq<SpendableCoin>>)
    requires
        slots.len() <= tiers.len(),
        countable(slots),
        forall|j: int, i: int| 0 <= j < slots.len() && 0 <= i < slots[j].len() ==> (#[trigger] slots[j][i]).tier == tiers[j],
    ensures
        tier_sum(in_a_row(slots)) == face_sum(tiers, slot_counts(slots)),
        forall|i: int| 0 <= i < in_a_row(slots).len() ==> tiers.contains((#[trigger] in_a_row(slots)[i]).tier),
    decreases slots.len(),
{
    if slots.len() > 0 {
        let rest = slots.drop_last();
        let top = slots.last();
        lemma_row_value(tiers, rest);
        lemma_tier_sum_concat(in_a_row(rest), top);
        lemma_tier_sum_uniform(top, tiers[slots.len() - 1]);
        assert(slot_counts(slots).drop_last() =~= slot_counts(rest));
        assert(top.len() <= u64::MAX);
        assert forall|i: int| 0 <= i < in_a_row(slots).len() implies tiers.contains((#[trigger] in_a_row(slots)[i]).tier) by {
            if i >= in_a_row(rest).len() {
                let at = i - in_a_row(rest).len();
                assert(in_a_row(slots)[i] == top[at]);
                assert(slots[slots.len() - 1][at].tier == tiers[slots.len() - 1]);
            } else {
                assert(in_a_row(slots)[i] == in_a_row(rest)[i]);
            }
        }
    }
}

/// Fetched coins with nonces that differ from each other and from all
/// that are held raise the store's value by exactly their face value.
pub proof fn lemma_fetch_adds_value(
    tiers: Seq<u64>,
    held: Seq<Seq<SpendableCoin>>,
    asked: Seq<Seq<CoinRequest>>,
    given: Seq<Seq<SignedToken>>,
)
    requires
        held.len() == tiers.len(),
        asked.len() == tiers.len(),
        same_shape(asked, given),
        countable(all_minted(tiers, asked, given)),
        countable(put_all(tiers, held, in_a_row(all_minted(tiers, asked, given)))),
        forall|i: int| 0 <= i < in_a_row(all_minted(tiers, asked, given)).len()
            ==> !holds(held, (#[trigger] in_a_row(all_minted(tiers, asked, given))[i]).nonce),
        forall|i: int, k: int| 0 <= i < k < in_a_row(all_minted(tiers, asked, given)).len()
            ==> (#[trigger] in_a_row(all_minted(tiers, asked, given))[i]).nonce != (#[trigger] in_a_row(all_minted(tiers, asked, given))[k]).nonce,
    ensures
        face_sum(tiers, slot_counts(put_all(tiers, held, in_a_row(all_minted(tiers, asked, given)))))
            == face_sum(tiers, slot_counts(held)) + face_sum(tiers, slot_counts(all_minted(tiers, asked, given))),
{
    let coins = all_minted(tiers, asked, given);
    assert forall|j: int, i: int| 0 <= j < coins.len() && 0 <= i < coins[j].len() implies (#[trigger] coins[j][i]).tier == tiers[j] by {
        assert(given[j].len() == asked[j].len());
        lemma_minted_or_refused(tiers[j], asked[j], given[j]);
    }
    lemma_row_value(tiers, coins);
    lemma_fresh_batch_adds_value(tiers, held, in_a_row(coins));
}

} // verus!
