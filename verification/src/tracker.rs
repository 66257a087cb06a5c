//! The issuances that were submitted to the federation and not yet fetched.

use vstd::prelude::*;
use crate::amount::MintError;
use crate::change::{ascending, coin_total, lemma_prefix_sums};
use crate::store::in_a_row;
use crate::coins::{copy_range, copy_values, Coins, Nonce, Signature, SpendableCoin};

verus! {

/// The identifier of an issuance, derived from its transcript.
#[derive(Clone, Copy, Debug, PartialEq, Eq, Structural)]
pub struct IssuanceId {
    pub hi: u128,
    pub lo: u128,
}

/// The secret with which one requested coin was blinded. It stays with the client.
#[derive(Clone, Copy, Debug, PartialEq, Eq, Structural)]
pub struct BlindingSecret {
    pub hi: u128,
    pub lo: u128,
}

/// One requested coin: its fresh nonce and its blinding secret.
#[derive(Clone, Copy, Debug, PartialEq, Eq, Structural)]
pub struct CoinRequest {
    pub nonce: Nonce,
    pub secret: BlindingSecret,
}

/// The federation's answer for one requested coin, after unblinding: the
/// signature, and whether it verified against the denomination's key.
#[derive(Clone, Copy, Debug, PartialEq, Eq, Structural)]
pub struct SignedToken {
    pub signature: Signature,
    pub verified: bool,
}

/// A submitted issuance: the requested coins, one slot per denomination.
#[derive(Debug)]
pub struct PendingIssuance {
    pub id: IssuanceId,
    pub requests: Vec<Vec<CoinRequest>>,
}

/// What fetching an issuance gave: the coins whose signatures verified, and
/// per denomination the number of those that did not.
#[derive(Debug)]
pub struct Completion {
    pub coins: Coins,
    pub failed: Vec<u64>,
}

/// The rows of a vector of vectors.
pub open spec fn rows<T>(v: Vec<Vec<T>>) -> Seq<Seq<T>> {
    Seq::new(v@.len(), |j: int| v@[j]@)
}

/// The lengths of the rows.
pub open spec fn row_lengths<T>(r: Seq<Seq<T>>) -> Seq<u64> {
    Seq::new(r.len(), |j: int| r[j].len() as u64)
}

/// The coin that a verified token makes of a request.
pub open spec fn coin_of(tier: u64, request: CoinRequest, token: SignedToken) -> SpendableCoin {
    SpendableCoin { tier, nonce: request.nonce, signature: token.signature }
}

/// The coins of one denomination that come of `requests` and their
/// `tokens`, in the order of the requests: one for each verified token.
pub open spec fn minted(tier: u64, requests: Seq<CoinRequest>, tokens: Seq<SignedToken>) -> Seq<SpendableCoin>
    decreases requests.len(),
{
    if requests.len() == 0 || tokens.len() != requests.len() {
        Seq::empty()
    } else {
        let rest = minted(tier, requests.drop_last(), tokens.drop_last());
        if tokens.last().verified {
            rest.push(coin_of(tier, requests.last(), tokens.last()))
        } else {
            rest
        }
    }
}

/// The number of tokens that did not verify.
pub open spec fn refused(tokens: Seq<SignedToken>) -> int
    decreases tokens.len(),
{
    if tokens.len() == 0 {
        0
    } else {
        refused(tokens.drop_last()) + (if tokens.last().verified { 0int } else { 1int })
    }
}

/// The tokens answer the requests one for one.
pub open spec fn same_shape(requests: Seq<Seq<CoinRequest>>, tokens: Seq<Seq<SignedToken>>) -> bool {
    &&& tokens.len() == requests.len()
    &&& forall|j: int| 0 <= j < requests.len() ==> (#[trigger] tokens[j]).len() == requests[j].len()
}

/// Every request yields a coin or a refusal.
pub proof fn lemma_minted_or_refused(tier: u64, requests: Seq<CoinRequest>, tokens: Seq<SignedToken>)
    requires
        tokens.len() == requests.len(),
    ensures
        minted(tier, requests, tokens).len() + refused(tokens) == requests.len(),
        refused(tokens) >= 0,
        forall|i: int| 0 <= i < minted(tier, requests, tokens).len() ==> (#[trigger] minted(tier, requests, tokens)[i]).tier == tier,
    decreases requests.len(),
{
    if requests.len() > 0 {
        lemma_minted_or_refused(tier, requests.drop_last(), tokens.drop_last());
    }
}

/// In a sequence without duplicates an element is found where it stands.
pub proof fn lemma_lookup(ids: Seq<IssuanceId>, a: int)
    requires
        ids.no_duplicates(),
        0 <= a < ids.len(),
    ensures
        ids.contains(ids[a]),
        ids.index_of(ids[a]) == a,
{
    assert(ids.contains(ids[a]));
    let w = ids.index_of(ids[a]);
    assert(0 <= w < ids.len() && ids[w] == ids[a]);
}

/// Every issuance but `id` is submitted in `after` exactly if it is in
/// `before`, with the same requests.
pub open spec fn others_kept(before: IssuanceTracker, id: IssuanceId, after: IssuanceTracker) -> bool {
    forall|o: IssuanceId| o != id ==> (#[trigger] after.pending(o)) == before.pending(o)
        && (before.pending(o) ==> after.requests_of(o) == before.requests_of(o))
}

/// Taking the entry at `k` out keeps every other issuance.
pub proof fn lemma_others_kept_on_removal(before: IssuanceTracker, after: IssuanceTracker, k: int)
    requires
        before.ids().no_duplicates(),
        0 <= k < before.entries@.len(),
        after.entries@ == before.entries@.remove(k),
    ensures
        after.ids() == before.ids().remove(k),
        after.ids().no_duplicates(),
        !after.pending(before.ids()[k]),
        others_kept(before, before.ids()[k], after),
{
    assert(after.ids() =~= before.ids().remove(k));
    lemma_removed(before.ids(), after.ids(), k);
    assert forall|o: IssuanceId| o != before.ids()[k] && before.pending(o) implies after.requests_of(o) == before.requests_of(o) by {
        let a0 = before.ids().index_of(o);
        let a = if a0 < k { a0 } else { a0 - 1 };
        assert(after.ids()[a] == o);
        lemma_lookup(after.ids(), a);
    }
}

/// Appending an entry with a new identifier keeps every other issuance
/// and makes the new one findable.
pub proof fn lemma_others_kept_on_push(before: IssuanceTracker, after: IssuanceTracker, entry: PendingIssuance)
    requires
        before.ids().no_duplicates(),
        !before.pending(entry.id),
        after.entries@ == before.entries@.push(entry),
    ensures
        after.ids() == before.ids().push(entry.id),
        after.ids().no_duplicates(),
        after.pending(entry.id),
        after.requests_of(entry.id) == rows(entry.requests),
        others_kept(before, entry.id, after),
{
    assert(after.ids() =~= before.ids().push(entry.id));
    assert(after.ids().no_duplicates());
    let last = before.entries@.len() as int;
    assert(after.ids()[last] == entry.id);
    lemma_lookup(after.ids(), last);
    assert forall|o: IssuanceId| o != entry.id implies (#[trigger] after.pending(o)) == before.pending(o)
        && (before.pending(o) ==> after.requests_of(o) == before.requests_of(o)) by {
        if before.pending(o) {
            let a0 = before.ids().index_of(o);
            assert(after.ids()[a0] == o);
            lemma_lookup(after.ids(), a0);
        }
        if after.pending(o) {
            let a = after.ids().index_of(o);
            assert(a != last);
            assert(before.ids()[a] == o);
        }
    }
}

/// The submitted issuances, oldest first, each identifier at most once.
#[derive(Debug)]
pub struct IssuanceTracker {
    pub tiers: Vec<u64>,
    pub entries: Vec<PendingIssuance>,
}

impl IssuanceTracker {
    /// The identifiers of the submitted issuances, oldest first.
    pub open spec fn ids(&self) -> Seq<IssuanceId> {
        Seq::new(self.entries@.len(), |k: int| self.entries@[k].id)
    }

    /// Whether `id` is among the submitted issuances.
    pub open spec fn pending(&self, id: IssuanceId) -> bool {
        self.ids().contains(id)
    }

    /// The requests of the submitted issuance `id`.
    pub open spec fn requests_of(&self, id: IssuanceId) -> Seq<Seq<CoinRequest>> {
        rows(self.entries@[self.ids().index_of(id)].requests)
    }

    /// Ascending denominations, no identifier twice, and in every entry
    /// one slot of requests per denomination.
    pub open spec fn wf(&self) -> bool {
        &&& ascending(self.tiers@)
        &&& self.ids().no_duplicates()
        &&& forall|k: int| 0 <= k < self.entries@.len() ==> (#[trigger] self.entries@[k]).requests@.len() == self.tiers@.len()
    }

    /// A tracker without issuances.
    pub fn new(tiers: &Vec<u64>) -> (r: IssuanceTracker)
        requires
            ascending(tiers@),
        ensures
            r.wf(),
            r.tiers@ == tiers@,
            r.entries@.len() == 0,
    {
        IssuanceTracker { tiers: copy_values(tiers), entries: Vec::new() }
    }

    /// The position of the submitted issuance `id`.
    pub fn find(&self, id: IssuanceId) -> (r: Option<usize>)
        requires
            self.wf(),
        ensures
            r matches Some(k) ==> self.pending(id) && k == self.ids().index_of(id) && k < self.entries@.len(),
            r is None ==> !self.pending(id),
    {
        let mut k: usize = 0;
        while k < self.entries.len()
            invariant
                self.wf(),
                k <= self.entries@.len(),
                forall|a: int| 0 <= a < k ==> self.ids()[a] != id,
            decreases self.entries@.len() - k,
        {
            if self.entries[k].id == id {
                proof {
                    let ids = self.ids();
                    assert(ids[k as int] == id);
                    assert(ids.contains(id));
                    let w = ids.index_of(id);
                    assert(0 <= w < ids.len() && ids[w] == id);
                    assert(w == k);
                }
                return Some(k);
            }
            k = k + 1;
        }
        None
    }

    /// Records a submitted issuance. Refused, with `false`, when `id` is
    /// already recorded or the requests have not one slot per denomination.
    pub fn register(&mut self, id: IssuanceId, requests: Vec<Vec<CoinRequest>>) -> (r: bool)
        requires
            old(self).wf(),
        ensures
            final(self).wf(),
            final(self).tiers@ == old(self).tiers@,
            r == (!old(self).pending(id) && requests@.len() == old(self).tiers@.len()),
            r ==> final(self).entries@ == old(self).entries@.push(PendingIssuance { id, requests }),
            r ==> final(self).pending(id) && final(self).requests_of(id) == rows(requests)
                && others_kept(*old(self), id, *final(self)),
            !r ==> *final(self) == *old(self),
    {
        if requests.len() != self.tiers.len() {
            return false;
        }
        if self.find(id).is_some() {
            return false;
        }
        let ghost entry = PendingIssuance { id, requests };
        self.entries.push(PendingIssuance { id, requests });
        proof {
            lemma_others_kept_on_push(*old(self), *self, entry);
        }
        true
    }

    /// The identifiers of the submitted issuances, oldest first.
    pub fn list_pending(&self) -> (r: Vec<IssuanceId>)
        ensures
            r@ == self.ids(),
    {
        let mut r: Vec<IssuanceId> = Vec::new();
        let mut k: usize = 0;
        while k < self.entries.len()
            invariant
                k <= self.entries@.len(),
                r@.len() == k,
                forall|a: int| 0 <= a < k ==> r@[a] == self.entries@[a].id,
            decreases self.entries@.len() - k,
        {
            r.push(self.entries[k].id);
            k = k + 1;
        }
        assert(r@ =~= self.ids());
        r
    }

    /// The number of requested coins per denomination of issuance `id`.
    pub fn breakdown(&self, id: IssuanceId) -> (r: Option<Vec<u64>>)
        requires
            self.wf(),
        ensures
            r is Some == self.pending(id),
            r matches Some(b) ==> b@ == row_lengths(self.requests_of(id)),
    {
        match self.find(id) {
            None => None,
            Some(k) => {
                let requests = &self.entries[k].requests;
                let mut b: Vec<u64> = Vec::new();
                let mut j: usize = 0;
                while j < requests.len()
                    invariant
                        j <= requests@.len(),
                        b@.len() == j,
                        forall|a: int| 0 <= a < j ==> b@[a] == requests@[a]@.len() as u64,
                    decreases requests@.len() - j,
                {
                    b.push(requests[j].len() as u64);
                    j = j + 1;
                }
                assert(b@ =~= row_lengths(self.requests_of(id)));
                Some(b)
            },
        }
    }

    /// Finishes issuance `id` with the federation's tokens: every verified
    /// token becomes a coin, every other one is counted as failed under its
    /// denomination, and the issuance is forgotten. `None`, and nothing
    /// changes, when `id` is not recorded or the tokens do not answer its
    /// requests one for one.
    pub fn complete(&mut self, id: IssuanceId, tokens: &Vec<Vec<SignedToken>>) -> (r: Option<Completion>)
        requires
            old(self).wf(),
        ensures
            final(self).wf(),
            final(self).tiers@ == old(self).tiers@,
            r is Some == (old(self).pending(id) && same_shape(old(self).requests_of(id), rows(*tokens))),
            r matches Some(c) ==> c.coins.wf() && c.coins.tiers@ == old(self).tiers@
                && c.failed@.len() == old(self).tiers@.len()
                && (forall|j: int| 0 <= j < old(self).tiers@.len() ==> #[trigger] c.coins@[j] == minted(old(self).tiers@[j], old(self).requests_of(id)[j], rows(*tokens)[j]))
                && (forall|j: int| 0 <= j < old(self).tiers@.len() ==> #[trigger] c.failed@[j] == refused(rows(*tokens)[j]))
                && final(self).entries@ == old(self).entries@.remove(old(self).ids().index_of(id))
                && !final(self).pending(id)
                && others_kept(*old(self), id, *final(self)),
            r is None ==> *final(self) == *old(self),
    {
        let k: usize = match self.find(id) {
            None => {
                return None;
            },
            Some(k) => k,
        };
        if !answers(&self.entries[k].requests, tokens) {
            return None;
        }
        let ghost asked = rows(self.entries@[k as int].requests);
        let ghost given = rows(*tokens);
        let n: usize = self.tiers.len();
        let mut slots: Vec<Vec<SpendableCoin>> = Vec::new();
        let mut failed: Vec<u64> = Vec::new();
        let mut j: usize = 0;
        while j < n
            invariant
                *self == *old(self),
                self.wf(),
                k < self.entries@.len(),
                n == self.tiers@.len(),
                asked == rows(self.entries@[k as int].requests),
                given == rows(*tokens),
                same_shape(asked, given),
                asked.len() == n,
                j <= n,
                slots@.len() == j,
                failed@.len() == j,
                forall|a: int| 0 <= a < j ==> (#[trigger] slots@[a])@ == minted(self.tiers@[a], asked[a], given[a]),
                forall|a: int| 0 <= a < j ==> #[trigger] failed@[a] == refused(given[a]),
            decreases n - j,
        {
            assert(given[j as int].len() == asked[j as int].len());
            let (coins, bad) = mint_slot(self.tiers[j], &self.entries[k].requests[j], &tokens[j]);
            slots.push(coins);
            failed.push(bad);
            j = j + 1;
        }
        let coins = Coins { tiers: copy_values(&self.tiers), slots };
        self.entries.remove(k);
        proof {
            lemma_others_kept_on_removal(*old(self), *self, k as int);
            assert forall|a: int, i: int| 0 <= a < coins.slots@.len() && 0 <= i < coins.slots@[a]@.len() implies (#[trigger] coins.slots@[a]@[i]).tier == coins.tiers@[a] by {
                assert(given[a].len() == asked[a].len());
                lemma_minted_or_refused(coins.tiers@[a], asked[a], given[a]);
            }
        }
        Some(Completion { coins, failed })
    }

    /// Forgets issuance `id`, which the federation rejected. `false`, and
    /// nothing changes, when `id` is not recorded.
    pub fn mark_failed(&mut self, id: IssuanceId) -> (r: bool)
        requires
            old(self).wf(),
        ensures
            final(self).wf(),
            final(self).tiers@ == old(self).tiers@,
            r == old(self).pending(id),
            r ==> final(self).entries@ == old(self).entries@.remove(old(self).ids().index_of(id)),
            r ==> !final(self).pending(id) && others_kept(*old(self), id, *final(self)),
            !r ==> *final(self) == *old(self),
    {
        match self.find(id) {
            None => false,
            Some(k) => {
                self.entries.remove(k);
                proof {
                    lemma_others_kept_on_removal(*old(self), *self, k as int);
                }
                true
            },
        }
    }
}

/// Whether the tokens answer the requests one for one.
pub fn answers(requests: &Vec<Vec<CoinRequest>>, tokens: &Vec<Vec<SignedToken>>) -> (r: bool)
    ensures
        r == same_shape(rows(*requests), rows(*tokens)),
{
    if tokens.len() != requests.len() {
        return false;
    }
    let mut j: usize = 0;
    while j < requests.len()
        invariant
            j <= requests@.len(),
            tokens@.len() == requests@.len(),
            forall|a: int| 0 <= a < j ==> (#[trigger] rows(*tokens)[a]).len() == rows(*requests)[a].len(),
        decreases requests@.len() - j,
    {
        if tokens[j].len() != requests[j].len() {
            assert(rows(*tokens)[j as int].len() != rows(*requests)[j as int].len());
            return false;
        }
        j = j + 1;
    }
    true
}

/// Makes the coins of one denomination and counts the refusals.
pub fn mint_slot(tier: u64, requests: &Vec<CoinRequest>, tokens: &Vec<SignedToken>) -> (r: (Vec<SpendableCoin>, u64))
    requires
        tokens@.len() == requests@.len(),
    ensures
        r.0@ == minted(tier, requests@, tokens@),
        r.1 == refused(tokens@),
{
    let mut coins: Vec<SpendableCoin> = Vec::new();
    let mut bad: u64 = 0;
    let mut i: usize = 0;
    while i < requests.len()
        invariant
            tokens@.len() == requests@.len(),
            i <= requests@.len(),
            coins@ == minted(tier, requests@.take(i as int), tokens@.take(i as int)),
            bad == refused(tokens@.take(i as int)),
            bad <= i,
        decreases requests@.len() - i,
    {
        proof {
            assert(requests@.take(i + 1).drop_last() =~= requests@.take(i as int));
            assert(tokens@.take(i + 1).drop_last() =~= tokens@.take(i as int));
        }
        if tokens[i].verified {
            coins.push(SpendableCoin { tier, nonce: requests[i].nonce, signature: tokens[i].signature });
        } else {
            bad = bad + 1;
        }
        i = i + 1;
    }
    proof {
        assert(requests@.take(i as int) =~= requests@);
        assert(tokens@.take(i as int) =~= tokens@);
    }
    (coins, bad)
}

/// Hands the requests `seeds` out to the denominations in order: the first
/// `breakdown[0]` to the smallest, and so on. `None` exactly when the number
/// of requests is not the number of coins in `breakdown`.
pub fn lay_out(breakdown: &Vec<u64>, seeds: &Vec<CoinRequest>) -> (r: Option<Vec<Vec<CoinRequest>>>)
    ensures
        r is Some == (coin_total(breakdown@) == seeds@.len()),
        r matches Some(laid) ==> row_lengths(rows(laid)) == breakdown@ && in_a_row(rows(laid)) == seeds@,
{
    let mut laid: Vec<Vec<CoinRequest>> = Vec::new();
    let mut pos: usize = 0;
    let mut j: usize = 0;
    while j < breakdown.len()
        invariant
            j <= breakdown@.len(),
            pos <= seeds@.len(),
            pos == coin_total(breakdown@.take(j as int)),
            laid@.len() == j,
            forall|a: int| 0 <= a < j ==> (#[trigger] laid@[a])@.len() == breakdown@[a],
            in_a_row(rows(laid)) == seeds@.take(pos as int),
        decreases breakdown@.len() - j,
    {
        let need: u64 = breakdown[j];
        let left: usize = seeds.len() - pos;
        proof {
            assert(breakdown@.take(j + 1).drop_last() =~= breakdown@.take(j as int));
            lemma_prefix_sums(breakdown@, breakdown@, j + 1);
        }
        if need > left as u64 {
            return None;
        }
        let ghost so_far = rows(laid);
        let row = copy_range(seeds, pos, pos + need as usize);
        laid.push(row);
        proof {
            assert(rows(laid).drop_last() =~= so_far);
            assert(rows(laid).last() == row@);
            assert(seeds@.take(pos as int) + seeds@.subrange(pos as int, pos + need) =~= seeds@.take(pos + need));
        }
        pos = pos + need as usize;
        j = j + 1;
    }
    proof {
        assert(breakdown@.take(j as int) =~= breakdown@);
    }
    if pos != seeds.len() {
        return None;
    }
    proof {
        assert(seeds@.take(pos as int) =~= seeds@);
        assert(row_lengths(rows(laid)) =~= breakdown@);
    }
    Some(laid)
}

/// The errors that stand for the counts in `failed`: one for each
/// denomination with a failure, smallest denomination first.
pub open spec fn failure_list(tiers: Seq<u64>, failed: Seq<u64>) -> Seq<MintError>
    decreases failed.len(),
{
    if failed.len() == 0 {
        Seq::empty()
    } else {
        let rest = failure_list(tiers, failed.drop_last());
        if failed.last() > 0 {
            rest.push(MintError::VerificationFailed(tiers[failed.len() - 1], failed.last()))
        } else {
            rest
        }
    }
}

/// The verification failures of a completion, as errors to surface.
pub fn verification_failures(tiers: &Vec<u64>, failed: &Vec<u64>) -> (r: Vec<MintError>)
    requires
        failed@.len() <= tiers@.len(),
    ensures
        r@ == failure_list(tiers@, failed@),
{
    let mut r: Vec<MintError> = Vec::new();
    let mut j: usize = 0;
    while j < failed.len()
        invariant
            j <= failed@.len() <= tiers@.len(),
            r@ == failure_list(tiers@, failed@.take(j as int)),
        decreases failed@.len() - j,
    {
        proof {
            assert(failed@.take(j + 1).drop_last() =~= failed@.take(j as int));
        }
        if failed[j] > 0 {
            r.push(MintError::VerificationFailed(tiers[j], failed[j]));
        }
        j = j + 1;
    }
    proof {
        assert(failed@.take(j as int) =~= failed@);
    }
    r
}

/// Removing a position from a sequence without duplicates removes its
/// element for good and keeps the rest free of duplicates.
pub proof fn lemma_removed(before: Seq<IssuanceId>, after: Seq<IssuanceId>, k: int)
    requires
        before.no_duplicates(),
        0 <= k < before.len(),
        after =~= before.remove(k),
    ensures
        after.no_duplicates(),
        !after.contains(before[k]),
        forall|id: IssuanceId| id != before[k] ==> after.contains(id) == before.contains(id),
{
    assert forall|a: int, b: int| 0 <= a < after.len() && 0 <= b < after.len() && a != b implies after[a] != after[b] by {
        let a0 = if a < k { a } else { a + 1 };
        let b0 = if b < k { b } else { b + 1 };
        assert(after[a] == before[a0] && after[b] == before[b0]);
    }
    if after.contains(before[k]) {
        let a = after.index_of(before[k]);
        let a0 = if a < k { a } else { a + 1 };
        assert(after[a] == before[a0]);
    }
    assert forall|id: IssuanceId| id != before[k] implies after.contains(id) == before.contains(id) by {
        if after.contains(id) {
            let a = after.index_of(id);
            let a0 = if a < k { a } else { a + 1 };
            assert(after[a] == before[a0]);
        }
        if before.contains(id) {
            let a0 = before.index_of(id);
            let a = if a0 < k { a0 } else { a0 - 1 };
            assert(after[a] == before[a0]);
        }
    }
}

} // verus!
