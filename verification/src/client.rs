//! The wallet: the steps of peg-in, reissuance, spending and fetching, as
//! transitions on the store and the tracker. The caller talks to the
//! federation and hands each answer to the step that follows it.

use vstd::prelude::*;
use crate::amount::{Amount, MintError};
use crate::change::preferred;
use crate::coins::{holds, is_remainder, is_selection, slot_counts, unpayable, Coins, Nonce, SpendableCoin};
use crate::store::{in_a_row, put_all, CoinStore};
use crate::tiers::{breaks_down, TierSet};
use crate::tracker::{minted, others_kept, refused, rows, same_shape, CoinRequest, IssuanceId, IssuanceTracker, PendingIssuance, SignedToken};

verus! {

/// The federation's answer to a submitted request.
#[derive(Clone, Copy, Debug, PartialEq, Eq, Structural)]
pub enum SubmitReply {
    Accepted,
    /// Refused, with the federation's reason code.
    Rejected(u32),
    /// The federation could not be reached.
    Unavailable,
}

/// The federation's answer when asked for the tokens of an issuance.
#[derive(Debug)]
pub enum PollReply {
    /// Not signed yet.
    Pending,
    /// The tokens, unblinded and checked, one for each requested coin.
    Signed(Vec<Vec<SignedToken>>),
    /// Refused, with the federation's reason code.
    Rejected(u32),
    /// The federation could not be reached.
    Unavailable,
}

/// What a fetch step did with an issuance.
#[derive(Debug)]
pub enum FetchOutcome {
    /// Still submitted; nothing changed.
    StillPending,
    /// Finished: the verified coins are in the store; per denomination the
    /// number of coins whose signature did not verify.
    Completed(Vec<u64>),
    /// Given up, with the error to surface.
    Failed(MintError),
    /// The answer fitted no submitted issuance; nothing changed.
    Ignored,
}

/// The coins, per denomination, that come of the requests `asked` and the tokens `given`.
pub open spec fn all_minted(tiers: Seq<u64>, asked: Seq<Seq<CoinRequest>>, given: Seq<Seq<SignedToken>>) -> Seq<Seq<SpendableCoin>> {
    Seq::new(tiers.len(), |j: int| minted(tiers[j], asked[j], given[j]))
}

/// One fetch step: how the wallet `after` and the `outcome` follow from the
/// wallet `before` and the federation's `reply` for issuance `id`.
pub open spec fn poll_step(before: MintClient, id: IssuanceId, reply: PollReply, outcome: FetchOutcome, after: MintClient) -> bool {
    let known = before.tracker.pending(id);
    let place = before.tracker.ids().index_of(id);
    let tiers = before.tiers.values@;
    &&& after.tiers == before.tiers
    &&& !known ==> after == before
    &&& match reply {
        PollReply::Pending => outcome is StillPending && after == before,
        PollReply::Unavailable => outcome == FetchOutcome::Failed(MintError::TransportUnavailable) && after == before,
        PollReply::Rejected(code) => if known {
            &&& outcome == FetchOutcome::Failed(MintError::FederationRejected(code))
            &&& after.store == before.store
            &&& after.tracker.entries@ == before.tracker.entries@.remove(place)
            &&& !after.tracker.pending(id)
            &&& others_kept(before.tracker, id, after.tracker)
        } else {
            outcome is Ignored
        },
        PollReply::Signed(tokens) => if known && same_shape(before.tracker.requests_of(id), rows(tokens)) {
            &&& outcome matches FetchOutcome::Completed(failed)
            &&& failed@.len() == tiers.len()
            &&& forall|j: int| 0 <= j < failed@.len() ==> #[trigger] failed@[j] == refused(rows(tokens)[j])
            &&& after.store@ == put_all(tiers, before.store@, in_a_row(all_minted(tiers, before.tracker.requests_of(id), rows(tokens))))
            &&& after.tracker.entries@ == before.tracker.entries@.remove(place)
            &&& !after.tracker.pending(id)
            &&& others_kept(before.tracker, id, after.tracker)
        } else {
            outcome is Ignored && after == before
        },
    }
}

/// A wallet: denominations, coins in custody and submitted issuances.
#[derive(Debug)]
pub struct MintClient {
    pub tiers: TierSet,
    pub store: CoinStore,
    pub tracker: IssuanceTracker,
}

impl MintClient {
    /// Store and tracker are well-formed, over the wallet's denominations.
    pub open spec fn wf(&self) -> bool {
        &&& self.tiers.wf()
        &&& self.store.wf()
        &&& self.tracker.wf()
        &&& self.store.coins.tiers@ == self.tiers.values@
        &&& self.tracker.tiers@ == self.tiers.values@
    }

    /// An empty wallet over `tiers`.
    pub fn new(tiers: TierSet) -> (r: MintClient)
        requires
            tiers.wf(),
        ensures
            r.wf(),
            r.tiers.values@ == tiers.values@,
            r.tracker.entries@.len() == 0,
            forall|j: int| 0 <= j < tiers.values@.len() ==> #[trigger] r.store@[j] == Seq::<SpendableCoin>::empty(),
    {
        let store = CoinStore::new(&tiers.values);
        let tracker = IssuanceTracker::new(&tiers.values);
        MintClient { tiers, store, tracker }
    }

    /// The coins in custody, for reading.
    pub fn holdings(&self) -> (r: &Coins)
        ensures
            *r == self.store.coins,
    {
        self.store.holdings()
    }

    /// The identifiers of the submitted issuances, oldest first.
    pub fn pending(&self) -> (r: Vec<IssuanceId>)
        ensures
            r@ == self.tracker.ids(),
    {
        self.tracker.list_pending()
    }

    /// First step of a peg-in: the number of coins to request per denomination.
    pub fn begin_peg_in(&self, amount: Amount) -> (r: Result<Vec<u64>, MintError>)
        requires
            self.wf(),
        ensures
            r matches Ok(c) ==> breaks_down(self.tiers.values@, amount@ as int, c@)
                && forall|d: Seq<u64>| #[trigger] breaks_down(self.tiers.values@, amount@ as int, d) ==> preferred(c@, d),
            r matches Err(e) ==> e == MintError::AmountNotRepresentable
                && !crate::tiers::representable(self.tiers.values@, amount@ as int),
    {
        self.tiers.decompose(amount)
    }

    /// Whether `input` is well-formed over this wallet's denominations.
    pub fn entitled(&self, input: &Coins) -> (r: bool)
        requires
            self.wf(),
        ensures
            r == (input.wf() && input.tiers@ == self.tiers.values@),
    {
        let n: usize = self.tiers.values.len();
        if input.tiers.len() != n || input.slots.len() != n {
            return false;
        }
        let mut j: usize = 0;
        while j < n
            invariant
                self.wf(),
                n == self.tiers.values@.len(),
                input.tiers@.len() == n,
                input.slots@.len() == n,
                j <= n,
                forall|a: int| 0 <= a < j ==> input.tiers@[a] == self.tiers.values@[a],
                forall|a: int, i: int| 0 <= a < j && 0 <= i < input.slots@[a]@.len() ==> (#[trigger] input.slots@[a]@[i]).tier == input.tiers@[a],
            decreases n - j,
        {
            if input.tiers[j] != self.tiers.values[j] {
                return false;
            }
            let slot = &input.slots[j];
            let mut i: usize = 0;
            while i < slot.len()
                invariant
                    j < n,
                    input.tiers@.len() == n,
                    input.slots@.len() == n,
                    slot@ == input.slots@[j as int]@,
                    i <= slot@.len(),
                    forall|b: int| 0 <= b < i ==> (#[trigger] slot@[b]).tier == input.tiers@[j as int],
                decreases slot@.len() - i,
            {
                if slot[i].tier != input.tiers[j] {
                    assert(input.slots@[j as int]@[i as int].tier != input.tiers@[j as int]);
                    return false;
                }
                i = i + 1;
            }
            j = j + 1;
        }
        assert(input.tiers@ =~= self.tiers.values@);
        true
    }

    /// First step of a reissuance: the number of coins to request per
    /// denomination, worth exactly what `input` is worth. Fails when `input`
    /// is not well-formed over this wallet's denominations or its value does
    /// not fit an amount.
    pub fn begin_reissue(&self, input: &Coins) -> (r: Result<Vec<u64>, MintError>)
        requires
            self.wf(),
        ensures
            r is Ok == (input.wf() && input.tiers@ == self.tiers.values@ && input.amount_spec() <= u64::MAX),
            r matches Ok(c) ==> breaks_down(self.tiers.values@, input.amount_spec(), c@)
                && forall|d: Seq<u64>| #[trigger] breaks_down(self.tiers.values@, input.amount_spec(), d) ==> preferred(c@, d),
            r matches Err(e) ==> e == MintError::AmountNotRepresentable,
    {
        if !self.entitled(input) {
            return Err(MintError::AmountNotRepresentable);
        }
        match input.amount() {
            None => Err(MintError::AmountNotRepresentable),
            Some(amount) => {
                proof {
                    assert(slot_counts(input@).len() == self.tiers.values@.len());
                    crate::change::lemma_sums_nonnegative(input.tiers@, slot_counts(input@));
                    assert(breaks_down(self.tiers.values@, amount@ as int, slot_counts(input@)));
                }
                self.tiers.decompose(amount)
            },
        }
    }

    /// Second step of a peg-in or a reissuance, with the federation's answer
    /// to the submission: an accepted issuance is recorded, a refused one is
    /// not.
    pub fn on_submitted(&mut self, id: IssuanceId, requests: Vec<Vec<CoinRequest>>, reply: SubmitReply) -> (r: Result<IssuanceId, MintError>)
        requires
            old(self).wf(),
            !old(self).tracker.pending(id),
            requests@.len() == old(self).tiers.values@.len(),
        ensures
            final(self).wf(),
            final(self).tiers == old(self).tiers,
            final(self).store == old(self).store,
            reply == SubmitReply::Accepted ==> r == Ok::<IssuanceId, MintError>(id)
                && final(self).tracker.entries@ == old(self).tracker.entries@.push(PendingIssuance { id, requests })
                && final(self).tracker.pending(id)
                && final(self).tracker.requests_of(id) == rows(requests)
                && others_kept(old(self).tracker, id, final(self).tracker),
            reply matches SubmitReply::Rejected(code) ==> r == Err::<IssuanceId, MintError>(MintError::FederationRejected(code))
                && *final(self) == *old(self),
            reply == SubmitReply::Unavailable ==> r == Err::<IssuanceId, MintError>(MintError::TransportUnavailable)
                && *final(self) == *old(self),
    {
        match reply {
            SubmitReply::Accepted => {
                self.tracker.register(id, requests);
                Ok(id)
            },
            SubmitReply::Rejected(code) => Err(MintError::FederationRejected(code)),
            SubmitReply::Unavailable => Err(MintError::TransportUnavailable),
        }
    }

    /// Takes the coins that pay `amount` exactly out of custody and returns
    /// them. Fails, with the wallet untouched, when no choice of coins adds
    /// up to `amount`.
    pub fn spend(&mut self, amount: Amount) -> (r: Result<Coins, MintError>)
        requires
            old(self).wf(),
        ensures
            final(self).wf(),
            final(self).tiers == old(self).tiers,
            final(self).tracker == old(self).tracker,
            r matches Ok(p) ==> p.wf() && p.tiers@ == old(self).tiers.values@
                && p.amount_spec() == amount@
                && is_selection(old(self).tiers.values@, old(self).store@, amount@ as int, p@)
                && is_remainder(old(self).store@, p@, final(self).store@)
                && (forall|nonce: Nonce| holds(p@, nonce) ==> !holds(final(self).store@, nonce))
                && final(self).store.coins.amount_spec() + amount@ == old(self).store.coins.amount_spec(),
            r matches Err(e) ==> e == MintError::InsufficientFunds
                && unpayable(old(self).tiers.values@, old(self).store@, amount@ as int)
                && *final(self) == *old(self),
    {
        match self.store.select_and_remove(amount) {
            Some(p) => Ok(p),
            None => Err(MintError::InsufficientFunds),
        }
    }

    /// A fetch step, with the federation's answer for issuance `id`.
    ///
    /// Tokens that answer the requests of a submitted issuance finish it:
    /// the verified coins go into custody, unless their nonce is already
    /// there, and the issuance is forgotten. A rejection forgets the
    /// issuance. Anything else, and any answer for an issuance that is not
    /// submitted, changes nothing.
    pub fn on_poll(&mut self, id: IssuanceId, reply: PollReply) -> (r: FetchOutcome)
        requires
            old(self).wf(),
        ensures
            final(self).wf(),
            poll_step(*old(self), id, reply, r, *final(self)),
    {
        match reply {
            PollReply::Pending => FetchOutcome::StillPending,
            PollReply::Unavailable => FetchOutcome::Failed(MintError::TransportUnavailable),
            PollReply::Rejected(code) => {
                if self.tracker.mark_failed(id) {
                    FetchOutcome::Failed(MintError::FederationRejected(code))
                } else {
                    FetchOutcome::Ignored
                }
            },
            PollReply::Signed(tokens) => {
                match self.tracker.complete(id, &tokens) {
                    None => FetchOutcome::Ignored,
                    Some(done) => {
                        self.store.insert(&done.coins);
                        proof {
                            assert(done.coins@ =~= all_minted(old(self).tiers.values@, old(self).tracker.requests_of(id), rows(tokens)));
                        }
                        FetchOutcome::Completed(done.failed)
                    },
                }
            },
        }
    }
}

} // verus!
