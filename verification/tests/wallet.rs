use mint_client::amount::{Amount, MintError};
use mint_client::client::{FetchOutcome, MintClient, PollReply, SubmitReply};
use mint_client::coins::{Coins, Nonce, Signature, SpendableCoin};
use mint_client::tiers::TierSet;
use mint_client::tracker::{
    answers, lay_out, mint_slot, verification_failures, BlindingSecret, CoinRequest, IssuanceId,
    IssuanceTracker, SignedToken,
};
use mint_client::transfer::{from_text, to_text, TransferError};

fn tiers() -> Vec<u64> {
    vec![1, 2, 4, 8, 16, 32, 64]
}

fn wallet() -> MintClient {
    MintClient::new(TierSet::new(tiers()).unwrap())
}

fn id(n: u128) -> IssuanceId {
    IssuanceId { hi: 0, lo: n }
}

fn seeds(first: u128, n: u64) -> Vec<CoinRequest> {
    let mut v = Vec::new();
    for i in 0..n {
        v.push(CoinRequest {
            nonce: Nonce { hi: 1, lo: first + i as u128 },
            secret: BlindingSecret { hi: 2, lo: first + i as u128 },
        });
    }
    v
}

fn sign_all(requests: &Vec<Vec<CoinRequest>>, verified: bool) -> Vec<Vec<SignedToken>> {
    let mut all = Vec::new();
    for slot in requests {
        let mut row = Vec::new();
        for r in slot {
            row.push(SignedToken {
                signature: Signature { a: r.nonce.lo, b: 0, c: 0 },
                verified,
            });
        }
        all.push(row);
    }
    all
}

/// Runs a peg-in through to the fetched coins; returns the issuance id.
fn peg_in(w: &mut MintClient, amount: u64, n: u128) -> IssuanceId {
    let breakdown = w.begin_peg_in(Amount::new(amount)).unwrap();
    let total: u64 = breakdown.iter().sum();
    let requests = lay_out(&breakdown, &seeds(n * 1000, total)).unwrap();
    let tokens = sign_all(&requests, true);
    let issued = w.on_submitted(id(n), requests, SubmitReply::Accepted).unwrap();
    assert!(matches!(w.on_poll(issued, PollReply::Signed(tokens)), FetchOutcome::Completed(_)));
    issued
}

#[test]
fn peg_in_of_hundred_ends_in_holdings_of_hundred() {
    let mut w = wallet();
    let breakdown = w.begin_peg_in(Amount::new(100)).unwrap();
    assert_eq!(breakdown, vec![0, 0, 1, 0, 0, 1, 1]);
    let requests = lay_out(&breakdown, &seeds(10, 3)).unwrap();
    let tokens = sign_all(&requests, true);
    assert_eq!(w.on_submitted(id(1), requests, SubmitReply::Accepted), Ok(id(1)));
    assert_eq!(w.pending(), vec![id(1)]);
    assert_eq!(w.holdings().amount(), Some(Amount::new(0)));
    assert!(matches!(w.on_poll(id(1), PollReply::Pending), FetchOutcome::StillPending));
    assert_eq!(w.pending(), vec![id(1)]);
    match w.on_poll(id(1), PollReply::Signed(tokens)) {
        FetchOutcome::Completed(failed) => assert_eq!(failed, vec![0; 7]),
        other => panic!("unexpected outcome {:?}", other),
    }
    assert_eq!(w.holdings().amount(), Some(Amount::new(100)));
    assert_eq!(w.holdings().counts(), vec![0, 0, 1, 0, 0, 1, 1]);
    assert_eq!(w.pending(), Vec::<IssuanceId>::new());
}

#[test]
fn spend_of_fifty_from_hundred_fails_and_changes_nothing() {
    let mut w = wallet();
    peg_in(&mut w, 100, 1);
    let before = w.holdings().slots.clone();
    assert_eq!(w.spend(Amount::new(50)).map(|c| c.slots), Err(MintError::InsufficientFunds));
    assert_eq!(w.holdings().slots, before);
    assert_eq!(w.holdings().amount(), Some(Amount::new(100)));
}

#[test]
fn reissue_of_forty_replaces_the_coins() {
    let mut w = wallet();
    peg_in(&mut w, 40, 1);
    let input = w.spend(Amount::new(40)).unwrap();
    assert_eq!(input.counts(), vec![0, 0, 0, 1, 0, 1, 0]);
    assert_eq!(w.holdings().amount(), Some(Amount::new(0)));
    let breakdown = w.begin_reissue(&input).unwrap();
    assert_eq!(mint_client::change::weigh(&tiers(), &breakdown), Some(40));
    let requests = lay_out(&breakdown, &seeds(5000, 2)).unwrap();
    let tokens = sign_all(&requests, true);
    assert_eq!(w.on_submitted(id(2), requests, SubmitReply::Accepted), Ok(id(2)));
    assert!(matches!(w.on_poll(id(2), PollReply::Signed(tokens)), FetchOutcome::Completed(_)));
    assert_eq!(w.holdings().amount(), Some(Amount::new(40)));
    for slot in &input.slots {
        for c in slot {
            assert!(!w.store.contains(c.nonce));
        }
    }
    assert!(w.store.contains(Nonce { hi: 1, lo: 5000 }));
    assert!(w.store.contains(Nonce { hi: 1, lo: 5001 }));
}

#[test]
fn second_spend_of_thirty_finds_nothing_left() {
    let mut w = wallet();
    peg_in(&mut w, 30, 1);
    let first = w.spend(Amount::new(30));
    let second = w.spend(Amount::new(30));
    assert_eq!(first.unwrap().amount(), Some(Amount::new(30)));
    assert_eq!(second.map(|c| c.slots), Err(MintError::InsufficientFunds));
}

#[test]
fn spend_returns_exactly_the_amount() {
    let mut w = wallet();
    peg_in(&mut w, 100, 1);
    let paid = w.spend(Amount::new(36)).unwrap();
    assert_eq!(paid.amount(), Some(Amount::new(36)));
    assert_eq!(paid.counts(), vec![0, 0, 1, 0, 0, 1, 0]);
    assert_eq!(w.holdings().amount(), Some(Amount::new(64)));
}

#[test]
fn fetching_a_completed_issuance_again_is_a_no_op() {
    let mut w = wallet();
    let breakdown = w.begin_peg_in(Amount::new(5)).unwrap();
    let requests = lay_out(&breakdown, &seeds(1, 2)).unwrap();
    let tokens = sign_all(&requests, true);
    let again = sign_all(&requests, true);
    w.on_submitted(id(9), requests, SubmitReply::Accepted).unwrap();
    assert!(matches!(w.on_poll(id(9), PollReply::Signed(tokens)), FetchOutcome::Completed(_)));
    let before = w.holdings().slots.clone();
    assert!(matches!(w.on_poll(id(9), PollReply::Signed(again)), FetchOutcome::Ignored));
    assert_eq!(w.holdings().slots, before);
    assert_eq!(w.holdings().coin_count(), Some(2));
}

#[test]
fn rejected_submission_records_nothing() {
    let mut w = wallet();
    let breakdown = w.begin_peg_in(Amount::new(3)).unwrap();
    let requests = lay_out(&breakdown, &seeds(1, 2)).unwrap();
    assert_eq!(
        w.on_submitted(id(1), requests, SubmitReply::Rejected(17)),
        Err(MintError::FederationRejected(17))
    );
    assert_eq!(w.pending(), Vec::<IssuanceId>::new());
    let requests = lay_out(&breakdown, &seeds(1, 2)).unwrap();
    assert_eq!(
        w.on_submitted(id(1), requests, SubmitReply::Unavailable),
        Err(MintError::TransportUnavailable)
    );
    assert_eq!(w.pending(), Vec::<IssuanceId>::new());
}

#[test]
fn poll_rejection_forgets_the_issuance() {
    let mut w = wallet();
    let breakdown = w.begin_peg_in(Amount::new(3)).unwrap();
    let requests = lay_out(&breakdown, &seeds(1, 2)).unwrap();
    w.on_submitted(id(4), requests, SubmitReply::Accepted).unwrap();
    match w.on_poll(id(4), PollReply::Unavailable) {
        FetchOutcome::Failed(e) => assert_eq!(e, MintError::TransportUnavailable),
        other => panic!("unexpected outcome {:?}", other),
    }
    assert_eq!(w.pending(), vec![id(4)]);
    match w.on_poll(id(4), PollReply::Rejected(3)) {
        FetchOutcome::Failed(e) => assert_eq!(e, MintError::FederationRejected(3)),
        other => panic!("unexpected outcome {:?}", other),
    }
    assert_eq!(w.pending(), Vec::<IssuanceId>::new());
    assert!(matches!(w.on_poll(id(4), PollReply::Rejected(3)), FetchOutcome::Ignored));
    assert_eq!(w.holdings().amount(), Some(Amount::new(0)));
}

#[test]
fn one_delayed_issuance_does_not_block_another() {
    let mut w = wallet();
    let b1 = w.begin_peg_in(Amount::new(8)).unwrap();
    let r1 = lay_out(&b1, &seeds(1, 1)).unwrap();
    let b2 = w.begin_peg_in(Amount::new(2)).unwrap();
    let r2 = lay_out(&b2, &seeds(100, 1)).unwrap();
    let t2 = sign_all(&r2, true);
    w.on_submitted(id(1), r1, SubmitReply::Accepted).unwrap();
    w.on_submitted(id(2), r2, SubmitReply::Accepted).unwrap();
    assert_eq!(w.pending(), vec![id(1), id(2)]);
    assert!(matches!(w.on_poll(id(1), PollReply::Pending), FetchOutcome::StillPending));
    assert!(matches!(w.on_poll(id(2), PollReply::Signed(t2)), FetchOutcome::Completed(_)));
    assert_eq!(w.pending(), vec![id(1)]);
    assert_eq!(w.holdings().amount(), Some(Amount::new(2)));
}

#[test]
fn partial_verification_failure_keeps_the_good_coins() {
    let mut w = wallet();
    let breakdown = w.begin_peg_in(Amount::new(7)).unwrap();
    assert_eq!(breakdown, vec![1, 1, 1, 0, 0, 0, 0]);
    let requests = lay_out(&breakdown, &seeds(1, 3)).unwrap();
    let mut tokens = sign_all(&requests, true);
    tokens[1][0].verified = false;
    w.on_submitted(id(1), requests, SubmitReply::Accepted).unwrap();
    match w.on_poll(id(1), PollReply::Signed(tokens)) {
        FetchOutcome::Completed(failed) => {
            assert_eq!(failed, vec![0, 1, 0, 0, 0, 0, 0]);
            assert_eq!(
                verification_failures(&tiers(), &failed),
                vec![MintError::VerificationFailed(2, 1)]
            );
        }
        other => panic!("unexpected outcome {:?}", other),
    }
    assert_eq!(w.holdings().amount(), Some(Amount::new(5)));
    assert_eq!(w.pending(), Vec::<IssuanceId>::new());
}

#[test]
fn tokens_of_the_wrong_shape_are_ignored() {
    let mut w = wallet();
    let breakdown = w.begin_peg_in(Amount::new(3)).unwrap();
    let requests = lay_out(&breakdown, &seeds(1, 2)).unwrap();
    let mut tokens = sign_all(&requests, true);
    tokens[0].pop();
    w.on_submitted(id(1), requests, SubmitReply::Accepted).unwrap();
    assert!(matches!(w.on_poll(id(1), PollReply::Signed(tokens)), FetchOutcome::Ignored));
    assert_eq!(w.pending(), vec![id(1)]);
    assert_eq!(w.holdings().amount(), Some(Amount::new(0)));
}

#[test]
fn peg_in_of_unrepresentable_amount_fails() {
    let w = MintClient::new(TierSet::new(vec![2, 4]).unwrap());
    assert_eq!(w.begin_peg_in(Amount::new(3)), Err(MintError::AmountNotRepresentable));
    assert_eq!(w.begin_peg_in(Amount::new(6)), Ok(vec![1, 1]));
}

#[test]
fn reissue_refuses_malformed_input() {
    let w = wallet();
    let stray = SpendableCoin {
        tier: 2,
        nonce: Nonce { hi: 0, lo: 1 },
        signature: Signature { a: 0, b: 0, c: 0 },
    };
    let mut input = Coins::empty(&tiers());
    input.slots[0].push(stray);
    assert!(!w.entitled(&input));
    assert_eq!(w.begin_reissue(&input), Err(MintError::AmountNotRepresentable));
    let other = Coins::empty(&vec![1, 2]);
    assert_eq!(w.begin_reissue(&other), Err(MintError::AmountNotRepresentable));
    let fine = Coins::empty(&tiers());
    assert!(w.entitled(&fine));
    assert_eq!(w.begin_reissue(&fine), Ok(vec![0; 7]));
}

#[test]
fn lay_out_hands_requests_to_tiers_in_order() {
    let s = seeds(1, 3);
    let laid = lay_out(&vec![1, 0, 2], &s).unwrap();
    assert_eq!(laid, vec![vec![s[0]], vec![], vec![s[1], s[2]]]);
    assert!(lay_out(&vec![1, 0, 2], &seeds(1, 2)).is_none());
    assert!(lay_out(&vec![1, 0, 2], &seeds(1, 4)).is_none());
    assert_eq!(lay_out(&vec![], &seeds(1, 0)), Some(vec![]));
}

#[test]
fn tracker_registers_each_id_once() {
    let mut t = IssuanceTracker::new(&vec![1, 2]);
    assert!(t.register(id(1), vec![seeds(1, 1), vec![]]));
    assert!(!t.register(id(1), vec![vec![], vec![]]));
    assert!(!t.register(id(2), vec![vec![]]));
    assert!(t.register(id(2), vec![vec![], seeds(5, 2)]));
    assert_eq!(t.list_pending(), vec![id(1), id(2)]);
    assert_eq!(t.find(id(2)), Some(1));
    assert_eq!(t.find(id(3)), None);
    assert_eq!(t.breakdown(id(2)), Some(vec![0, 2]));
    assert_eq!(t.breakdown(id(3)), None);
    assert!(t.mark_failed(id(1)));
    assert!(!t.mark_failed(id(1)));
    assert_eq!(t.list_pending(), vec![id(2)]);
}

#[test]
fn tracker_complete_makes_coins_of_verified_tokens() {
    let mut t = IssuanceTracker::new(&vec![1, 2]);
    let requests = vec![seeds(1, 2), seeds(10, 1)];
    let mut tokens = sign_all(&requests, true);
    tokens[0][0].verified = false;
    assert!(t.register(id(1), requests.clone()));
    assert!(t.complete(id(2), &tokens).is_none());
    let done = t.complete(id(1), &tokens).unwrap();
    assert_eq!(done.failed, vec![1, 0]);
    assert_eq!(done.coins.tiers, vec![1, 2]);
    assert_eq!(
        done.coins.slots,
        vec![
            vec![SpendableCoin { tier: 1, nonce: requests[0][1].nonce, signature: tokens[0][1].signature }],
            vec![SpendableCoin { tier: 2, nonce: requests[1][0].nonce, signature: tokens[1][0].signature }],
        ]
    );
    assert!(t.complete(id(1), &tokens).is_none());
    assert_eq!(t.list_pending(), Vec::<IssuanceId>::new());
}

#[test]
fn answers_compares_shapes() {
    let requests = vec![seeds(1, 2), seeds(10, 1)];
    let tokens = sign_all(&requests, true);
    assert!(answers(&requests, &tokens));
    assert!(!answers(&requests, &vec![]));
    assert!(!answers(&vec![seeds(1, 1), seeds(10, 1)], &tokens));
    let (coins, bad) = mint_slot(4, &requests[0], &sign_all(&requests, false)[0]);
    assert_eq!(coins, vec![]);
    assert_eq!(bad, 2);
}

#[test]
fn verification_failures_lists_each_tier_with_failures() {
    assert_eq!(
        verification_failures(&vec![1, 2, 4], &vec![0, 3, 1]),
        vec![MintError::VerificationFailed(2, 3), MintError::VerificationFailed(4, 1)]
    );
    assert_eq!(verification_failures(&vec![1, 2, 4], &vec![0, 0, 0]), vec![]);
}

#[test]
fn text_armour_is_base64() {
    assert_eq!(to_text(&vec![104, 101, 108, 108, 111]), Ok("aGVsbG8=".to_string()));
    assert_eq!(to_text(&vec![]), Ok(String::new()));
    assert_eq!(from_text("aGVsbG8="), Ok(vec![104, 101, 108, 108, 111]));
    assert_eq!(from_text("!!!"), Err(TransferError::Malformed));
    let payload: Vec<u8> = (0u8..=255).collect();
    assert_eq!(from_text(&to_text(&payload).unwrap()), Ok(payload));
}
