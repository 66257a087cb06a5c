use mint_client::amount::Amount;
use mint_client::coins::{Coins, Nonce, Signature, SpendableCoin};
use mint_client::store::CoinStore;

fn coin(tier: u64, n: u128) -> SpendableCoin {
    SpendableCoin {
        tier,
        nonce: Nonce { hi: 0, lo: n },
        signature: Signature { a: n, b: n + 1, c: n + 2 },
    }
}

fn store_with(tiers: &Vec<u64>, coins: &[SpendableCoin]) -> CoinStore {
    let mut store = CoinStore::new(tiers);
    for c in coins {
        assert!(store.insert_coin(*c));
    }
    store
}

#[test]
fn empty_coins_are_worth_nothing() {
    let coins = Coins::empty(&vec![1, 2, 4]);
    assert_eq!(coins.amount(), Some(Amount::new(0)));
    assert_eq!(coins.coin_count(), Some(0));
    assert_eq!(coins.counts(), vec![0, 0, 0]);
}

#[test]
fn amount_is_tier_value_times_count() {
    let tiers = vec![1, 2, 4, 8];
    let store = store_with(&tiers, &[coin(1, 1), coin(1, 2), coin(4, 3), coin(8, 4), coin(8, 5)]);
    assert_eq!(store.holdings().amount(), Some(Amount::new(22)));
    assert_eq!(store.holdings().coin_count(), Some(5));
    assert_eq!(store.holdings().counts(), vec![2, 0, 1, 2]);
}

#[test]
fn insert_refuses_duplicate_nonce_and_unknown_tier() {
    let tiers = vec![1, 2, 4];
    let mut store = CoinStore::new(&tiers);
    assert!(store.insert_coin(coin(2, 7)));
    assert!(!store.insert_coin(coin(2, 7)));
    assert!(!store.insert_coin(coin(4, 7)));
    assert!(!store.insert_coin(coin(3, 8)));
    assert!(store.contains(Nonce { hi: 0, lo: 7 }));
    assert!(!store.contains(Nonce { hi: 1, lo: 7 }));
    assert_eq!(store.holdings().slots, vec![vec![], vec![coin(2, 7)], vec![]]);
}

#[test]
fn inserting_a_batch_twice_changes_nothing() {
    let tiers = vec![1, 2, 4];
    let batch = store_with(&tiers, &[coin(1, 1), coin(4, 2), coin(4, 3)]);
    let mut store = store_with(&tiers, &[coin(2, 9)]);
    store.insert(batch.holdings());
    let once = store.holdings().slots.clone();
    assert_eq!(once, vec![vec![coin(1, 1)], vec![coin(2, 9)], vec![coin(4, 2), coin(4, 3)]]);
    store.insert(batch.holdings());
    assert_eq!(store.holdings().slots, once);
    assert_eq!(store.holdings().amount(), Some(Amount::new(11)));
}

#[test]
fn select_takes_oldest_coins_first() {
    let tiers = vec![1, 2];
    let store = store_with(&tiers, &[coin(1, 1), coin(1, 2), coin(1, 3), coin(2, 4), coin(2, 5)]);
    let picked = store.holdings().select_coins(Amount::new(3)).unwrap();
    assert_eq!(picked.slots, vec![vec![coin(1, 1)], vec![coin(2, 4)]]);
    assert_eq!(picked.tiers, tiers);
    // selecting does not remove
    assert_eq!(store.holdings().coin_count(), Some(5));
}

#[test]
fn select_uses_fewest_coins() {
    let tiers = vec![1, 3, 4];
    let store = store_with(&tiers, &[coin(1, 1), coin(1, 2), coin(1, 3), coin(3, 4), coin(3, 5), coin(4, 6)]);
    let picked = store.holdings().select_coins(Amount::new(6)).unwrap();
    assert_eq!(picked.counts(), vec![0, 2, 0]);
    assert_eq!(picked.coin_count(), Some(2));
}

#[test]
fn select_falls_back_when_greedy_pick_forecloses() {
    let tiers = vec![1, 3, 4];
    // Taking the 4 leaves 2, which a single 1 cannot pay.
    let store = store_with(&tiers, &[coin(1, 1), coin(3, 2), coin(3, 3), coin(4, 4)]);
    let picked = store.holdings().select_coins(Amount::new(6)).unwrap();
    assert_eq!(picked.counts(), vec![0, 2, 0]);
}

#[test]
fn select_of_zero_is_empty() {
    let tiers = vec![1, 2];
    let store = store_with(&tiers, &[coin(1, 1)]);
    let picked = store.holdings().select_coins(Amount::new(0)).unwrap();
    assert_eq!(picked.coin_count(), Some(0));
}

#[test]
fn select_and_remove_takes_the_coins_out() {
    let tiers = vec![1, 2, 4];
    let mut store = store_with(&tiers, &[coin(1, 1), coin(1, 2), coin(2, 3), coin(4, 4), coin(4, 5)]);
    let picked = store.select_and_remove(Amount::new(7)).unwrap();
    assert_eq!(picked.slots, vec![vec![coin(1, 1)], vec![coin(2, 3)], vec![coin(4, 4)]]);
    assert_eq!(store.holdings().slots, vec![vec![coin(1, 2)], vec![], vec![coin(4, 5)]]);
    assert_eq!(picked.amount(), Some(Amount::new(7)));
    assert_eq!(store.holdings().amount(), Some(Amount::new(5)));
}

#[test]
fn removed_nonces_never_come_back_from_a_later_selection() {
    let tiers = vec![1, 2, 4];
    let mut store = store_with(&tiers, &[coin(1, 1), coin(1, 2), coin(2, 3), coin(2, 6), coin(4, 4), coin(4, 5)]);
    let first = store.select_and_remove(Amount::new(7)).unwrap();
    let second = store.select_and_remove(Amount::new(7)).unwrap();
    for slot in &first.slots {
        for c in slot {
            assert!(!store.contains(c.nonce));
            for other in &second.slots {
                for d in other {
                    assert_ne!(c.nonce, d.nonce);
                }
            }
        }
    }
    assert!(store.select_and_remove(Amount::new(7)).is_none());
}

#[test]
fn unpayable_selection_leaves_the_store_untouched() {
    let tiers = vec![1, 2, 4, 8, 16, 32, 64];
    let mut store = store_with(&tiers, &[coin(64, 1), coin(32, 2), coin(4, 3)]);
    let before = store.holdings().slots.clone();
    assert!(store.select_and_remove(Amount::new(50)).is_none());
    assert_eq!(store.holdings().slots, before);
    assert_eq!(store.holdings().amount(), Some(Amount::new(100)));
}

#[test]
fn amount_that_does_not_fit_is_reported() {
    let tiers = vec![1, u64::MAX];
    let store = store_with(&tiers, &[coin(u64::MAX, 1), coin(u64::MAX, 2)]);
    assert_eq!(store.holdings().amount(), None);
    assert_eq!(store.holdings().coin_count(), Some(2));
    let one = store_with(&tiers, &[coin(u64::MAX, 1)]);
    assert_eq!(one.holdings().amount(), Some(Amount::new(u64::MAX)));
    let picked = store.holdings().select_coins(Amount::new(u64::MAX)).unwrap();
    assert_eq!(picked.slots, vec![vec![], vec![coin(u64::MAX, 1)]]);
}

#[test]
fn insert_and_removal_move_the_value() {
    let tiers = vec![1, 2, 4];
    let mut store = CoinStore::new(&tiers);
    assert!(store.insert_coin(coin(4, 1)));
    assert_eq!(store.holdings().amount(), Some(Amount::new(4)));
    assert!(store.insert_coin(coin(2, 2)));
    assert_eq!(store.holdings().amount(), Some(Amount::new(6)));
    assert!(!store.insert_coin(coin(2, 2)));
    assert_eq!(store.holdings().amount(), Some(Amount::new(6)));
    let picked = store.select_and_remove(Amount::new(2)).unwrap();
    assert_eq!(picked.amount(), Some(Amount::new(2)));
    assert_eq!(store.holdings().amount(), Some(Amount::new(4)));
}
