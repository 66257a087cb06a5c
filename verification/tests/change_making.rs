use mint_client::amount::{Amount, MintError};
use mint_client::change::{search, tally, weigh};
use mint_client::tiers::TierSet;

fn powers_of_two(n: u32) -> Vec<u64> {
    let mut v = Vec::new();
    for i in 0..n {
        v.push(1u64 << i);
    }
    v
}

#[test]
fn tier_set_accepts_only_ascending_positive_values() {
    assert!(TierSet::new(vec![1, 2, 4]).is_some());
    assert!(TierSet::new(vec![]).is_some());
    assert!(TierSet::new(vec![0, 1]).is_none());
    assert!(TierSet::new(vec![2, 2]).is_none());
    assert!(TierSet::new(vec![3, 1]).is_none());
    assert_eq!(TierSet::new(vec![5, 7]).unwrap().values(), vec![5, 7]);
}

#[test]
fn decompose_hundred_over_powers_of_two() {
    let tiers = TierSet::new(powers_of_two(7)).unwrap();
    let counts = tiers.decompose(Amount::new(100)).unwrap();
    assert_eq!(counts, vec![0, 0, 1, 0, 0, 1, 1]);
}

#[test]
fn decompose_zero_is_the_empty_breakdown() {
    let tiers = TierSet::new(powers_of_two(4)).unwrap();
    assert_eq!(tiers.decompose(Amount::new(0)).unwrap(), vec![0, 0, 0, 0]);
}

#[test]
fn decompose_sums_to_the_amount() {
    let tiers = TierSet::new(vec![3, 5, 11]).unwrap();
    for amount in 0u64..200 {
        match tiers.decompose(Amount::new(amount)) {
            Ok(counts) => {
                assert_eq!(weigh(&tiers.values, &counts), Some(amount));
            }
            Err(e) => {
                assert_eq!(e, MintError::AmountNotRepresentable);
                assert!(amount == 1 || amount == 2 || amount == 4 || amount == 7);
            }
        }
    }
}

#[test]
fn decompose_finds_what_greedy_misses() {
    let tiers = TierSet::new(vec![3, 5]).unwrap();
    assert_eq!(tiers.decompose(Amount::new(9)).unwrap(), vec![3, 0]);
    assert_eq!(tiers.decompose(Amount::new(8)).unwrap(), vec![1, 1]);
}

#[test]
fn decompose_fails_when_not_representable() {
    let tiers = TierSet::new(vec![3, 5]).unwrap();
    assert_eq!(tiers.decompose(Amount::new(7)), Err(MintError::AmountNotRepresentable));
    assert_eq!(tiers.decompose(Amount::new(7)), Err(MintError::AmountNotRepresentable));
    let none = TierSet::new(vec![]).unwrap();
    assert_eq!(none.decompose(Amount::new(1)), Err(MintError::AmountNotRepresentable));
}

#[test]
fn decompose_uses_fewest_coins() {
    let tiers = TierSet::new(vec![1, 3, 4]).unwrap();
    // 4 + 1 + 1 would be three coins; 3 + 3 is two.
    assert_eq!(tiers.decompose(Amount::new(6)).unwrap(), vec![0, 2, 0]);
}

#[test]
fn decompose_breaks_ties_towards_larger_tiers() {
    let tiers = TierSet::new(vec![1, 2, 3, 4]).unwrap();
    // 4 + 1 and 3 + 2 both take two coins.
    assert_eq!(tiers.decompose(Amount::new(5)).unwrap(), vec![1, 0, 0, 1]);
}

#[test]
fn decompose_large_amount() {
    let tiers = TierSet::new(powers_of_two(32)).unwrap();
    let counts = tiers.decompose(Amount::new(1_000_000)).unwrap();
    assert_eq!(weigh(&tiers.values, &counts), Some(1_000_000));
    assert_eq!(tally(&counts), Some(7));
}

#[test]
fn search_respects_caps_and_budget() {
    let values = vec![1, 2, 4, 8];
    let caps = vec![3, 0, 1, 1];
    // 8 + 1 + 1 is the only way to 10 without a coin of 2.
    let p = search(&values, &caps, 4, 10, u64::MAX).unwrap();
    assert_eq!(p.counts, vec![2, 0, 0, 1]);
    assert_eq!(p.coins, 3);
    assert!(search(&values, &caps, 4, 10, 2).is_none());
    assert!(search(&values, &caps, 4, 16, u64::MAX).is_none());
    assert_eq!(search(&values, &caps, 4, 6, u64::MAX).unwrap().counts, vec![2, 0, 1, 0]);
    assert_eq!(search(&values, &caps, 0, 0, 0).unwrap().counts, Vec::<u64>::new());
    assert!(search(&values, &caps, 0, 1, 5).is_none());
}

#[test]
fn weigh_and_tally_report_overflow() {
    assert_eq!(weigh(&vec![1, 10], &vec![2, 3]), Some(32));
    assert_eq!(weigh(&vec![u64::MAX, 2], &vec![1, 1]), None);
    assert_eq!(weigh(&vec![u64::MAX], &vec![1]), Some(u64::MAX));
    assert_eq!(tally(&vec![2, 3, 0]), Some(5));
    assert_eq!(tally(&vec![u64::MAX, 1]), None);
}

#[test]
fn amount_arithmetic_rejects_overflow() {
    let a = Amount::new(7);
    let b = Amount::new(5);
    assert_eq!(a.checked_add(b), Some(Amount::new(12)));
    assert_eq!(a.checked_sub(b), Some(Amount::new(2)));
    assert_eq!(b.checked_sub(a), None);
    assert_eq!(Amount::new(u64::MAX).checked_add(Amount::new(1)), None);
    assert_eq!(Amount::new(u64::MAX).checked_add(Amount::new(0)), Some(Amount::new(u64::MAX)));
    assert!(b.less_than(a));
    assert!(!a.less_than(a));
    assert_eq!(a.units(), 7);
}

#[test]
fn search_agrees_with_exhaustive_enumeration() {
    let values: Vec<u64> = vec![1, 3, 4, 9];
    let caps: Vec<u64> = vec![2, 2, 2, 1];
    for target in 0u64..=32 {
        // Every count vector within the caps, largest denomination outermost
        // and counting down, so that of equally small payments the first
        // one met is the one that uses more of the larger denominations.
        let mut best: Option<(u64, Vec<u64>)> = None;
        for d in (0..=caps[3]).rev() {
            for c in (0..=caps[2]).rev() {
                for b in (0..=caps[1]).rev() {
                    for a in (0..=caps[0]).rev() {
                        if a + 3 * b + 4 * c + 9 * d == target {
                            let coins = a + b + c + d;
                            let better = match &best {
                                None => true,
                                Some((n, _)) => coins < *n,
                            };
                            if better {
                                best = Some((coins, vec![a, b, c, d]));
                            }
                        }
                    }
                }
            }
        }
        let found = search(&values, &caps, 4, target, u64::MAX);
        match best {
            None => assert!(found.is_none()),
            Some((coins, counts)) => {
                let p = found.unwrap();
                assert_eq!(p.coins, coins);
                assert_eq!(p.counts, counts);
            }
        }
    }
}
