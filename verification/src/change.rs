//! Exact change-making over an ascending set of denominations.
//!
//! A payment is described by a vector of counts, one per denomination. The
//! search below finds, among all count vectors that pay a target exactly and
//! respect the available number of coins per denomination, the one with the
//! fewest coins; ties go to the vector that uses more of the larger
//! denominations.

use vstd::prelude::*;

verus! {

/// Face value of `counts[j]` coins of value `values[j]`, summed over the
/// positions of `counts`.
pub open spec fn face_sum(values: Seq<u64>, counts: Seq<u64>) -> int
    decreases counts.len(),
{
    if counts.len() == 0 {
        0
    } else {
        face_sum(values, counts.drop_last()) + values[counts.len() - 1] * counts.last()
    }
}

/// Number of coins in `counts`.
pub open spec fn coin_total(counts: Seq<u64>) -> int
    decreases counts.len(),
{
    if counts.len() == 0 {
        0
    } else {
        coin_total(counts.drop_last()) + counts.last()
    }
}

/// No position of `counts` takes more coins than `caps` offers.
pub open spec fn within(caps: Seq<u64>, counts: Seq<u64>) -> bool {
    forall|j: int| 0 <= j < counts.len() ==> counts[j] <= caps[j]
}

/// `counts` pays exactly `target` out of the `n` smallest denominations.
pub open spec fn pays(values: Seq<u64>, caps: Seq<u64>, n: int, target: int, counts: Seq<u64>) -> bool {
    &&& counts.len() == n
    &&& within(caps, counts)
    &&& face_sum(values, counts) == target
}

/// Denominations are positive and strictly ascending.
pub open spec fn ascending(values: Seq<u64>) -> bool {
    &&& forall|i: int| 0 <= i < values.len() ==> values[i] > 0
    &&& forall|i: int, j: int| 0 <= i < j < values.len() ==> values[i] < values[j]
}

/// `c` uses at least as much of the larger denominations as `d`: reading from
/// the largest denomination down, the first difference is in favour of `c`.
pub open spec fn top_heavy(c: Seq<u64>, d: Seq<u64>) -> bool
    decreases c.len(),
{
    c.len() == d.len() && (c.len() == 0 || c.last() > d.last() || (c.last() == d.last()
        && top_heavy(c.drop_last(), d.drop_last())))
}

/// `c` is preferred to `d`: fewer coins, or as many and top-heavy.
pub open spec fn preferred(c: Seq<u64>, d: Seq<u64>) -> bool {
    coin_total(c) < coin_total(d) || (coin_total(c) == coin_total(d) && top_heavy(c, d))
}

/// What a search that ended with `best` under a coin budget says about a
/// paying vector `d`: it is no better than `best`, or it exceeds the budget.
pub open spec fn settled(best: Option<Seq<u64>>, budget: int, d: Seq<u64>) -> bool {
    match best {
        Some(b) => preferred(b, d),
        None => coin_total(d) > budget,
    }
}

/// A way to pay: how many coins of each denomination, and how many in all.
pub struct Payment {
    pub counts: Vec<u64>,
    pub coins: u64,
}

/// The counts of a search result.
pub open spec fn counts_view(r: Option<Payment>) -> Option<Seq<u64>> {
    match r {
        Some(p) => Some(p.counts@),
        None => None,
    }
}

/// Face value and number of coins are never negative.
pub proof fn lemma_sums_nonnegative(values: Seq<u64>, counts: Seq<u64>)
    ensures
        face_sum(values, counts) >= 0,
        coin_total(counts) >= 0,
    decreases counts.len(),
{
    if counts.len() > 0 {
        lemma_sums_nonnegative(values, counts.drop_last());
        assert(values[counts.len() - 1] * counts.last() >= 0) by (nonlinear_arith)
            requires
                values[counts.len() - 1] >= 0,
                counts.last() >= 0,
        ;
    }
}

/// With positive denominations a payment never has more coins than units.
pub proof fn lemma_total_le_face(values: Seq<u64>, counts: Seq<u64>)
    requires
        ascending(values),
        counts.len() <= values.len(),
    ensures
        coin_total(counts) <= face_sum(values, counts),
    decreases counts.len(),
{
    if counts.len() > 0 {
        lemma_total_le_face(values, counts.drop_last());
        let v = values[counts.len() - 1];
        let k = counts.last();
        assert(v * k >= k) by (nonlinear_arith)
            requires
                v >= 1,
                k >= 0,
        ;
    }
}

/// A payment is worth at most its number of coins times the largest
/// denomination it may use.
pub proof fn lemma_face_le_total_times_top(values: Seq<u64>, counts: Seq<u64>, top: int)
    requires
        ascending(values),
        counts.len() <= values.len(),
        forall|j: int| 0 <= j < counts.len() ==> values[j] <= top,
    ensures
        face_sum(values, counts) <= coin_total(counts) * top,
    decreases counts.len(),
{
    if counts.len() > 0 {
        let rest = counts.drop_last();
        lemma_face_le_total_times_top(values, rest, top);
        let v = values[counts.len() - 1];
        let k = counts.last();
        let t = coin_total(rest);
        assert(v * k + t * top <= (t + k) * top) by (nonlinear_arith)
            requires
                0 <= v <= top,
                k >= 0,
        ;
    }
}

/// The sums over a prefix of `counts` do not exceed the sums over all of it.
pub proof fn lemma_prefix_sums(values: Seq<u64>, counts: Seq<u64>, j: int)
    requires
        0 <= j <= counts.len(),
    ensures
        face_sum(values, counts.take(j)) <= face_sum(values, counts),
        coin_total(counts.take(j)) <= coin_total(counts),
    decreases counts.len(),
{
    if j < counts.len() {
        lemma_prefix_sums(values, counts.drop_last(), j);
        assert(counts.drop_last().take(j) =~= counts.take(j));
        assert(values[counts.len() - 1] * counts.last() >= 0) by (nonlinear_arith)
            requires
                values[counts.len() - 1] >= 0,
                counts.last() >= 0,
        ;
    } else {
        assert(counts.take(j) =~= counts);
    }
}

/// Counts that split position by position split the sums.
pub proof fn lemma_sums_split(values: Seq<u64>, whole: Seq<u64>, a: Seq<u64>, b: Seq<u64>)
    requires
        a.len() == whole.len(),
        b.len() == whole.len(),
        forall|j: int| 0 <= j < whole.len() ==> whole[j] == a[j] + b[j],
    ensures
        face_sum(values, whole) == face_sum(values, a) + face_sum(values, b),
        coin_total(whole) == coin_total(a) + coin_total(b),
    decreases whole.len(),
{
    if whole.len() > 0 {
        lemma_sums_split(values, whole.drop_last(), a.drop_last(), b.drop_last());
        let v = values[whole.len() - 1];
        assert(v * whole.last() == v * a.last() + v * b.last()) by (nonlinear_arith)
            requires
                whole.last() == a.last() + b.last(),
        ;
    }
}

/// One more coin at position `s` adds the value of that position.
pub proof fn lemma_sums_bump(values: Seq<u64>, counts: Seq<u64>, more: Seq<u64>, s: int)
    requires
        0 <= s < counts.len(),
        more.len() == counts.len(),
        more[s] == counts[s] + 1,
        forall|j: int| 0 <= j < counts.len() && j != s ==> more[j] == counts[j],
    ensures
        face_sum(values, more) == face_sum(values, counts) + values[s],
        coin_total(more) == coin_total(counts) + 1,
    decreases counts.len(),
{
    let v = values[counts.len() - 1];
    if s == counts.len() - 1 {
        assert(more.drop_last() =~= counts.drop_last());
        assert(v * more.last() == v * counts.last() + v) by (nonlinear_arith)
            requires
                more.last() == counts.last() + 1,
        ;
    } else {
        lemma_sums_bump(values, counts.drop_last(), more.drop_last(), s);
    }
}

/// The arithmetic behind abandoning the search at count `k` of the top
/// denomination `v`: if even `room - k` coins of value at most `below`
/// cannot cover what is left at `k`, they cannot at any smaller count `j`.
pub proof fn lemma_cut(target: int, v: int, below: int, room: int, k: int, j: int, t: int, f: int)
    requires
        0 <= j <= k,
        0 <= below <= v,
        0 <= t,
        f <= t * below,
        target == f + v * j,
        target - v * k > (room - k) * below,
    ensures
        t + j > room,
{
    if t + j <= room {
        assert(t * below <= (room - j) * below) by (nonlinear_arith)
            requires
                t <= room - j,
                below >= 0,
        ;
        assert((room - j) * below + v * j <= (room - k) * below + v * k) by (nonlinear_arith)
            requires
                0 <= j <= k,
                0 <= below <= v,
        ;
    }
}

/// Searches the `n` smallest denominations for the preferred way to pay
/// `target` with at most `budget` coins. `None` means that no way to pay
/// `target` stays within the budget.
pub fn search(values: &Vec<u64>, caps: &Vec<u64>, n: usize, target: u64, budget: u64) -> (r: Option<Payment>)
    requires
        ascending(values@),
        caps.len() == values.len(),
        n <= values.len(),
    ensures
        r matches Some(p) ==> pays(values@, caps@, n as int, target as int, p.counts@)
            && p.coins == coin_total(p.counts@) && p.coins <= budget,
        forall|d: Seq<u64>| #[trigger] pays(values@, caps@, n as int, target as int, d) ==> settled(counts_view(r), budget as int, d),
    decreases n,
{
    if n == 0 {
        if target == 0 {
            let c: Vec<u64> = Vec::new();
            proof {
                assert forall|d: Seq<u64>| #[trigger] pays(values@, caps@, 0, 0, d) implies settled(Some(c@), budget as int, d) by {
                    assert(d =~= c@);
                }
            }
            return Some(Payment { counts: c, coins: 0 });
        } else {
            return None;
        }
    }
    let v: u64 = values[n - 1];
    let below: u64 = if n >= 2 { values[n - 2] } else { 0 };
    let by_value: u64 = target / v;
    let by_cap: u64 = if caps[n - 1] < by_value { caps[n - 1] } else { by_value };
    let max_k: u64 = if budget < by_cap { budget } else { by_cap };
    let mut k: u64 = max_k;
    let mut done: bool = false;
    let mut best: Option<Payment> = None;
    let mut room: u64 = budget;
    proof {
        assert forall|d: Seq<u64>| #[trigger] pays(values@, caps@, n as int, target as int, d) && d.last() > k implies settled(None, budget as int, d) by {
            lemma_sums_nonnegative(values@, d.drop_last());
            if d.last() <= caps[n - 1] && d.last() <= budget {
                assert(d.last() > by_value);
                assert(v * d.last() > target) by (nonlinear_arith)
                    requires
                        d.last() > target / v,
                        v > 0,
                        target >= 0,
                ;
            }
        }
    }
    while !done
        invariant
            ascending(values@),
            caps.len() == values.len(),
            1 <= n <= values.len(),
            v == values[n - 1],
            n >= 2 ==> below == values[n - 2],
            n == 1 ==> below == 0,
            by_value == target / v,
            k <= by_value,
            k <= caps[n - 1],
            room <= budget,
            best matches Some(b) ==> pays(values@, caps@, n as int, target as int, b.counts@)
                && b.coins == coin_total(b.counts@) && b.coins <= budget,
            !done ==> (best matches Some(b) ==> b.coins == room + 1 && b.counts@.last() > k),
            !done ==> (best is None ==> room == budget),
            !done ==> k <= room,
            forall|d: Seq<u64>| #[trigger] pays(values@, caps@, n as int, target as int, d) && (done || d.last() > k) ==> settled(counts_view(best), budget as int, d),
        decreases k + (if done { 0int } else { 1int }),
    {
        assert(v * k <= target) by (nonlinear_arith)
            requires
                k <= target / v,
                v > 0,
                target >= 0,
        ;
        let rem: u64 = target - v * k;
        let spare: u64 = room - k;
        assert(spare * below <= 0xFFFF_FFFF_FFFF_FFFF * 0xFFFF_FFFF_FFFF_FFFF) by (nonlinear_arith)
            requires
                0 <= spare <= 0xFFFF_FFFF_FFFF_FFFF,
                0 <= below <= 0xFFFF_FFFF_FFFF_FFFF,
        ;
        let reach: u128 = (spare as u128) * (below as u128);
        if (rem as u128) > reach {
            proof {
                assert forall|d: Seq<u64>| #[trigger] pays(values@, caps@, n as int, target as int, d) && d.last() <= k implies settled(counts_view(best), budget as int, d) by {
                    let rest = d.drop_last();
                    lemma_sums_nonnegative(values@, rest);
                    lemma_face_le_total_times_top(values@, rest, below as int);
                    lemma_cut(target as int, v as int, below as int, room as int, k as int, d.last() as int, coin_total(rest), face_sum(values@, rest));
                }
            }
            done = true;
        } else {
            let sub = search(values, caps, n - 1, rem, spare);
            let ghost prev = counts_view(best);
            match sub {
                Some(found) => {
                    let ghost inner = found.counts@;
                    let mut c = found.counts;
                    c.push(k);
                    let coins: u64 = found.coins + k;
                    proof {
                        assert(c@.drop_last() =~= inner);
                        assert(c@.last() == k);
                        assert(within(caps@, c@));
                        assert forall|d: Seq<u64>| #[trigger] pays(values@, caps@, n as int, target as int, d) && d.last() >= k implies settled(Some(c@), budget as int, d) by {
                            if d.last() == k {
                                assert(pays(values@, caps@, n - 1, rem as int, d.drop_last()));
                            } else {
                                assert(settled(prev, budget as int, d));
                            }
                        }
                    }
                    best = Some(Payment { counts: c, coins });
                    if k == 0 {
                        done = true;
                    } else {
                        room = coins - 1;
                        k = k - 1;
                    }
                },
                None => {
                    proof {
                        assert forall|d: Seq<u64>| #[trigger] pays(values@, caps@, n as int, target as int, d) && d.last() >= k implies settled(prev, budget as int, d) by {
                            if d.last() == k {
                                assert(pays(values@, caps@, n - 1, rem as int, d.drop_last()));
                            }
                        }
                    }
                    if k == 0 {
                        done = true;
                    } else {
                        k = k - 1;
                    }
                },
            }
        }
    }
    best
}

/// The face value of `counts`, unless it does not fit.
pub fn weigh(values: &Vec<u64>, counts: &Vec<u64>) -> (r: Option<u64>)
    requires
        counts.len() <= values.len(),
    ensures
        face_sum(values@, counts@) <= u64::MAX ==> r == Some(face_sum(values@, counts@) as u64),
        face_sum(values@, counts@) > u64::MAX ==> r is None,
{
    let mut acc: u64 = 0;
    let mut j: usize = 0;
    while j < counts.len()
        invariant
            j <= counts.len() <= values.len(),
            acc == face_sum(values@, counts@.take(j as int)),
        decreases counts.len() - j,
    {
        let v: u64 = values[j];
        let k: u64 = counts[j];
        assert(v * k <= 0xFFFF_FFFF_FFFF_FFFF * 0xFFFF_FFFF_FFFF_FFFF) by (nonlinear_arith)
            requires
                0 <= v <= 0xFFFF_FFFF_FFFF_FFFF,
                0 <= k <= 0xFFFF_FFFF_FFFF_FFFF,
        ;
        let sum: u128 = (acc as u128) + (v as u128) * (k as u128);
        proof {
            assert(counts@.take(j + 1).drop_last() =~= counts@.take(j as int));
            lemma_prefix_sums(values@, counts@, j + 1);
        }
        if sum > 0xFFFF_FFFF_FFFF_FFFF {
            return None;
        }
        acc = sum as u64;
        j = j + 1;
    }
    assert(counts@.take(j as int) =~= counts@);
    Some(acc)
}

/// The number of coins in `counts`, unless it does not fit.
pub fn tally(counts: &Vec<u64>) -> (r: Option<u64>)
    ensures
        coin_total(counts@) <= u64::MAX ==> r == Some(coin_total(counts@) as u64),
        coin_total(counts@) > u64::MAX ==> r is None,
{
    let mut acc: u64 = 0;
    let mut j: usize = 0;
    while j < counts.len()
        invariant
            j <= counts.len(),
            acc == coin_total(counts@.take(j as int)),
        decreases counts.len() - j,
    {
        let k: u64 = counts[j];
        proof {
            assert(counts@.take(j + 1).drop_last() =~= counts@.take(j as int));
            lemma_prefix_sums(counts@, counts@, j + 1);
        }
        if k > u64::MAX - acc {
            return None;
        }
        acc = acc + k;
        j = j + 1;
    }
    assert(counts@.take(j as int) =~= counts@);
    Some(acc)
}

} // verus!
