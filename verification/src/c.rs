//! Coins in a box: given the total weight of the coins and the kinds of
//! coin on the market, find the least and the greatest total value the box
//! can hold, each with a number of coins of every kind that reaches it.
use vstd::prelude::*;
use crate::scan::{digits_value, is_digit};

verus! {

/// A kind of coin: (weight, value).
pub type Coin = (u32, u32);

/// The largest value or weight of a coin.
pub const VMAX: u64 = 0xFFFF_FFFF;

/// The answer for a weight that coins can make up.
pub struct Ans {
    /// The least total value.
    pub p_min: u64,
    /// How many coins of each kind make up the least value.
    pub min_coins: Vec<u32>,
    /// The greatest total value.
    pub p_max: u64,
    /// How many coins of each kind make up the greatest value.
    pub max_coins: Vec<u32>,
}

/// `sum_{c < n} h[c] * weight(cs[c])`
pub open spec fn weight_of(cs: Seq<Coin>, h: Seq<int>, n: nat) -> int
    decreases n,
{
    if n == 0 {
        0
    } else {
        weight_of(cs, h, (n - 1) as nat) + h[n - 1] * cs[n - 1].0
    }
}

/// `sum_{c < n} h[c] * value(cs[c])`
pub open spec fn value_of(cs: Seq<Coin>, h: Seq<int>, n: nat) -> int
    decreases n,
{
    if n == 0 {
        0
    } else {
        value_of(cs, h, (n - 1) as nat) + h[n - 1] * cs[n - 1].1
    }
}

/// The total value of the coins counted by `h`.
pub open spec fn total_value(cs: Seq<Coin>, h: Seq<int>) -> int {
    value_of(cs, h, cs.len())
}

/// `h` counts coins of the kinds in `cs` (a count for each kind, none
/// negative), and their total weight is `mass`.
pub open spec fn fills(cs: Seq<Coin>, h: Seq<int>, mass: int) -> bool {
    &&& h.len() == cs.len()
    &&& forall|c: int| 0 <= c < h.len() ==> 0 <= #[trigger] h[c]
    &&& weight_of(cs, h, cs.len()) == mass
}

/// Some coins of the kinds in `cs` weigh `mass` together.
pub open spec fn can_fill(cs: Seq<Coin>, mass: int) -> bool {
    exists|h: Seq<int>| fills(cs, h, mass)
}

/// A histogram read as integers.
pub open spec fn counts(v: Seq<u32>) -> Seq<int> {
    v.map_values(|x: u32| x as int)
}

/// A coin that weighs nothing is worth nothing (else the greatest value
/// would be unbounded).
pub open spec fn weightless_worthless(cs: Seq<Coin>) -> bool {
    forall|c: int| 0 <= c < cs.len() ==> #[trigger] cs[c].0 == 0 ==> cs[c].1 == 0
}

/// What `knapsack` returns for `mass` and the coins `cs`.
pub open spec fn knapsack_answer(cs: Seq<Coin>, mass: int, res: Option<Ans>) -> bool {
    match res {
        None => !can_fill(cs, mass),
        Some(a) => {
            &&& fills(cs, counts(a.min_coins@), mass)
            &&& fills(cs, counts(a.max_coins@), mass)
            &&& a.p_min == total_value(cs, counts(a.min_coins@))
            &&& a.p_max == total_value(cs, counts(a.max_coins@))
            &&& forall|h: Seq<int>|
                #[trigger] fills(cs, h, mass) ==> a.p_min <= total_value(cs, h) <= a.p_max
        },
    }
}

// ---------------------------------------------------------------------
// Facts about the sums
// ---------------------------------------------------------------------

/// Adding `d` coins of kind `c` adds `d` times its weight and value.
proof fn lemma_add_coins(cs: Seq<Coin>, h: Seq<int>, n: nat, c: int, d: int)
    requires
        0 <= c < h.len(),
        n <= h.len(),
    ensures
        weight_of(cs, h.update(c, h[c] + d), n) == weight_of(cs, h, n) + if c < n {
            d * cs[c].0
        } else {
            0
        },
        value_of(cs, h.update(c, h[c] + d), n) == value_of(cs, h, n) + if c < n {
            d * cs[c].1
        } else {
            0
        },
    decreases n,
{
    if n > 0 {
        lemma_add_coins(cs, h, (n - 1) as nat, c, d);
        let h2 = h.update(c, h[c] + d);
        if c == n - 1 {
            assert(h2[n - 1] * cs[n - 1].0 == h[n - 1] * cs[n - 1].0 + d * cs[c].0)
                by (nonlinear_arith)
                requires
                    h2[n - 1] == h[n - 1] + d,
                    c == n - 1,
            ;
            assert(h2[n - 1] * cs[n - 1].1 == h[n - 1] * cs[n - 1].1 + d * cs[c].1)
                by (nonlinear_arith)
                requires
                    h2[n - 1] == h[n - 1] + d,
                    c == n - 1,
            ;
        }
    }
}

/// No coins weigh and are worth nothing.
proof fn lemma_zero_hist(cs: Seq<Coin>, n: nat)
    requires
        n <= cs.len(),
    ensures
        weight_of(cs, Seq::new(cs.len(), |c: int| 0int), n) == 0,
        value_of(cs, Seq::new(cs.len(), |c: int| 0int), n) == 0,
    decreases n,
{
    if n > 0 {
        lemma_zero_hist(cs, (n - 1) as nat);
    }
}

/// Coins that weigh something hold a coin of a kind that weighs something.
proof fn lemma_heavy_coin(cs: Seq<Coin>, h: Seq<int>, n: nat)
    requires
        n <= h.len(),
        n <= cs.len(),
        forall|c: int| 0 <= c < h.len() ==> 0 <= #[trigger] h[c],
        weight_of(cs, h, n) != 0,
    ensures
        exists|c: int| 0 <= c < n && h[c] >= 1 && #[trigger] cs[c].0 >= 1,
    decreases n,
{
    if n > 0 {
        let c = n - 1;
        if h[c] >= 1 && cs[c].0 >= 1 {
        } else {
            assert(h[c] * cs[c].0 == 0) by (nonlinear_arith)
                requires
                    h[c] == 0 || cs[c].0 == 0,
            ;
            lemma_heavy_coin(cs, h, (n - 1) as nat);
        }
    }
}

/// Worthless coins aside, the value is at most `VMAX` per unit of weight.
proof fn lemma_value_bound(cs: Seq<Coin>, h: Seq<int>, n: nat)
    requires
        n <= h.len(),
        n <= cs.len(),
        weightless_worthless(cs),
        forall|c: int| 0 <= c < h.len() ==> 0 <= #[trigger] h[c],
    ensures
        0 <= value_of(cs, h, n) <= weight_of(cs, h, n) * VMAX,
        0 <= weight_of(cs, h, n),
    decreases n,
{
    if n > 0 {
        lemma_value_bound(cs, h, (n - 1) as nat);
        let c = n - 1;
        let k = h[c];
        let w = cs[c].0 as int;
        let v = cs[c].1 as int;
        assert(0 <= k);
        assert(0 <= k * v <= k * w * VMAX) by (nonlinear_arith)
            requires
                0 <= k,
                0 <= v <= VMAX,
                w == 0 ==> v == 0,
                0 <= w,
        ;
        assert(0 <= k * w) by (nonlinear_arith)
            requires
                0 <= k,
                0 <= w,
        ;
        assert(weight_of(cs, h, n) * VMAX == weight_of(cs, h, (n - 1) as nat) * VMAX + k * w
            * VMAX) by (nonlinear_arith)
            requires
                weight_of(cs, h, n) == weight_of(cs, h, (n - 1) as nat) + k * w,
        ;
    }
}

// ---------------------------------------------------------------------
// The chain of last coins
// ---------------------------------------------------------------------

/// The coins counted by following the chain of last coins down from `t`:
/// the last coin added to reach `t` is `last[t]`.
pub open spec fn chain(cs: Seq<Coin>, last: Seq<usize>, t: nat) -> Seq<int>
    decreases t,
{
    if t == 0 || t >= last.len() || last[t as int] >= cs.len() || cs[last[t as int] as int].0
        == 0 || cs[last[t as int] as int].0 > t {
        Seq::new(cs.len(), |c: int| 0int)
    } else {
        let c = last[t as int] as int;
        let prev = chain(cs, last, (t - cs[c].0) as nat);
        prev.update(c, prev[c] + 1)
    }
}

/// The chain from `t` is made of valid steps all the way down to 0.
pub open spec fn chain_ok(cs: Seq<Coin>, last: Seq<usize>, t: nat) -> bool
    decreases t,
{
    if t == 0 {
        true
    } else if t >= last.len() || last[t as int] >= cs.len() || cs[last[t as int] as int].0 == 0
        || cs[last[t as int] as int].0 > t {
        false
    } else {
        chain_ok(cs, last, (t - cs[last[t as int] as int].0) as nat)
    }
}

/// The chain from `t` counts coins weighing `t`.
proof fn lemma_chain_fills(cs: Seq<Coin>, last: Seq<usize>, t: nat)
    requires
        chain_ok(cs, last, t),
    ensures
        fills(cs, chain(cs, last, t), t as int),
        forall|c: int| 0 <= c < cs.len() ==> #[trigger] chain(cs, last, t)[c] <= t,
    decreases t,
{
    if t == 0 {
        lemma_zero_hist(cs, cs.len());
    } else {
        let c = last[t as int] as int;
        let p = (t - cs[c].0) as nat;
        lemma_chain_fills(cs, last, p);
        let prev = chain(cs, last, p);
        lemma_add_coins(cs, prev, cs.len(), c, 1);
    }
}

/// Changing `last` above `t` leaves the chain from `t` alone.
proof fn lemma_chain_frame(cs: Seq<Coin>, last: Seq<usize>, t: nat, u: int, c: usize)
    requires
        t < u < last.len(),
    ensures
        chain(cs, last.update(u, c), t) == chain(cs, last, t),
        chain_ok(cs, last.update(u, c), t) == chain_ok(cs, last, t),
    decreases t,
{
    if t > 0 {
        let l2 = last.update(u, c);
        assert(l2[t as int] == last[t as int]);
        if last[t as int] < cs.len() && cs[last[t as int] as int].0 != 0 && cs[last[t as int] as int].0
            <= t {
            lemma_chain_frame(cs, last, (t - cs[last[t as int] as int].0) as nat, u, c);
        }
    }
}

/// Follows the chain of last coins down from `mass`, counting the coins of
/// each kind.
fn get_coins(arr: &Vec<usize>, mass: usize, cs: &[Coin]) -> (coins: Vec<u32>)
    requires
        mass <= u32::MAX,
        chain_ok(cs@, arr@, mass as nat),
    ensures
        counts(coins@) == chain(cs@, arr@, mass as nat),
{
    let n = cs.len();
    let mut coins: Vec<u32> = Vec::new();
    let mut k: usize = 0;
    while k < n
        invariant
            n == cs.len(),
            k <= n,
            coins.len() == k,
            forall|c: int| 0 <= c < k ==> coins@[c] == 0,
        decreases n - k,
    {
        coins.push(0);
        k += 1;
    }
    proof {
        lemma_chain_fills(cs@, arr@, mass as nat);
    }
    let ghost target = chain(cs@, arr@, mass as nat);
    let mut prev_weight = mass;
    while prev_weight > 0
        invariant
            n == cs.len(),
            mass <= u32::MAX,
            prev_weight <= mass,
            coins.len() == n,
            target == chain(cs@, arr@, mass as nat),
            target.len() == n,
            forall|c: int| 0 <= c < n ==> #[trigger] target[c] <= mass,
            chain_ok(cs@, arr@, prev_weight as nat),
            chain(cs@, arr@, prev_weight as nat).len() == n,
            forall|c: int| 0 <= c < n ==> 0 <= #[trigger] chain(cs@, arr@, prev_weight as nat)[c],
            forall|c: int|
                0 <= c < n ==> coins@[c] + #[trigger] chain(cs@, arr@, prev_weight as nat)[c]
                    == target[c],
        decreases prev_weight,
    {
        let prev_coin = arr[prev_weight];
        let ghost before = chain(cs@, arr@, prev_weight as nat);
        let ghost after = chain(cs@, arr@, (prev_weight - cs@[prev_coin as int].0) as nat);
        proof {
            lemma_chain_fills(cs@, arr@, (prev_weight - cs@[prev_coin as int].0) as nat);
            assert(before == after.update(prev_coin as int, after[prev_coin as int] + 1));
            assert(coins@[prev_coin as int] + before[prev_coin as int] == target[prev_coin as int]);
        }
        coins.set(prev_coin, coins[prev_coin] + 1);
        prev_weight -= cs[prev_coin].0 as usize;
        proof {
            assert forall|c: int| 0 <= c < n implies coins@[c] + #[trigger] chain(
                cs@,
                arr@,
                prev_weight as nat,
            )[c] == target[c] by {
                if c != prev_coin {
                    assert(before[c] == after[c]);
                }
            }
        }
    }
    proof {
        assert forall|c: int| 0 <= c < n implies coins@[c] == target[c] by {
            assert(chain(cs@, arr@, 0)[c] == 0);
        }
        assert(counts(coins@) =~= target);
    }
    coins
}

// ---------------------------------------------------------------------
// The dynamic programme
// ---------------------------------------------------------------------

/// What the tables hold for weight `u`: whether coins can make it up, and
/// if so the least and greatest value, each reached by its chain.
spec fn entry_ok(
    cs: Seq<Coin>,
    reach: Seq<bool>,
    dp_min: Seq<u64>,
    dp_max: Seq<u64>,
    last_min: Seq<usize>,
    last_max: Seq<usize>,
    u: int,
) -> bool {
    &&& reach[u] == can_fill(cs, u)
    &&& reach[u] ==> {
        &&& chain_ok(cs, last_min, u as nat)
        &&& chain_ok(cs, last_max, u as nat)
        &&& dp_min[u] == total_value(cs, chain(cs, last_min, u as nat))
        &&& dp_max[u] == total_value(cs, chain(cs, last_max, u as nat))
        &&& dp_min[u] <= u * VMAX
        &&& dp_max[u] <= u * VMAX
        &&& forall|h: Seq<int>|
            #[trigger] fills(cs, h, u) ==> dp_min[u] <= total_value(cs, h) <= dp_max[u]
    }
}

/// The tables are right for every weight below `t`.
spec fn tables_ok(
    cs: Seq<Coin>,
    reach: Seq<bool>,
    dp_min: Seq<u64>,
    dp_max: Seq<u64>,
    last_min: Seq<usize>,
    last_max: Seq<usize>,
    t: int,
) -> bool {
    forall|u: int|
        0 <= u < t ==> #[trigger] entry_ok(cs, reach, dp_min, dp_max, last_min, last_max, u)
}

/// A coin of kind `c` can be the last one added to reach weight `t`.
spec fn fits_last(cs: Seq<Coin>, reach: Seq<bool>, t: int, c: int) -> bool {
    &&& 1 <= cs[c].0 <= t
    &&& reach[t - cs[c].0]
}

/// Finds the least and the greatest value of coins weighing exactly
/// `masa`, each with the coins that make it up; `None` when no coins weigh
/// exactly `masa`.
#[verifier::spinoff_prover]
#[verifier::rlimit(40)]
pub fn knapsack(masa: usize, cs: &[Coin]) -> (res: Option<Ans>)
    requires
        masa < u32::MAX,
        weightless_worthless(cs@),
    ensures
        knapsack_answer(cs@, masa as int, res),
{
    let n = cs.len();
    let m = masa + 1;
    let mut reach: Vec<bool> = Vec::new();
    let mut dp_min: Vec<u64> = Vec::new();
    let mut dp_max: Vec<u64> = Vec::new();
    let mut last_min: Vec<usize> = Vec::new();
    let mut last_max: Vec<usize> = Vec::new();
    let mut k: usize = 0;
    while k < m
        invariant
            m == masa + 1,
            k <= m,
            n == cs.len(),
            reach.len() == k,
            dp_min.len() == k,
            dp_max.len() == k,
            last_min.len() == k,
            last_max.len() == k,
            forall|i: int| 0 <= i < k ==> #[trigger] reach@[i] == (i == 0),
            forall|i: int| 0 <= i < k ==> #[trigger] dp_min@[i] == 0,
            forall|i: int| 0 <= i < k ==> #[trigger] dp_max@[i] == 0,
            forall|i: int| 0 <= i < k ==> #[trigger] last_min@[i] == n,
            forall|i: int| 0 <= i < k ==> #[trigger] last_max@[i] == n,
        decreases m - k,
    {
        reach.push(k == 0);
        dp_min.push(0);
        dp_max.push(0);
        last_min.push(n);
        last_max.push(n);
        k += 1;
    }
    proof {
        let zero = Seq::new(cs@.len(), |c: int| 0int);
        lemma_zero_hist(cs@, cs@.len());
        assert(fills(cs@, zero, 0));
        assert forall|h: Seq<int>| #[trigger] fills(cs@, h, 0) implies 0 <= total_value(cs@, h)
            <= 0 by {
            lemma_value_bound(cs@, h, cs@.len());
        }
        assert(chain(cs@, last_min@, 0) == zero);
        assert(chain(cs@, last_max@, 0) == zero);
    }
    let mut t: usize = 1;
    while t < m
        invariant
            m == masa + 1,
            masa <= u32::MAX,
            n == cs.len(),
            weightless_worthless(cs@),
            1 <= t <= m,
            reach.len() == m,
            dp_min.len() == m,
            dp_max.len() == m,
            last_min.len() == m,
            last_max.len() == m,
            tables_ok(cs@, reach@, dp_min@, dp_max@, last_min@, last_max@, t as int),
            forall|u: int| t <= u < m ==> !#[trigger] reach@[u],
        decreases m - t,
    {
        let mut found = false;
        let mut best_min: u64 = 0;
        let mut best_max: u64 = 0;
        let mut arg_min: usize = n;
        let mut arg_max: usize = n;
        let mut c: usize = 0;
        while c < n
            invariant
                m == masa + 1,
                masa <= u32::MAX,
                n == cs.len(),
                weightless_worthless(cs@),
                1 <= t < m,
                reach.len() == m,
                dp_min.len() == m,
                dp_max.len() == m,
                tables_ok(cs@, reach@, dp_min@, dp_max@, last_min@, last_max@, t as int),
                c <= n,
                found == exists|c2: int| 0 <= c2 < c && #[trigger] fits_last(cs@, reach@, t as int, c2),
                found ==> {
                    &&& arg_min < c
                    &&& arg_max < c
                    &&& fits_last(cs@, reach@, t as int, arg_min as int)
                    &&& fits_last(cs@, reach@, t as int, arg_max as int)
                    &&& best_min == dp_min@[t - cs@[arg_min as int].0] + cs@[arg_min as int].1
                    &&& best_max == dp_max@[t - cs@[arg_max as int].0] + cs@[arg_max as int].1
                    &&& best_min <= t * VMAX
                    &&& best_max <= t * VMAX
                },
                forall|c2: int|
                    0 <= c2 < c && #[trigger] fits_last(cs@, reach@, t as int, c2) ==> {
                        &&& best_min <= dp_min@[t - cs@[c2].0] + cs@[c2].1
                        &&& dp_max@[t - cs@[c2].0] + cs@[c2].1 <= best_max
                    },
            decreases n - c,
        {
            let (w32, v32) = cs[c];
            let w = w32 as usize;
            if 1 <= w && w <= t && reach[t - w] {
                let prev = t - w;
                proof {
                    assert(reach@[prev as int]);
                    assert(entry_ok(cs@, reach@, dp_min@, dp_max@, last_min@, last_max@, prev as int));
                    assert(dp_min@[prev as int] <= prev * VMAX);
                    assert(dp_max@[prev as int] <= prev * VMAX);
                    assert(prev * VMAX + v32 <= t * VMAX) by (nonlinear_arith)
                        requires
                            prev + w == t,
                            1 <= w,
                            v32 <= VMAX,
                    ;
                    assert(t * VMAX <= u32::MAX * VMAX) by (nonlinear_arith)
                        requires
                            t <= u32::MAX,
                    ;
                }
                let cand_min = dp_min[prev] + v32 as u64;
                let cand_max = dp_max[prev] + v32 as u64;
                if !found || cand_min < best_min {
                    best_min = cand_min;
                    arg_min = c;
                }
                if !found || cand_max > best_max {
                    best_max = cand_max;
                    arg_max = c;
                }
                found = true;
            }
            proof {
                assert(fits_last(cs@, reach@, t as int, c as int) == (1 <= w && w <= t && reach@[t
                    - w]));
            }
            c += 1;
        }
        let ghost old_last_min = last_min@;
        let ghost old_last_max = last_max@;
        let ghost old_reach = reach@;
        let ghost old_dp_min = dp_min@;
        let ghost old_dp_max = dp_max@;
        if found {
            reach.set(t, true);
            dp_min.set(t, best_min);
            dp_max.set(t, best_max);
            last_min.set(t, arg_min);
            last_max.set(t, arg_max);
        }
        proof {
            let cs_ = cs@;
            let ti = t as int;
            // the entries below t keep their chains
            assert forall|u: int| 0 <= u < ti implies #[trigger] chain(cs_, last_min@, u as nat) == chain(
                cs_,
                old_last_min,
                u as nat,
            ) && chain_ok(cs_, last_min@, u as nat) == chain_ok(cs_, old_last_min, u as nat)
                && chain(cs_, last_max@, u as nat) == chain(cs_, old_last_max, u as nat)
                && chain_ok(cs_, last_max@, u as nat) == chain_ok(cs_, old_last_max, u as nat) by {
                if found {
                    lemma_chain_frame(cs_, old_last_min, u as nat, ti, arg_min);
                    lemma_chain_frame(cs_, old_last_max, u as nat, ti, arg_max);
                }
            }
            // any coins weighing t hold a coin whose removal leaves coins weighing less
            assert forall|h: Seq<int>| #[trigger] fills(cs_, h, ti) implies exists|c2: int|
                0 <= c2 < n && fits_last(cs_, reach@, ti, c2) && fills(
                    cs_,
                    h.update(c2, h[c2] - 1),
                    ti - cs_[c2].0,
                ) && total_value(cs_, h) == total_value(cs_, h.update(c2, h[c2] - 1))
                    + cs_[c2].1 by {
                lemma_heavy_coin(cs_, h, n as nat);
                let c2 = choose|c2: int| 0 <= c2 < n && h[c2] >= 1 && #[trigger] cs_[c2].0 >= 1;
                let h2 = h.update(c2, h[c2] - 1);
                lemma_add_coins(cs_, h, n as nat, c2, -1);
                assert(forall|c3: int| 0 <= c3 < h2.len() ==> 0 <= #[trigger] h2[c3]);
                lemma_value_bound(cs_, h2, n as nat);
                assert(fills(cs_, h2, ti - cs_[c2].0));
                assert(can_fill(cs_, ti - cs_[c2].0));
                assert(entry_ok(
                    cs_,
                    old_reach,
                    old_dp_min,
                    old_dp_max,
                    old_last_min,
                    old_last_max,
                    ti - cs_[c2].0,
                ));
                assert(reach@[ti - cs_[c2].0]);
                assert(fits_last(cs_, reach@, ti, c2));
            }
            if found {
                let wmin = cs_[arg_min as int].0 as int;
                let wmax = cs_[arg_max as int].0 as int;
                assert(old_reach[ti - wmin]);
                assert(old_reach[ti - wmax]);
                assert(entry_ok(cs_, old_reach, old_dp_min, old_dp_max, old_last_min, old_last_max, ti - wmin));
                assert(entry_ok(cs_, old_reach, old_dp_min, old_dp_max, old_last_min, old_last_max, ti - wmax));
                assert(chain_ok(cs_, old_last_min, (ti - wmin) as nat));
                assert(chain_ok(cs_, old_last_max, (ti - wmax) as nat));
                lemma_chain_frame(cs_, old_last_min, (ti - wmin) as nat, ti, arg_min);
                lemma_chain_frame(cs_, old_last_max, (ti - wmax) as nat, ti, arg_max);
                assert(chain_ok(cs_, last_min@, (ti - wmin) as nat));
                assert(chain_ok(cs_, last_max@, (ti - wmax) as nat));
                assert(chain_ok(cs_, last_min@, t as nat));
                assert(chain_ok(cs_, last_max@, t as nat));
                lemma_chain_fills(cs_, last_min@, (ti - wmin) as nat);
                lemma_chain_fills(cs_, last_max@, (ti - wmax) as nat);
                lemma_add_coins(
                    cs_,
                    chain(cs_, last_min@, (ti - wmin) as nat),
                    n as nat,
                    arg_min as int,
                    1,
                );
                lemma_add_coins(
                    cs_,
                    chain(cs_, last_max@, (ti - wmax) as nat),
                    n as nat,
                    arg_max as int,
                    1,
                );
                lemma_chain_fills(cs_, last_max@, t as nat);
                assert(can_fill(cs_, ti));
                assert forall|h: Seq<int>| #[trigger] fills(cs_, h, ti) implies dp_min@[ti]
                    <= total_value(cs_, h) <= dp_max@[ti] by {
                    let c2 = choose|c2: int|
                        0 <= c2 < n && fits_last(cs_, reach@, ti, c2) && fills(
                            cs_,
                            h.update(c2, h[c2] - 1),
                            ti - cs_[c2].0,
                        ) && total_value(cs_, h) == total_value(cs_, h.update(c2, h[c2] - 1))
                            + cs_[c2].1;
                    let h2 = h.update(c2, h[c2] - 1);
                    let u = ti - cs_[c2].0;
                    assert(fills(cs_, h2, u));
                    assert(old_reach[u]);
                    assert(fits_last(cs_, old_reach, ti, c2));
                    assert(entry_ok(cs_, old_reach, old_dp_min, old_dp_max, old_last_min, old_last_max, u));
                    assert(old_dp_min[u] <= total_value(cs_, h2) <= old_dp_max[u]);
                }
            } else {
                assert(!can_fill(cs_, ti)) by {
                    if can_fill(cs_, ti) {
                        let h = choose|h: Seq<int>| fills(cs_, h, ti);
                        assert(fills(cs_, h, ti));
                    }
                }
            }
            assert forall|u: int| 0 <= u < ti + 1 implies #[trigger] entry_ok(
                cs_,
                reach@,
                dp_min@,
                dp_max@,
                last_min@,
                last_max@,
                u,
            ) by {
                if u < ti {
                    assert(entry_ok(cs_, old_reach, old_dp_min, old_dp_max, old_last_min, old_last_max, u));
                    if found {
                        lemma_chain_frame(cs_, old_last_min, u as nat, ti, arg_min);
                        lemma_chain_frame(cs_, old_last_max, u as nat, ti, arg_max);
                    }
                } else {
                    assert(reach@[u] == can_fill(cs_, u));
                    if found {
                        assert(chain_ok(cs_, last_min@, u as nat));
                        assert(chain_ok(cs_, last_max@, u as nat));
                        assert(dp_min@[u] == total_value(cs_, chain(cs_, last_min@, u as nat)));
                        assert(dp_max@[u] == total_value(cs_, chain(cs_, last_max@, u as nat)));
                        assert(dp_min@[u] <= u * VMAX);
                        assert(dp_max@[u] <= u * VMAX);
                    }
                }
            }
        }
        t += 1;
    }
    proof {
        assert(tables_ok(cs@, reach@, dp_min@, dp_max@, last_min@, last_max@, m as int));
        assert(entry_ok(cs@, reach@, dp_min@, dp_max@, last_min@, last_max@, masa as int));
    }
    if !reach[masa] {
        return None;
    }
    let max_coins = get_coins(&last_max, masa, cs);
    let min_coins = get_coins(&last_min, masa, cs);
    proof {
        lemma_chain_fills(cs@, last_min@, masa as nat);
        lemma_chain_fills(cs@, last_max@, masa as nat);
    }
    Some(Ans { p_min: dp_min[masa], min_coins, p_max: dp_max[masa], max_coins })
}


// ---------------------------------------------------------------------
// Printing the counts
// ---------------------------------------------------------------------

/// The ASCII decimal digits of `x`.
pub open spec fn decimal(x: nat) -> Seq<u8>
    decreases x,
{
    if x < 10 {
        seq![(x + 48) as u8]
    } else {
        decimal(x / 10).push((x % 10 + 48) as u8)
    }
}

/// The counts `cs[..n]` in decimal, separated by single spaces.
pub open spec fn counts_text(cs: Seq<u32>, n: nat) -> Seq<u8>
    decreases n,
{
    if n == 0 {
        Seq::empty()
    } else if n == 1 {
        decimal(cs[0] as nat)
    } else {
        counts_text(cs, (n - 1) as nat) + seq![32u8] + decimal(cs[n - 1] as nat)
    }
}

/// The characters of ASCII bytes.
pub open spec fn ascii_chars(bytes: Seq<u8>) -> Seq<char> {
    bytes.map_values(|b: u8| b as char)
}

/// Every byte of `bytes` is ASCII.
pub open spec fn all_ascii(bytes: Seq<u8>) -> bool {
    forall|i: int| 0 <= i < bytes.len() ==> #[trigger] bytes[i] < 128
}

/// Digits are ASCII.
proof fn lemma_decimal_ascii(x: nat)
    ensures
        all_ascii(decimal(x)),
    decreases x,
{
    if x >= 10 {
        lemma_decimal_ascii(x / 10);
    }
}

/// `t` is the decimal form of `x`: digits only, read back as `x`, and no
/// leading zero unless it is the single digit 0.
pub open spec fn is_decimal_of(t: Seq<u8>, x: int) -> bool {
    &&& t.len() >= 1
    &&& forall|k: int| 0 <= k < t.len() ==> is_digit(#[trigger] t[k])
    &&& digits_value(t) == x
    &&& t.len() > 1 ==> t[0] != 48
}

/// The pieces of `b` between its spaces, in order (`b` with no space is one
/// piece, the empty text is one empty piece).
pub open spec fn split_spaces(b: Seq<u8>) -> Seq<Seq<u8>>
    decreases b.len(),
{
    if b.len() == 0 {
        seq![Seq::<u8>::empty()]
    } else {
        let rest = split_spaces(b.drop_last());
        if b.last() == 32 {
            rest.push(Seq::<u8>::empty())
        } else {
            rest.update(rest.len() - 1, rest.last().push(b.last()))
        }
    }
}

/// `b` is a line of the counts `cs[..m]`: empty when `m == 0`, otherwise
/// `m` pieces between single spaces, piece `i` the decimal form of `cs[i]`.
pub open spec fn counts_line(b: Seq<u8>, cs: Seq<u32>, m: int) -> bool {
    if m == 0 {
        b.len() == 0
    } else {
        &&& split_spaces(b).len() == m
        &&& forall|i: int| 0 <= i < m ==> is_decimal_of(#[trigger] split_spaces(b)[i], cs[i] as int)
    }
}

/// The bytes of characters below 256.
pub open spec fn char_bytes(s: Seq<char>) -> Seq<u8> {
    s.map_values(|c: char| c as u8)
}

/// The decimal form of `x` starts with a digit other than 0 when `x > 0`.
proof fn lemma_decimal_lead(x: nat)
    requires
        x > 0,
    ensures
        decimal(x)[0] != 48,
    decreases x,
{
    if x >= 10 {
        lemma_decimal_lead(x / 10);
        assert(decimal(x)[0] == decimal(x / 10)[0]);
    }
}

/// Law: the digits written for `x` read back as `x`, with no leading zero.
pub proof fn law_decimal_reads_back(x: nat)
    ensures
        is_decimal_of(decimal(x), x as int),
    decreases x,
{
    let t = decimal(x);
    if x < 10 {
        assert(t.drop_last() =~= Seq::<u8>::empty());
        assert(digits_value(t) == digits_value(t.drop_last()) * 10 + (t.last() - 48));
    } else {
        law_decimal_reads_back(x / 10);
        assert(t.drop_last() =~= decimal(x / 10));
        assert(t.last() == (x % 10 + 48) as u8);
        assert(digits_value(t) == digits_value(t.drop_last()) * 10 + (t.last() - 48));
        assert(x == (x / 10) * 10 + x % 10) by (nonlinear_arith);
        assert(forall|k: int| 0 <= k < t.len() - 1 ==> t[k] == decimal(x / 10)[k]);
        assert(is_digit(t[t.len() - 1]));
        assert(forall|k: int| 0 <= k < t.len() ==> is_digit(#[trigger] t[k]));
        lemma_decimal_lead(x / 10);
        assert(t[0] == decimal(x / 10)[0]);
    }
}

/// Splitting never gives no piece.
proof fn lemma_split_len(b: Seq<u8>)
    ensures
        split_spaces(b).len() >= 1,
    decreases b.len(),
{
    if b.len() > 0 {
        lemma_split_len(b.drop_last());
    }
}

/// Appending text with no space extends the last piece.
proof fn lemma_split_append(a: Seq<u8>, t: Seq<u8>)
    requires
        forall|k: int| 0 <= k < t.len() ==> #[trigger] t[k] != 32,
    ensures
        split_spaces(a + t) == split_spaces(a).update(
            split_spaces(a).len() - 1,
            split_spaces(a).last() + t,
        ),
    decreases t.len(),
{
    lemma_split_len(a);
    let sa = split_spaces(a);
    if t.len() == 0 {
        assert(a + t =~= a);
        assert(sa.last() + t =~= sa.last());
        assert(sa.update(sa.len() - 1, sa.last()) =~= sa);
    } else {
        let t1 = t.drop_last();
        lemma_split_append(a, t1);
        assert((a + t).drop_last() =~= a + t1);
        assert((a + t).last() == t.last());
        let s1 = split_spaces(a + t1);
        assert(s1.last() == sa.last() + t1);
        assert((sa.last() + t1).push(t.last()) =~= sa.last() + t);
        assert(s1.update(s1.len() - 1, s1.last().push(t.last())) =~= sa.update(
            sa.len() - 1,
            sa.last() + t,
        ));
    }
}

/// Digits hold no space.
proof fn lemma_decimal_no_space(x: nat)
    ensures
        forall|k: int| 0 <= k < decimal(x).len() ==> #[trigger] decimal(x)[k] != 32,
{
    law_decimal_reads_back(x);
    assert forall|k: int| 0 <= k < decimal(x).len() implies #[trigger] decimal(x)[k] != 32 by {
        assert(is_digit(decimal(x)[k]));
    }
}

/// The pieces of the line of counts are the counts' decimal forms.
proof fn lemma_counts_pieces(cs: Seq<u32>, m: nat)
    requires
        1 <= m <= cs.len(),
    ensures
        split_spaces(counts_text(cs, m)) == Seq::new(m, |i: int| decimal(cs[i] as nat)),
    decreases m,
{
    let d = decimal(cs[m - 1] as nat);
    lemma_decimal_no_space(cs[m - 1] as nat);
    if m == 1 {
        lemma_split_append(Seq::<u8>::empty(), d);
        assert(Seq::<u8>::empty() + d =~= d);
        assert(Seq::<u8>::empty() + d =~= d);
        assert(split_spaces(Seq::<u8>::empty()) =~= seq![Seq::<u8>::empty()]);
        assert(split_spaces(counts_text(cs, m)) =~= Seq::new(m, |i: int| decimal(cs[i] as nat)));
    } else {
        lemma_counts_pieces(cs, (m - 1) as nat);
        let a = counts_text(cs, (m - 1) as nat) + seq![32u8];
        assert(a.drop_last() =~= counts_text(cs, (m - 1) as nat));
        let sa = split_spaces(a);
        assert(sa == split_spaces(counts_text(cs, (m - 1) as nat)).push(Seq::<u8>::empty()));
        lemma_split_append(a, d);
        assert(Seq::<u8>::empty() + d =~= d);
        assert(split_spaces(counts_text(cs, m)) =~= Seq::new(m, |i: int| decimal(cs[i] as nat)));
    }
}

/// Law: the line printed for the counts `cs[..m]` has `m` pieces between
/// single spaces (none when `m == 0`), piece `i` being the decimal form of
/// `cs[i]`.
pub proof fn law_counts_line(cs: Seq<u32>, m: nat)
    requires
        m <= cs.len(),
    ensures
        counts_line(counts_text(cs, m), cs, m as int),
{
    if m > 0 {
        lemma_counts_pieces(cs, m);
        assert forall|i: int| 0 <= i < m implies is_decimal_of(
            #[trigger] split_spaces(counts_text(cs, m))[i],
            cs[i] as int,
        ) by {
            law_decimal_reads_back(cs[i] as nat);
        }
    }
}

/// Appends the decimal digits of `x` to `out`.
fn push_decimal(out: &mut Vec<u8>, x: u32)
    ensures
        final(out)@ == old(out)@ + decimal(x as nat),
    decreases x,
{
    if x >= 10 {
        push_decimal(out, x / 10);
    }
    out.push((48 + x % 10) as u8);
    proof {
        if x >= 10 {
            assert(old(out)@ + decimal(x as nat) =~= old(out)@ + decimal((x / 10) as nat) + seq![(x % 10 + 48) as u8]);
        } else {
            assert(old(out)@ + decimal(x as nat) =~= old(out)@.push((x % 10 + 48) as u8));
        }
    }
}

/// Makes a `String` of ASCII bytes with `String::from_utf8` of the
/// standard library: ASCII is valid UTF-8, and each byte becomes the
/// character of the same code.
#[verifier::external_body]
fn ascii_string(bytes: Vec<u8>) -> (s: String)
    requires
        all_ascii(bytes@),
    ensures
        s@ == ascii_chars(bytes@),
{
    String::from_utf8(bytes).unwrap()
}

/// The first `n` counts of `cs` (all of them when there are fewer), in
/// decimal, separated by single spaces.
pub fn vec_to_str(cs: &[u32], n: usize) -> (s: String)
    ensures
        s@ == ascii_chars(counts_text(cs@, if n < cs.len() { n as nat } else { cs.len() as nat })),
        counts_line(
            char_bytes(s@),
            cs@,
            if n < cs.len() {
                n as int
            } else {
                cs.len() as int
            },
        ),
{
    let m = if n < cs.len() {
        n
    } else {
        cs.len()
    };
    let mut out: Vec<u8> = Vec::new();
    let mut i: usize = 0;
    while i < m
        invariant
            i <= m <= cs.len(),
            out@ == counts_text(cs@, i as nat),
            all_ascii(out@),
        decreases m - i,
    {
        if i > 0 {
            out.push(32);
        }
        let ghost before = out@;
        push_decimal(&mut out, cs[i]);
        proof {
            lemma_decimal_ascii(cs[i as int] as nat);
            if i == 0 {
                assert(before =~= Seq::<u8>::empty());
                assert(out@ =~= decimal(cs@[0] as nat));
            }
            assert(all_ascii(out@)) by {
                assert forall|k: int| 0 <= k < out@.len() implies #[trigger] out@[k] < 128 by {
                    if k >= before.len() {
                        assert(out@[k] == decimal(cs@[i as int] as nat)[k - before.len()]);
                    } else {
                        assert(out@[k] == before[k]);
                    }
                }
            }
        }
        i += 1;
    }
    proof {
        law_counts_line(cs@, m as nat);
        assert(char_bytes(ascii_chars(out@)) =~= out@);
    }
    ascii_string(out)
}

} // verus!
