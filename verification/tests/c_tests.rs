use aisd24::c::{knapsack, vec_to_str, Coin};

fn dot_prod(cs: &[Coin], hist: &[u32]) -> u64 {
    cs.iter().zip(hist).map(|(&c, &b)| c.1 as u64 * b as u64).sum()
}

fn total_weight(cs: &[Coin], hist: &[u32]) -> u64 {
    cs.iter().zip(hist).map(|(&c, &b)| c.0 as u64 * b as u64).sum()
}

#[test]
fn c_ex_a() {
    let w = 100;
    let cs = vec![(1, 1), (50, 30)];
    let o_res = knapsack(w, &cs);
    assert!(o_res.is_some());
    let res = o_res.unwrap();
    assert_eq!(res.p_max, 100);
    assert_eq!(res.p_min, 60);
    assert_eq!(dot_prod(&cs, &res.max_coins), 100);
    assert_eq!(dot_prod(&cs, &res.min_coins), 60);
}

#[test]
fn c_ex_b() {
    let w = 10;
    let cs = vec![(1, 1), (4, 2), (16, 4)];
    let o_res = knapsack(w, &cs);
    assert!(o_res.is_some());
    let res = o_res.unwrap();
    assert_eq!(res.p_max, 10);
    assert_eq!(res.p_min, 6);
    assert_eq!(dot_prod(&cs, &res.max_coins), 10);
    assert_eq!(dot_prod(&cs, &res.min_coins), 6);
}

#[test]
fn c_ex_c() {
    let w = 5;
    let cs = vec![(2, 1), (4, 1), (4, 2)];
    let res = knapsack(w, &cs);
    assert!(res.is_none());
}

/// A seeded stream of pseudo-random numbers (SplitMix64).
struct SplitMix(u64);

impl SplitMix {
    fn next(&mut self) -> u64 {
        self.0 = self.0.wrapping_add(0x9E37_79B9_7F4A_7C15);
        let mut z = self.0;
        z = (z ^ (z >> 30)).wrapping_mul(0xBF58_476D_1CE4_E5B9);
        z = (z ^ (z >> 27)).wrapping_mul(0x94D0_49BB_1331_11EB);
        z ^ (z >> 31)
    }

    /// A number in `1..=hi`.
    fn between_1_and(&mut self, hi: u32) -> u32 {
        (self.next() % hi as u64) as u32 + 1
    }
}

/// The greatest weight or value of a coin in the task.
const HIGHEST_WV: u32 = 10_000;

fn random_coins(rng: &mut SplitMix) -> Vec<Coin> {
    (0..100)
        .map(|_| (rng.between_1_and(HIGHEST_WV), rng.between_1_and(HIGHEST_WV)))
        .collect()
}

#[test]
fn random_test() {
    let mut rng = SplitMix(6969);
    let coins = random_coins(&mut rng);
    let w = 4 * coins[0].0;
    let o_res = knapsack(w as usize, &coins);
    assert!(o_res.is_some());
    let res = o_res.unwrap();
    assert_eq!(res.p_max, dot_prod(&coins, &res.max_coins));
    assert_eq!(res.p_min, dot_prod(&coins, &res.min_coins));
}

#[test]
fn many_random_tests() {
    let mut rng = SplitMix(6969 + 420);
    for _ in 0..10 {
        let coins = random_coins(&mut rng);
        let w = 4 * coins[0].0;
        let o_res = knapsack(w as usize, &coins);
        assert!(o_res.is_some());
        let res = o_res.unwrap();
        assert_eq!(res.p_max, dot_prod(&coins, &res.max_coins));
        assert_eq!(res.p_min, dot_prod(&coins, &res.min_coins));
    }
}

#[test]
fn ascending_weights() {
    let mut coins = [(0, 0); 100];
    coins.iter_mut().enumerate().take(10).for_each(|(i, e)| {
        *e = (1000 - i as u32, 1000);
    });
    let w = 9955;
    let o_res = knapsack(w, &coins);
    assert!(o_res.is_some());
    assert_eq!(o_res.unwrap().p_max, 10 * 1000);
}

// ---------------------------------------------------------------------

#[test]
fn histograms_weigh_the_mass() {
    let cs = vec![(3, 5), (5, 9), (7, 1)];
    let res = knapsack(22, &cs).unwrap();
    assert_eq!(res.max_coins.len(), 3);
    assert_eq!(total_weight(&cs, &res.max_coins), 22);
    assert_eq!(total_weight(&cs, &res.min_coins), 22);
    assert_eq!(dot_prod(&cs, &res.max_coins), res.p_max);
    assert_eq!(dot_prod(&cs, &res.min_coins), res.p_min);
    // 22 = 4*3 + 2*5 (worth 38) = 3*5 + 1*7 (28) = 1*3 + 1*5 + 2*7 (16) = 5*3 + 1*7 (26)
    assert_eq!(res.p_max, 38);
    assert_eq!(res.p_min, 16);
}

#[test]
fn zero_mass_needs_no_coins() {
    let cs = vec![(2, 3)];
    let res = knapsack(0, &cs).unwrap();
    assert_eq!(res.p_min, 0);
    assert_eq!(res.p_max, 0);
    assert_eq!(res.min_coins, vec![0]);
}

#[test]
fn no_coins_no_mass() {
    let cs: Vec<Coin> = Vec::new();
    assert!(knapsack(3, &cs).is_none());
}

#[test]
fn large_values_do_not_wrap() {
    // a u32 would overflow: 1000 coins worth 100000 each
    let cs = vec![(1, 100_000)];
    let res = knapsack(1_000_000, &cs).unwrap();
    assert_eq!(res.p_max, 100_000_000_000);
    assert_eq!(res.p_min, 100_000_000_000);
    assert_eq!(res.max_coins, vec![1_000_000]);
}

#[test]
fn vec_to_str_joins_counts() {
    assert_eq!(vec_to_str(&[2, 0, 100], 3), "2 0 100");
    assert_eq!(vec_to_str(&[7, 4294967295], 2), "7 4294967295");
}

#[test]
fn vec_to_str_takes_at_most_n() {
    assert_eq!(vec_to_str(&[1, 2, 3], 2), "1 2");
    assert_eq!(vec_to_str(&[1, 2, 3], 5), "1 2 3");
    assert_eq!(vec_to_str(&[1, 2, 3], 0), "");
    assert_eq!(vec_to_str(&[], 4), "");
}
