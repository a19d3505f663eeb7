use aisd24::d::solve_dp;

fn presses(freq: &[u32], layout: &[usize]) -> u64 {
    let mut c = 0u64;
    let mut letter = 1;
    for &k in layout {
        for p in 0..k {
            c += freq[letter] as u64 * (p as u64 + 1);
            letter += 1;
        }
    }
    c
}

#[test]
fn two_keys_three_letters() {
    let (cost, layout) = solve_dp(2, vec![u32::MAX, 1, 1, 1]);
    assert_eq!(cost, 4);
    // (1, 2) and (2, 1) both need 4 presses: the last key gets the most letters
    assert_eq!(layout, vec![1, 2]);
}

#[test]
fn ties_favour_the_last_keys() {
    let freq = vec![u32::MAX, 5, 1, 1, 4, 2, 2];
    let (cost, layout) = solve_dp(3, freq.clone());
    assert_eq!(cost, 20);
    assert_eq!(layout, vec![3, 1, 2]);
    assert_eq!(presses(&freq, &layout), cost);
}

#[test]
fn one_key() {
    let (cost, layout) = solve_dp(1, vec![u32::MAX, 1, 2, 3, 4, 5]);
    assert_eq!(cost, 55);
    assert_eq!(layout, vec![5]);
}

#[test]
fn a_key_per_letter() {
    let (cost, layout) = solve_dp(4, vec![u32::MAX, 7, 7, 7, 7]);
    assert_eq!(cost, 28);
    assert_eq!(layout, vec![1, 1, 1, 1]);
}

#[test]
fn eight_letters_three_keys() {
    let freq = vec![u32::MAX, 3, 1, 4, 1, 5, 9, 2, 6];
    let (cost, layout) = solve_dp(3, freq.clone());
    assert_eq!(cost, 56);
    assert_eq!(layout, vec![4, 3, 1]);
    assert_eq!(presses(&freq, &layout), cost);
}
