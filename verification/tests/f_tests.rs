use aisd24::f::{
    brute_force, init_hash, init_ps, precompute_hashes, rk2d, rk2dv2, roll_hash, roll_hash_down,
    roll_hash_right, str_count, Str2d, P,
};

fn str2str2d(s: &str) -> Str2d {
    s.split_ascii_whitespace()
        .map(|r| r.to_string().into_bytes())
        .collect::<Str2d>()
}

#[test]
fn f_ex_a() {
    let needle = str2str2d("BCB\nCBC");
    let haystack = str2str2d("BCBCB\nCBCBC\nAABAA");
    assert_eq!(brute_force(needle, haystack), 2);
}

#[test]
fn f_ex_b() {
    let needle = str2str2d("AA\nAA");
    let haystack = str2str2d("BAAAB\nBAAAB\nBAAAB");
    assert_eq!(brute_force(needle, haystack), 4);
}

#[test]
fn f_ex_c() {
    let needle = str2str2d("ZZZ\nZZZ\nZZZ");
    let haystack = str2str2d("AAA\nAAA\nAAA");
    assert_eq!(brute_force(needle, haystack), 0);
}

#[test]
fn hash_test() {
    let needle = str2str2d("BCB\nCBC");
    let haystack = str2str2d("BCBCB\nCBCBC\nAABAA");
    let (nw, nh) = (needle[0].len(), needle.len());
    let ps = init_ps(6);
    let h1 = init_hash(&needle, nw, nh, &ps);
    let mut h2 = init_hash(&haystack, nw, nh, &ps);
    assert_eq!(h1, h2);
    h2 = roll_hash_right(h2, &ps, &haystack, 0, 0, nw, nh);
    h2 = roll_hash_right(h2, &ps, &haystack, 1, 0, nw, nh);
    assert_eq!(h1, h2);
}

#[test]
fn roll_right_test() {
    let needle = vec![vec![1, 2, 3], vec![4, 5, 6]];
    let haystack = vec![vec![5, 1, 2, 3], vec![9, 4, 5, 6], vec![13, 13, 13, 13]];
    let (nw, nh) = (needle[0].len(), needle.len());
    let ps = init_ps(6);
    let h1 = init_hash(&needle, nw, nh, &ps);
    let h2 = init_hash(&haystack, nw, nh, &ps);
    assert_eq!(h1, roll_hash_right(h2, &ps, &haystack, 0, 0, nw, nh));
}

#[test]
fn roll_down_test() {
    let needle1 = vec![vec![11, 12, 14], vec![1, 2, 3]];
    let needle2 = vec![vec![1, 2, 3], vec![4, 5, 6]];
    let haystack = vec![
        vec![11, 12, 14, 9],
        vec![11, 12, 14, 9],
        vec![1, 2, 3, 7],
        vec![4, 5, 6, 13],
    ];
    let (nw, nh) = (needle1[0].len(), needle1.len());
    let ps = init_ps(6);
    let hn1 = init_hash(&needle1, nw, nh, &ps);
    let hn2 = init_hash(&needle2, nw, nh, &ps);
    let mut hhay = init_hash(&haystack, nw, nh, &ps);
    assert_ne!(hn1, hhay);
    assert_ne!(hn2, hhay);
    hhay = roll_hash_down(hhay, &ps, &haystack, 0, 0, nw, nh);
    assert_eq!(hn1, hhay);
    assert_ne!(hn2, hhay);
    hhay = roll_hash_down(hhay, &ps, &haystack, 0, 1, nw, nh);
    assert_ne!(hn1, hhay);
    assert_eq!(hn2, hhay);
}

#[test]
fn ex_a_rk() {
    let needle = str2str2d("BCB\nCBC");
    let haystack = str2str2d("BCBCB\nCBCBC\nAABAA");
    assert_eq!(rk2d(needle, haystack), 2);
}

#[test]
fn ex_b_rk() {
    let needle = str2str2d("AA\nAA");
    let haystack = str2str2d("BAAAB\nBAAAB\nBAAAB");
    assert_eq!(rk2d(needle, haystack), 4);
}

#[test]
fn ex_a_rk2() {
    let needle = str2str2d("BCB\nCBC");
    let haystack = str2str2d("BCBCB\nCBCBC\nAABAA");
    assert_eq!(rk2dv2(needle, haystack), 2);
}

#[test]
fn ex_b_rk2() {
    let needle = str2str2d("AA\nAA");
    let haystack = str2str2d("BAAAB\nBAAAB\nBAAAB");
    assert_eq!(rk2dv2(needle, haystack), 4);
}

#[test]
fn ex_b_manual_rk2() {
    let needle = str2str2d("AA\nAA");
    let haystack = str2str2d("BAAAB\nBAAAB\nBAAAB");
    let (hh, _hw) = (haystack.len(), haystack[0].len());
    let (nh, nw) = (needle.len(), needle[0].len());
    let len = nh * nw;
    // phase 1 precompute hashes
    let ps = init_ps(len);
    let mut hashes = precompute_hashes(&needle, &haystack, &ps);
    let hashed_needle: aisd24::f::Hash = init_hash(&needle, nw, nh, &ps);
    // check and down
    let mut acc = 0;
    for i in 0..=hh - nh {
        let mut cached_roll: Option<(aisd24::f::Hash, aisd24::f::Hash)> = None;
        for (j, h) in hashes.iter_mut().enumerate() {
            // verify
            if *h == hashed_needle
                && needle
                    .iter()
                    .zip(haystack[i..].iter())
                    .all(|(nr, hr)| *nr == hr[j..(j + nw)])
            {
                acc += 1;
            }
            // rollover if not last row
            if i < hh - nh {
                match cached_roll {
                    Some((mut sub, mut add)) => {
                        let pj = j - 1;
                        let top_left = ps[len - 1].wrapping_mul(haystack[i][pj] as aisd24::f::Hash);
                        let top_right = ps[len - nw].wrapping_mul(haystack[i][pj + nw] as aisd24::f::Hash);
                        let bottom_left = ps[nw - 1].wrapping_mul(haystack[i + nh][pj] as aisd24::f::Hash);
                        let bottom_right = haystack[i + nh][pj + nw] as aisd24::f::Hash;
                        roll_hash(&mut sub, top_left, top_right, P);
                        roll_hash(&mut add, bottom_left, bottom_right, P);
                        roll_hash(h, sub, add, ps[nw]);
                        cached_roll = Some((sub, add));
                    }
                    None => {
                        let mut subtrahend: aisd24::f::Hash = 0;
                        let mut addend: aisd24::f::Hash = 0;
                        for j in 0..nw {
                            let temp = ps[len - 1 - j].wrapping_mul(haystack[i][j + j] as aisd24::f::Hash);
                            subtrahend = subtrahend.wrapping_add(temp);
                            let temp =
                                ps[nw - 1 - j].wrapping_mul(haystack[i + nh][j + j] as aisd24::f::Hash);
                            addend = addend.wrapping_add(temp);
                        }
                        roll_hash(h, subtrahend, addend, ps[nw]);
                        cached_roll = Some((subtrahend, addend));
                    }
                }
            }
        }
    }
    assert_eq!(acc, 4);
}

#[test]
fn manual_ex_b_rk() {
    let needle = str2str2d("AA\nAA");
    let haystack = str2str2d("BAAAB\nBAAAB\nBAAAB");
    let (nw, nh) = (needle[0].len(), needle.len());
    let ps = init_ps(6);
    let h = init_hash(&needle, nw, nh, &ps);
    let mut rolling = init_hash(&haystack, nw, nh, &ps);
    assert_ne!(h, rolling);
    rolling = roll_hash_right(rolling, &ps, &haystack, 0, 0, nw, nh);
    let mut right_rolling = roll_hash_right(rolling, &ps, &haystack, 1, 0, nw, nh);
    assert_eq!(h, rolling);
    assert_eq!(h, right_rolling);
    right_rolling = roll_hash_down(right_rolling, &ps, &haystack, 2, 0, nw, nh);
    rolling = roll_hash_down(rolling, &ps, &haystack, 1, 0, nw, nh);
    assert_eq!(h, rolling);
    assert_eq!(h, right_rolling);
}

#[test]
fn ex_c_rk() {
    let needle = str2str2d("ZZZ\nZZZ\nZZZ");
    let haystack = str2str2d("AAA\nAAA\nAAA");
    assert_eq!(rk2d(needle, haystack), 0);
}

#[test]
fn ex_c_rk2() {
    let needle = str2str2d("ZZZ\nZZZ\nZZZ");
    let haystack = str2str2d("AAA\nAAA\nAAA");
    assert_eq!(rk2dv2(needle, haystack), 0);
}

#[test]
fn str_count_test() {
    let hs =
        "This is a test. This testest is only a test. If this were a real emergency...".into();
    let nd = "test".into();
    assert_eq!(str_count(nd, hs), 4);
    assert_eq!(str_count("aaa".into(), "aaaaaaaa".into()), 6);
}

// ---------------------------------------------------------------------

#[test]
fn str_count_edges() {
    assert_eq!(str_count("abc".to_string(), "ab".to_string()), 0);
    assert_eq!(str_count("ab".to_string(), "ab".to_string()), 1);
    assert_eq!(str_count("x".to_string(), String::new()), 0);
    assert_eq!(str_count("aé".to_string(), "éaéaé".to_string()), 2);
    assert_eq!(str_count("é".to_string(), "abc".to_string()), 0);
}

#[test]
fn init_ps_powers() {
    let ps = init_ps(3);
    assert_eq!(ps, vec![1, 31, 961, 29791]);
    let big = init_ps(20);
    // 31^13 overflows 64 bits: the table wraps
    assert_eq!(big[13], 31u64.wrapping_pow(13));
    assert_eq!(big[20], 31u64.wrapping_pow(20));
}

#[test]
fn init_hash_value() {
    // 1*31^3 + 2*31^2 + 3*31 + 4
    let data = vec![vec![1, 2, 9], vec![3, 4, 9]];
    let ps = init_ps(4);
    assert_eq!(init_hash(&data, 2, 2, &ps), 29791 + 2 * 961 + 3 * 31 + 4);
}

#[test]
fn roll_hash_formula() {
    let mut h: aisd24::f::Hash = 10;
    roll_hash(&mut h, 3, 5, 7);
    assert_eq!(h, (10 - 3) * 7 + 5);
    let mut w: aisd24::f::Hash = 0;
    roll_hash(&mut w, 1, 0, 1);
    assert_eq!(w, u64::MAX);
}

#[test]
fn one_row_needle_stays_in_its_row() {
    // the needle "AB" must not be found across the end of a row
    let needle = str2str2d("AB");
    let haystack = str2str2d("XA\nBX\nAB");
    assert_eq!(rk2d(needle.clone(), haystack.clone()), 1);
    assert_eq!(rk2dv2(needle.clone(), haystack.clone()), 1);
    assert_eq!(brute_force(needle, haystack), 1);
}

#[test]
fn one_column_needle() {
    let needle = str2str2d("A\nB");
    let haystack = str2str2d("AX\nBA\nXB");
    assert_eq!(rk2d(needle.clone(), haystack.clone()), 2);
    assert_eq!(rk2dv2(needle.clone(), haystack.clone()), 2);
    assert_eq!(brute_force(needle, haystack), 2);
}

#[test]
fn searches_agree_on_a_larger_table() {
    let needle = str2str2d("ABAB\nBABA\nABAB");
    let mut rows = Vec::new();
    for i in 0..12 {
        let mut row = Vec::new();
        for j in 0..15 {
            row.push(if (i + j) % 2 == 0 { b'A' } else { b'B' });
        }
        rows.push(row);
    }
    // every window whose top-left cell is an A matches
    let expected = (0..10).flat_map(|i| (0..12).map(move |j| (i + j) % 2 == 0)).filter(|b| *b).count();
    assert_eq!(brute_force(needle.clone(), rows.clone()), expected);
    assert_eq!(rk2d(needle.clone(), rows.clone()), expected);
    assert_eq!(rk2dv2(needle, rows), expected);
}

#[test]
fn precompute_first_row() {
    let needle = str2str2d("AB\nCD");
    let haystack = str2str2d("ABAB\nCDCD\nXXXX");
    let ps = init_ps(4);
    let hashes = precompute_hashes(&needle, &haystack, &ps);
    assert_eq!(hashes.len(), 3);
    let h = init_hash(&needle, 2, 2, &ps);
    assert_eq!(hashes[0], h);
    assert_ne!(hashes[1], h);
    assert_eq!(hashes[2], h);
}
