use aisd24::a::{binary_search_leftmost, is_ancestor, is_family, mark, produce_times, unmark};

#[test]
fn leftmost_pair() {
    let arr = vec![(5, 1), (2, 1), (3, 2), (4, 2), (6, 4)];
    assert_eq!(binary_search_leftmost(&arr, &1), Ok(0));
    assert_eq!(binary_search_leftmost(&arr, &2), Ok(2));
    assert_eq!(binary_search_leftmost(&arr, &3), Err(4));
    assert_eq!(binary_search_leftmost(&arr, &4), Ok(4));
    assert_eq!(binary_search_leftmost(&arr, &9), Err(5));
}

#[test]
fn marks() {
    assert_eq!(mark(5), 5 + (1 << 31));
    assert_eq!(unmark(mark(5)), 5);
    assert_eq!(unmark(7), 7);
}

fn family(n: usize, mothers: Vec<u32>) -> Vec<Option<(u32, u32)>> {
    produce_times(n, mothers)
}

#[test]
fn sample_family() {
    // 1 -> 2, 3; 3 -> 4; 2 -> 5
    let times = family(5, vec![1, 1, 3, 2]);
    let anc = |a: usize, b: usize| is_ancestor(a, b, &times);
    assert!(anc(1, 2) && anc(1, 3) && anc(1, 4) && anc(1, 5));
    assert!(anc(3, 4) && anc(2, 5));
    assert!(!anc(2, 4) && !anc(4, 3) && !anc(5, 1) && !anc(3, 5) && !anc(2, 3));
    assert!(!anc(4, 4));
}

#[test]
fn leaf_after_a_subtree_is_no_descendant() {
    // 1 -> 2, 3; 3 -> 4: woman 2 is entered right after the subtree of 3
    let times = family(4, vec![1, 1, 3]);
    assert!(!is_ancestor(3, 2, &times));
    assert!(is_ancestor(3, 4, &times));
    assert!(is_ancestor(1, 2, &times));
}

#[test]
fn numbering_need_not_follow_generations() {
    // 1 -> 3 -> 2 -> 4
    let times = family(4, vec![3, 1, 2]);
    assert!(is_ancestor(3, 2, &times));
    assert!(is_ancestor(1, 4, &times));
    assert!(is_ancestor(2, 4, &times));
    assert!(!is_ancestor(2, 3, &times));
}

#[test]
fn a_long_line() {
    let n = 2000;
    let mothers: Vec<u32> = (2..=n as u32).map(|v| v - 1).collect();
    let times = family(n, mothers);
    assert!(is_ancestor(1, n, &times));
    assert!(is_ancestor(10, 11, &times));
    assert!(!is_ancestor(11, 10, &times));
}

#[test]
fn family_checks() {
    assert!(is_family(1, &vec![]));
    assert!(is_family(5, &vec![1, 1, 3, 2]));
    // woman 3 is the mother of woman 2
    assert!(is_family(3, &vec![3, 1]));
    // women 2 and 3 are each other's mothers
    assert!(!is_family(3, &vec![3, 2]));
    // a woman is her own mother
    assert!(!is_family(3, &vec![1, 3]));
    // a mother out of range
    assert!(!is_family(3, &vec![1, 4]));
    assert!(!is_family(3, &vec![0, 1]));
    // the wrong number of mothers
    assert!(!is_family(3, &vec![1]));
    assert!(!is_family(0, &vec![]));
}

#[test]
fn entry_times_are_a_preorder() {
    // 1 -> 2, 3; 3 -> 4; 2 -> 5
    let times = family(5, vec![1, 1, 3, 2]);
    assert_eq!(times.len(), 6);
    assert!(times[0].is_none());
    let entries: Vec<u32> = (1..=5).map(|v| times[v].unwrap().0).collect();
    assert_eq!(entries[0], 0);
    let mut sorted = entries.clone();
    sorted.sort();
    assert_eq!(sorted, vec![0, 1, 2, 3, 4]);
    for v in 1..=5 {
        let (l, r) = times[v].unwrap();
        assert!(l <= r && r < 5);
    }
    // the descendants of 3 are entered right after 3, up to 3's exit
    let (l3, r3) = times[3].unwrap();
    assert_eq!(r3, l3 + 1);
    assert_eq!(times[4].unwrap().0, l3 + 1);
    // the whole tree lies within woman 1's interval
    assert_eq!(times[1].unwrap().1, 4);
}
