//! The keypad: letters 1..L, in alphabetical order, are split into K keys,
//! each key holding a run of consecutive letters; typing the letter at
//! position p of its key takes p presses. Given how often each letter
//! occurs, find a split that needs the fewest presses; among those, the one
//! with the most letters on the last key, then on the key before it, and so on.
use vstd::prelude::*;

verus! {

/// The largest number of occurrences of a letter.
pub const MAXF: u64 = 0xFFFF_FFFF;

/// `sum_{i <= u < e} freq[u]`
pub open spec fn fsum(freq: Seq<u32>, i: int, e: int) -> int
    decreases e - i,
{
    if e <= i {
        0
    } else {
        fsum(freq, i, e - 1) + freq[e - 1]
    }
}

/// The presses for a key holding letters `i..e`: letter `u` sits at
/// position `u - i + 1`.
pub open spec fn key_cost(freq: Seq<u32>, i: int, e: int) -> int
    decreases e - i,
{
    if e <= i {
        0
    } else {
        key_cost(freq, i, e - 1) + freq[e - 1] * (e - i)
    }
}

/// The number of letters over all keys.
pub open spec fn total(b: Seq<int>) -> int
    decreases b.len(),
{
    if b.len() == 0 {
        0
    } else {
        total(b.drop_last()) + b.last()
    }
}

/// `b` gives the number of letters on each of `keys` keys, at least one on
/// each, `letters` in all.
pub open spec fn is_layout(b: Seq<int>, keys: int, letters: int) -> bool {
    &&& b.len() == keys
    &&& forall|i: int| 0 <= i < b.len() ==> #[trigger] b[i] >= 1
    &&& total(b) == letters
}

/// The presses needed with layout `b`, the first key starting at letter 1.
pub open spec fn layout_cost(freq: Seq<u32>, b: Seq<int>) -> int
    decreases b.len(),
{
    if b.len() == 0 {
        0
    } else {
        layout_cost(freq, b.drop_last()) + key_cost(
            freq,
            total(b.drop_last()) + 1,
            total(b) + 1,
        )
    }
}

/// Comparing from the last key towards the first, `a` is at least `b`:
/// they are equal, or at the last key where they differ `a` has more letters.
pub open spec fn rev_ge(a: Seq<int>, b: Seq<int>) -> bool {
    ||| a == b
    ||| exists|i: int|
        0 <= i < a.len() && a.len() == b.len() && a[i] > b[i] && forall|k: int|
            i < k < a.len() ==> #[trigger] a[k] == b[k]
}

/// A layout of `letters` letters on `keys` keys exists.
pub open spec fn valid_cell(keys: int, letters: int, max_letters: int) -> bool {
    &&& 0 <= letters <= max_letters
    &&& if keys == 0 {
        letters == 0
    } else {
        1 <= keys <= letters
    }
}

/// The layouts as integers.
pub open spec fn as_ints(v: Seq<usize>) -> Seq<int> {
    v.map_values(|x: usize| x as int)
}

/// What `solve_dp` returns: a layout of the letters of `freq` (all but its
/// first entry) on `k` keys that needs the fewest presses, `cost` of them,
/// and that is the greatest, compared from the last key, among those.
pub open spec fn best_layout(freq: Seq<u32>, k: int, cost: int, b: Seq<int>) -> bool {
    let letters = freq.len() - 1;
    &&& is_layout(b, k, letters)
    &&& cost == layout_cost(freq, b)
    &&& forall|b2: Seq<int>| #[trigger] is_layout(b2, k, letters) ==> cost <= layout_cost(freq, b2)
    &&& forall|b2: Seq<int>|
        #[trigger] is_layout(b2, k, letters) && layout_cost(freq, b2) == cost ==> rev_ge(b, b2)
}

// ---------------------------------------------------------------------
// Facts about keys and layouts
// ---------------------------------------------------------------------

/// Adding a letter in front of a key pushes every letter one position down.
proof fn lemma_key_front(freq: Seq<u32>, i: int, e: int)
    requires
        i < e,
    ensures
        key_cost(freq, i, e) == key_cost(freq, i + 1, e) + fsum(freq, i, e),
    decreases e - i,
{
    if e > i + 1 {
        lemma_key_front(freq, i, e - 1);
        assert(key_cost(freq, i, e) == key_cost(freq, i, e - 1) + freq[e - 1] * (e - i));
        assert(key_cost(freq, i + 1, e) == key_cost(freq, i + 1, e - 1) + freq[e - 1] * (e - i
            - 1));
        assert(fsum(freq, i, e) == fsum(freq, i, e - 1) + freq[e - 1]);
        assert(freq[e - 1] * (e - i) == freq[e - 1] * (e - i - 1) + freq[e - 1])
            by (nonlinear_arith);
    } else {
        assert(key_cost(freq, i + 1, e) == 0);
        assert(key_cost(freq, i, i) == 0);
        assert(fsum(freq, i, i) == 0);
        assert(fsum(freq, i, e) == fsum(freq, i, e - 1) + freq[e - 1]);
        assert(key_cost(freq, i, e) == key_cost(freq, i, e - 1) + freq[e - 1] * (e - i));
        assert(freq[e - 1] * (e - i) == freq[e - 1]) by (nonlinear_arith)
            requires
                e - i == 1,
        ;
    }
}

/// Bounds on the presses of one key.
proof fn lemma_key_bound(freq: Seq<u32>, i: int, e: int)
    requires
        i <= e,
    ensures
        0 <= fsum(freq, i, e) <= MAXF * (e - i),
        0 <= key_cost(freq, i, e) <= MAXF * (e - i) * (e - i),
    decreases e - i,
{
    if e > i {
        lemma_key_bound(freq, i, e - 1);
        let d = e - i;
        let f = freq[e - 1] as int;
        assert(0 <= f * d <= MAXF * d) by (nonlinear_arith)
            requires
                0 <= f <= MAXF,
                d >= 1,
        ;
        assert(MAXF * (d - 1) * (d - 1) + MAXF * d <= MAXF * d * d) by (nonlinear_arith)
            requires
                d >= 1,
        ;
    }
}

/// A layout has at least one letter per key.
proof fn lemma_total_ge_len(b: Seq<int>)
    requires
        forall|i: int| 0 <= i < b.len() ==> #[trigger] b[i] >= 1,
    ensures
        total(b) >= b.len(),
    decreases b.len(),
{
    if b.len() > 0 {
        let p = b.drop_last();
        assert forall|i: int| 0 <= i < p.len() implies #[trigger] p[i] >= 1 by {
            assert(p[i] == b[i]);
        }
        lemma_total_ge_len(p);
    }
}

/// A layout without its last key lays out the letters before that key.
proof fn lemma_layout_split(b: Seq<int>, keys: int, letters: int)
    requires
        is_layout(b, keys, letters),
        keys >= 1,
    ensures
        is_layout(b.drop_last(), keys - 1, letters - b.last()),
        valid_cell(keys - 1, letters - b.last(), letters - 1),
        b.drop_last().push(b.last()) == b,
{
    let p = b.drop_last();
    assert forall|i: int| 0 <= i < p.len() implies #[trigger] p[i] >= 1 by {
        assert(p[i] == b[i]);
    }
    lemma_total_ge_len(p);
    assert(b.last() >= 1);
    if keys == 1 {
        assert(p.len() == 0);
        assert(total(p) == 0);
    }
    assert(p.push(b.last()) =~= b);
}

/// The empty layout is the only one with no keys.
proof fn lemma_no_keys(b: Seq<int>)
    requires
        b.len() == 0,
    ensures
        b == Seq::<int>::empty(),
{
    assert(b =~= Seq::<int>::empty());
}

/// Adding a key after equal-or-greater layouts keeps the order; a longer
/// last key wins outright.
proof fn lemma_rev_ge_push(a: Seq<int>, b: Seq<int>, x: int, y: int)
    requires
        a.len() == b.len(),
        x > y || (x == y && rev_ge(a, b)),
    ensures
        rev_ge(a.push(x), b.push(y)),
{
    let a2 = a.push(x);
    let b2 = b.push(y);
    let n = a.len() as int;
    if x > y {
        assert(a2[n] > b2[n]);
        assert(forall|k: int| n < k < a2.len() ==> #[trigger] a2[k] == b2[k]);
    } else if a == b {
        assert(a2 =~= b2);
    } else {
        let i = choose|i: int|
            0 <= i < a.len() && a.len() == b.len() && a[i] > b[i] && forall|k: int|
                i < k < a.len() ==> #[trigger] a[k] == b[k];
        assert(a2[i] > b2[i]);
        assert forall|k: int| i < k < a2.len() implies #[trigger] a2[k] == b2[k] by {
            if k < n {
                assert(a[k] == b[k]);
            }
        }
    }
}

// ---------------------------------------------------------------------
// The table of choices
// ---------------------------------------------------------------------

/// The layout read off the table of choices: to lay `s` letters on `j`
/// keys, the first `j - 1` keys take `choice[j][s]` letters.
pub open spec fn chain(choice: Seq<Vec<usize>>, j: nat, s: int) -> Seq<int>
    decreases j,
{
    if j == 0 {
        Seq::empty()
    } else {
        let t = choice[j as int]@[s] as int;
        chain(choice, (j - 1) as nat, t).push(s - t)
    }
}

/// Appending a row leaves the layouts of the rows below alone.
proof fn lemma_chain_push(choice: Seq<Vec<usize>>, r: Vec<usize>, j: nat, s: int)
    requires
        j < choice.len(),
    ensures
        chain(choice.push(r), j, s) == chain(choice, j, s),
    decreases j,
{
    if j > 0 {
        assert(choice.push(r)[j as int] == choice[j as int]);
        lemma_chain_push(choice, r, (j - 1) as nat, choice[j as int]@[s] as int);
    }
}

/// The cell for `j` keys and `s` letters is right: its chain is a layout,
/// the table holds its presses, no layout needs fewer, and among the layouts
/// that need as few, the chain is the greatest from the last key.
spec fn cell_ok(freq: Seq<u32>, f: Seq<Vec<u64>>, choice: Seq<Vec<usize>>, j: int, s: int) -> bool {
    let ch = chain(choice, j as nat, s);
    let v = f[j]@[s];
    &&& j >= 1 ==> {
        &&& valid_cell(j - 1, choice[j]@[s] as int, s - 1)
    }
    &&& is_layout(ch, j, s)
    &&& v == layout_cost(freq, ch)
    &&& v <= MAXF * s * s
    &&& forall|b: Seq<int>| #[trigger] is_layout(b, j, s) ==> v <= layout_cost(freq, b)
    &&& forall|b: Seq<int>|
        #[trigger] is_layout(b, j, s) && layout_cost(freq, b) == v ==> rev_ge(ch, b)
}

/// Rows `0..levels` of the tables are right.
spec fn tables_ok(
    freq: Seq<u32>,
    f: Seq<Vec<u64>>,
    choice: Seq<Vec<usize>>,
    levels: int,
    letters: int,
) -> bool {
    &&& f.len() == levels
    &&& choice.len() == levels
    &&& forall|j: int| 0 <= j < levels ==> #[trigger] f[j]@.len() == letters + 1
    &&& forall|j: int| 0 <= j < levels ==> #[trigger] choice[j]@.len() == letters + 1
    &&& forall|j: int, s: int|
        0 <= j < levels && valid_cell(j, s, letters) ==> #[trigger] cell_ok(
            freq,
            f,
            choice,
            j,
            s,
        )
}

/// Appending a row to both tables keeps the rows below right.
proof fn lemma_tables_push(
    freq: Seq<u32>,
    f: Seq<Vec<u64>>,
    choice: Seq<Vec<usize>>,
    fr: Vec<u64>,
    cr: Vec<usize>,
    levels: int,
    letters: int,
    j: int,
    s: int,
)
    requires
        tables_ok(freq, f, choice, levels, letters),
        0 <= j < levels,
        valid_cell(j, s, letters),
    ensures
        cell_ok(freq, f.push(fr), choice.push(cr), j, s),
{
    assert(cell_ok(freq, f, choice, j, s));
    lemma_chain_push(choice, cr, j as nat, s);
    assert(f.push(fr)[j] == f[j]);
    assert(choice.push(cr)[j] == choice[j]);
}

/// Finds the fewest presses needed to type the text with `k` keys, the
/// letters `1..freq.len()` occurring `freq[1..]` times (`freq[0]` is not a
/// letter), and the number of letters on each key of the layout that needs
/// them: among the best layouts, the one with the most letters on the last
/// key, then on the key before it, and so on.
#[verifier::spinoff_prover]
#[verifier::rlimit(40)]
pub fn solve_dp(k: usize, freq: Vec<u32>) -> (res: (u64, Vec<usize>))
    requires
        1 <= k < freq.len(),
        freq.len() <= 0x1_0000,
    ensures
        best_layout(freq@, k as int, res.0 as int, as_ints(res.1@)),
{
    let n = freq.len();
    let letters = n - 1;
    // row 0: no keys, no letters
    let mut row_f: Vec<u64> = Vec::new();
    let mut row_c: Vec<usize> = Vec::new();
    let mut s: usize = 0;
    while s <= letters
        invariant
            letters + 1 == n,
            n <= 0x1_0000,
            s <= letters + 1,
            row_f.len() == s,
            row_c.len() == s,
            forall|i: int| 0 <= i < s ==> #[trigger] row_f@[i] == 0,
        decreases letters + 1 - s,
    {
        row_f.push(0);
        row_c.push(0);
        s += 1;
    }
    let mut f: Vec<Vec<u64>> = Vec::new();
    let mut choice: Vec<Vec<usize>> = Vec::new();
    f.push(row_f);
    choice.push(row_c);
    proof {
        assert(chain(choice@, 0, 0) == Seq::<int>::empty());
        assert forall|b: Seq<int>| #[trigger] is_layout(b, 0, 0) implies b == Seq::<int>::empty() by {
            lemma_no_keys(b);
        }
        assert(is_layout(Seq::<int>::empty(), 0, 0));
        assert(cell_ok(freq@, f@, choice@, 0, 0));
        assert forall|j: int, s2: int|
            0 <= j < 1 && valid_cell(j, s2, letters as int) implies #[trigger] cell_ok(
            freq@,
            f@,
            choice@,
            j,
            s2,
        ) by {
            assert(j == 0 && s2 == 0);
        }
    }
    let mut j: usize = 1;
    while j <= k
        invariant
            letters + 1 == n,
            n == freq.len(),
            n <= 0x1_0000,
            1 <= k <= letters,
            1 <= j <= k + 1,
            tables_ok(freq@, f@, choice@, j as int, letters as int),
        decreases k + 1 - j,
    {
        let mut cur_f: Vec<u64> = Vec::new();
        let mut cur_c: Vec<usize> = Vec::new();
        let mut z: usize = 0;
        while z <= letters
            invariant
                letters + 1 == n,
                n <= 0x1_0000,
                z <= letters + 1,
                cur_f.len() == z,
                cur_c.len() == z,
            decreases letters + 1 - z,
        {
            cur_f.push(0);
            cur_c.push(0);
            z += 1;
        }
        let mut s: usize = j;
        while s <= letters
            invariant
                letters + 1 == n,
                n == freq.len(),
                n <= 0x1_0000,
                1 <= j <= k <= letters,
                j <= s <= letters + 1,
                tables_ok(freq@, f@, choice@, j as int, letters as int),
                cur_f.len() == letters + 1,
                cur_c.len() == letters + 1,
                forall|s2: int|
                    j <= s2 < s ==> #[trigger] cell_ok(
                        freq@,
                        f@.push(cur_f),
                        choice@.push(cur_c),
                        j as int,
                        s2,
                    ),
            decreases letters + 1 - s,
        {
            let (best, arg) = best_split(&freq, &f, &choice, j, s);
            let ghost old_f = cur_f;
            let ghost old_c = cur_c;
            cur_f.set(s, best);
            cur_c.set(s, arg);
            proof {
                lemma_level_cell(freq@, f@, choice@, cur_f, cur_c, j, s, letters, best, arg);
                assert forall|s2: int| j <= s2 < s + 1 implies #[trigger] cell_ok(
                    freq@,
                    f@.push(cur_f),
                    choice@.push(cur_c),
                    j as int,
                    s2,
                ) by {
                    if s2 < s {
                        lemma_level_frame(freq@, f@, choice@, old_f, old_c, cur_f, cur_c, j, s2, letters);
                    }
                }
            }
            s += 1;
        }
        proof {
            let f2 = f@.push(cur_f);
            let c2 = choice@.push(cur_c);
            assert forall|j2: int, s2: int|
                0 <= j2 < j + 1 && valid_cell(j2, s2, letters as int) implies #[trigger] cell_ok(
                freq@,
                f2,
                c2,
                j2,
                s2,
            ) by {
                if j2 < j {
                    lemma_tables_push(freq@, f@, choice@, cur_f, cur_c, j as int, letters as int, j2, s2);
                }
            }
            assert forall|j2: int| 0 <= j2 < j + 1 implies #[trigger] f2[j2]@.len() == letters + 1 by {
                if j2 < j {
                    assert(f2[j2] == f@[j2]);
                }
            }
            assert forall|j2: int| 0 <= j2 < j + 1 implies #[trigger] c2[j2]@.len() == letters + 1 by {
                if j2 < j {
                    assert(c2[j2] == choice@[j2]);
                }
            }
        }
        f.push(cur_f);
        choice.push(cur_c);
        j += 1;
    }
    // read the layout off the table of choices, from the last key back
    let mut layout: Vec<usize> = Vec::new();
    let mut z: usize = 0;
    while z < k
        invariant
            z <= k,
            layout.len() == z,
        decreases k - z,
    {
        layout.push(0);
        z += 1;
    }
    proof {
        assert(cell_ok(freq@, f@, choice@, k as int, letters as int));
    }
    let ghost full = chain(choice@, k as nat, letters as int);
    let mut state: usize = letters;
    let mut jj: usize = k;
    while jj > 0
        invariant
            letters + 1 == n,
            1 <= k <= letters,
            jj <= k,
            layout.len() == k,
            tables_ok(freq@, f@, choice@, k + 1, letters as int),
            valid_cell(jj as int, state as int, letters as int),
            full == chain(choice@, k as nat, letters as int),
            full =~= chain(choice@, jj as nat, state as int) + as_ints(layout@).subrange(
                jj as int,
                k as int,
            ),
        decreases jj,
    {
        proof {
            assert(cell_ok(freq@, f@, choice@, jj as int, state as int));
        }
        let t = choice[jj][state];
        let ghost before = layout@;
        layout.set(jj - 1, state - t);
        proof {
            let ch = chain(choice@, (jj - 1) as nat, t as int);
            assert(chain(choice@, jj as nat, state as int) == ch.push(state - t));
            assert(as_ints(layout@).subrange(jj - 1, k as int) =~= seq![(state - t) as int]
                + as_ints(before).subrange(jj as int, k as int));
        }
        state = t;
        jj -= 1;
    }
    proof {
        assert(chain(choice@, 0, state as int) == Seq::<int>::empty());
        assert(as_ints(layout@).subrange(0, k as int) =~= as_ints(layout@));
        assert(full =~= as_ints(layout@));
    }
    let cost = f[k][letters];
    (cost, layout)
}

/// Takes the first letter off a run.
proof fn lemma_fsum_front(freq: Seq<u32>, i: int, e: int)
    requires
        i < e,
    ensures
        fsum(freq, i, e) == freq[i] + fsum(freq, i + 1, e),
    decreases e - i,
{
    if e > i + 1 {
        lemma_fsum_front(freq, i, e - 1);
        assert(fsum(freq, i, e) == fsum(freq, i, e - 1) + freq[e - 1]);
        assert(fsum(freq, i + 1, e) == fsum(freq, i + 1, e - 1) + freq[e - 1]);
    } else {
        assert(fsum(freq, i, i) == 0);
        assert(fsum(freq, i + 1, e) == 0);
        assert(fsum(freq, i, e) == fsum(freq, i, e - 1) + freq[e - 1]);
    }
}

/// The best split of `s` letters on `j` keys: the number `arg` of letters
/// on the first `j - 1` keys, and the presses `best` that it needs. Among
/// the splits that need as few presses, `arg` is the smallest (the last key
/// is as long as it can be).
fn best_split(freq: &Vec<u32>, f: &Vec<Vec<u64>>, choice: &Vec<Vec<usize>>, j: usize, s: usize) -> (res: (
    u64,
    usize,
))
    requires
        freq.len() <= 0x1_0000,
        tables_ok(freq@, f@, choice@, j as int, freq.len() - 1),
        1 <= j <= s < freq.len(),
    ensures
        valid_cell(j - 1, res.1 as int, s - 1),
        res.0 == f@[j - 1]@[res.1 as int] + key_cost(freq@, res.1 + 1, s + 1),
        res.0 <= MAXF * s * s,
        forall|t: int|
            #[trigger] valid_cell(j - 1, t, s - 1) ==> res.0 <= f@[j - 1]@[t] + key_cost(
                freq@,
                t + 1,
                s + 1,
            ),
        forall|t: int|
            #[trigger] valid_cell(j - 1, t, s - 1) && t < res.1 ==> res.0 < f@[j - 1]@[t]
                + key_cost(freq@, t + 1, s + 1),
{
    let ghost letters = freq.len() - 1;
    let mut t: usize = s;
    let mut fs: u64 = 0;
    let mut sc: u64 = 0;
    let mut best: u64 = 0;
    let mut arg: usize = s;
    let mut found = false;
    let prev_row = &f[j - 1];
    proof {
        assert(prev_row@.len() == letters + 1);
    }
    while t > j - 1
        invariant
            freq.len() <= 0x1_0000,
            letters == freq.len() - 1,
            tables_ok(freq@, f@, choice@, j as int, letters),
            1 <= j <= s < freq.len(),
            prev_row == f@[j - 1],
            prev_row@.len() == letters + 1,
            j - 1 <= t <= s,
            fs as int == fsum(freq@, t + 1, s + 1),
            sc as int == key_cost(freq@, t + 1, s + 1),
            found == exists|t2: int| t <= t2 < s && #[trigger] valid_cell(j - 1, t2, s - 1),
            found ==> {
                &&& t <= arg < s
                &&& valid_cell(j - 1, arg as int, s - 1)
                &&& best == prev_row@[arg as int] + key_cost(freq@, arg + 1, s + 1)
                &&& best <= MAXF * s * s
            },
            forall|t2: int|
                t <= t2 < s && #[trigger] valid_cell(j - 1, t2, s - 1) ==> best <= prev_row@[t2]
                    + key_cost(freq@, t2 + 1, s + 1),
            forall|t2: int|
                t <= t2 < arg && #[trigger] valid_cell(j - 1, t2, s - 1) ==> best < prev_row@[t2]
                    + key_cost(freq@, t2 + 1, s + 1),
        decreases t,
    {
        t -= 1;
        proof {
            lemma_fsum_front(freq@, t + 1, s + 1);
            lemma_key_front(freq@, t + 1, s + 1);
            lemma_key_bound(freq@, t + 1, s + 1);
            assert(MAXF * (s - t) <= MAXF * 0x1_0000) by (nonlinear_arith)
                requires
                    s - t <= 0x1_0000,
            ;
            assert(MAXF * (s - t) * (s - t) <= MAXF * 0x1_0000 * 0x1_0000) by (nonlinear_arith)
                requires
                    0 <= s - t <= 0x1_0000,
            ;
        }
        fs = fs + freq[t + 1] as u64;
        sc = sc + fs;
        if j > 1 || t == 0 {
            proof {
                assert(valid_cell(j - 1, t as int, s - 1));
                assert(cell_ok(freq@, f@, choice@, j - 1, t as int));
                assert(MAXF * t * t + MAXF * (s - t) * (s - t) <= MAXF * s * s) by (nonlinear_arith)
                    requires
                        0 <= t <= s,
                ;
                assert(MAXF * s * s <= MAXF * 0x1_0000 * 0x1_0000) by (nonlinear_arith)
                    requires
                        0 <= s <= 0x1_0000,
                ;
            }
            let cand = prev_row[t] + sc;
            if !found || cand <= best {
                best = cand;
                arg = t;
            }
            found = true;
        } else {
            proof {
                assert(!valid_cell(j - 1, t as int, s - 1));
            }
        }
    }
    proof {
        assert(valid_cell(j - 1, (j - 1) as int, s - 1));
    }
    (best, arg)
}

/// Setting the cell for `s` letters on `j` keys from its best split makes it right.
proof fn lemma_level_cell(
    freq: Seq<u32>,
    f: Seq<Vec<u64>>,
    choice: Seq<Vec<usize>>,
    cur_f: Vec<u64>,
    cur_c: Vec<usize>,
    j: usize,
    s: usize,
    letters: usize,
    best: u64,
    arg: usize,
)
    requires
        tables_ok(freq, f, choice, j as int, letters as int),
        1 <= j <= s <= letters,
        cur_f@.len() == letters + 1,
        cur_c@.len() == letters + 1,
        cur_f@[s as int] == best,
        cur_c@[s as int] == arg,
        valid_cell(j - 1, arg as int, s - 1),
        best == f[j - 1]@[arg as int] + key_cost(freq, arg + 1, s + 1),
        best <= MAXF * s * s,
        forall|t: int|
            #[trigger] valid_cell(j - 1, t, s - 1) ==> best <= f[j - 1]@[t] + key_cost(
                freq,
                t + 1,
                s + 1,
            ),
        forall|t: int|
            #[trigger] valid_cell(j - 1, t, s - 1) && t < arg ==> best < f[j - 1]@[t] + key_cost(
                freq,
                t + 1,
                s + 1,
            ),
    ensures
        cell_ok(freq, f.push(cur_f), choice.push(cur_c), j as int, s as int),
{
    let ff = f.push(cur_f);
    let cc = choice.push(cur_c);
    let jm = (j - 1) as nat;
    assert(valid_cell(jm as int, arg as int, letters as int));
    assert(cell_ok(freq, f, choice, jm as int, arg as int));
    lemma_chain_push(choice, cur_c, jm, arg as int);
    let prefix = chain(choice, jm, arg as int);
    let ch = chain(cc, j as nat, s as int);
    assert(cc[j as int] == cur_c);
    assert(ch == prefix.push(s - arg));
    assert(ch.drop_last() =~= prefix);
    assert forall|i: int| 0 <= i < ch.len() implies #[trigger] ch[i] >= 1 by {
        if i < prefix.len() {
            assert(ch[i] == prefix[i]);
        }
    }
    assert(is_layout(ch, j as int, s as int));
    assert(layout_cost(freq, ch) == best);
    assert(ff[j as int] == cur_f);
    assert forall|b: Seq<int>| #[trigger] is_layout(b, j as int, s as int) implies best
        <= layout_cost(freq, b) && (layout_cost(freq, b) == best ==> rev_ge(ch, b)) by {
        lemma_layout_split(b, j as int, s as int);
        let bp = b.drop_last();
        let y = b.last();
        let tb = s - y;
        assert(valid_cell(jm as int, tb, letters as int));
        assert(cell_ok(freq, f, choice, jm as int, tb));
        assert(layout_cost(freq, b) == layout_cost(freq, bp) + key_cost(freq, tb + 1, s + 1));
        assert(f[jm as int]@[tb] <= layout_cost(freq, bp));
        if layout_cost(freq, b) == best {
            assert(tb >= arg);
            if tb > arg {
                lemma_rev_ge_push(prefix, bp, s - arg, y);
            } else {
                assert(layout_cost(freq, bp) == f[jm as int]@[tb]);
                assert(rev_ge(prefix, bp));
                lemma_rev_ge_push(prefix, bp, s - arg, y);
            }
        }
    }
}

/// Setting one cell of the row being built leaves the other cells of the row alone.
proof fn lemma_level_frame(
    freq: Seq<u32>,
    f: Seq<Vec<u64>>,
    choice: Seq<Vec<usize>>,
    old_f: Vec<u64>,
    old_c: Vec<usize>,
    cur_f: Vec<u64>,
    cur_c: Vec<usize>,
    j: usize,
    s2: int,
    letters: usize,
)
    requires
        f.len() == j,
        choice.len() == j,
        j >= 1,
        cur_f@[s2] == old_f@[s2],
        cur_c@[s2] == old_c@[s2],
        cell_ok(freq, f.push(old_f), choice.push(old_c), j as int, s2),
    ensures
        cell_ok(freq, f.push(cur_f), choice.push(cur_c), j as int, s2),
{
    let t = old_c@[s2] as int;
    let jm = (j - 1) as nat;
    assert(choice.push(old_c)[j as int] == old_c);
    assert(choice.push(cur_c)[j as int] == cur_c);
    assert(f.push(old_f)[j as int] == old_f);
    assert(f.push(cur_f)[j as int] == cur_f);
    lemma_chain_push(choice, old_c, jm, t);
    lemma_chain_push(choice, cur_c, jm, t);
    assert(chain(choice.push(old_c), j as nat, s2) == chain(choice.push(cur_c), j as nat, s2));
}

} // verus!
