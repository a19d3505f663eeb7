//! Counting the occurrences of a rectangular pattern (the needle) in a
//! rectangular table of letters (the haystack): by brute force, and by a
//! two-dimensional Rabin-Karp search with a rolling polynomial hash.
use vstd::prelude::*;
use vstd::utf8::{encode_scalar, encode_utf8};
use crate::polyhash::{
    base, col_sum, grid_sum, hmod, is_power_table, lemma_add_cong, lemma_col_sum_cong,
    lemma_down_step, lemma_grid_sum_cong, lemma_grid_sum_pow, lemma_mul_cong, lemma_right_step,
    lemma_roll_cong, lemma_row_sum_cong, lemma_scaled_row_step, lemma_row_sum_pow, lemma_small_mod, lemma_table_congruent,
    lemma_wrapping_add, lemma_wrapping_mul, lemma_wrapping_sub, lemma_window_poly_equal, pow_weight, pw, row_poly, row_sum,
    table_weight, window_hash, window_poly,
};

verus! {

/// A table of letters, row after row.
pub type Str2d = Vec<Vec<u8>>;

/// A hash value: a polynomial in `P` taken modulo 2^64.
pub type Hash = u64;

/// The base of the polynomial hash.
pub const P: Hash = 31;

// ---------------------------------------------------------------------
// What is counted
// ---------------------------------------------------------------------

/// Every row of `g` is `w` long.
pub open spec fn is_rect(g: Seq<Vec<u8>>, w: int) -> bool {
    forall|r: int| 0 <= r < g.len() ==> #[trigger] g[r]@.len() == w
}

/// The width of a table: the length of its first row (0 when it has none).
pub open spec fn width(g: Seq<Vec<u8>>) -> int {
    if g.len() > 0 {
        g[0]@.len() as int
    } else {
        0
    }
}

/// The needle lies in the haystack with its top-left cell at row `i`, column `j`.
pub open spec fn matches_at(needle: Seq<Vec<u8>>, haystack: Seq<Vec<u8>>, i: int, j: int) -> bool {
    forall|r: int, c: int|
        0 <= r < needle.len() && 0 <= c < width(needle) ==> #[trigger] haystack[i + r]@[j + c]
            == needle[r]@[c]
}

/// The number of columns `j < n` at which the needle lies in row `i`.
pub open spec fn row_count(needle: Seq<Vec<u8>>, haystack: Seq<Vec<u8>>, i: int, n: nat) -> nat
    decreases n,
{
    if n == 0 {
        0
    } else {
        row_count(needle, haystack, i, (n - 1) as nat) + if matches_at(
            needle,
            haystack,
            i,
            n - 1,
        ) {
            1nat
        } else {
            0nat
        }
    }
}

/// The number of places with top row below `m` at which the needle lies.
pub open spec fn count_upto(needle: Seq<Vec<u8>>, haystack: Seq<Vec<u8>>, m: nat) -> nat
    decreases m,
{
    if m == 0 {
        0
    } else {
        count_upto(needle, haystack, (m - 1) as nat) + row_count(
            needle,
            haystack,
            m - 1,
            (width(haystack) - width(needle) + 1) as nat,
        )
    }
}

/// The number of places at which the needle lies in the haystack.
pub open spec fn occurrences(needle: Seq<Vec<u8>>, haystack: Seq<Vec<u8>>) -> nat {
    if needle.len() <= haystack.len() && width(needle) <= width(haystack) {
        count_upto(needle, haystack, (haystack.len() - needle.len() + 1) as nat)
    } else {
        0
    }
}

/// What the counting functions accept: two rectangular tables, the needle
/// at least one letter in each direction and no larger than the haystack,
/// and a haystack whose number of cells fits in `usize`.
pub open spec fn valid_search(needle: Seq<Vec<u8>>, haystack: Seq<Vec<u8>>) -> bool {
    &&& needle.len() >= 1
    &&& width(needle) >= 1
    &&& is_rect(needle, width(needle))
    &&& is_rect(haystack, width(haystack))
    &&& haystack.len() * width(haystack) < usize::MAX
}

// ---------------------------------------------------------------------
// One-dimensional counting
// ---------------------------------------------------------------------

/// The number of positions `k < n` at which `needle` starts in `hay`.
pub open spec fn seq_count(needle: Seq<u8>, hay: Seq<u8>, n: nat) -> nat
    decreases n,
{
    if n == 0 {
        0
    } else {
        seq_count(needle, hay, (n - 1) as nat) + if hay.subrange(
            n - 1,
            n - 1 + needle.len(),
        ) == needle {
            1nat
        } else {
            0nat
        }
    }
}

/// The number of (possibly overlapping) occurrences of `needle` in `hay`.
pub open spec fn seq_occurrences(needle: Seq<u8>, hay: Seq<u8>) -> nat {
    if needle.len() <= hay.len() {
        seq_count(needle, hay, (hay.len() - needle.len() + 1) as nat)
    } else {
        0
    }
}

/// Counts the occurrences of the text `needle` in the text `haystack`,
/// overlapping ones included, as byte strings in UTF-8. The search resumes
/// one byte after each occurrence, which is where a character starts only
/// when the needle's first character is ASCII: a needle that starts with
/// another character must not occur.
pub fn str_count(needle: String, haystack: String) -> (ans: usize)
    requires
        needle@.len() >= 1,
        (needle@[0] as u32) < 128 || seq_occurrences(encode_utf8(needle@), encode_utf8(haystack@))
            == 0,
    ensures
        ans == seq_occurrences(encode_utf8(needle@), encode_utf8(haystack@)),
{
    let nb = needle.as_str().as_bytes();
    let hb = haystack.as_str().as_bytes();
    proof {
        let c = needle@[0];
        assert(encode_utf8(needle@) == encode_scalar(c as u32) + encode_utf8(needle@.drop_first()));
        assert(encode_scalar(c as u32).len() >= 1);
    }
    count_bytes(nb, hb)
}

/// Counts the occurrences of `needle` in `haystack`, overlapping ones included.
fn count_bytes(needle: &[u8], haystack: &[u8]) -> (ans: usize)
    requires
        needle.len() >= 1,
    ensures
        ans == seq_occurrences(needle@, haystack@),
{
    let nl = needle.len();
    let hl = haystack.len();
    if nl > hl {
        return 0;
    }
    let mut ans: usize = 0;
    let mut pos: usize = 0;
    while pos <= hl - nl
        invariant
            nl == needle.len(),
            hl == haystack.len(),
            1 <= nl <= hl,
            pos <= hl - nl + 1,
            ans == seq_count(needle@, haystack@, pos as nat),
            ans <= pos,
        decreases hl - nl + 1 - pos,
    {
        let mut k: usize = 0;
        let mut same = true;
        while k < nl
            invariant
                nl == needle.len(),
                hl == haystack.len(),
                pos + nl <= hl,
                k <= nl,
                same == (forall|t: int| 0 <= t < k ==> haystack@[pos + t] == needle@[t]),
            decreases nl - k,
        {
            if haystack[pos + k] != needle[k] {
                same = false;
            }
            k += 1;
        }
        proof {
            let sub = haystack@.subrange(pos as int, pos + nl);
            if same {
                assert(sub =~= needle@);
            } else {
                let t = choose|t: int| 0 <= t < nl && haystack@[pos + t] != needle@[t];
                assert(sub[t] != needle@[t]);
            }
        }
        if same {
            ans += 1;
        }
        pos += 1;
    }
    ans
}

// ---------------------------------------------------------------------
// Comparing a window with the needle
// ---------------------------------------------------------------------

/// Compares the needle with the window of the haystack whose top-left cell
/// is row `i`, column `j`.
fn window_equals(needle: &Str2d, haystack: &Str2d, i: usize, j: usize) -> (res: bool)
    requires
        needle.len() >= 1,
        is_rect(needle@, width(needle@)),
        is_rect(haystack@, width(haystack@)),
        i + needle.len() <= haystack.len(),
        j + width(needle@) <= width(haystack@),
    ensures
        res == matches_at(needle@, haystack@, i as int, j as int),
{
    let nh = needle.len();
    let nw = needle[0].len();
    let mut r: usize = 0;
    while r < nh
        invariant
            nh == needle.len(),
            nw == width(needle@),
            1 <= nh,
            is_rect(needle@, width(needle@)),
            is_rect(haystack@, width(haystack@)),
            i + nh <= haystack.len(),
            j + nw <= width(haystack@),
            r <= nh,
            forall|rr: int, c: int|
                0 <= rr < r && 0 <= c < nw ==> #[trigger] haystack@[i + rr]@[j + c]
                    == needle@[rr]@[c],
        decreases nh - r,
    {
        let nrow = &needle[r];
        let hrow = &haystack[i + r];
        assert(nrow@.len() == nw);
        assert(hrow@.len() == width(haystack@));
        let hw = hrow.len();
        let mut c: usize = 0;
        while c < nw
            invariant
                nrow@.len() == nw,
                hrow@.len() == width(haystack@),
                r < nh,
                nh == needle.len(),
                nw == width(needle@),
                hw == hrow@.len(),
                i + nh <= haystack.len(),
                hrow@ == haystack@[i + r]@,
                nrow@ == needle@[r as int]@,
                j + nw <= width(haystack@),
                c <= nw,
                forall|cc: int| 0 <= cc < c ==> hrow@[j + cc] == nrow@[cc],
            decreases nw - c,
        {
            if hrow[j + c] != nrow[c] {
                assert(haystack@[i + r]@[j + c] != needle@[r as int]@[c as int]);
                return false;
            }
            c += 1;
        }
        assert forall|rr: int, cc: int| 0 <= rr < r + 1 && 0 <= cc < nw implies #[trigger] haystack@[i
            + rr]@[j + cc] == needle@[rr]@[cc] by {
            if rr == r {
                assert(hrow@[j + cc] == nrow@[cc]);
            }
        }
        r += 1;
    }
    true
}

/// Counts the occurrences of the needle by comparing it with every window.
pub fn brute_force(needle: Str2d, haystack: Str2d) -> (acc: usize)
    requires
        valid_search(needle@, haystack@),
    ensures
        acc == occurrences(needle@, haystack@),
{
    let nh = needle.len();
    let nw = needle[0].len();
    let hh = haystack.len();
    if hh == 0 || nh > hh || nw > haystack[0].len() {
        return 0;
    }
    let hw = haystack[0].len();
    let mut acc: usize = 0;
    let mut i: usize = 0;
    while i <= hh - nh
        invariant
            valid_search(needle@, haystack@),
            nh == needle.len(),
            nw == width(needle@),
            hh == haystack.len(),
            hw == width(haystack@),
            1 <= nh <= hh,
            1 <= nw <= hw,
            i <= hh - nh + 1,
            acc == count_upto(needle@, haystack@, i as nat),
            acc <= i * (hw - nw + 1),
        decreases hh - nh + 1 - i,
    {
        let mut j: usize = 0;
        let ghost before = acc;
        while j <= hw - nw
            invariant
                valid_search(needle@, haystack@),
                nh == needle.len(),
                nw == width(needle@),
                hh == haystack.len(),
                hw == width(haystack@),
                1 <= nh <= hh,
                1 <= nw <= hw,
                i <= hh - nh,
                j <= hw - nw + 1,
                before == count_upto(needle@, haystack@, i as nat),
                before <= i * (hw - nw + 1),
                acc == before + row_count(needle@, haystack@, i as int, j as nat),
                acc <= before + j,
            decreases hw - nw + 1 - j,
        {
            if window_equals(&needle, &haystack, i, j) {
                proof {
                    lemma_positions_fit(i as int, hh - nh + 1, hw - nw + 1, j as int, hh as int, hw as int);
                }
                acc += 1;
            }
            j += 1;
        }
        proof {
            assert(i * (hw - nw + 1) + (hw - nw + 1) == (i + 1) * (hw - nw + 1))
                by (nonlinear_arith);
        }
        i += 1;
    }
    acc
}

/// A count below `i * cols + j + 1` fits in `usize`.
proof fn lemma_positions_fit(i: int, rows: int, cols: int, j: int, hh: int, hw: int)
    requires
        0 <= i < rows,
        0 <= j < cols,
        rows <= hh,
        cols <= hw,
        hh * hw < usize::MAX,
    ensures
        i * cols + j + 1 <= usize::MAX,
{
    assert(i * cols + j + 1 <= rows * cols) by (nonlinear_arith)
        requires
            0 <= i < rows,
            0 <= j < cols,
    ;
    assert(rows * cols <= hh * hw) by (nonlinear_arith)
        requires
            0 <= rows <= hh,
            0 <= cols <= hw,
    ;
}

// ---------------------------------------------------------------------
// The rolling hash
// ---------------------------------------------------------------------

/// The powers of `P` modulo 2^64, from `P^0` up to `P^len` inclusive.
pub fn init_ps(len: usize) -> (ps: Vec<Hash>)
    requires
        len < usize::MAX,
    ensures
        ps.len() == len + 1,
        is_power_table(ps@, len + 1),
{
    let mut ps: Vec<Hash> = Vec::new();
    let mut acc: Hash = 1;
    let mut k: usize = 0;
    while k <= len
        invariant
            len < usize::MAX,
            k <= len + 1,
            ps.len() == k,
            is_power_table(ps@, k as int),
            acc as int == pw(k as nat) % hmod(),
        decreases len + 1 - k,
    {
        ps.push(acc);
        proof {
            lemma_wrapping_mul(P, acc);
            lemma_small_mod(acc);
            lemma_mul_cong(P as int, acc as int, base(), pw(k as nat));
            assert(pw((k + 1) as nat) == base() * pw(k as nat));
        }
        acc = P.wrapping_mul(acc);
        k += 1;
    }
    ps
}

/// Hashes the `w`-wide, `h`-high window in the top-left corner of `data`:
/// the cell at flat position `i` (row after row) is weighted by
/// `ps[w * h - 1 - i]`, and the weighted cells are summed modulo 2^64.
pub fn init_hash(data: &Str2d, w: usize, h: usize, ps: &[Hash]) -> (hash: Hash)
    requires
        h <= data.len(),
        forall|r: int| 0 <= r < h ==> w <= #[trigger] data@[r]@.len(),
        w * h <= ps.len(),
    ensures
        hash as int == grid_sum(data@, 0, 0, w as nat, h as nat, table_weight(ps@), w * h - 1)
            % hmod(),
        is_power_table(ps@, w * h) ==> hash == window_hash(data@, 0, 0, w as nat, h as nat),
{
    let len = w * h;
    let ghost tw = table_weight(ps@);
    let mut acc: Hash = 0;
    let mut r: usize = 0;
    while r < h
        invariant
            h <= data.len(),
            forall|rr: int| 0 <= rr < h ==> w <= #[trigger] data@[rr]@.len(),
            len == w * h,
            len <= ps.len(),
            tw == table_weight(ps@),
            r <= h,
            acc as int == grid_sum(data@, 0, 0, w as nat, r as nat, tw, len - 1) % hmod(),
        decreases h - r,
    {
        let row = &data[r];
        assert(w <= row@.len());
        proof {
            assert(r * w + w <= w * h) by (nonlinear_arith)
                requires
                    r < h,
            ;
        }
        let ghost gs = grid_sum(data@, 0, 0, w as nat, r as nat, tw, len - 1);
        let base_idx = r * w;
        let mut c: usize = 0;
        while c < w
            invariant
                w <= row@.len(),
                base_idx + w <= len,
                len <= ps.len(),
                tw == table_weight(ps@),
                c <= w,
                acc as int == (gs + row_sum(row@, 0, c as nat, tw, len - 1 - base_idx)) % hmod(),
            decreases w - c,
        {
            let k = len - 1 - (base_idx + c);
            let t = (row[c] as Hash).wrapping_mul(ps[k]);
            proof {
                let prev = gs + row_sum(row@, 0, c as nat, tw, len - 1 - base_idx);
                let term = row@[c as int] as int * ps@[k as int] as int;
                lemma_wrapping_mul(row@[c as int] as u64, ps@[k as int]);
                lemma_wrapping_add(t, acc);
                lemma_small_mod(t);
                lemma_small_mod(acc);
                lemma_add_cong(t as int, acc as int, term, prev);
                assert(tw(len - 1 - base_idx - c) == ps@[k as int] as int);
            }
            acc = t.wrapping_add(acc);
            c += 1;
        }
        r += 1;
    }
    proof {
        if is_power_table(ps@, len as int) {
            assert(h * w == w * h) by (nonlinear_arith);
            lemma_table_congruent(ps@, len as int, 0, len - 1);
            lemma_grid_sum_cong(data@, 0, 0, w as nat, h as nat, tw, pow_weight(), len - 1);
            lemma_grid_sum_pow(data@, 0, 0, w as nat, h as nat, len - 1);
            assert(pw(0) == 1);
        }
    }
    acc
}

/// `*h` becomes `(*h - l) * shift + r`, modulo 2^64.
pub fn roll_hash(h: &mut Hash, l: Hash, r: Hash, shift: Hash)
    ensures
        *final(h) as int == ((*old(h) - l) * shift + r) % hmod(),
{
    let mut hash = *h;
    proof {
        lemma_wrapping_sub(hash, l);
    }
    hash = hash.wrapping_sub(l);
    proof {
        lemma_wrapping_mul(hash, shift);
        lemma_mul_cong(hash as int, shift as int, *old(h) - l, shift as int);
        lemma_small_mod(hash);
    }
    let ghost m = hash;
    hash = hash.wrapping_mul(shift);
    proof {
        lemma_wrapping_add(hash, r);
        lemma_small_mod(hash);
        lemma_add_cong(hash as int, r as int, (*old(h) - l) * shift, r as int);
    }
    hash = hash.wrapping_add(r);
    *h = hash;
}

/// Moves the hash of the `nw`-wide, `nh`-high window at row `y`, column `x`
/// one column to the right: the left column leaves, every cell moves up one
/// power of `P`, the column at `x + nw` enters.
#[verifier::spinoff_prover]
#[verifier::rlimit(40)]
pub fn roll_hash_right(
    hash: Hash,
    ps: &[Hash],
    haystack: &Str2d,
    x: usize,
    y: usize,
    nw: usize,
    nh: usize,
) -> (res: Hash)
    requires
        nw >= 1 || nh == 0,
        y + nh <= haystack.len(),
        forall|r: int| y <= r < y + nh ==> x + nw < #[trigger] haystack@[r]@.len(),
        nw * nh <= ps.len(),
    ensures
        res as int == ((hash - col_sum(
            haystack@,
            x as int,
            y as int,
            nh as nat,
            table_weight(ps@),
            nw * nh - 1,
            nw as int,
        )) * P + col_sum(
            haystack@,
            x + nw,
            y as int,
            nh as nat,
            table_weight(ps@),
            nw * nh - nw,
            nw as int,
        )) % hmod(),
        is_power_table(ps@, nw * nh) && hash == window_hash(
            haystack@,
            x as int,
            y as int,
            nw as nat,
            nh as nat,
        ) ==> res == window_hash(haystack@, x + 1, y as int, nw as nat, nh as nat),
{
    let mut hash = hash;
    let len = nw * nh;
    let ghost tw = table_weight(ps@);
    let mut subtrahend: Hash = 0;
    let mut addend: Hash = 0;
    let mut j: usize = y;
    while j < y + nh
        invariant
            nw >= 1 || nh == 0,
            y + nh <= haystack.len(),
            forall|r: int| y <= r < y + nh ==> x + nw < #[trigger] haystack@[r]@.len(),
            len == nw * nh,
            len <= ps.len(),
            tw == table_weight(ps@),
            y <= j <= y + nh,
            subtrahend as int == col_sum(
                haystack@,
                x as int,
                y as int,
                (j - y) as nat,
                tw,
                len - 1,
                nw as int,
            ) % hmod(),
            addend as int == col_sum(
                haystack@,
                x + nw,
                y as int,
                (j - y) as nat,
                tw,
                len - nw,
                nw as int,
            ) % hmod(),
        decreases y + nh - j,
    {
        proof {
            assert(nw * (j - y) + nw <= nw * nh) by (nonlinear_arith)
                requires
                    j - y < nh,
            ;
        }
        let pow = len - 1 - nw * (j - y);
        let row = &haystack[j];
        let row_len = row.len();
        assert(x + nw < row_len);
        let a = row[x];
        let b = row[x + nw];
        let temp = (a as Hash).wrapping_mul(ps[pow]);
        proof {
            let k = (j - y) as nat;
            lemma_wrapping_mul(a as u64, ps@[pow as int]);
            lemma_wrapping_add(subtrahend, temp);
            lemma_small_mod(subtrahend);
            lemma_small_mod(temp);
            lemma_add_cong(
                subtrahend as int,
                temp as int,
                col_sum(haystack@, x as int, y as int, k, tw, len - 1, nw as int),
                a as int * ps@[pow as int] as int,
            );
            assert(haystack@[y + (k + 1) - 1]@[x as int] == a);
            assert(tw(len - 1 - nw * k) == ps@[pow as int] as int);
        }
        subtrahend = subtrahend.wrapping_add(temp);
        let temp = (b as Hash).wrapping_mul(ps[pow + 1 - nw]);
        proof {
            let k = (j - y) as nat;
            lemma_wrapping_mul(b as u64, ps@[pow + 1 - nw]);
            lemma_wrapping_add(addend, temp);
            lemma_small_mod(addend);
            lemma_small_mod(temp);
            lemma_add_cong(
                addend as int,
                temp as int,
                col_sum(haystack@, x + nw, y as int, k, tw, len - nw, nw as int),
                b as int * ps@[pow + 1 - nw] as int,
            );
            assert(haystack@[y + (k + 1) - 1]@[x + nw] == b);
            assert(tw(len - nw - nw * k) == ps@[pow + 1 - nw] as int);
        }
        addend = addend.wrapping_add(temp);
        j += 1;
    }
    let ghost old_hash = hash;
    roll_hash(&mut hash, subtrahend, addend, P);
    proof {
        let c1 = col_sum(haystack@, x as int, y as int, nh as nat, tw, len - 1, nw as int);
        let c2 = col_sum(haystack@, x + nw, y as int, nh as nat, tw, len - nw, nw as int);
        lemma_small_mod(subtrahend);
        lemma_small_mod(addend);
        lemma_small_mod(old_hash);
        lemma_roll_cong(
            old_hash as int,
            subtrahend as int,
            P as int,
            addend as int,
            old_hash as int,
            c1,
            P as int,
            c2,
        );
        if is_power_table(ps@, len as int) && old_hash == window_hash(
            haystack@,
            x as int,
            y as int,
            nw as nat,
            nh as nat,
        ) {
            if nh == 0 {
                assert(window_poly(haystack@, x + 1, y as int, nw as nat, 0) == 0);
                assert(window_poly(haystack@, x as int, y as int, nw as nat, 0) == 0);
            } else {
                assert(nw * (nh - 1) >= 0) by (nonlinear_arith)
                    requires
                        nh >= 1,
                ;
                assert(len - 1 - nw * (nh - 1) == nw - 1) by (nonlinear_arith)
                    requires
                        len == nw * nh,
                ;
                lemma_table_congruent(ps@, len as int, len - 1 - nw * (nh - 1), len - 1);
                lemma_col_sum_cong(
                    haystack@,
                    x as int,
                    y as int,
                    nh as nat,
                    tw,
                    pow_weight(),
                    len - 1,
                    nw as int,
                );
                assert(len - nw - nw * (nh - 1) == 0) by (nonlinear_arith)
                    requires
                        len == nw * nh,
                ;
                lemma_table_congruent(ps@, len as int, 0, len - nw);
                lemma_col_sum_cong(
                    haystack@,
                    x + nw,
                    y as int,
                    nh as nat,
                    tw,
                    pow_weight(),
                    len - nw,
                    nw as int,
                );
                lemma_right_step(
                    old_hash as int,
                    c1,
                    c2,
                    haystack@,
                    x as int,
                    y as int,
                    nw as nat,
                    nh as nat,
                );
                lemma_small_mod(hash);
            }
        }
    }
    hash
}

/// Moves the hash of the `nw`-wide, `nh`-high window at row `y`, column `x`
/// one row down: row `y` leaves, every cell moves up `nw` powers of `P`,
/// row `y + nh` enters.
#[verifier::spinoff_prover]
#[verifier::rlimit(40)]
pub fn roll_hash_down(
    hash: Hash,
    ps: &[Hash],
    haystack: &Str2d,
    x: usize,
    y: usize,
    nw: usize,
    nh: usize,
) -> (res: Hash)
    requires
        nh >= 1 || nw == 0,
        y + nh < haystack.len(),
        x + nw <= haystack@[y as int]@.len(),
        x + nw <= haystack@[y + nh]@.len(),
        nw * nh <= ps.len(),
        nw < ps.len(),
    ensures
        res as int == ((hash - row_sum(
            haystack@[y as int]@,
            x as int,
            nw as nat,
            table_weight(ps@),
            nw * nh - 1,
        )) * ps@[nw as int] + row_sum(
            haystack@[y + nh]@,
            x as int,
            nw as nat,
            table_weight(ps@),
            nw - 1,
        )) % hmod(),
        is_power_table(ps@, nw * nh + 1) && nh >= 1 && hash == window_hash(
            haystack@,
            x as int,
            y as int,
            nw as nat,
            nh as nat,
        ) ==> res == window_hash(haystack@, x as int, y + 1, nw as nat, nh as nat),
{
    let len = nw * nh;
    proof {
        if nw > 0 {
            assert(nw <= nw * nh) by (nonlinear_arith)
                requires
                    nh >= 1,
            ;
        }
    }
    let mut hash = hash;
    let ghost tw = table_weight(ps@);
    let top_row = &haystack[y];
    let bottom_row = &haystack[y + nh];
    let top_len = top_row.len();
    let bottom_len = bottom_row.len();
    let mut subtrahend: Hash = 0;
    let mut addend: Hash = 0;
    let mut j: usize = 0;
    while j < nw
        invariant
            top_len == top_row@.len(),
            bottom_len == bottom_row@.len(),
            nw <= len,
            len <= ps.len(),
            tw == table_weight(ps@),
            x + nw <= top_row@.len(),
            x + nw <= bottom_row@.len(),
            j <= nw,
            subtrahend as int == row_sum(top_row@, x as int, j as nat, tw, len - 1) % hmod(),
            addend as int == row_sum(bottom_row@, x as int, j as nat, tw, nw - 1) % hmod(),
        decreases nw - j,
    {
        let pow = len - 1 - j;
        let a = top_row[j + x];
        let b = bottom_row[j + x];
        let temp = (a as Hash).wrapping_mul(ps[pow]);
        proof {
            lemma_wrapping_mul(a as u64, ps@[pow as int]);
            lemma_wrapping_add(subtrahend, temp);
            lemma_small_mod(subtrahend);
            lemma_small_mod(temp);
            lemma_add_cong(
                subtrahend as int,
                temp as int,
                row_sum(top_row@, x as int, j as nat, tw, len - 1),
                a as int * ps@[pow as int] as int,
            );
            assert(top_row@[x + (j + 1) - 1] == a);
            assert(tw(len - 1 - j) == ps@[pow as int] as int);
        }
        subtrahend = subtrahend.wrapping_add(temp);
        let temp = (b as Hash).wrapping_mul(ps[nw - 1 - j]);
        proof {
            lemma_wrapping_mul(b as u64, ps@[nw - 1 - j]);
            lemma_wrapping_add(addend, temp);
            lemma_small_mod(addend);
            lemma_small_mod(temp);
            lemma_add_cong(
                addend as int,
                temp as int,
                row_sum(bottom_row@, x as int, j as nat, tw, nw - 1),
                b as int * ps@[nw - 1 - j] as int,
            );
            assert(bottom_row@[x + (j + 1) - 1] == b);
            assert(tw(nw - 1 - j) == ps@[nw - 1 - j] as int);
        }
        addend = addend.wrapping_add(temp);
        j += 1;
    }
    let ghost old_hash = hash;
    roll_hash(&mut hash, subtrahend, addend, ps[nw]);
    proof {
        let s1 = row_sum(top_row@, x as int, nw as nat, tw, len - 1);
        let a1 = row_sum(bottom_row@, x as int, nw as nat, tw, nw - 1);
        lemma_small_mod(subtrahend);
        lemma_small_mod(addend);
        lemma_small_mod(old_hash);
        lemma_small_mod(ps@[nw as int]);
        lemma_roll_cong(
            old_hash as int,
            subtrahend as int,
            ps@[nw as int] as int,
            addend as int,
            old_hash as int,
            s1,
            ps@[nw as int] as int,
            a1,
        );
        if is_power_table(ps@, len + 1) && nh >= 1 && old_hash == window_hash(
            haystack@,
            x as int,
            y as int,
            nw as nat,
            nh as nat,
        ) {
            assert(len - nw == nw * (nh - 1)) by (nonlinear_arith)
                requires
                    len == nw * nh,
            ;
            lemma_table_congruent(ps@, len + 1, len - nw, len - 1);
            lemma_row_sum_cong(top_row@, x as int, nw as nat, tw, pow_weight(), len - 1);
            lemma_row_sum_pow(top_row@, x as int, nw as nat, len - 1);
            lemma_table_congruent(ps@, len + 1, 0, nw - 1);
            lemma_row_sum_cong(bottom_row@, x as int, nw as nat, tw, pow_weight(), nw - 1);
            lemma_row_sum_pow(bottom_row@, x as int, nw as nat, nw - 1);
            assert(pw(0) == 1);
            lemma_table_congruent(ps@, len + 1, nw as int, nw as int);
            lemma_down_step(
                old_hash as int,
                s1,
                a1,
                ps@[nw as int] as int,
                haystack@,
                x as int,
                y as int,
                nw as nat,
                nh as nat,
            );
            lemma_small_mod(hash);
        }
    }
    hash
}

/// `sum_{c < n} row[x + c] * ps[top - c]`, modulo 2^64.
fn weighted_row(row: &Vec<u8>, x: usize, n: usize, ps: &[Hash], top: usize) -> (s: Hash)
    requires
        x + n <= row.len(),
        n <= top + 1,
        top < ps.len(),
    ensures
        s as int == row_sum(row@, x as int, n as nat, table_weight(ps@), top as int) % hmod(),
{
    let ghost tw = table_weight(ps@);
    let mut acc: Hash = 0;
    let mut c: usize = 0;
    while c < n
        invariant
            x + n <= row.len(),
            n <= top + 1,
            top < ps.len(),
            tw == table_weight(ps@),
            c <= n,
            acc as int == row_sum(row@, x as int, c as nat, tw, top as int) % hmod(),
        decreases n - c,
    {
        let a = row[x + c];
        let temp = (a as Hash).wrapping_mul(ps[top - c]);
        proof {
            lemma_wrapping_mul(a as u64, ps@[top - c]);
            lemma_wrapping_add(acc, temp);
            lemma_small_mod(acc);
            lemma_small_mod(temp);
            lemma_add_cong(
                acc as int,
                temp as int,
                row_sum(row@, x as int, c as nat, tw, top as int),
                a as int * ps@[top - c] as int,
            );
            assert(row@[x + (c + 1) - 1] == a);
            assert(tw(top - c) == ps@[top - c] as int);
        }
        acc = acc.wrapping_add(temp);
        c += 1;
    }
    acc
}

/// The hashes of the windows along the top of the haystack, left to right:
/// the first from `init_hash`, each next one rolled right from the one before.
#[verifier::spinoff_prover]
#[verifier::rlimit(40)]
pub fn precompute_hashes(needle: &Str2d, haystack: &Str2d, ps: &[Hash]) -> (hashes: Vec<Hash>)
    requires
        valid_search(needle@, haystack@),
        needle.len() <= haystack.len(),
        width(needle@) <= width(haystack@),
        needle.len() * width(needle@) <= ps.len(),
    ensures
        hashes.len() == width(haystack@) - width(needle@) + 1,
        hashes@[0] as int == grid_sum(
            haystack@,
            0,
            0,
            width(needle@) as nat,
            needle.len() as nat,
            table_weight(ps@),
            width(needle@) * needle.len() - 1,
        ) % hmod(),
        forall|j: int|
            0 <= j < hashes.len() - 1 ==> #[trigger] hashes@[j + 1] as int == ((hashes@[j] - col_sum(
                haystack@,
                j,
                0,
                needle.len() as nat,
                table_weight(ps@),
                width(needle@) * needle.len() - 1,
                width(needle@),
            )) * P + col_sum(
                haystack@,
                j + width(needle@),
                0,
                needle.len() as nat,
                table_weight(ps@),
                width(needle@) * needle.len() - width(needle@),
                width(needle@),
            )) % hmod(),
        is_power_table(ps@, width(needle@) * needle.len()) ==> forall|j: int|
            0 <= j < hashes.len() ==> #[trigger] hashes@[j] == window_hash(
                haystack@,
                j,
                0,
                width(needle@) as nat,
                needle.len() as nat,
            ),
{
    let hw = haystack[0].len();
    let nh = needle.len();
    let nw = needle[0].len();
    proof {
        assert(nh * nw == nw * nh) by (nonlinear_arith);
        assert forall|r: int| 0 <= r < nh implies nw <= #[trigger] haystack@[r]@.len() by {
            assert(haystack@[r]@.len() == width(haystack@));
        }
    }
    let mut hash = init_hash(haystack, nw, nh, ps);
    let mut hashes: Vec<Hash> = Vec::new();
    hashes.push(hash);
    let mut i: usize = 0;
    while i < hw - nw
        invariant
            valid_search(needle@, haystack@),
            nh == needle.len(),
            nw == width(needle@),
            hw == width(haystack@),
            nh <= haystack.len(),
            1 <= nw <= hw,
            nw * nh <= ps.len(),
            i <= hw - nw,
            hashes.len() == i + 1,
            hash == hashes@[i as int],
            hashes@[0] as int == grid_sum(
                haystack@,
                0,
                0,
                nw as nat,
                nh as nat,
                table_weight(ps@),
                nw * nh - 1,
            ) % hmod(),
            forall|j: int|
                0 <= j < hashes.len() - 1 ==> #[trigger] hashes@[j + 1] as int == ((hashes@[j]
                    - col_sum(
                    haystack@,
                    j,
                    0,
                    nh as nat,
                    table_weight(ps@),
                    nw * nh - 1,
                    nw as int,
                )) * P + col_sum(
                    haystack@,
                    j + nw,
                    0,
                    nh as nat,
                    table_weight(ps@),
                    nw * nh - nw,
                    nw as int,
                )) % hmod(),
            is_power_table(ps@, nw * nh) ==> forall|j: int|
                0 <= j < hashes.len() ==> #[trigger] hashes@[j] == window_hash(
                    haystack@,
                    j,
                    0,
                    nw as nat,
                    nh as nat,
                ),
        decreases hw - nw - i,
    {
        proof {
            assert forall|r: int| 0 <= r < 0 + nh implies i + nw < #[trigger] haystack@[r]@.len() by {
                assert(haystack@[r]@.len() == width(haystack@));
            }
        }
        let ghost prev = hashes@;
        hash = roll_hash_right(hash, ps, haystack, i, 0, nw, nh);
        hashes.push(hash);
        proof {
            assert forall|j: int| 0 <= j < hashes.len() - 1 implies #[trigger] hashes@[j + 1] as int
                == ((hashes@[j] - col_sum(
                haystack@,
                j,
                0,
                nh as nat,
                table_weight(ps@),
                nw * nh - 1,
                nw as int,
            )) * P + col_sum(
                haystack@,
                j + nw,
                0,
                nh as nat,
                table_weight(ps@),
                nw * nh - nw,
                nw as int,
            )) % hmod() by {
                if j < i {
                    assert(hashes@[j + 1] == prev[j + 1]);
                    assert(hashes@[j] == prev[j]);
                }
            }
        }
        i += 1;
    }
    hashes
}

/// Row `i` of the haystack holds the needle of one row at column `j`
/// exactly when the slice of the row there equals that row.
proof fn lemma_thin_row_count(needle: Seq<Vec<u8>>, haystack: Seq<Vec<u8>>, i: int, n: nat)
    requires
        needle.len() == 1,
        is_rect(needle, width(needle)),
        is_rect(haystack, width(haystack)),
        0 <= i < haystack.len(),
        n + width(needle) <= width(haystack) + 1,
    ensures
        row_count(needle, haystack, i, n) == seq_count(needle[0]@, haystack[i]@, n),
    decreases n,
{
    if n > 0 {
        lemma_thin_row_count(needle, haystack, i, (n - 1) as nat);
        let j = n - 1;
        let nw = width(needle);
        let sub = haystack[i]@.subrange(j, j + needle[0]@.len());
        assert(needle[0]@.len() == nw);
        assert(haystack[i]@.len() == width(haystack));
        if matches_at(needle, haystack, i, j) {
            assert forall|c: int| 0 <= c < nw implies sub[c] == needle[0]@[c] by {
                assert(haystack[i + 0]@[j + c] == needle[0]@[c]);
            }
            assert(sub =~= needle[0]@);
        } else {
            let (r, c) = choose|r: int, c: int|
                !(0 <= r < needle.len() && 0 <= c < width(needle) ==> #[trigger] haystack[i
                    + r]@[j + c] == needle[r]@[c]);
            assert(r == 0);
            assert(sub[c] != needle[0]@[c]);
        }
    }
}

/// At most `n` positions below `n` hold the needle.
proof fn lemma_seq_count_bound(needle: Seq<u8>, hay: Seq<u8>, n: nat)
    ensures
        seq_count(needle, hay, n) <= n,
    decreases n,
{
    if n > 0 {
        lemma_seq_count_bound(needle, hay, (n - 1) as nat);
    }
}

/// Counts a needle that is one letter high or one letter wide: row by row
/// with `count_bytes` when it is one row high, by comparing every window otherwise.
fn count_thin(needle: Str2d, haystack: Str2d) -> (acc: usize)
    requires
        valid_search(needle@, haystack@),
        needle.len() <= haystack.len(),
        width(needle@) <= width(haystack@),
        needle.len() == 1 || width(needle@) == 1,
    ensures
        acc == occurrences(needle@, haystack@),
{
    if needle.len() != 1 {
        return brute_force(needle, haystack);
    }
    let hh = haystack.len();
    let hw = haystack[0].len();
    let nw = needle[0].len();
    let mut acc: usize = 0;
    let mut i: usize = 0;
    while i < hh
        invariant
            valid_search(needle@, haystack@),
            needle.len() == 1,
            hh == haystack.len(),
            hw == width(haystack@),
            nw == width(needle@),
            1 <= nw <= hw,
            1 <= hh,
            i <= hh,
            acc == count_upto(needle@, haystack@, i as nat),
            acc <= i * (hw - nw + 1),
        decreases hh - i,
    {
        let nrow = needle[0].as_slice();
        let hrow = haystack[i].as_slice();
        proof {
            assert(nrow@ =~= needle@[0]@);
            assert(hrow@ =~= haystack@[i as int]@);
            assert(needle@[0]@.len() == nw);
            assert(haystack@[i as int]@.len() == hw);
            lemma_thin_row_count(needle@, haystack@, i as int, (hw - nw + 1) as nat);
            lemma_seq_count_bound(nrow@, hrow@, (hw - nw + 1) as nat);
            assert(i * (hw - nw + 1) + (hw - nw + 1) == (i + 1) * (hw - nw + 1))
                by (nonlinear_arith);
            assert((i + 1) * (hw - nw + 1) <= hh * hw) by (nonlinear_arith)
                requires
                    i + 1 <= hh,
                    hw - nw + 1 <= hw,
                    0 <= hw - nw + 1,
            ;
        }
        let found = count_bytes(nrow, hrow);
        acc = acc + found;
        i += 1;
    }
    acc
}

/// Within row `i`, the needle lies at column `j` exactly when the hash of
/// the window there equals the needle's hash and the window equals the needle.
proof fn lemma_match_means_equal_hash(
    needle: Seq<Vec<u8>>,
    haystack: Seq<Vec<u8>>,
    i: int,
    j: int,
)
    requires
        matches_at(needle, haystack, i, j),
    ensures
        window_hash(needle, 0, 0, width(needle) as nat, needle.len() as nat) == window_hash(
            haystack,
            j,
            i,
            width(needle) as nat,
            needle.len() as nat,
        ),
{
    let nw = width(needle);
    let nh = needle.len();
    assert forall|r: int, c: int| 0 <= r < nh && 0 <= c < nw implies #[trigger] needle[0 + r]@[0
        + c] == haystack[i + r]@[j + c] by {
        assert(haystack[i + r]@[j + c] == needle[r]@[c]);
    }
    lemma_window_poly_equal(needle, 0, 0, haystack, j, i, nw as nat, nh as nat);
}

/// Counts the occurrences of the needle with a two-dimensional Rabin-Karp
/// search: the hashes of one row of windows are rolled down the haystack,
/// and a window is compared with the needle only when the hashes agree.
#[verifier::spinoff_prover]
#[verifier::rlimit(40)]
pub fn rk2d(needle: Str2d, haystack: Str2d) -> (acc: usize)
    requires
        valid_search(needle@, haystack@),
        needle.len() <= haystack.len(),
        width(needle@) <= width(haystack@),
    ensures
        acc == occurrences(needle@, haystack@),
{
    let hh = haystack.len();
    let hw = haystack[0].len();
    let nh = needle.len();
    let nw = needle[0].len();
    if nw == 1 || nh == 1 {
        return count_thin(needle, haystack);
    }
    proof {
        assert(nh * nw <= hh * hw) by (nonlinear_arith)
            requires
                nh <= hh,
                nw <= hw,
                1 <= nh,
                1 <= nw,
        ;
        assert(nw * nh == nh * nw) by (nonlinear_arith);
    }
    let len = nh * nw;
    let ps = init_ps(len);
    let mut hashes = precompute_hashes(&needle, &haystack, ps.as_slice());
    proof {
        assert(is_power_table(ps@, nw * nh));
        assert forall|r: int| 0 <= r < nh implies nw <= #[trigger] needle@[r]@.len() by {
            assert(needle@[r]@.len() == width(needle@));
        }
    }
    let hashed_needle: Hash = init_hash(&needle, nw, nh, ps.as_slice());
    let mut acc: usize = 0;
    let mut i: usize = 0;
    while i <= hh - nh
        invariant
            valid_search(needle@, haystack@),
            nh == needle.len(),
            nw == width(needle@),
            hh == haystack.len(),
            hw == width(haystack@),
            2 <= nh <= hh,
            2 <= nw <= hw,
            len == nw * nh,
            ps.len() == len + 1,
            is_power_table(ps@, len + 1),
            hashed_needle == window_hash(needle@, 0, 0, nw as nat, nh as nat),
            hashes.len() == hw - nw + 1,
            i <= hh - nh + 1,
            i <= hh - nh ==> forall|j: int|
                0 <= j < hashes.len() ==> #[trigger] hashes@[j] == window_hash(
                    haystack@,
                    j,
                    i as int,
                    nw as nat,
                    nh as nat,
                ),
            acc == count_upto(needle@, haystack@, i as nat),
            acc <= i * (hw - nw + 1),
        decreases hh - nh + 1 - i,
    {
        let ghost before = acc;
        let mut j: usize = 0;
        while j < hashes.len()
            invariant
                valid_search(needle@, haystack@),
                nh == needle.len(),
                nw == width(needle@),
                hh == haystack.len(),
                hw == width(haystack@),
                2 <= nh <= hh,
                2 <= nw <= hw,
                len == nw * nh,
                ps.len() == len + 1,
                is_power_table(ps@, len + 1),
                hashed_needle == window_hash(needle@, 0, 0, nw as nat, nh as nat),
                hashes.len() == hw - nw + 1,
                i <= hh - nh,
                j <= hashes.len(),
                forall|k: int|
                    j <= k < hashes.len() ==> #[trigger] hashes@[k] == window_hash(
                        haystack@,
                        k,
                        i as int,
                        nw as nat,
                        nh as nat,
                    ),
                i < hh - nh ==> forall|k: int|
                    0 <= k < j ==> #[trigger] hashes@[k] == window_hash(
                        haystack@,
                        k,
                        i + 1,
                        nw as nat,
                        nh as nat,
                    ),
                before == count_upto(needle@, haystack@, i as nat),
                before <= i * (hw - nw + 1),
                acc == before + row_count(needle@, haystack@, i as int, j as nat),
                acc <= before + j,
            decreases hashes.len() - j,
        {
            proof {
                if matches_at(needle@, haystack@, i as int, j as int) {
                    lemma_match_means_equal_hash(needle@, haystack@, i as int, j as int);
                }
            }
            if hashes[j] == hashed_needle && window_equals(&needle, &haystack, i, j) {
                proof {
                    lemma_positions_fit(
                        i as int,
                        hh - nh + 1,
                        hw - nw + 1,
                        j as int,
                        hh as int,
                        hw as int,
                    );
                }
                acc += 1;
            }
            if i < hh - nh {
                proof {
                    assert(haystack@[i as int]@.len() == hw);
                    assert(haystack@[i + nh]@.len() == hw);
                    assert(nw <= nw * nh) by (nonlinear_arith)
                        requires
                            nh >= 1,
                    ;
                }
                let rolled = roll_hash_down(hashes[j], ps.as_slice(), &haystack, j, i, nw, nh);
                hashes.set(j, rolled);
            }
            j += 1;
        }
        proof {
            assert(i * (hw - nw + 1) + (hw - nw + 1) == (i + 1) * (hw - nw + 1))
                by (nonlinear_arith);
        }
        i += 1;
    }
    acc
}

/// The second version of the two-dimensional Rabin-Karp search: small
/// needles are compared with every window, and while a row of hashes rolls
/// down, the sums of the row that leaves and of the row that enters are
/// themselves rolled right from one window to the next.
#[verifier::spinoff_prover]
#[verifier::rlimit(40)]
pub fn rk2dv2(needle: Str2d, haystack: Str2d) -> (acc: usize)
    requires
        valid_search(needle@, haystack@),
        needle.len() <= haystack.len(),
        width(needle@) <= width(haystack@),
    ensures
        acc == occurrences(needle@, haystack@),
{
    let hh = haystack.len();
    let hw = haystack[0].len();
    let nh = needle.len();
    let nw = needle[0].len();
    if nw == 1 || nh == 1 {
        return count_thin(needle, haystack);
    }
    if nh <= 5 && nw <= 20 - 4 * nh {
        return brute_force(needle, haystack);
    }
    proof {
        assert(nh * nw <= hh * hw) by (nonlinear_arith)
            requires
                nh <= hh,
                nw <= hw,
                1 <= nh,
                1 <= nw,
        ;
        assert(nw * nh == nh * nw) by (nonlinear_arith);
        assert(nw <= nw * nh) by (nonlinear_arith)
            requires
                nh >= 1,
        ;
    }
    let len = nh * nw;
    let ps = init_ps(len);
    let mut hashes = precompute_hashes(&needle, &haystack, ps.as_slice());
    proof {
        assert(is_power_table(ps@, nw * nh));
        assert forall|r: int| 0 <= r < nh implies nw <= #[trigger] needle@[r]@.len() by {
            assert(needle@[r]@.len() == width(needle@));
        }
    }
    let hashed_needle: Hash = init_hash(&needle, nw, nh, ps.as_slice());
    let mut acc: usize = 0;
    let mut i: usize = 0;
    while i <= hh - nh
        invariant
            valid_search(needle@, haystack@),
            nh == needle.len(),
            nw == width(needle@),
            hh == haystack.len(),
            hw == width(haystack@),
            2 <= nh <= hh,
            2 <= nw <= hw,
            len == nw * nh,
            nw <= len,
            ps.len() == len + 1,
            is_power_table(ps@, len + 1),
            hashed_needle == window_hash(needle@, 0, 0, nw as nat, nh as nat),
            hashes.len() == hw - nw + 1,
            i <= hh - nh + 1,
            i <= hh - nh ==> forall|j: int|
                0 <= j < hashes.len() ==> #[trigger] hashes@[j] == window_hash(
                    haystack@,
                    j,
                    i as int,
                    nw as nat,
                    nh as nat,
                ),
            acc == count_upto(needle@, haystack@, i as nat),
            acc <= i * (hw - nw + 1),
        decreases hh - nh + 1 - i,
    {
        let ghost before = acc;
        let mut cached_roll: Option<(Hash, Hash)> = None;
        let mut j: usize = 0;
        while j < hashes.len()
            invariant
                valid_search(needle@, haystack@),
                nh == needle.len(),
                nw == width(needle@),
                hh == haystack.len(),
                hw == width(haystack@),
                2 <= nh <= hh,
                2 <= nw <= hw,
                len == nw * nh,
                nw <= len,
                ps.len() == len + 1,
                is_power_table(ps@, len + 1),
                hashed_needle == window_hash(needle@, 0, 0, nw as nat, nh as nat),
                hashes.len() == hw - nw + 1,
                i <= hh - nh,
                j <= hashes.len(),
                forall|k: int|
                    j <= k < hashes.len() ==> #[trigger] hashes@[k] == window_hash(
                        haystack@,
                        k,
                        i as int,
                        nw as nat,
                        nh as nat,
                    ),
                i < hh - nh ==> forall|k: int|
                    0 <= k < j ==> #[trigger] hashes@[k] == window_hash(
                        haystack@,
                        k,
                        i + 1,
                        nw as nat,
                        nh as nat,
                    ),
                i < hh - nh ==> (cached_roll is None <==> j == 0),
                i < hh - nh ==> (cached_roll matches Some((sub, add)) ==> {
                    &&& sub as int % hmod() == (row_poly(haystack@[i as int]@, j - 1, nw as nat)
                        * pw((len - nw) as nat)) % hmod()
                    &&& add as int % hmod() == (row_poly(haystack@[i + nh]@, j - 1, nw as nat)
                        * pw(0)) % hmod()
                }),
                before == count_upto(needle@, haystack@, i as nat),
                before <= i * (hw - nw + 1),
                acc == before + row_count(needle@, haystack@, i as int, j as nat),
                acc <= before + j,
            decreases hashes.len() - j,
        {
            proof {
                if matches_at(needle@, haystack@, i as int, j as int) {
                    lemma_match_means_equal_hash(needle@, haystack@, i as int, j as int);
                }
            }
            if hashes[j] == hashed_needle && window_equals(&needle, &haystack, i, j) {
                proof {
                    lemma_positions_fit(
                        i as int,
                        hh - nh + 1,
                        hw - nw + 1,
                        j as int,
                        hh as int,
                        hw as int,
                    );
                }
                acc += 1;
            }
            if i < hh - nh {
                let top_row = &haystack[i];
                let bottom_row = &haystack[i + nh];
                proof {
                    assert(top_row@.len() == hw);
                    assert(bottom_row@.len() == hw);
                    assert(len - nw == nw * (nh - 1)) by (nonlinear_arith)
                        requires
                            len == nw * nh,
                    ;
                    lemma_table_congruent(ps@, len + 1, 0, len as int);
                }
                let mut h = hashes[j];
                let ghost old_h = h;
                let (sub, add) = match cached_roll {
                    Some((sub0, add0)) => {
                        let mut sub = sub0;
                        let mut add = add0;
                        let pj = j - 1;
                        let top_left = ps[len - 1].wrapping_mul(top_row[pj] as Hash);
                        let top_right = ps[len - nw].wrapping_mul(top_row[pj + nw] as Hash);
                        let bottom_left = ps[nw - 1].wrapping_mul(bottom_row[pj] as Hash);
                        let bottom_right = bottom_row[pj + nw] as Hash;
                        proof {
                            lemma_wrapping_mul(ps@[len - 1], top_row@[pj as int] as u64);
                            lemma_wrapping_mul(ps@[len - nw], top_row@[pj + nw] as u64);
                            lemma_wrapping_mul(ps@[nw - 1], bottom_row@[pj as int] as u64);
                            lemma_small_mod(top_left);
                            lemma_small_mod(top_right);
                            lemma_small_mod(bottom_left);
                            lemma_small_mod(bottom_right);
                            lemma_small_mod(ps@[len - 1]);
                            lemma_small_mod(ps@[len - nw]);
                            lemma_small_mod(ps@[nw - 1]);
                            assert((len - nw + nw - 1) as nat == (len - 1) as nat);
                            lemma_mul_cong(
                                ps@[len - 1] as int,
                                top_row@[pj as int] as int,
                                pw((len - 1) as nat),
                                top_row@[pj as int] as int,
                            );
                            lemma_mul_cong(
                                ps@[len - nw] as int,
                                top_row@[pj + nw] as int,
                                pw((len - nw) as nat),
                                top_row@[pj + nw] as int,
                            );
                            lemma_mul_cong(
                                ps@[nw - 1] as int,
                                bottom_row@[pj as int] as int,
                                pw((nw - 1) as nat),
                                bottom_row@[pj as int] as int,
                            );
                            assert(pw(0) == 1);
                            assert((0 + nw - 1) as nat == (nw - 1) as nat);
                            lemma_scaled_row_step(
                                sub0 as int,
                                top_left as int,
                                top_right as int,
                                top_row@,
                                pj as int,
                                nw as nat,
                                (len - nw) as nat,
                            );
                            lemma_scaled_row_step(
                                add0 as int,
                                bottom_left as int,
                                bottom_right as int,
                                bottom_row@,
                                pj as int,
                                nw as nat,
                                0,
                            );
                        }
                        roll_hash(&mut sub, top_left, top_right, P);
                        roll_hash(&mut add, bottom_left, bottom_right, P);
                        proof {
                            lemma_small_mod(sub);
                            lemma_small_mod(add);
                            assert(pj + 1 == j);
                            assert(sub as int % hmod() == (row_poly(top_row@, j as int, nw as nat)
                                * pw((len - nw) as nat)) % hmod());
                            assert(add as int % hmod() == (row_poly(bottom_row@, j as int, nw as nat)
                                * pw(0)) % hmod());
                        }
                        (sub, add)
                    },
                    None => {
                        let subtrahend = weighted_row(top_row, 0, nw, ps.as_slice(), len - 1);
                        let addend = weighted_row(bottom_row, 0, nw, ps.as_slice(), nw - 1);
                        proof {
                            let tw = table_weight(ps@);
                            lemma_row_sum_cong(top_row@, 0, nw as nat, tw, pow_weight(), len - 1);
                            lemma_row_sum_pow(top_row@, 0, nw as nat, len - 1);
                            lemma_row_sum_cong(bottom_row@, 0, nw as nat, tw, pow_weight(), nw - 1);
                            lemma_row_sum_pow(bottom_row@, 0, nw as nat, nw - 1);
                            lemma_small_mod(subtrahend);
                            lemma_small_mod(addend);
                            assert(subtrahend as int % hmod() == (row_poly(top_row@, j as int, nw as nat)
                                * pw((len - nw) as nat)) % hmod());
                            assert(addend as int % hmod() == (row_poly(bottom_row@, j as int, nw as nat)
                                * pw(0)) % hmod());
                        }
                        (subtrahend, addend)
                    },
                };
                proof {
                    assert(pw(0) == 1);
                    assert(top_row@ == haystack@[i as int]@);
                    assert(bottom_row@ == haystack@[i + nh]@);
                    let rb = row_poly(haystack@[i + nh]@, j as int, nw as nat);
                    assert(rb * pw(0) == rb);
                    assert(add as int % hmod() == rb % hmod());
                    assert((nw * (nh - 1)) as nat == (len - nw) as nat);
                    assert(sub as int % hmod() == (row_poly(haystack@[i as int]@, j as int, nw as nat)
                        * pw((nw * (nh - 1)) as nat)) % hmod());
                    lemma_small_mod(old_h);
                    lemma_small_mod(ps@[nw as int]);
                    lemma_down_step(
                        old_h as int,
                        sub as int,
                        add as int,
                        ps@[nw as int] as int,
                        haystack@,
                        j as int,
                        i as int,
                        nw as nat,
                        nh as nat,
                    );
                }
                roll_hash(&mut h, sub, add, ps[nw]);
                proof {
                    lemma_small_mod(h);
                }
                hashes.set(j, h);
                cached_roll = Some((sub, add));
            }
            j += 1;
        }
        proof {
            assert(i * (hw - nw + 1) + (hw - nw + 1) == (i + 1) * (hw - nw + 1))
                by (nonlinear_arith);
        }
        i += 1;
    }
    acc
}

} // verus!
