//! The polynomial hash of a rectangular window of a byte grid, and the
//! arithmetic facts that let a window hash be moved one column to the
//! right or one row down.
use vstd::prelude::*;
use vstd::arithmetic::div_mod::{
    lemma_add_mod_noop, lemma_sub_mod_noop, lemma_mul_mod_noop_general, lemma_mul_mod_noop_right,
};

verus! {

/// Hashes are taken modulo 2^64: every operation wraps.
pub open spec fn hmod() -> int {
    0x1_0000_0000_0000_0000
}

/// The base of the polynomial hash.
pub open spec fn base() -> int {
    31
}

/// `base()` to the power `e`.
pub open spec fn pw(e: nat) -> int
    decreases e,
{
    if e == 0 {
        1
    } else {
        base() * pw((e - 1) as nat)
    }
}

/// The weight function of the true powers of the base.
pub open spec fn pow_weight() -> spec_fn(int) -> int {
    |k: int| if k >= 0 { pw(k as nat) } else { 0 }
}

/// The weight function read from a table of precomputed powers.
pub open spec fn table_weight(ps: Seq<u64>) -> spec_fn(int) -> int {
    |k: int| ps[k] as int
}

/// `row[x..x + w]` read as the digits of a number in base `base()`,
/// most significant digit first.
pub open spec fn row_poly(row: Seq<u8>, x: int, w: nat) -> int
    decreases w,
{
    if w == 0 {
        0
    } else {
        row_poly(row, x, (w - 1) as nat) * base() + row[x + w - 1] as int
    }
}

/// The `w`-wide, `h`-high window of `g` whose top-left cell is row `y`,
/// column `x`, read row after row as the digits of one number in base
/// `base()`.
pub open spec fn window_poly(g: Seq<Vec<u8>>, x: int, y: int, w: nat, h: nat) -> int
    decreases h,
{
    if h == 0 {
        0
    } else {
        window_poly(g, x, y, w, (h - 1) as nat) * pw(w) + row_poly(g[y + h - 1]@, x, w)
    }
}

/// The hash of a window: its polynomial modulo 2^64.
pub open spec fn window_hash(g: Seq<Vec<u8>>, x: int, y: int, w: nat, h: nat) -> u64 {
    (window_poly(g, x, y, w, h) % hmod()) as u64
}

/// `sum_{c < n} row[x + c] * wt(top - c)`
pub open spec fn row_sum(row: Seq<u8>, x: int, n: nat, wt: spec_fn(int) -> int, top: int) -> int
    decreases n,
{
    if n == 0 {
        0
    } else {
        row_sum(row, x, (n - 1) as nat, wt, top) + row[x + n - 1] as int * wt(top - (n - 1))
    }
}

/// `sum_{r < h} row_sum(g[y + r], x, w, wt, top - r * w)`: the window
/// flattened row after row, cell number `i` weighted by `wt(top - i)`.
pub open spec fn grid_sum(
    g: Seq<Vec<u8>>,
    x: int,
    y: int,
    w: nat,
    h: nat,
    wt: spec_fn(int) -> int,
    top: int,
) -> int
    decreases h,
{
    if h == 0 {
        0
    } else {
        grid_sum(g, x, y, w, (h - 1) as nat, wt, top) + row_sum(
            g[y + h - 1]@,
            x,
            w,
            wt,
            top - (h - 1) * w,
        )
    }
}

/// `sum_{r < h} g[y + r][x] * wt(top - step * r)`: one column of a window.
pub open spec fn col_sum(
    g: Seq<Vec<u8>>,
    x: int,
    y: int,
    h: nat,
    wt: spec_fn(int) -> int,
    top: int,
    step: int,
) -> int
    decreases h,
{
    if h == 0 {
        0
    } else {
        col_sum(g, x, y, (h - 1) as nat, wt, top, step) + g[y + h - 1]@[x] as int * wt(
            top - step * (h - 1),
        )
    }
}

/// The table holds the powers of the base modulo 2^64, for exponents below `n`.
pub open spec fn is_power_table(ps: Seq<u64>, n: int) -> bool {
    &&& n <= ps.len()
    &&& forall|k: int| 0 <= k < n ==> #[trigger] ps[k] as int == pw(k as nat) % hmod()
}

/// Two weight functions agree modulo 2^64 on `lo..=hi`.
pub open spec fn congruent_on(wt1: spec_fn(int) -> int, wt2: spec_fn(int) -> int, lo: int, hi: int) -> bool {
    forall|k: int| lo <= k <= hi ==> #[trigger] wt1(k) % hmod() == wt2(k) % hmod()
}

// ---------------------------------------------------------------------
// Modular arithmetic of the wrapping operations
// ---------------------------------------------------------------------

/// A wrapping addition is the sum modulo 2^64.
pub proof fn lemma_wrapping_add(a: u64, b: u64)
    ensures
        vstd::wrapping::u64_specs::wrapping_add(a, b) as int == (a + b) % hmod(),
{
}

/// A wrapping subtraction is the difference modulo 2^64.
pub proof fn lemma_wrapping_sub(a: u64, b: u64)
    ensures
        vstd::wrapping::u64_specs::wrapping_sub(a, b) as int == (a - b) % hmod(),
{
}

/// A wrapping multiplication is the product modulo 2^64.
pub proof fn lemma_wrapping_mul(a: u64, b: u64)
    ensures
        vstd::wrapping::u64_specs::wrapping_mul(a, b) as int == (a * b) % hmod(),
{
}

/// Adding congruent numbers gives congruent sums.
pub proof fn lemma_add_cong(a: int, b: int, c: int, d: int)
    requires
        a % hmod() == c % hmod(),
        b % hmod() == d % hmod(),
    ensures
        (a + b) % hmod() == (c + d) % hmod(),
{
    lemma_add_mod_noop(a, b, hmod());
    lemma_add_mod_noop(c, d, hmod());
}

/// Subtracting congruent numbers gives congruent differences.
pub proof fn lemma_sub_cong(a: int, b: int, c: int, d: int)
    requires
        a % hmod() == c % hmod(),
        b % hmod() == d % hmod(),
    ensures
        (a - b) % hmod() == (c - d) % hmod(),
{
    lemma_sub_mod_noop(a, b, hmod());
    lemma_sub_mod_noop(c, d, hmod());
}

/// Multiplying congruent numbers gives congruent products.
pub proof fn lemma_mul_cong(a: int, b: int, c: int, d: int)
    requires
        a % hmod() == c % hmod(),
        b % hmod() == d % hmod(),
    ensures
        (a * b) % hmod() == (c * d) % hmod(),
{
    lemma_mul_mod_noop_general(a, b, hmod());
    lemma_mul_mod_noop_general(c, d, hmod());
}

/// The combined step `((h - l) * shift + r) mod 2^64` respects congruence.
pub proof fn lemma_roll_cong(h1: int, l1: int, s1: int, r1: int, h2: int, l2: int, s2: int, r2: int)
    requires
        h1 % hmod() == h2 % hmod(),
        l1 % hmod() == l2 % hmod(),
        s1 % hmod() == s2 % hmod(),
        r1 % hmod() == r2 % hmod(),
    ensures
        ((h1 - l1) * s1 + r1) % hmod() == ((h2 - l2) * s2 + r2) % hmod(),
{
    lemma_sub_cong(h1, l1, h2, l2);
    lemma_mul_cong(h1 - l1, s1, h2 - l2, s2);
    lemma_add_cong((h1 - l1) * s1, r1, (h2 - l2) * s2, r2);
}

/// A number below 2^64 is its own remainder.
pub proof fn lemma_small_mod(a: u64)
    ensures
        a as int % hmod() == a as int,
{
}

// ---------------------------------------------------------------------
// Powers
// ---------------------------------------------------------------------

/// `base^(a + b) == base^a * base^b`.
pub proof fn lemma_pw_add(a: nat, b: nat)
    ensures
        pw(a + b) == pw(a) * pw(b),
    decreases a,
{
    if a == 0 {
    } else {
        lemma_pw_add((a - 1) as nat, b);
        assert(pw(a + b) == base() * pw((a - 1 + b) as nat));
        assert(base() * (pw((a - 1) as nat) * pw(b)) == (base() * pw((a - 1) as nat)) * pw(b))
            by (nonlinear_arith);
    }
}

// ---------------------------------------------------------------------
// Congruent weights give congruent sums
// ---------------------------------------------------------------------

/// Weights congruent modulo 2^64 give row sums congruent modulo 2^64.
pub proof fn lemma_row_sum_cong(
    row: Seq<u8>,
    x: int,
    n: nat,
    wt1: spec_fn(int) -> int,
    wt2: spec_fn(int) -> int,
    top: int,
)
    requires
        congruent_on(wt1, wt2, top - n + 1, top),
    ensures
        row_sum(row, x, n, wt1, top) % hmod() == row_sum(row, x, n, wt2, top) % hmod(),
    decreases n,
{
    if n > 0 {
        lemma_row_sum_cong(row, x, (n - 1) as nat, wt1, wt2, top);
        let a = row[x + n - 1] as int;
        let k = top - (n - 1);
        assert(wt1(k) % hmod() == wt2(k) % hmod());
        lemma_mul_cong(a, wt1(k), a, wt2(k));
        lemma_add_cong(
            row_sum(row, x, (n - 1) as nat, wt1, top),
            a * wt1(k),
            row_sum(row, x, (n - 1) as nat, wt2, top),
            a * wt2(k),
        );
    }
}

/// Weights congruent modulo 2^64 give window sums congruent modulo 2^64.
pub proof fn lemma_grid_sum_cong(
    g: Seq<Vec<u8>>,
    x: int,
    y: int,
    w: nat,
    h: nat,
    wt1: spec_fn(int) -> int,
    wt2: spec_fn(int) -> int,
    top: int,
)
    requires
        congruent_on(wt1, wt2, top - h * w + 1, top),
    ensures
        grid_sum(g, x, y, w, h, wt1, top) % hmod() == grid_sum(g, x, y, w, h, wt2, top) % hmod(),
    decreases h,
{
    if h > 0 {
        assert((h - 1) * w + w == h * w) by (nonlinear_arith);
        assert(0 <= (h - 1) * w) by (nonlinear_arith)
            requires
                h >= 1,
        ;
        lemma_grid_sum_cong(g, x, y, w, (h - 1) as nat, wt1, wt2, top);
        let t = top - (h - 1) * w;
        assert(congruent_on(wt1, wt2, t - w + 1, t));
        lemma_row_sum_cong(g[y + h - 1]@, x, w, wt1, wt2, t);
        lemma_add_cong(
            grid_sum(g, x, y, w, (h - 1) as nat, wt1, top),
            row_sum(g[y + h - 1]@, x, w, wt1, t),
            grid_sum(g, x, y, w, (h - 1) as nat, wt2, top),
            row_sum(g[y + h - 1]@, x, w, wt2, t),
        );
    }
}

/// Weights congruent modulo 2^64 give column sums congruent modulo 2^64.
pub proof fn lemma_col_sum_cong(
    g: Seq<Vec<u8>>,
    x: int,
    y: int,
    h: nat,
    wt1: spec_fn(int) -> int,
    wt2: spec_fn(int) -> int,
    top: int,
    step: int,
)
    requires
        step >= 0,
        congruent_on(wt1, wt2, top - step * (h - 1), top),
    ensures
        col_sum(g, x, y, h, wt1, top, step) % hmod() == col_sum(g, x, y, h, wt2, top, step)
            % hmod(),
    decreases h,
{
    if h > 0 {
        assert(step * (h - 1) >= step * (h - 2)) by (nonlinear_arith)
            requires
                step >= 0,
        ;
        assert(step * (h - 1) >= 0) by (nonlinear_arith)
            requires
                step >= 0,
                h >= 1,
        ;
        lemma_col_sum_cong(g, x, y, (h - 1) as nat, wt1, wt2, top, step);
        let a = g[y + h - 1]@[x] as int;
        let k = top - step * (h - 1);
        assert(wt1(k) % hmod() == wt2(k) % hmod());
        lemma_mul_cong(a, wt1(k), a, wt2(k));
        lemma_add_cong(
            col_sum(g, x, y, (h - 1) as nat, wt1, top, step),
            a * wt1(k),
            col_sum(g, x, y, (h - 1) as nat, wt2, top, step),
            a * wt2(k),
        );
    }
}

/// A table of powers agrees with the true powers modulo 2^64.
pub proof fn lemma_table_congruent(ps: Seq<u64>, n: int, lo: int, hi: int)
    requires
        is_power_table(ps, n),
        0 <= lo,
        hi < n,
    ensures
        congruent_on(table_weight(ps), pow_weight(), lo, hi),
{
    assert forall|k: int| lo <= k <= hi implies #[trigger] table_weight(ps)(k) % hmod()
        == pow_weight()(k) % hmod() by {
        assert(ps[k] as int == pw(k as nat) % hmod());
        lemma_small_mod(ps[k]);
    }
}

// ---------------------------------------------------------------------
// Sums with the true powers are the polynomials, scaled
// ---------------------------------------------------------------------

/// A row summed with the true powers is the row's polynomial, scaled by
/// the power of the lowest weight used.
pub proof fn lemma_row_sum_pow(row: Seq<u8>, x: int, n: nat, top: int)
    requires
        top >= n - 1,
    ensures
        row_sum(row, x, n, pow_weight(), top) == row_poly(row, x, n) * pw((top - n + 1) as nat),
    decreases n,
{
    if n > 0 {
        lemma_row_sum_pow(row, x, (n - 1) as nat, top);
        let e = (top - n + 1) as nat;
        let a = row[x + n - 1] as int;
        let rp = row_poly(row, x, (n - 1) as nat);
        assert(pw((e + 1) as nat) == base() * pw(e));
        assert((top - (n - 1) + 1) as nat == (e + 1) as nat);
        assert(rp * (base() * pw(e)) + a * pw(e) == (rp * base() + a) * pw(e)) by (nonlinear_arith);
    }
}

/// A window summed with the true powers is the window's polynomial,
/// scaled by the power of the lowest weight used.
pub proof fn lemma_grid_sum_pow(g: Seq<Vec<u8>>, x: int, y: int, w: nat, h: nat, top: int)
    requires
        top >= h * w - 1,
    ensures
        grid_sum(g, x, y, w, h, pow_weight(), top) == window_poly(g, x, y, w, h) * pw(
            (top - h * w + 1) as nat,
        ),
    decreases h,
{
    if h > 0 {
        assert((h - 1) * w + w == h * w) by (nonlinear_arith);
        lemma_grid_sum_pow(g, x, y, w, (h - 1) as nat, top);
        let t = top - (h - 1) * w;
        lemma_row_sum_pow(g[y + h - 1]@, x, w, t);
        let e = (top - h * w + 1) as nat;
        assert((t - w + 1) as nat == e);
        assert((top - (h - 1) * w + 1) as nat == (w + e) as nat);
        lemma_pw_add(w, e);
        let wp = window_poly(g, x, y, w, (h - 1) as nat);
        let rp = row_poly(g[y + h - 1]@, x, w);
        assert(wp * (pw(w) * pw(e)) + rp * pw(e) == (wp * pw(w) + rp) * pw(e)) by (nonlinear_arith);
    }
}

/// Scaling the top of a column sum by `s` scales the sum by `base()^s`.
pub proof fn lemma_col_sum_shift(g: Seq<Vec<u8>>, x: int, y: int, h: nat, top: int, step: int, s: nat)
    requires
        step >= 0,
        top - step * (h - 1) >= 0,
    ensures
        col_sum(g, x, y, h, pow_weight(), top + s, step) == pw(s) * col_sum(
            g,
            x,
            y,
            h,
            pow_weight(),
            top,
            step,
        ),
    decreases h,
{
    if h > 0 {
        assert(step * (h - 1) >= step * (h - 2)) by (nonlinear_arith)
            requires
                step >= 0,
        ;
        lemma_col_sum_shift(g, x, y, (h - 1) as nat, top, step, s);
        let k = top - step * (h - 1);
        assert(top + s - step * (h - 1) == k + s);
        lemma_pw_add(s, k as nat);
        let a = g[y + h - 1]@[x] as int;
        let c = col_sum(g, x, y, (h - 1) as nat, pow_weight(), top, step);
        assert(pw(s) * c + a * (pw(s) * pw(k as nat)) == pw(s) * (c + a * pw(k as nat)))
            by (nonlinear_arith);
    }
}

// ---------------------------------------------------------------------
// Moving a window
// ---------------------------------------------------------------------

/// Reading a row from its first digit: `row[x] * base^(w) + rest`.
pub proof fn lemma_row_poly_front(row: Seq<u8>, x: int, w: nat)
    ensures
        row_poly(row, x, w + 1) == row[x] as int * pw(w) + row_poly(row, x + 1, w),
    decreases w,
{
    if w == 0 {
        assert(pw(0) == 1);
        assert(row_poly(row, x, 1) == row_poly(row, x, 0) * base() + row[x] as int);
    } else {
        lemma_row_poly_front(row, x, (w - 1) as nat);
        let a = row[x] as int;
        let r = row_poly(row, x + 1, (w - 1) as nat);
        assert(row_poly(row, x, w + 1) == row_poly(row, x, w) * base() + row[x + w] as int);
        assert(row_poly(row, x + 1, w) == r * base() + row[x + 1 + w - 1] as int);
        assert(pw(w) == base() * pw((w - 1) as nat));
        assert((a * pw((w - 1) as nat) + r) * base() == a * (base() * pw((w - 1) as nat)) + r
            * base()) by (nonlinear_arith);
        assert(row[x + 1 + w - 1] == row[x + (w + 1) - 1]);
    }
}

/// One column to the right, for a single row.
pub proof fn lemma_row_roll(row: Seq<u8>, x: int, w: nat)
    requires
        w >= 1,
    ensures
        row_poly(row, x + 1, w) == (row_poly(row, x, w) - row[x] as int * pw((w - 1) as nat))
            * base() + row[x + w] as int,
{
    lemma_row_poly_front(row, x, w);
    lemma_row_poly_front(row, x, (w - 1) as nat);
    let a = row[x] as int;
    let rest = row_poly(row, x + 1, (w - 1) as nat);
    assert(pw(w) == base() * pw((w - 1) as nat));
    assert(row_poly(row, x + 1, w) == rest * base() + row[x + w] as int);
    assert((a * pw((w - 1) as nat) + rest - a * pw((w - 1) as nat)) * base() == rest * base())
        by (nonlinear_arith);
}

/// Reading a window from its first row.
pub proof fn lemma_window_poly_front(g: Seq<Vec<u8>>, x: int, y: int, w: nat, h: nat)
    ensures
        window_poly(g, x, y, w, h + 1) == row_poly(g[y]@, x, w) * pw(w * h) + window_poly(
            g,
            x,
            y + 1,
            w,
            h,
        ),
    decreases h,
{
    if h == 0 {
        assert(window_poly(g, x, y, w, 0) == 0);
        assert(w * 0 == 0);
        assert(pw(0) == 1);
    } else {
        lemma_window_poly_front(g, x, y, w, (h - 1) as nat);
        let r0 = row_poly(g[y]@, x, w);
        let rest = window_poly(g, x, y + 1, w, (h - 1) as nat);
        assert(w * (h - 1) + w == w * h) by (nonlinear_arith);
        lemma_pw_add((w * (h - 1)) as nat, w);
        assert(g[y + 1 + h - 1] == g[y + (h + 1) - 1]);
        assert((r0 * pw((w * (h - 1)) as nat) + rest) * pw(w) == r0 * (pw((w * (h - 1)) as nat)
            * pw(w)) + rest * pw(w)) by (nonlinear_arith);
    }
}

/// One row down.
pub proof fn lemma_window_roll_down(g: Seq<Vec<u8>>, x: int, y: int, w: nat, h: nat)
    requires
        h >= 1,
    ensures
        window_poly(g, x, y + 1, w, h) == (window_poly(g, x, y, w, h) - row_poly(g[y]@, x, w) * pw(
            (w * (h - 1)) as nat,
        )) * pw(w) + row_poly(g[y + h]@, x, w),
{
    lemma_window_poly_front(g, x, y, w, h);
    assert(w * (h - 1) + w == w * h) by (nonlinear_arith)
        requires
            h >= 1,
    ;
    lemma_pw_add((w * (h - 1)) as nat, w);
    let r0 = row_poly(g[y]@, x, w);
    let wp = window_poly(g, x, y, w, h);
    let a = pw((w * (h - 1)) as nat);
    assert(wp * pw(w) + row_poly(g[y + h]@, x, w) == r0 * (a * pw(w)) + window_poly(
        g,
        x,
        y + 1,
        w,
        h,
    ));
    assert((wp - r0 * a) * pw(w) == wp * pw(w) - r0 * (a * pw(w))) by (nonlinear_arith);
}

/// One column to the right: drop the left column, shift, add the right column.
pub proof fn lemma_window_roll_right(g: Seq<Vec<u8>>, x: int, y: int, w: nat, h: nat)
    requires
        w >= 1,
    ensures
        window_poly(g, x + 1, y, w, h) == (window_poly(g, x, y, w, h) - col_sum(
            g,
            x,
            y,
            h,
            pow_weight(),
            w * h - 1,
            w as int,
        )) * base() + col_sum(g, x + w, y, h, pow_weight(), w * h - w, w as int),
    decreases h,
{
    if h > 0 {
        let hm = (h - 1) as nat;
        lemma_window_roll_right(g, x, y, w, hm);
        assert(w * hm + w == w * h) by (nonlinear_arith)
            requires
                hm + 1 == h,
        ;
        assert(w * hm >= 0) by (nonlinear_arith);
        // the column sums of h rows from those of h - 1 rows
        let c1 = col_sum(g, x, y, hm, pow_weight(), w * hm - 1, w as int);
        let c2 = col_sum(g, x + w, y, hm, pow_weight(), w * hm - w, w as int);
        if hm > 0 {
            assert(w * hm - 1 - w * (hm - 1) == w - 1) by (nonlinear_arith)
                requires
                    hm >= 1,
            ;
            assert(w * hm - w - w * (hm - 1) == 0) by (nonlinear_arith)
                requires
                    hm >= 1,
            ;
            lemma_col_sum_shift(g, x, y, hm, w * hm - 1, w as int, w);
            lemma_col_sum_shift(g, x + w, y, hm, w * hm - w, w as int, w);
        } else {
            assert(col_sum(g, x, y, hm, pow_weight(), w * h - 1, w as int) == 0);
            assert(col_sum(g, x + w, y, hm, pow_weight(), w * h - w, w as int) == 0);
        }
        assert(w * h - 1 == w * hm - 1 + w);
        assert(w * h - w == w * hm - w + w);
        let a = g[y + hm]@[x] as int;
        let b = g[y + hm]@[x + w] as int;
        assert(w * h - 1 - w * hm == w - 1);
        assert(w * h - w - w * hm == 0);
        assert(pw(0) == 1);
        let c1h = col_sum(g, x, y, h, pow_weight(), w * h - 1, w as int);
        let c2h = col_sum(g, x + w, y, h, pow_weight(), w * h - w, w as int);
        assert(c1h == pw(w) * c1 + a * pw((w - 1) as nat));
        assert(c2h == pw(w) * c2 + b);
        lemma_row_roll(g[y + hm]@, x, w);
        let wpx = window_poly(g, x, y, w, hm);
        let rx = row_poly(g[y + hm]@, x, w);
        let wpx1 = window_poly(g, x + 1, y, w, hm);
        let rx1 = row_poly(g[y + hm]@, x + 1, w);
        assert(wpx1 == (wpx - c1) * base() + c2);
        assert(rx1 == (rx - a * pw((w - 1) as nat)) * base() + b);
        assert(window_poly(g, x + 1, y, w, h) == wpx1 * pw(w) + rx1);
        assert(window_poly(g, x, y, w, h) == wpx * pw(w) + rx);
        let pww = pw(w);
        let q = pw((w - 1) as nat);
        let bb = base();
        assert(((wpx - c1) * bb + c2) * pww + ((rx - a * q) * bb + b) == ((wpx * pww + rx) - (pww
            * c1 + a * q)) * bb + (pww * c2 + b)) by (nonlinear_arith);
    }
}

/// Windows with equal cells have equal polynomials.
pub proof fn lemma_window_poly_equal(
    g1: Seq<Vec<u8>>,
    x1: int,
    y1: int,
    g2: Seq<Vec<u8>>,
    x2: int,
    y2: int,
    w: nat,
    h: nat,
)
    requires
        forall|r: int, c: int|
            0 <= r < h && 0 <= c < w ==> #[trigger] g1[y1 + r]@[x1 + c] == g2[y2 + r]@[x2 + c],
    ensures
        window_poly(g1, x1, y1, w, h) == window_poly(g2, x2, y2, w, h),
    decreases h,
{
    if h > 0 {
        lemma_window_poly_equal(g1, x1, y1, g2, x2, y2, w, (h - 1) as nat);
        lemma_row_poly_equal(g1[y1 + h - 1]@, x1, g2[y2 + h - 1]@, x2, w, h - 1, g1, y1, g2, y2);
    }
}

/// Rows with equal cells have equal polynomials.
proof fn lemma_row_poly_equal(
    r1: Seq<u8>,
    x1: int,
    r2: Seq<u8>,
    x2: int,
    w: nat,
    row: int,
    g1: Seq<Vec<u8>>,
    y1: int,
    g2: Seq<Vec<u8>>,
    y2: int,
)
    requires
        r1 == g1[y1 + row]@,
        r2 == g2[y2 + row]@,
        forall|c: int| 0 <= c < w ==> #[trigger] g1[y1 + row]@[x1 + c] == g2[y2 + row]@[x2 + c],
    ensures
        row_poly(r1, x1, w) == row_poly(r2, x2, w),
    decreases w,
{
    if w > 0 {
        lemma_row_poly_equal(r1, x1, r2, x2, (w - 1) as nat, row, g1, y1, g2, y2);
        assert(g1[y1 + row]@[x1 + (w - 1)] == g2[y2 + row]@[x2 + (w - 1)]);
    }
}

/// The hash one row down, from the hash of the window and the two rows
/// that leave and enter it, each known modulo 2^64.
pub proof fn lemma_down_step(
    hash: int,
    sub: int,
    add: int,
    shift: int,
    g: Seq<Vec<u8>>,
    x: int,
    y: int,
    w: nat,
    h: nat,
)
    requires
        h >= 1,
        hash % hmod() == window_poly(g, x, y, w, h) % hmod(),
        sub % hmod() == (row_poly(g[y]@, x, w) * pw((w * (h - 1)) as nat)) % hmod(),
        add % hmod() == row_poly(g[y + h]@, x, w) % hmod(),
        shift % hmod() == pw(w) % hmod(),
    ensures
        ((hash - sub) * shift + add) % hmod() == window_poly(g, x, y + 1, w, h) % hmod(),
{
    lemma_window_roll_down(g, x, y, w, h);
    lemma_roll_cong(
        hash,
        sub,
        shift,
        add,
        window_poly(g, x, y, w, h),
        row_poly(g[y]@, x, w) * pw((w * (h - 1)) as nat),
        pw(w),
        row_poly(g[y + h]@, x, w),
    );
}

/// The hash one column to the right, from the hash of the window and the
/// two columns that leave and enter it, each known modulo 2^64.
pub proof fn lemma_right_step(
    hash: int,
    sub: int,
    add: int,
    g: Seq<Vec<u8>>,
    x: int,
    y: int,
    w: nat,
    h: nat,
)
    requires
        w >= 1,
        hash % hmod() == window_poly(g, x, y, w, h) % hmod(),
        sub % hmod() == col_sum(g, x, y, h, pow_weight(), w * h - 1, w as int) % hmod(),
        add % hmod() == col_sum(g, x + w, y, h, pow_weight(), w * h - w, w as int) % hmod(),
    ensures
        ((hash - sub) * base() + add) % hmod() == window_poly(g, x + 1, y, w, h) % hmod(),
{
    lemma_window_roll_right(g, x, y, w, h);
    lemma_roll_cong(
        hash,
        sub,
        base(),
        add,
        window_poly(g, x, y, w, h),
        col_sum(g, x, y, h, pow_weight(), w * h - 1, w as int),
        base(),
        col_sum(g, x + w, y, h, pow_weight(), w * h - w, w as int),
    );
}

/// A row hash scaled by `base()^s` moved one column to the right.
pub proof fn lemma_scaled_row_step(
    sub: int,
    left: int,
    right: int,
    row: Seq<u8>,
    x: int,
    w: nat,
    s: nat,
)
    requires
        w >= 1,
        sub % hmod() == (row_poly(row, x, w) * pw(s)) % hmod(),
        left % hmod() == (pw((s + w - 1) as nat) * row[x] as int) % hmod(),
        right % hmod() == (pw(s) * row[x + w] as int) % hmod(),
    ensures
        ((sub - left) * base() + right) % hmod() == (row_poly(row, x + 1, w) * pw(s)) % hmod(),
{
    let rp = row_poly(row, x, w);
    let a = row[x] as int;
    let b = row[x + w] as int;
    let q = pw((w - 1) as nat);
    lemma_pw_add(s, (w - 1) as nat);
    assert((s + (w - 1)) as nat == (s + w - 1) as nat);
    lemma_roll_cong(sub, left, base(), right, rp * pw(s), pw((s + w - 1) as nat) * a, base(), pw(s) * b);
    lemma_row_roll(row, x, w);
    let ps = pw(s);
    let bb = base();
    assert((rp * ps - (ps * q) * a) * bb + ps * b == ((rp - a * q) * bb + b) * ps)
        by (nonlinear_arith);
}

} // verus!
