//! Reading numbers and characters from a `CopyingBufReader`: a number is
//! found by skipping the bytes before its first digit (or sign), and read up
//! to the first byte that is not a digit, which is left to come. Arithmetic
//! wraps, as fixed-width integers do.
use vstd::prelude::*;
use vstd::arithmetic::div_mod::{lemma_fundamental_div_mod, lemma_mod_mod, lemma_mod_add_multiples_vanish, lemma_sub_mod_noop};
use crate::buf::{CopyingBufReader, Read};
use crate::polyhash::{hmod, lemma_add_cong, lemma_mul_cong, lemma_small_mod, lemma_wrapping_add, lemma_wrapping_mul};

verus! {

/// Something that can be read from a reader.
pub trait Scan<T> {
    /// The reader is in a state to read from.
    spec fn ready(&self) -> bool;

    /// The input still to come holds a `T`.
    spec fn ahead(&self) -> bool;

    /// Reading from the reader as it was gave `res` and left it as `after`.
    spec fn scanned(&self, after: &Self, res: Option<T>) -> bool;

    /// Reads the next `T`, which the input must hold.
    fn scan(&mut self) -> (res: T)
        requires
            <Self as Scan<T>>::ready(old(self)),
            <Self as Scan<T>>::ahead(old(self)),
        ensures
            <Self as Scan<T>>::scanned(old(self), final(self), Some(res)),
    ;

    /// Reads the next `T`; `None` when the input holds none: it ends first,
    /// or a sign is not followed by a digit.
    fn try_scan(&mut self) -> (res: Option<T>)
        requires
            <Self as Scan<T>>::ready(old(self)),
        ensures
            <Self as Scan<T>>::scanned(old(self), final(self), res),
            res is Some <==> <Self as Scan<T>>::ahead(old(self)),
    ;
}

/// An ASCII decimal digit.
pub open spec fn is_digit(b: u8) -> bool {
    48 <= b <= 57
}

/// `+` or `-`.
pub open spec fn is_sign(b: u8) -> bool {
    b == 43 || b == 45
}

/// The number written by the decimal digits `ds`.
pub open spec fn digits_value(ds: Seq<u8>) -> int
    decreases ds.len(),
{
    if ds.len() == 0 {
        0
    } else {
        digits_value(ds.drop_last()) * 10 + (ds.last() - 48)
    }
}

/// The input `s` begins with a number: the bytes `skip` before it (no digit
/// among them, and when `signed` no sign either), then `sign` (at most one
/// byte, a sign, and only when `signed`), then the digits `ds`, then a byte
/// that is not a digit.
pub open spec fn number_at(s: Seq<u8>, skip: Seq<u8>, sign: Seq<u8>, ds: Seq<u8>, signed: bool) -> bool {
    &&& skip.len() + sign.len() + ds.len() < s.len()
    &&& s.take((skip.len() + sign.len() + ds.len()) as int) == skip + sign + ds
    &&& forall|i: int|
        0 <= i < skip.len() ==> !is_digit(#[trigger] skip[i]) && (signed ==> !is_sign(skip[i]))
    &&& sign.len() <= 1
    &&& sign.len() == 1 ==> signed && is_sign(sign[0])
    &&& ds.len() >= 1
    &&& forall|i: int| 0 <= i < ds.len() ==> is_digit(#[trigger] ds[i])
    &&& !is_digit(s[(skip.len() + sign.len() + ds.len()) as int])
}

/// The input `s` begins with a number (see `number_at`).
pub open spec fn number_ahead(s: Seq<u8>, signed: bool) -> bool {
    exists|skip: Seq<u8>, sign: Seq<u8>, ds: Seq<u8>| #[trigger] number_at(s, skip, sign, ds, signed)
}

/// An unsigned number was read from the front of the input `before`, which
/// leaves `after`, and `value` is it modulo `modulus`.
pub open spec fn unsigned_scanned(before: Seq<u8>, after: Seq<u8>, value: int, modulus: int) -> bool {
    exists|skip: Seq<u8>, ds: Seq<u8>|
        #[trigger] number_at(before, skip, Seq::<u8>::empty(), ds, false) && after == before.skip(
            (skip.len() + ds.len()) as int,
        ) && value == digits_value(ds) % modulus
}

/// The number written by an optional sign and digits.
pub open spec fn signed_value(sign: Seq<u8>, ds: Seq<u8>) -> int {
    if sign.len() == 1 && sign[0] == 45 {
        -digits_value(ds)
    } else {
        digits_value(ds)
    }
}

/// `z` as a two's-complement number of `modulus` values.
pub open spec fn signed_wrap(z: int, modulus: int) -> int {
    if z % modulus >= modulus / 2 {
        z % modulus - modulus
    } else {
        z % modulus
    }
}

/// A signed number was read from the front of the input `before`, which
/// leaves `after`, and `value` is it as a two's-complement number of
/// `modulus` values.
pub open spec fn signed_scanned(before: Seq<u8>, after: Seq<u8>, value: int, modulus: int) -> bool {
    exists|skip: Seq<u8>, sign: Seq<u8>, ds: Seq<u8>|
        #[trigger] number_at(before, skip, sign, ds, true) && after == before.skip(
            (skip.len() + sign.len() + ds.len()) as int,
        ) && value == signed_wrap(signed_value(sign, ds), modulus)
}

/// An input begins with at most one number: the bytes before it, its sign
/// and its digits are determined by the input.
pub proof fn lemma_number_at_unique(
    s: Seq<u8>,
    skip1: Seq<u8>,
    sign1: Seq<u8>,
    ds1: Seq<u8>,
    skip2: Seq<u8>,
    sign2: Seq<u8>,
    ds2: Seq<u8>,
    signed: bool,
)
    requires
        number_at(s, skip1, sign1, ds1, signed),
        number_at(s, skip2, sign2, ds2, signed),
    ensures
        skip1 == skip2,
        sign1 == sign2,
        ds1 == ds2,
{
    lemma_number_at_bytes(s, skip1, sign1, ds1, signed);
    lemma_number_at_bytes(s, skip2, sign2, ds2, signed);
    let a1 = skip1.len() as int;
    let a2 = skip2.len() as int;
    if a1 < a2 {
        assert(skip2[a1] == s[a1]);
    }
    if a2 < a1 {
        assert(skip1[a2] == s[a2]);
    }
    assert(a1 == a2);
    assert(skip1 =~= skip2) by {
        assert forall|i: int| 0 <= i < a1 implies skip1[i] == skip2[i] by {
            assert(skip1[i] == s[i]);
            assert(skip2[i] == s[i]);
        }
    }
    if sign1.len() != sign2.len() {
        if sign1.len() == 1 {
            assert(ds2[0] == s[a1]);
        } else {
            assert(ds1[0] == s[a1]);
        }
    }
    assert(sign1 =~= sign2) by {
        if sign1.len() == 1 {
            assert(sign1[0] == s[a1]);
            assert(sign2[0] == s[a1]);
        }
    }
    let b = a1 + sign1.len();
    let n1 = ds1.len() as int;
    let n2 = ds2.len() as int;
    if n1 < n2 {
        assert(ds2[n1] == s[b + n1]);
    }
    if n2 < n1 {
        assert(ds1[n2] == s[b + n2]);
    }
    assert(ds1 =~= ds2) by {
        assert forall|i: int| 0 <= i < n1 implies ds1[i] == ds2[i] by {
            assert(ds1[i] == s[b + i]);
            assert(ds2[i] == s[b + i]);
        }
    }
}

/// The bytes of the input, read off a number at its front.
proof fn lemma_number_at_bytes(s: Seq<u8>, skip: Seq<u8>, sign: Seq<u8>, ds: Seq<u8>, signed: bool)
    requires
        number_at(s, skip, sign, ds, signed),
    ensures
        forall|i: int| 0 <= i < skip.len() ==> #[trigger] skip[i] == s[i],
        sign.len() == 1 ==> sign[0] == s[skip.len() as int],
        forall|i: int|
            0 <= i < ds.len() ==> #[trigger] ds[i] == s[skip.len() + sign.len() + i],
        is_digit(s[(skip.len() + sign.len()) as int]),
        sign.len() == 0 ==> is_digit(s[skip.len() as int]),
        sign.len() == 1 ==> signed && is_sign(s[skip.len() as int]),
{
    let m = (skip.len() + sign.len() + ds.len()) as int;
    let t = skip + sign + ds;
    assert forall|i: int| 0 <= i < skip.len() implies #[trigger] skip[i] == s[i] by {
        assert(s.take(m)[i] == t[i]);
    }
    if sign.len() == 1 {
        assert(s.take(m)[skip.len() as int] == t[skip.len() as int]);
    }
    assert forall|i: int| 0 <= i < ds.len() implies #[trigger] ds[i] == s[skip.len() + sign.len()
        + i] by {
        assert(s.take(m)[skip.len() + sign.len() + i] == t[skip.len() + sign.len() + i]);
    }
    assert(ds[0] == s[(skip.len() + sign.len()) as int]);
}

/// No number is at the front of `s` when, after the bytes `s[..p]` (no
/// digit among them, and when `signed` no sign), and a sign at `p` when
/// `q == p + 1`, either every byte from `q` on is a digit, or a sign is not
/// followed by a digit.
proof fn lemma_no_number(s: Seq<u8>, p: int, q: int, signed: bool)
    requires
        0 <= p <= q <= s.len(),
        q <= p + 1,
        forall|i: int| 0 <= i < p ==> !is_digit(#[trigger] s[i]) && (signed ==> !is_sign(s[i])),
        q == p + 1 ==> signed && is_sign(s[p]),
        (forall|i: int| q <= i < s.len() ==> is_digit(#[trigger] s[i])) || (q == p + 1 && (q
            == s.len() || !is_digit(s[q]))),
    ensures
        !number_ahead(s, signed),
{
    if number_ahead(s, signed) {
        let (skip, sign, ds) = choose|skip: Seq<u8>, sign: Seq<u8>, ds: Seq<u8>|
            #[trigger] number_at(s, skip, sign, ds, signed);
        lemma_number_at_bytes(s, skip, sign, ds, signed);
        let a = skip.len() as int;
        let m = a + sign.len() + ds.len();
        if a < p {
            assert(!is_digit(s[a]));
        }
        if a > p {
            assert(skip[p] == s[p]);
            assert(!is_digit(s[p]));
        }
        assert(a == p);
        if q == p + 1 {
            assert(!is_digit(s[p]));
            assert(sign.len() == 1);
            assert(ds[0] == s[q]);
        }
        assert(m >= q);
        assert(!is_digit(s[m]));
    }
}

/// Skips to the first digit, or with `allow_sign` to the first digit or
/// sign; a sign is consumed and must be followed by a digit. Returns
/// whether the number is negative, the bytes skipped and the sign.
fn skip_to_number<R: Read>(r: &mut CopyingBufReader<R>, allow_sign: bool) -> (res: (
    Option<bool>,
    Ghost<Seq<u8>>,
    Ghost<Seq<u8>>,
))
    requires
        old(r).wf(),
    ensures
        final(r).wf(),
        final(r).capacity() == old(r).capacity(),
        final(r).stream() == old(r).stream(),
        res.0 is None ==> old(r).capacity() == 0 || !number_ahead(old(r).rest(), allow_sign),
        res.0 matches Some(neg) ==> {
            let s = old(r).rest();
            let skip = res.1@;
            let sign = res.2@;
            let k = skip.len() + sign.len();
            &&& old(r).capacity() > 0
            &&& k < s.len()
            &&& s.take(k as int) == skip + sign
            &&& final(r).rest() == s.skip(k as int)
            &&& forall|i: int|
                0 <= i < skip.len() ==> !is_digit(#[trigger] skip[i]) && (allow_sign
                    ==> !is_sign(skip[i]))
            &&& sign.len() <= 1
            &&& sign.len() == 1 ==> allow_sign && is_sign(sign[0])
            &&& neg == (sign.len() == 1 && sign[0] == 45)
            &&& is_digit(s[k as int])
        },
{
    let ghost s = r.rest();
    let ghost mut skip: Seq<u8> = Seq::empty();
    loop
        invariant
            r.wf(),
            r.capacity() == old(r).capacity(),
            r.stream() == old(r).stream(),
            s == old(r).rest(),
            skip.len() <= s.len(),
            s.take(skip.len() as int) == skip,
            r.rest() == s.skip(skip.len() as int),
            forall|i: int|
                0 <= i < skip.len() ==> !is_digit(#[trigger] skip[i]) && (allow_sign ==> !is_sign(
                    skip[i],
                )),
        decreases r.rest().len(),
    {
        let b = match r.peek() {
            Some(b) => b,
            None => {
                proof {
                    if r.capacity() > 0 {
                        assert forall|i: int|
                            0 <= i < s.len() implies !is_digit(#[trigger] s[i]) && (allow_sign
                            ==> !is_sign(s[i])) by {
                            assert(s.take(skip.len() as int)[i] == s[i]);
                        }
                        lemma_no_number(s, s.len() as int, s.len() as int, allow_sign);
                    }
                }
                return (None, Ghost(skip), Ghost(Seq::empty()));
            },
        };
        proof {
            assert(b == s[skip.len() as int]);
        }
        if b >= 48 && b <= 57 {
            proof {
                assert(skip + Seq::<u8>::empty() =~= skip);
            }
            return (Some(false), Ghost(skip), Ghost(Seq::empty()));
        }
        if allow_sign && (b == 43 || b == 45) {
            r.consume(1);
            let c = r.peek();
            let ghost p = skip.len() as int;
            proof {
                assert(r.rest() =~= s.skip(p + 1));
                assert forall|i: int|
                    0 <= i < p implies !is_digit(#[trigger] s[i]) && (allow_sign ==> !is_sign(
                        s[i],
                    )) by {
                    assert(s.take(p)[i] == s[i]);
                }
            }
            match c {
                Some(c) => {
                    proof {
                        assert(c == s[p + 1]);
                    }
                    if c >= 48 && c <= 57 {
                        let ghost sign = seq![b];
                        proof {
                            assert(s.take(p + 1) =~= skip + sign);
                        }
                        return (Some(b == 45), Ghost(skip), Ghost(sign));
                    } else {
                        proof {
                            lemma_no_number(s, p, p + 1, allow_sign);
                        }
                        return (None, Ghost(skip), Ghost(Seq::empty()));
                    }
                },
                None => {
                    proof {
                        lemma_no_number(s, p, p + 1, allow_sign);
                    }
                    return (None, Ghost(skip), Ghost(Seq::empty()));
                },
            }
        }
        r.consume(1);
        proof {
            assert(s.take(skip.len() + 1 as int) =~= skip + seq![b]);
            assert(r.rest() =~= s.skip(skip.len() + 1 as int));
            skip = skip + seq![b];
        }
    }
}

/// Reads the digits at the front of the input; their value modulo 2^64,
/// and the digits.
fn read_digits<R: Read>(r: &mut CopyingBufReader<R>) -> (res: (Option<u64>, Ghost<Seq<u8>>))
    requires
        old(r).wf(),
        old(r).capacity() > 0,
        old(r).rest().len() > 0,
        is_digit(old(r).rest()[0]),
    ensures
        final(r).wf(),
        final(r).capacity() == old(r).capacity(),
        final(r).stream() == old(r).stream(),
        res.0 is None ==> forall|i: int| 0 <= i < old(r).rest().len() ==> is_digit(#[trigger] old(r).rest()[i]),
        res.0 matches Some(v) ==> {
            let s = old(r).rest();
            let ds = res.1@;
            &&& 1 <= ds.len() < s.len()
            &&& s.take(ds.len() as int) == ds
            &&& forall|i: int| 0 <= i < ds.len() ==> is_digit(#[trigger] ds[i])
            &&& !is_digit(s[ds.len() as int])
            &&& final(r).rest() == s.skip(ds.len() as int)
            &&& v as int == digits_value(ds) % hmod()
        },
{
    let ghost s = r.rest();
    let ghost mut ds: Seq<u8> = Seq::empty();
    let mut value: u64 = 0;
    loop
        invariant
            r.wf(),
            r.capacity() == old(r).capacity(),
            r.capacity() > 0,
            r.stream() == old(r).stream(),
            s == old(r).rest(),
            s.len() > 0,
            is_digit(s[0]),
            ds.len() <= s.len(),
            s.take(ds.len() as int) == ds,
            r.rest() == s.skip(ds.len() as int),
            forall|i: int| 0 <= i < ds.len() ==> is_digit(#[trigger] ds[i]),
            value as int == digits_value(ds) % hmod(),
        decreases r.rest().len(),
    {
        let b = match r.peek() {
            Some(b) => b,
            None => {
                proof {
                    assert forall|i: int| 0 <= i < s.len() implies is_digit(#[trigger] s[i]) by {
                        assert(s.take(ds.len() as int)[i] == s[i]);
                    }
                }
                return (None, Ghost(ds));
            },
        };
        proof {
            assert(b == s[ds.len() as int]);
        }
        if !(b >= 48 && b <= 57) {
            proof {
                if ds.len() == 0 {
                    assert(false);
                }
            }
            return (Some(value), Ghost(ds));
        }
        r.consume(1);
        proof {
            let d = (b - 48) as u64;
            lemma_wrapping_mul(value, 10);
            lemma_small_mod(value);
            lemma_mul_cong(value as int, 10, digits_value(ds), 10);
            let m = vstd::wrapping::u64_specs::wrapping_mul(value, 10);
            lemma_wrapping_add(m, d);
            lemma_small_mod(m);
            lemma_small_mod(d);
            lemma_add_cong(m as int, d as int, digits_value(ds) * 10, d as int);
            let ds2 = ds + seq![b];
            assert(ds2.drop_last() =~= ds);
            assert(s.take(ds.len() + 1 as int) =~= ds2);
            assert(r.rest() =~= s.skip(ds.len() + 1 as int));
            ds = ds2;
        }
        value = value.wrapping_mul(10).wrapping_add((b - 48) as u64);
    }
}

/// Reads an unsigned number: its value modulo 2^64, the bytes skipped
/// before it and its digits.
fn scan_unsigned<R: Read>(r: &mut CopyingBufReader<R>) -> (res: (
    Option<u64>,
    Ghost<Seq<u8>>,
    Ghost<Seq<u8>>,
))
    requires
        old(r).wf(),
    ensures
        final(r).wf(),
        final(r).capacity() == old(r).capacity(),
        final(r).stream() == old(r).stream(),
        res.0 is Some <==> old(r).capacity() > 0 && number_ahead(old(r).rest(), false),
        res.0 matches Some(v) ==> {
            &&& number_at(old(r).rest(), res.1@, Seq::<u8>::empty(), res.2@, false)
            &&& final(r).rest() == old(r).rest().skip((res.1@.len() + res.2@.len()) as int)
            &&& v as int == digits_value(res.2@) % hmod()
        },
{
    let ghost s = r.rest();
    let (found, Ghost(skip), Ghost(sign)) = skip_to_number(r, false);
    if found.is_none() {
        return (None, Ghost(skip), Ghost(Seq::empty()));
    }
    proof {
        assert(s.skip(skip.len() as int)[0] == s[skip.len() as int]);
    }
    let (v, Ghost(ds)) = read_digits(r);
    proof {
        let p = skip.len() as int;
        let s1 = s.skip(p);
        assert forall|i: int| 0 <= i < p implies !is_digit(#[trigger] s[i]) by {
            assert(s.take(p)[i] == s[i]);
            assert(skip + sign =~= skip);
        }
        if v is None {
            assert forall|i: int| p <= i < s.len() implies is_digit(#[trigger] s[i]) by {
                assert(s1[i - p] == s[i]);
            }
            lemma_no_number(s, p, p, false);
        } else {
            assert(s.take(p + ds.len()) =~= skip + Seq::<u8>::empty() + ds) by {
                assert(s.take(p) =~= skip);
                assert forall|i: int| 0 <= i < ds.len() implies s[p + i] == ds[i] by {
                    assert(s1.take(ds.len() as int)[i] == s1[i]);
                }
            }
            assert(s1[ds.len() as int] == s[p + ds.len()]);
            assert(s1.skip(ds.len() as int) =~= s.skip(p + ds.len()));
            assert(number_at(s, skip, Seq::<u8>::empty(), ds, false));
        }
    }
    (v, Ghost(skip), Ghost(ds))
}

/// Reads a signed number: whether it is negative and its digits' value
/// modulo 2^64, the bytes skipped before it, its sign and its digits.
fn scan_signed<R: Read>(r: &mut CopyingBufReader<R>) -> (res: (
    Option<(bool, u64)>,
    Ghost<Seq<u8>>,
    Ghost<Seq<u8>>,
    Ghost<Seq<u8>>,
))
    requires
        old(r).wf(),
    ensures
        final(r).wf(),
        final(r).capacity() == old(r).capacity(),
        final(r).stream() == old(r).stream(),
        res.0 is Some <==> old(r).capacity() > 0 && number_ahead(old(r).rest(), true),
        res.0 matches Some((neg, v)) ==> {
            &&& number_at(old(r).rest(), res.1@, res.2@, res.3@, true)
            &&& final(r).rest() == old(r).rest().skip((res.1@.len() + res.2@.len() + res.3@.len()) as int)
            &&& neg == (res.2@.len() == 1 && res.2@[0] == 45)
            &&& v as int == digits_value(res.3@) % hmod()
        },
{
    let ghost s = r.rest();
    let (found, Ghost(skip), Ghost(sign)) = skip_to_number(r, true);
    let neg = match found {
        Some(neg) => neg,
        None => {
            return (None, Ghost(skip), Ghost(sign), Ghost(Seq::empty()));
        },
    };
    let ghost p = skip.len() as int;
    let ghost q = p + sign.len();
    proof {
        assert(s.skip(q)[0] == s[q]);
    }
    let (v, Ghost(ds)) = read_digits(r);
    proof {
        let s1 = s.skip(q);
        assert forall|i: int| 0 <= i < p implies !is_digit(#[trigger] s[i]) && !is_sign(s[i]) by {
            assert(s.take(q)[i] == s[i]);
            assert((skip + sign)[i] == skip[i]);
        }
        if sign.len() == 1 {
            assert(s.take(q)[p] == s[p]);
            assert((skip + sign)[p] == sign[0]);
        }
        if v is None {
            assert forall|i: int| q <= i < s.len() implies is_digit(#[trigger] s[i]) by {
                assert(s1[i - q] == s[i]);
            }
            lemma_no_number(s, p, q, true);
        } else {
            assert(s.take(q + ds.len()) =~= skip + sign + ds) by {
                assert forall|i: int| 0 <= i < q implies s[i] == (skip + sign)[i] by {
                    assert(s.take(q)[i] == s[i]);
                }
                assert forall|i: int| 0 <= i < ds.len() implies s[q + i] == ds[i] by {
                    assert(s1.take(ds.len() as int)[i] == s1[i]);
                }
            }
            assert(s1[ds.len() as int] == s[q + ds.len()]);
            assert(s1.skip(ds.len() as int) =~= s.skip(q + ds.len()));
            assert(number_at(s, skip, sign, ds, true));
        }
    }
    match v {
        Some(v) => (Some((neg, v)), Ghost(skip), Ghost(sign), Ghost(ds)),
        None => (None, Ghost(skip), Ghost(sign), Ghost(ds)),
    }
}

// ---------------------------------------------------------------------
// Narrowing
// ---------------------------------------------------------------------

/// Reducing modulo 2^64 first does not change a remainder modulo a divisor of 2^64.
proof fn lemma_reduce(d: int, v: u64, m: int, k: int)
    requires
        0 < m,
        0 < k,
        m * k == hmod(),
        v as int == d % hmod(),
    ensures
        (v as int) % m == d % m,
{
    lemma_mod_mod(d, m, k);
}

/// The remainder of the negation.
proof fn lemma_neg_mod(d: int, r: int, m: int)
    requires
        0 < m,
        r == d % m,
    ensures
        (m - r) % m == (-d) % m,
{
    lemma_mod_add_multiples_vanish(-r, m);
    lemma_sub_mod_noop(0, d, m);
    assert(0int % m == 0);
}

/// The number `v` (the value `d` modulo 2^64) kept modulo `m` (a divisor
/// of 2^64), negated when `neg`.
fn narrow(v: u64, neg: bool, m: u64, Ghost(d): Ghost<int>) -> (r: u64)
    requires
        m > 0,
        (0x1_0000_0000_0000_0000 as int) % (m as int) == 0,
        v as int == d % hmod(),
    ensures
        r < m,
        r as int == (if neg {
            -d
        } else {
            d
        }) % (m as int),
{
    let r = v % m;
    proof {
        let k = hmod() / (m as int);
        lemma_fundamental_div_mod(hmod(), m as int);
        assert((m as int) * k == hmod());
        lemma_reduce(d, v, m as int, k);
        if neg {
            lemma_neg_mod(d, r as int, m as int);
        }
    }
    if neg {
        (m - r) % m
    } else {
        r
    }
}

/// The two's-complement reading of a 64-bit pattern.
fn to_signed_64(r: u64) -> (x: i64)
    ensures
        x as int == if r as int >= hmod() / 2 {
            r as int - hmod()
        } else {
            r as int
        },
{
    if r >= 0x8000_0000_0000_0000 {
        (r - 0x8000_0000_0000_0000) as i64 - 0x7FFF_FFFF_FFFF_FFFF - 1
    } else {
        r as i64
    }
}

/// `v` (the value `d` modulo 2^64) negated modulo 2^64 when `neg`.
fn negate_64(v: u64, neg: bool, Ghost(d): Ghost<int>) -> (r: u64)
    requires
        v as int == d % hmod(),
    ensures
        r as int == (if neg {
            -d
        } else {
            d
        }) % hmod(),
{
    if neg {
        let r = 0u64.wrapping_sub(v);
        proof {
            lemma_neg_mod(d, v as int, hmod());
            assert(r as int == (hmod() - v) % hmod());
        }
        r
    } else {
        v
    }
}

impl<R: Read> Scan<u8> for CopyingBufReader<R> {
    open spec fn ready(&self) -> bool {
        self.wf()
    }

    open spec fn ahead(&self) -> bool {
        self.capacity() > 0 && number_ahead(self.rest(), false)
    }

    open spec fn scanned(&self, after: &Self, res: Option<u8>) -> bool {
        &&& after.wf()
        &&& after.capacity() == self.capacity()
        &&& after.stream() == self.stream()
        &&& res is Some <==> self.capacity() > 0 && number_ahead(self.rest(), false)
        &&& res matches Some(x) ==> unsigned_scanned(self.rest(), after.rest(), x as int, 0x100)
    }

    fn scan(&mut self) -> u8 {
        let res = self.scan_u8();
        res.unwrap()
    }

    fn try_scan(&mut self) -> Option<u8> {
        self.scan_u8()
    }
}

impl<R: Read> CopyingBufReader<R> {
    /// Reads an unsigned number, modulo 2^8.
    pub fn scan_u8(&mut self) -> (res: Option<u8>)
        requires
            old(self).wf(),
        ensures
            final(self).wf(),
            final(self).capacity() == old(self).capacity(),
            final(self).stream() == old(self).stream(),
            res is Some <==> old(self).capacity() > 0 && number_ahead(old(self).rest(), false),
            res matches Some(x) ==> unsigned_scanned(
                old(self).rest(),
                final(self).rest(),
                x as int,
                0x100,
            ),
    {
        let (v, Ghost(skip), Ghost(ds)) = scan_unsigned(self);
        match v {
            Some(v) => {
                let r = narrow(v, false, 0x100, Ghost(digits_value(ds)));
                proof {
                    assert(number_at(old(self).rest(), skip, Seq::<u8>::empty(), ds, false));
                }
                Some(r as u8)
            },
            None => None,
        }
    }
}

impl<R: Read> Scan<u16> for CopyingBufReader<R> {
    open spec fn ready(&self) -> bool {
        self.wf()
    }

    open spec fn ahead(&self) -> bool {
        self.capacity() > 0 && number_ahead(self.rest(), false)
    }

    open spec fn scanned(&self, after: &Self, res: Option<u16>) -> bool {
        &&& after.wf()
        &&& after.capacity() == self.capacity()
        &&& after.stream() == self.stream()
        &&& res is Some <==> self.capacity() > 0 && number_ahead(self.rest(), false)
        &&& res matches Some(x) ==> unsigned_scanned(self.rest(), after.rest(), x as int, 0x1_0000)
    }

    fn scan(&mut self) -> u16 {
        let res = self.scan_u16();
        res.unwrap()
    }

    fn try_scan(&mut self) -> Option<u16> {
        self.scan_u16()
    }
}

impl<R: Read> CopyingBufReader<R> {
    /// Reads an unsigned number, modulo 2^16.
    pub fn scan_u16(&mut self) -> (res: Option<u16>)
        requires
            old(self).wf(),
        ensures
            final(self).wf(),
            final(self).capacity() == old(self).capacity(),
            final(self).stream() == old(self).stream(),
            res is Some <==> old(self).capacity() > 0 && number_ahead(old(self).rest(), false),
            res matches Some(x) ==> unsigned_scanned(
                old(self).rest(),
                final(self).rest(),
                x as int,
                0x1_0000,
            ),
    {
        let (v, Ghost(skip), Ghost(ds)) = scan_unsigned(self);
        match v {
            Some(v) => {
                let r = narrow(v, false, 0x1_0000, Ghost(digits_value(ds)));
                proof {
                    assert(number_at(old(self).rest(), skip, Seq::<u8>::empty(), ds, false));
                }
                Some(r as u16)
            },
            None => None,
        }
    }
}

impl<R: Read> Scan<u32> for CopyingBufReader<R> {
    open spec fn ready(&self) -> bool {
        self.wf()
    }

    open spec fn ahead(&self) -> bool {
        self.capacity() > 0 && number_ahead(self.rest(), false)
    }

    open spec fn scanned(&self, after: &Self, res: Option<u32>) -> bool {
        &&& after.wf()
        &&& after.capacity() == self.capacity()
        &&& after.stream() == self.stream()
        &&& res is Some <==> self.capacity() > 0 && number_ahead(self.rest(), false)
        &&& res matches Some(x) ==> unsigned_scanned(self.rest(), after.rest(), x as int, 0x1_0000_0000)
    }

    fn scan(&mut self) -> u32 {
        let res = self.scan_u32();
        res.unwrap()
    }

    fn try_scan(&mut self) -> Option<u32> {
        self.scan_u32()
    }
}

impl<R: Read> CopyingBufReader<R> {
    /// Reads an unsigned number, modulo 2^32.
    pub fn scan_u32(&mut self) -> (res: Option<u32>)
        requires
            old(self).wf(),
        ensures
            final(self).wf(),
            final(self).capacity() == old(self).capacity(),
            final(self).stream() == old(self).stream(),
            res is Some <==> old(self).capacity() > 0 && number_ahead(old(self).rest(), false),
            res matches Some(x) ==> unsigned_scanned(
                old(self).rest(),
                final(self).rest(),
                x as int,
                0x1_0000_0000,
            ),
    {
        let (v, Ghost(skip), Ghost(ds)) = scan_unsigned(self);
        match v {
            Some(v) => {
                let r = narrow(v, false, 0x1_0000_0000, Ghost(digits_value(ds)));
                proof {
                    assert(number_at(old(self).rest(), skip, Seq::<u8>::empty(), ds, false));
                }
                Some(r as u32)
            },
            None => None,
        }
    }
}

impl<R: Read> Scan<i8> for CopyingBufReader<R> {
    open spec fn ready(&self) -> bool {
        self.wf()
    }

    open spec fn ahead(&self) -> bool {
        self.capacity() > 0 && number_ahead(self.rest(), true)
    }

    open spec fn scanned(&self, after: &Self, res: Option<i8>) -> bool {
        &&& after.wf()
        &&& after.capacity() == self.capacity()
        &&& after.stream() == self.stream()
        &&& res is Some <==> self.capacity() > 0 && number_ahead(self.rest(), true)
        &&& res matches Some(x) ==> signed_scanned(self.rest(), after.rest(), x as int, 0x100)
    }

    fn scan(&mut self) -> i8 {
        let res = self.scan_i8();
        res.unwrap()
    }

    fn try_scan(&mut self) -> Option<i8> {
        self.scan_i8()
    }
}

impl<R: Read> CopyingBufReader<R> {
    /// Reads a signed number, as a 8-bit two's-complement number.
    pub fn scan_i8(&mut self) -> (res: Option<i8>)
        requires
            old(self).wf(),
        ensures
            final(self).wf(),
            final(self).capacity() == old(self).capacity(),
            final(self).stream() == old(self).stream(),
            res is Some <==> old(self).capacity() > 0 && number_ahead(old(self).rest(), true),
            res matches Some(x) ==> signed_scanned(
                old(self).rest(),
                final(self).rest(),
                x as int,
                0x100,
            ),
    {
        let (v, Ghost(skip), Ghost(sign), Ghost(ds)) = scan_signed(self);
        match v {
            Some((neg, v)) => {
                let r = narrow(v, neg, 0x100, Ghost(digits_value(ds)));
                let x: i8 = if r >= 0x80 {
                    (r as i64 - 0x100) as i8
                } else {
                    r as i8
                };
                proof {
                    assert(number_at(old(self).rest(), skip, sign, ds, true));
                }
                Some(x)
            },
            None => None,
        }
    }
}

impl<R: Read> Scan<i16> for CopyingBufReader<R> {
    open spec fn ready(&self) -> bool {
        self.wf()
    }

    open spec fn ahead(&self) -> bool {
        self.capacity() > 0 && number_ahead(self.rest(), true)
    }

    open spec fn scanned(&self, after: &Self, res: Option<i16>) -> bool {
        &&& after.wf()
        &&& after.capacity() == self.capacity()
        &&& after.stream() == self.stream()
        &&& res is Some <==> self.capacity() > 0 && number_ahead(self.rest(), true)
        &&& res matches Some(x) ==> signed_scanned(self.rest(), after.rest(), x as int, 0x1_0000)
    }

    fn scan(&mut self) -> i16 {
        let res = self.scan_i16();
        res.unwrap()
    }

    fn try_scan(&mut self) -> Option<i16> {
        self.scan_i16()
    }
}

impl<R: Read> CopyingBufReader<R> {
    /// Reads a signed number, as a 16-bit two's-complement number.
    pub fn scan_i16(&mut self) -> (res: Option<i16>)
        requires
            old(self).wf(),
        ensures
            final(self).wf(),
            final(self).capacity() == old(self).capacity(),
            final(self).stream() == old(self).stream(),
            res is Some <==> old(self).capacity() > 0 && number_ahead(old(self).rest(), true),
            res matches Some(x) ==> signed_scanned(
                old(self).rest(),
                final(self).rest(),
                x as int,
                0x1_0000,
            ),
    {
        let (v, Ghost(skip), Ghost(sign), Ghost(ds)) = scan_signed(self);
        match v {
            Some((neg, v)) => {
                let r = narrow(v, neg, 0x1_0000, Ghost(digits_value(ds)));
                let x: i16 = if r >= 0x8000 {
                    (r as i64 - 0x1_0000) as i16
                } else {
                    r as i16
                };
                proof {
                    assert(number_at(old(self).rest(), skip, sign, ds, true));
                }
                Some(x)
            },
            None => None,
        }
    }
}

impl<R: Read> Scan<i32> for CopyingBufReader<R> {
    open spec fn ready(&self) -> bool {
        self.wf()
    }

    open spec fn ahead(&self) -> bool {
        self.capacity() > 0 && number_ahead(self.rest(), true)
    }

    open spec fn scanned(&self, after: &Self, res: Option<i32>) -> bool {
        &&& after.wf()
        &&& after.capacity() == self.capacity()
        &&& after.stream() == self.stream()
        &&& res is Some <==> self.capacity() > 0 && number_ahead(self.rest(), true)
        &&& res matches Some(x) ==> signed_scanned(self.rest(), after.rest(), x as int, 0x1_0000_0000)
    }

    fn scan(&mut self) -> i32 {
        let res = self.scan_i32();
        res.unwrap()
    }

    fn try_scan(&mut self) -> Option<i32> {
        self.scan_i32()
    }
}

impl<R: Read> CopyingBufReader<R> {
    /// Reads a signed number, as a 32-bit two's-complement number.
    pub fn scan_i32(&mut self) -> (res: Option<i32>)
        requires
            old(self).wf(),
        ensures
            final(self).wf(),
            final(self).capacity() == old(self).capacity(),
            final(self).stream() == old(self).stream(),
            res is Some <==> old(self).capacity() > 0 && number_ahead(old(self).rest(), true),
            res matches Some(x) ==> signed_scanned(
                old(self).rest(),
                final(self).rest(),
                x as int,
                0x1_0000_0000,
            ),
    {
        let (v, Ghost(skip), Ghost(sign), Ghost(ds)) = scan_signed(self);
        match v {
            Some((neg, v)) => {
                let r = narrow(v, neg, 0x1_0000_0000, Ghost(digits_value(ds)));
                let x: i32 = if r >= 0x8000_0000 {
                    (r as i64 - 0x1_0000_0000) as i32
                } else {
                    r as i32
                };
                proof {
                    assert(number_at(old(self).rest(), skip, sign, ds, true));
                }
                Some(x)
            },
            None => None,
        }
    }
}

impl<R: Read> Scan<u64> for CopyingBufReader<R> {
    open spec fn ready(&self) -> bool {
        self.wf()
    }

    open spec fn ahead(&self) -> bool {
        self.capacity() > 0 && number_ahead(self.rest(), false)
    }

    open spec fn scanned(&self, after: &Self, res: Option<u64>) -> bool {
        &&& after.wf()
        &&& after.capacity() == self.capacity()
        &&& after.stream() == self.stream()
        &&& res is Some <==> self.capacity() > 0 && number_ahead(self.rest(), false)
        &&& res matches Some(x) ==> unsigned_scanned(self.rest(), after.rest(), x as int, hmod())
    }

    fn scan(&mut self) -> u64 {
        let res = self.scan_u64();
        res.unwrap()
    }

    fn try_scan(&mut self) -> Option<u64> {
        self.scan_u64()
    }
}

impl<R: Read> CopyingBufReader<R> {
    /// Reads an unsigned number, modulo 2^64.
    pub fn scan_u64(&mut self) -> (res: Option<u64>)
        requires
            old(self).wf(),
        ensures
            final(self).wf(),
            final(self).capacity() == old(self).capacity(),
            final(self).stream() == old(self).stream(),
            res is Some <==> old(self).capacity() > 0 && number_ahead(old(self).rest(), false),
            res matches Some(x) ==> unsigned_scanned(
                old(self).rest(),
                final(self).rest(),
                x as int,
                hmod(),
            ),
    {
        let (v, Ghost(skip), Ghost(ds)) = scan_unsigned(self);
        proof {
            if v is Some {
                assert(number_at(old(self).rest(), skip, Seq::<u8>::empty(), ds, false));
            }
        }
        v
    }
}

impl<R: Read> Scan<i64> for CopyingBufReader<R> {
    open spec fn ready(&self) -> bool {
        self.wf()
    }

    open spec fn ahead(&self) -> bool {
        self.capacity() > 0 && number_ahead(self.rest(), true)
    }

    open spec fn scanned(&self, after: &Self, res: Option<i64>) -> bool {
        &&& after.wf()
        &&& after.capacity() == self.capacity()
        &&& after.stream() == self.stream()
        &&& res is Some <==> self.capacity() > 0 && number_ahead(self.rest(), true)
        &&& res matches Some(x) ==> signed_scanned(self.rest(), after.rest(), x as int, hmod())
    }

    fn scan(&mut self) -> i64 {
        let res = self.scan_i64();
        res.unwrap()
    }

    fn try_scan(&mut self) -> Option<i64> {
        self.scan_i64()
    }
}

impl<R: Read> CopyingBufReader<R> {
    /// Reads a signed number, as a 64-bit two's-complement number.
    pub fn scan_i64(&mut self) -> (res: Option<i64>)
        requires
            old(self).wf(),
        ensures
            final(self).wf(),
            final(self).capacity() == old(self).capacity(),
            final(self).stream() == old(self).stream(),
            res is Some <==> old(self).capacity() > 0 && number_ahead(old(self).rest(), true),
            res matches Some(x) ==> signed_scanned(
                old(self).rest(),
                final(self).rest(),
                x as int,
                hmod(),
            ),
    {
        let (v, Ghost(skip), Ghost(sign), Ghost(ds)) = scan_signed(self);
        match v {
            Some((neg, v)) => {
                let r = negate_64(v, neg, Ghost(digits_value(ds)));
                let x = to_signed_64(r);
                proof {
                    assert(number_at(old(self).rest(), skip, sign, ds, true));
                }
                Some(x)
            },
            None => None,
        }
    }
}

impl<R: Read> Scan<usize> for CopyingBufReader<R> {
    open spec fn ready(&self) -> bool {
        self.wf()
    }

    open spec fn ahead(&self) -> bool {
        self.capacity() > 0 && number_ahead(self.rest(), false)
    }

    open spec fn scanned(&self, after: &Self, res: Option<usize>) -> bool {
        &&& after.wf()
        &&& after.capacity() == self.capacity()
        &&& after.stream() == self.stream()
        &&& res is Some <==> self.capacity() > 0 && number_ahead(self.rest(), false)
        &&& res matches Some(x) ==> unsigned_scanned(self.rest(), after.rest(), x as int, usize::MAX + 1)
    }

    fn scan(&mut self) -> usize {
        let res = self.scan_usize();
        res.unwrap()
    }

    fn try_scan(&mut self) -> Option<usize> {
        self.scan_usize()
    }
}

impl<R: Read> CopyingBufReader<R> {
    /// Reads an unsigned number, modulo `usize::MAX + 1`.
    pub fn scan_usize(&mut self) -> (res: Option<usize>)
        requires
            old(self).wf(),
        ensures
            final(self).wf(),
            final(self).capacity() == old(self).capacity(),
            final(self).stream() == old(self).stream(),
            res is Some <==> old(self).capacity() > 0 && number_ahead(old(self).rest(), false),
            res matches Some(x) ==> unsigned_scanned(
                old(self).rest(),
                final(self).rest(),
                x as int,
                usize::MAX + 1,
            ),
    {
        let (v, Ghost(skip), Ghost(ds)) = scan_unsigned(self);
        match v {
            Some(v) => {
                let r = if usize::MAX as u64 == u64::MAX {
                    proof {
                        assert(usize::MAX + 1 == hmod());
                    }
                    v as usize
                } else {
                    proof {
                        assert(usize::MAX + 1 == 0x1_0000_0000);
                    }
                    narrow(v, false, 0x1_0000_0000, Ghost(digits_value(ds))) as usize
                };
                proof {
                    assert(number_at(old(self).rest(), skip, Seq::<u8>::empty(), ds, false));
                }
                Some(r)
            },
            None => None,
        }
    }
}

impl<R: Read> Scan<isize> for CopyingBufReader<R> {
    open spec fn ready(&self) -> bool {
        self.wf()
    }

    open spec fn ahead(&self) -> bool {
        self.capacity() > 0 && number_ahead(self.rest(), true)
    }

    open spec fn scanned(&self, after: &Self, res: Option<isize>) -> bool {
        &&& after.wf()
        &&& after.capacity() == self.capacity()
        &&& after.stream() == self.stream()
        &&& res is Some <==> self.capacity() > 0 && number_ahead(self.rest(), true)
        &&& res matches Some(x) ==> signed_scanned(self.rest(), after.rest(), x as int, usize::MAX + 1)
    }

    fn scan(&mut self) -> isize {
        let res = self.scan_isize();
        res.unwrap()
    }

    fn try_scan(&mut self) -> Option<isize> {
        self.scan_isize()
    }
}

impl<R: Read> CopyingBufReader<R> {
    /// Reads a signed number, as a two's-complement number as wide as `isize`.
    pub fn scan_isize(&mut self) -> (res: Option<isize>)
        requires
            old(self).wf(),
        ensures
            final(self).wf(),
            final(self).capacity() == old(self).capacity(),
            final(self).stream() == old(self).stream(),
            res is Some <==> old(self).capacity() > 0 && number_ahead(old(self).rest(), true),
            res matches Some(x) ==> signed_scanned(
                old(self).rest(),
                final(self).rest(),
                x as int,
                usize::MAX + 1,
            ),
    {
        let (v, Ghost(skip), Ghost(sign), Ghost(ds)) = scan_signed(self);
        match v {
            Some((neg, v)) => {
                let x: isize = if usize::MAX as u64 == u64::MAX {
                    proof {
                        assert(usize::MAX + 1 == hmod());
                        assert(isize::MIN == -0x8000_0000_0000_0000);
                        assert(isize::MAX == 0x7FFF_FFFF_FFFF_FFFF);
                    }
                    let r = negate_64(v, neg, Ghost(digits_value(ds)));
                    to_signed_64(r) as isize
                } else {
                    proof {
                        assert(usize::MAX + 1 == 0x1_0000_0000);
                        assert(isize::MIN == -0x8000_0000);
                        assert(isize::MAX == 0x7FFF_FFFF);
                    }
                    let r = narrow(v, neg, 0x1_0000_0000, Ghost(digits_value(ds)));
                    if r >= 0x8000_0000 {
                        (r as i64 - 0x1_0000_0000) as isize
                    } else {
                        r as isize
                    }
                };
                proof {
                    assert(number_at(old(self).rest(), skip, sign, ds, true));
                }
                Some(x)
            },
            None => None,
        }
    }
}

impl<R: Read> Scan<char> for CopyingBufReader<R> {
    open spec fn ready(&self) -> bool {
        self.wf()
    }

    open spec fn ahead(&self) -> bool {
        self.capacity() > 0 && self.rest().len() > 0
    }

    open spec fn scanned(&self, after: &Self, res: Option<char>) -> bool {
        &&& after.wf()
        &&& after.capacity() == self.capacity()
        &&& after.stream() == self.stream()
        &&& res is Some <==> self.capacity() > 0 && self.rest().len() > 0
        &&& res matches Some(c) ==> c as int == self.rest()[0] as int && after.rest()
            == self.rest().skip(1)
    }

    fn scan(&mut self) -> char {
        let res = self.scan_char();
        res.unwrap()
    }

    fn try_scan(&mut self) -> Option<char> {
        self.scan_char()
    }
}

impl<R: Read> CopyingBufReader<R> {
    /// Reads one byte, as a character; `None` when the input has ended.
    pub fn scan_char(&mut self) -> (res: Option<char>)
        requires
            old(self).wf(),
        ensures
            final(self).wf(),
            final(self).capacity() == old(self).capacity(),
            final(self).stream() == old(self).stream(),
            res is Some <==> old(self).capacity() > 0 && old(self).rest().len() > 0,
            res matches Some(c) ==> c as int == old(self).rest()[0] as int && final(self).rest()
                == old(self).rest().skip(1),
    {
        let b = match self.peek() {
            Some(b) => b,
            None => {
                return None;
            },
        };
        self.consume(1);
        Some(b as char)
    }
}

} // verus!
