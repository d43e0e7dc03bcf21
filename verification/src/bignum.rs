//! Fixed-width big integers held as little-endian 64-bit digits, with their
//! mathematical values, and the arithmetic of the `bnum` crate on them.
use vstd::prelude::*;
use vstd::arithmetic::power2::*;
use vstd::arithmetic::div_mod::*;
use vstd::arithmetic::mul::*;
use bnum::{BInt, BUint};
use bnum::cast::As;

verus! {

/// The value of little-endian 64-bit digits.
pub open spec fn digits_value(d: Seq<u64>) -> nat
    decreases d.len(),
{
    if d.len() == 0 {
        0
    } else {
        d[0] as nat + pow2(64) * digits_value(d.drop_first())
    }
}

/// 2 to the power of the bit width of `n` digits.
pub open spec fn width_bound(n: nat) -> nat {
    pow2(64 * n)
}

/// An unsigned integer of `N` digits (little-endian, 64 bits each).
#[derive(Clone, Copy)]
pub struct BigUint<const N: usize> {
    pub digits: [u64; N],
}

impl<const N: usize> View for BigUint<N> {
    type V = nat;

    open spec fn view(&self) -> nat {
        digits_value(self.digits@)
    }
}

pub proof fn lemma_width_bound_step(n: nat)
    ensures
        width_bound(n + 1) == pow2(64) * width_bound(n),
{
    lemma_pow2_adds(64, 64 * n);
    assert(64 * (n + 1) == 64 + 64 * n) by (nonlinear_arith);
}

pub proof fn lemma_width_bound_mono(m: nat, n: nat)
    requires
        m <= n,
    ensures
        width_bound(m) <= width_bound(n),
        width_bound(m) > 0,
{
    lemma_pow2_pos(64 * m);
    if m < n {
        lemma_pow2_strictly_increases(64 * m, 64 * n);
    }
}

pub proof fn lemma_width_bound_square(m: nat)
    ensures
        width_bound(m) * width_bound(m) == width_bound(2 * m),
{
    lemma_pow2_adds(64 * m, 64 * m);
    assert(64 * m + 64 * m == 64 * (2 * m));
}

/// A value below `width_bound(m)` is unchanged modulo a wider bound.
pub proof fn lemma_fits_wider(x: nat, m: nat, n: nat)
    requires
        x < width_bound(m),
        m <= n,
    ensures
        x % width_bound(n) == x,
{
    lemma_width_bound_mono(m, n);
    lemma_small_mod(x, width_bound(n));
}

/// The bounds of 4 and 8 digits.
pub proof fn lemma_width_bound_4_8()
    ensures
        width_bound(4) == 0x1_0000_0000_0000_0000_0000_0000_0000_0000_0000_0000_0000_0000_0000_0000_0000_0000nat,
        half_bound(4) == 0x8000_0000_0000_0000_0000_0000_0000_0000_0000_0000_0000_0000_0000_0000_0000_0000nat,
        width_bound(8) == width_bound(4) * width_bound(4),
        width_bound(1) == 0x1_0000_0000_0000_0000nat,
{
    assert(pow2(64) == 0x1_0000_0000_0000_0000) by { lemma2_to64(); }
    assert(width_bound(0) == 1) by { lemma2_to64(); }
    lemma_width_bound_step(0);
    lemma_width_bound_step(1);
    lemma_width_bound_step(2);
    lemma_width_bound_step(3);
    lemma_width_bound_square(4);
}

/// The value of four digits, written out.
pub proof fn lemma_digits_value_4(d: Seq<u64>)
    requires
        d.len() == 4,
    ensures
        digits_value(d) == d[0] + 0x1_0000_0000_0000_0000 * (d[1] + 0x1_0000_0000_0000_0000 * (d[2]
            + 0x1_0000_0000_0000_0000 * d[3])),
{
    assert(pow2(64) == 0x1_0000_0000_0000_0000) by { lemma2_to64(); }
    let d1 = d.drop_first();
    let d2 = d1.drop_first();
    let d3 = d2.drop_first();
    let d4 = d3.drop_first();
    assert(d4.len() == 0);
    assert(digits_value(d4) == 0);
    assert(digits_value(d3) == d[3] + pow2(64) * 0);
    assert(digits_value(d2) == d[2] + pow2(64) * digits_value(d3));
    assert(digits_value(d1) == d[1] + pow2(64) * digits_value(d2));
}

/// The value of `n` digits is below `2^(64 n)`.
pub proof fn lemma_digits_value_bound(d: Seq<u64>)
    ensures
        digits_value(d) < width_bound(d.len()),
    decreases d.len(),
{
    if d.len() == 0 {
        lemma_pow2_pos(0);
        assert(pow2(0) == 1) by { lemma2_to64(); }
    } else {
        let rest = d.drop_first();
        lemma_digits_value_bound(rest);
        lemma_width_bound_step(rest.len());
        assert(pow2(64) == 0x1_0000_0000_0000_0000) by { lemma2_to64(); }
        let v = digits_value(rest);
        let w = width_bound(rest.len());
        assert(d[0] as nat + pow2(64) * v < pow2(64) * w) by (nonlinear_arith)
            requires
                d[0] < pow2(64),
                v < w,
                v + 1 <= w,
        {
            assert(pow2(64) * v + pow2(64) <= pow2(64) * w);
        }
    }
}

/// Half of `width_bound(n)`: the bound of the non-negative signed values.
pub open spec fn half_bound(n: nat) -> nat {
    width_bound(n) / 2
}

/// The two's complement reading of the unsigned value `v` of `n` digits.
pub open spec fn as_signed(v: nat, n: nat) -> int {
    if v >= half_bound(n) {
        v - width_bound(n)
    } else {
        v as int
    }
}

/// The two's complement value of little-endian 64-bit digits.
pub open spec fn signed_value(d: Seq<u64>) -> int {
    as_signed(digits_value(d), d.len())
}

/// Whether `x` is a value of a signed integer of `n` digits.
pub open spec fn fits_signed(x: int, n: nat) -> bool {
    -(half_bound(n) as int) <= x < half_bound(n)
}

pub open spec fn abs(x: int) -> nat {
    if x < 0 { (-x) as nat } else { x as nat }
}

/// Quotient of signed division, rounded towards zero.
pub open spec fn tdiv(a: int, b: int) -> int {
    if (a < 0) == (b < 0) {
        (abs(a) / abs(b)) as int
    } else {
        -((abs(a) / abs(b)) as int)
    }
}

/// Remainder of signed division rounded towards zero: it has the sign of `a`.
pub open spec fn trem(a: int, b: int) -> int {
    if a < 0 {
        -((abs(a) % abs(b)) as int)
    } else {
        (abs(a) % abs(b)) as int
    }
}

/// A signed (two's complement) integer of `N` digits.
#[derive(Clone, Copy)]
pub struct BigInt<const N: usize> {
    pub digits: [u64; N],
}

impl<const N: usize> View for BigInt<N> {
    type V = int;

    open spec fn view(&self) -> int {
        signed_value(self.digits@)
    }
}

/// `bnum`'s `BUint::<N>::ZERO`.
#[verifier::external_body]
pub(crate) fn bu_zero<const N: usize>() -> (r: BigUint<N>)
    ensures
        forall|i: int| 0 <= i < N ==> r.digits@[i] == 0,
{
    BigUint { digits: *BUint::<N>::ZERO.digits() }
}

/// `bnum`'s addition `BUint<N> + BUint<N>`: the sum, where it fits in `N` digits.
#[verifier::external_body]
pub(crate) fn bu_add<const N: usize>(a: &BigUint<N>, b: &BigUint<N>) -> (r: BigUint<N>)
    requires
        a@ + b@ < width_bound(N as nat),
    ensures
        r@ == a@ + b@,
{
    BigUint { digits: *(BUint::<N>::from_digits(a.digits) + BUint::<N>::from_digits(b.digits)).digits() }
}

/// `bnum`'s subtraction `BUint<N> - BUint<N>`: the difference, where it is not negative.
#[verifier::external_body]
pub(crate) fn bu_sub<const N: usize>(a: &BigUint<N>, b: &BigUint<N>) -> (r: BigUint<N>)
    requires
        a@ >= b@,
    ensures
        r@ == a@ - b@,
{
    BigUint { digits: *(BUint::<N>::from_digits(a.digits) - BUint::<N>::from_digits(b.digits)).digits() }
}

/// `bnum`'s remainder `BUint<N> % BUint<N>`, for a divisor other than zero.
#[verifier::external_body]
pub(crate) fn bu_rem<const N: usize>(a: &BigUint<N>, b: &BigUint<N>) -> (r: BigUint<N>)
    requires
        b@ != 0,
    ensures
        r@ == a@ % b@,
{
    BigUint { digits: *(BUint::<N>::from_digits(a.digits) % BUint::<N>::from_digits(b.digits)).digits() }
}

/// `bnum`'s shift `BUint<N> >> s`, for a shift below the bit width.
#[verifier::external_body]
pub(crate) fn bu_shr<const N: usize>(a: &BigUint<N>, s: u32) -> (r: BigUint<N>)
    requires
        s < 64 * N,
    ensures
        r@ == a@ / pow2(s as nat),
{
    BigUint { digits: *(BUint::<N>::from_digits(a.digits) >> s).digits() }
}

/// `bnum`'s exclusive or `BUint<N> ^ BUint<N>`: digit by digit.
#[verifier::external_body]
pub(crate) fn bu_xor<const N: usize>(a: &BigUint<N>, b: &BigUint<N>) -> (r: BigUint<N>)
    ensures
        forall|i: int| 0 <= i < N ==> r.digits@[i] == a.digits@[i] ^ b.digits@[i],
{
    BigUint { digits: *(BUint::<N>::from_digits(a.digits) ^ BUint::<N>::from_digits(b.digits)).digits() }
}

/// `bnum`'s cast `as_::<BUint<M>>()` of a `BUint<N>`: the value modulo `2^(64 M)`.
#[verifier::external_body]
pub(crate) fn bu_cast<const N: usize, const M: usize>(a: &BigUint<N>) -> (r: BigUint<M>)
    ensures
        r@ == a@ % width_bound(M as nat),
{
    BigUint { digits: *BUint::<N>::from_digits(a.digits).as_::<BUint<M>>().digits() }
}

/// `bnum`'s cast `as_::<BInt<N>>()` of a `BUint<N>`: the same bits.
#[verifier::external_body]
pub(crate) fn bu_as_signed<const N: usize>(a: &BigUint<N>) -> (r: BigInt<N>)
    ensures
        r.digits@ == a.digits@,
{
    BigInt { digits: *BUint::<N>::from_digits(a.digits).as_::<BInt<N>>().to_bits().digits() }
}

/// `bnum`'s cast `as_::<BUint<N>>()` of a `BInt<N>`: the same bits.
#[verifier::external_body]
pub(crate) fn bi_as_unsigned<const N: usize>(a: &BigInt<N>) -> (r: BigUint<N>)
    ensures
        r.digits@ == a.digits@,
{
    BigUint { digits: *BInt::<N>::from_bits(BUint::<N>::from_digits(a.digits)).as_::<BUint<N>>().digits() }
}

/// `bnum`'s addition `BInt<N> + BInt<N>`, where the sum fits.
#[verifier::external_body]
pub(crate) fn bi_add<const N: usize>(a: &BigInt<N>, b: &BigInt<N>) -> (r: BigInt<N>)
    requires
        fits_signed(a@ + b@, N as nat),
    ensures
        r@ == a@ + b@,
{
    let x = BInt::<N>::from_bits(BUint::<N>::from_digits(a.digits));
    let y = BInt::<N>::from_bits(BUint::<N>::from_digits(b.digits));
    BigInt { digits: *(x + y).to_bits().digits() }
}

/// `bnum`'s subtraction `BInt<N> - BInt<N>`, where the difference fits.
#[verifier::external_body]
pub(crate) fn bi_sub<const N: usize>(a: &BigInt<N>, b: &BigInt<N>) -> (r: BigInt<N>)
    requires
        fits_signed(a@ - b@, N as nat),
    ensures
        r@ == a@ - b@,
{
    let x = BInt::<N>::from_bits(BUint::<N>::from_digits(a.digits));
    let y = BInt::<N>::from_bits(BUint::<N>::from_digits(b.digits));
    BigInt { digits: *(x - y).to_bits().digits() }
}

/// `bnum`'s multiplication `BInt<N> * BInt<N>`, where the product fits.
#[verifier::external_body]
pub(crate) fn bi_mul<const N: usize>(a: &BigInt<N>, b: &BigInt<N>) -> (r: BigInt<N>)
    requires
        fits_signed(a@ * b@, N as nat),
    ensures
        r@ == a@ * b@,
{
    let x = BInt::<N>::from_bits(BUint::<N>::from_digits(a.digits));
    let y = BInt::<N>::from_bits(BUint::<N>::from_digits(b.digits));
    BigInt { digits: *(x * y).to_bits().digits() }
}

/// `bnum`'s division `BInt<N> / BInt<N>`, rounded towards zero; it panics on a zero
/// divisor and on the one quotient that does not fit.
#[verifier::external_body]
pub(crate) fn bi_div<const N: usize>(a: &BigInt<N>, b: &BigInt<N>) -> (r: BigInt<N>)
    requires
        b@ != 0,
        fits_signed(tdiv(a@, b@), N as nat),
    ensures
        r@ == tdiv(a@, b@),
{
    let x = BInt::<N>::from_bits(BUint::<N>::from_digits(a.digits));
    let y = BInt::<N>::from_bits(BUint::<N>::from_digits(b.digits));
    BigInt { digits: *(x / y).to_bits().digits() }
}

/// `bnum`'s remainder `BInt<N> % BInt<N>`, with the sign of the dividend; it panics on a
/// zero divisor and where the quotient does not fit.
#[verifier::external_body]
pub(crate) fn bi_rem<const N: usize>(a: &BigInt<N>, b: &BigInt<N>) -> (r: BigInt<N>)
    requires
        b@ != 0,
        fits_signed(tdiv(a@, b@), N as nat),
    ensures
        r@ == trem(a@, b@),
{
    let x = BInt::<N>::from_bits(BUint::<N>::from_digits(a.digits));
    let y = BInt::<N>::from_bits(BUint::<N>::from_digits(b.digits));
    BigInt { digits: *(x % y).to_bits().digits() }
}

/// The value of little-endian bytes.
pub open spec fn bytes_value(s: Seq<u8>) -> nat
    decreases s.len(),
{
    if s.len() == 0 {
        0
    } else {
        s[0] as nat + 256 * bytes_value(s.drop_first())
    }
}

/// The eight little-endian bytes of a 64-bit digit.
pub open spec fn u64_le_bytes(x: u64) -> Seq<u8> {
    seq![
        x as u8,
        (x >> 8) as u8,
        (x >> 16) as u8,
        (x >> 24) as u8,
        (x >> 32) as u8,
        (x >> 40) as u8,
        (x >> 48) as u8,
        (x >> 56) as u8,
    ]
}

/// The little-endian bytes of little-endian digits.
pub open spec fn digits_le_bytes(d: Seq<u64>) -> Seq<u8>
    decreases d.len(),
{
    if d.len() == 0 {
        Seq::empty()
    } else {
        u64_le_bytes(d[0]) + digits_le_bytes(d.drop_first())
    }
}

pub proof fn lemma_bytes_value_u64(x: u64)
    ensures
        bytes_value(u64_le_bytes(x)) == x,
{
    let s = u64_le_bytes(x);
    reveal_with_fuel(bytes_value, 9);
    assert(s.drop_first().drop_first().drop_first().drop_first().drop_first().drop_first().drop_first().drop_first().len() == 0);
    let b0 = x as u8;
    let b1 = (x >> 8) as u8;
    let b2 = (x >> 16) as u8;
    let b3 = (x >> 24) as u8;
    let b4 = (x >> 32) as u8;
    let b5 = (x >> 40) as u8;
    let b6 = (x >> 48) as u8;
    let b7 = (x >> 56) as u8;
    assert(x == b0 + 256 * (b1 + 256 * (b2 + 256 * (b3 + 256 * (b4 + 256 * (b5 + 256 * (b6 + 256 * b7)))))))
        by (bit_vector)
        requires
            b0 == x as u8,
            b1 == (x >> 8) as u8,
            b2 == (x >> 16) as u8,
            b3 == (x >> 24) as u8,
            b4 == (x >> 32) as u8,
            b5 == (x >> 40) as u8,
            b6 == (x >> 48) as u8,
            b7 == (x >> 56) as u8,
    ;
    assert(s.drop_first()[0] == b1);
    assert(s.drop_first().drop_first()[0] == b2);
}

pub proof fn lemma_bytes_value_append(s: Seq<u8>, t: Seq<u8>)
    ensures
        bytes_value(s + t) == bytes_value(s) + pow2(8 * s.len()) * bytes_value(t),
    decreases s.len(),
{
    if s.len() == 0 {
        assert(s + t =~= t);
        assert(pow2(0) == 1) by { lemma2_to64(); }
    } else {
        let rest = s.drop_first();
        lemma_bytes_value_append(rest, t);
        assert((s + t).drop_first() =~= rest + t);
        lemma_pow2_adds(8, 8 * rest.len());
        assert(8 * s.len() == 8 + 8 * rest.len());
        assert(pow2(8) == 256) by { lemma2_to64(); }
        let a = bytes_value(rest);
        let b = bytes_value(t);
        let p = pow2(8 * rest.len());
        assert(256 * (a + p * b) == 256 * a + (256 * p) * b) by (nonlinear_arith);
    }
}

pub proof fn lemma_bytes_value_bound(s: Seq<u8>)
    ensures
        bytes_value(s) < pow2(8 * s.len()),
    decreases s.len(),
{
    if s.len() == 0 {
        assert(pow2(0) == 1) by { lemma2_to64(); }
    } else {
        let rest = s.drop_first();
        lemma_bytes_value_bound(rest);
        lemma_pow2_adds(8, 8 * rest.len());
        assert(8 * s.len() == 8 + 8 * rest.len());
        assert(pow2(8) == 256) by { lemma2_to64(); }
        let a = bytes_value(rest);
        let p = pow2(8 * rest.len());
        assert(s[0] + 256 * a < 256 * p) by (nonlinear_arith)
            requires s[0] < 256, a + 1 <= p;
    }
}

pub proof fn lemma_digits_le_bytes(d: Seq<u64>)
    ensures
        digits_le_bytes(d).len() == 8 * d.len(),
        bytes_value(digits_le_bytes(d)) == digits_value(d),
    decreases d.len(),
{
    if d.len() > 0 {
        let rest = d.drop_first();
        lemma_digits_le_bytes(rest);
        lemma_bytes_value_u64(d[0]);
        lemma_bytes_value_append(u64_le_bytes(d[0]), digits_le_bytes(rest));
    }
}

pub proof fn lemma_digits_value_zero(d: Seq<u64>)
    ensures
        (digits_value(d) == 0) <==> (forall|i: int| 0 <= i < d.len() ==> d[i] == 0),
    decreases d.len(),
{
    if d.len() > 0 {
        let rest = d.drop_first();
        lemma_digits_value_zero(rest);
        lemma_pow2_pos(64);
        let v = digits_value(rest);
        assert(pow2(64) * v >= 0) by (nonlinear_arith) requires pow2(64) > 0;
        if v > 0 {
            assert(pow2(64) * v > 0) by (nonlinear_arith) requires pow2(64) > 0, v > 0;
        }
        if digits_value(d) == 0 {
            assert forall|i: int| 0 <= i < d.len() implies d[i] == 0 by {
                if i > 0 {
                    assert(d[i] == rest[i - 1]);
                }
            }
        }
        if forall|i: int| 0 <= i < d.len() ==> d[i] == 0 {
            assert forall|i: int| 0 <= i < rest.len() implies rest[i] == 0 by {
                assert(rest[i] == d[i + 1]);
            }
        }
    }
}

/// The low digit is the value modulo `2^64`, and the rest is the quotient.
pub proof fn lemma_digits_value_low(d: Seq<u64>)
    requires
        d.len() > 0,
    ensures
        digits_value(d) % pow2(64) == d[0],
        digits_value(d) / pow2(64) == digits_value(d.drop_first()),
        digits_value(d) % 2 == d[0] % 2,
{
    let v = digits_value(d.drop_first());
    assert(pow2(64) == 0x1_0000_0000_0000_0000) by { lemma2_to64(); }
    lemma_fundamental_div_mod_converse(
        digits_value(d) as int, pow2(64) as int, v as int, d[0] as int);
    let x = digits_value(d) as int;
    let q = x / 2;
    assert(x == 2 * (0x8000_0000_0000_0000 * v) + d[0] as int);
    lemma_mod_multiples_vanish((0x8000_0000_0000_0000 * v) as int, d[0] as int, 2);
}

/// Digits of equal length with equal values are equal.
pub proof fn lemma_digits_value_injective(d1: Seq<u64>, d2: Seq<u64>)
    requires
        d1.len() == d2.len(),
        digits_value(d1) == digits_value(d2),
    ensures
        d1 == d2,
    decreases d1.len(),
{
    if d1.len() > 0 {
        lemma_digits_value_low(d1);
        lemma_digits_value_low(d2);
        lemma_digits_value_injective(d1.drop_first(), d2.drop_first());
        assert forall|i: int| 0 <= i < d1.len() implies d1[i] == d2[i] by {
            if i > 0 {
                assert(d1[i] == d1.drop_first()[i - 1]);
                assert(d2[i] == d2.drop_first()[i - 1]);
            }
        }
    }
    assert(d1 =~= d2);
}

/// The value with the top digit split off.
pub proof fn lemma_digits_value_last(d: Seq<u64>)
    requires
        d.len() > 0,
    ensures
        digits_value(d) == digits_value(d.drop_last()) + width_bound((d.len() - 1) as nat) * d.last(),
    decreases d.len(),
{
    let n = (d.len() - 1) as nat;
    if d.len() == 1 {
        assert(d.drop_first().len() == 0);
        assert(d.drop_last().len() == 0);
        assert(width_bound(0) == 1) by { lemma2_to64(); }
        assert(digits_value(d.drop_first()) == 0);
        assert(pow2(64) * 0 == 0);
        assert(d.last() == d[0]);
    } else {
        let rest = d.drop_first();
        lemma_digits_value_last(rest);
        assert(rest.drop_last() =~= d.drop_last().drop_first());
        assert(rest.last() == d.last());
        lemma_width_bound_step((n - 1) as nat);
        let a = digits_value(rest.drop_last());
        let w = width_bound((n - 1) as nat);
        let t = d.last() as nat;
        assert(pow2(64) * (a + w * t) == pow2(64) * a + (pow2(64) * w) * t) by (nonlinear_arith);
        assert(d.drop_last()[0] == d[0]);
        assert(digits_value(d.drop_last()) == d[0] + pow2(64) * a);
    }
}

/// Digits that are zero but for the lowest have the value of the lowest.
pub proof fn lemma_digits_value_single(d: Seq<u64>)
    requires
        d.len() > 0,
        forall|i: int| 1 <= i < d.len() ==> d[i] == 0,
    ensures
        digits_value(d) == d[0],
{
    let rest = d.drop_first();
    assert forall|i: int| 0 <= i < rest.len() implies rest[i] == 0 by {
        assert(rest[i] == d[i + 1]);
    }
    lemma_digits_value_zero(rest);
    assert(pow2(64) * 0 == 0);
}

/// A signed value is negative exactly when the top bit of the top digit is set.
pub proof fn lemma_signed_negative(d: Seq<u64>)
    requires
        d.len() > 0,
    ensures
        (signed_value(d) < 0) <==> (d.last() >= 0x8000_0000_0000_0000),
        half_bound(d.len()) * 2 == width_bound(d.len()),
        fits_signed(signed_value(d), d.len()),
        signed_value(d) == digits_value(d) || signed_value(d) == digits_value(d) - width_bound(d.len()),
{
    let n = (d.len() - 1) as nat;
    lemma_digits_value_last(d);
    lemma_digits_value_bound(d.drop_last());
    lemma_digits_value_bound(d);
    lemma_width_bound_step(n);
    assert(pow2(64) == 0x1_0000_0000_0000_0000) by { lemma2_to64(); }
    let w = width_bound(n);
    let a = digits_value(d.drop_last());
    let t = d.last() as nat;
    assert(half_bound(d.len()) == 0x8000_0000_0000_0000 * w) by {
        assert(width_bound(d.len()) == 0x1_0000_0000_0000_0000 * w);
        assert(0x1_0000_0000_0000_0000 * w == 2 * (0x8000_0000_0000_0000 * w)) by (nonlinear_arith);
    }
    if t >= 0x8000_0000_0000_0000 {
        assert(a + w * t >= 0x8000_0000_0000_0000 * w) by (nonlinear_arith)
            requires t >= 0x8000_0000_0000_0000;
    } else {
        assert(a + w * t < 0x8000_0000_0000_0000 * w) by (nonlinear_arith)
            requires t + 1 <= 0x8000_0000_0000_0000, a < w;
    }
}

/// The digits of a small constant.
pub fn bu_small<const N: usize>(x: u64) -> (r: BigUint<N>)
    requires
        N >= 1,
    ensures
        r@ == x,
{
    let mut r = bu_zero::<N>();
    r.digits[0] = x;
    proof {
        lemma_digits_value_single(r.digits@);
    }
    r
}

/// Whether the value is zero (bnum's `is_zero`, on the digits).
pub fn bu_is_zero<const N: usize>(a: &BigUint<N>) -> (r: bool)
    ensures
        r == (a@ == 0),
{
    proof {
        lemma_digits_value_zero(a.digits@);
    }
    let mut i: usize = 0;
    while i < N
        invariant
            i <= N,
            forall|j: int| 0 <= j < i ==> a.digits@[j] == 0,
        decreases N - i,
    {
        if a.digits[i] != 0 {
            assert(a.digits@[i as int] != 0);
            proof {
                lemma_digits_value_zero(a.digits@);
            }
            return false;
        }
        i = i + 1;
    }
    true
}

/// Whether two values are equal (bnum's `==`, on the digits).
pub fn bu_eq<const N: usize>(a: &BigUint<N>, b: &BigUint<N>) -> (r: bool)
    ensures
        r == (a@ == b@),
{
    let mut i: usize = 0;
    while i < N
        invariant
            i <= N,
            forall|j: int| 0 <= j < i ==> a.digits@[j] == b.digits@[j],
        decreases N - i,
    {
        if a.digits[i] != b.digits[i] {
            proof {
                if a@ == b@ {
                    lemma_digits_value_injective(a.digits@, b.digits@);
                }
            }
            return false;
        }
        i = i + 1;
    }
    assert(a.digits@ =~= b.digits@);
    true
}

/// Whether the value is odd (bnum's `bitand(ONE).is_one()`, on the low digit).
pub fn bu_is_odd<const N: usize>(a: &BigUint<N>) -> (r: bool)
    requires
        N >= 1,
    ensures
        r == (a@ % 2 == 1),
{
    proof {
        lemma_digits_value_low(a.digits@);
    }
    let low = a.digits[0];
    assert((low & 1 == 1) == (low % 2 == 1)) by (bit_vector);
    low & 1 == 1
}

/// Whether a signed value is negative (bnum's `is_negative`, on the top bit).
pub fn bi_is_negative<const N: usize>(a: &BigInt<N>) -> (r: bool)
    requires
        N >= 1,
    ensures
        r == (a@ < 0),
{
    proof {
        lemma_signed_negative(a.digits@);
    }
    a.digits[N - 1] >= 0x8000_0000_0000_0000
}

/// Whether a signed value is zero (bnum's `is_zero`, on the digits).
pub fn bi_is_zero<const N: usize>(a: &BigInt<N>) -> (r: bool)
    requires
        N >= 1,
    ensures
        r == (a@ == 0),
{
    proof {
        lemma_signed_negative(a.digits@);
        lemma_digits_value_bound(a.digits@);
    }
    let u = BigUint { digits: a.digits };
    bu_is_zero(&u)
}

/// The eight little-endian bytes of a digit (`u64::to_le_bytes`).
pub fn u64_to_le_bytes(x: u64) -> (r: [u8; 8])
    ensures
        r@ == u64_le_bytes(x),
{
    let r = [
        x as u8,
        (x >> 8) as u8,
        (x >> 16) as u8,
        (x >> 24) as u8,
        (x >> 32) as u8,
        (x >> 40) as u8,
        (x >> 48) as u8,
        (x >> 56) as u8,
    ];
    assert(r@ =~= u64_le_bytes(x));
    r
}

/// `bnum`'s `BUint::<N>::from_le_slice`: `Some` of the value of the bytes where it fits in
/// `N` digits, else `None`.
#[verifier::external_body]
pub(crate) fn bu_from_le_slice<const N: usize>(s: &[u8]) -> (r: Option<BigUint<N>>)
    ensures
        r is Some <==> bytes_value(s@) < width_bound(N as nat),
        r matches Some(v) ==> v@ == bytes_value(s@),
{
    match BUint::<N>::from_le_slice(s) {
        Some(v) => Some(BigUint { digits: *v.digits() }),
        None => None,
    }
}

/// Reads the value of the `8 N` little-endian bytes of `s` from `offset` on.
pub fn read_le_uint<const N: usize>(s: &[u8], offset: usize) -> (r: BigUint<N>)
    requires
        offset + 8 * N <= s@.len(),
    ensures
        r@ == bytes_value(s@.subrange(offset as int, offset + 8 * N)),
{
    // The slice's length fits in `usize`, so the end of the range does too.
    let len = s.len();
    assert(offset + 8 * N <= len);
    let part = &s[offset..offset + 8 * N];
    proof {
        lemma_bytes_value_bound(part@);
        assert(8 * (8 * N) == 64 * N);
    }
    bu_from_le_slice::<N>(part).unwrap()
}

/// The `n` little-endian bytes of `v` (modulo `256^n`).
pub open spec fn nat_le_bytes(v: nat, n: nat) -> Seq<u8>
    decreases n,
{
    if n == 0 {
        Seq::empty()
    } else {
        seq![(v % 256) as u8] + nat_le_bytes(v / 256, (n - 1) as nat)
    }
}

/// Law: `n` little-endian bytes of `v` read back to `v` modulo `2^(8 n)`.
pub proof fn law_nat_le_bytes_value(v: nat, n: nat)
    ensures
        nat_le_bytes(v, n).len() == n,
        bytes_value(nat_le_bytes(v, n)) == v % pow2(8 * n),
    decreases n,
{
    if n == 0 {
        assert(pow2(0) == 1) by { lemma2_to64(); }
    } else {
        let m = (n - 1) as nat;
        law_nat_le_bytes_value(v / 256, m);
        let s = nat_le_bytes(v, n);
        assert(s.drop_first() =~= nat_le_bytes(v / 256, m));
        lemma_pow2_adds(8, 8 * m);
        assert(8 + 8 * m == 8 * n);
        assert(pow2(8) == 256) by { lemma2_to64(); }
        lemma_pow2_pos(8 * m);
        lemma_mod_breakdown(v as int, 256, pow2(8 * m) as int);
        lemma_mod_bound(v as int, 256);
    }
}

/// Bytes are the little-endian bytes of their value.
pub proof fn lemma_bytes_of_value(s: Seq<u8>)
    ensures
        s == nat_le_bytes(bytes_value(s), s.len()),
    decreases s.len(),
{
    if s.len() > 0 {
        let rest = s.drop_first();
        lemma_bytes_of_value(rest);
        let v = bytes_value(s);
        lemma_fundamental_div_mod_converse(v as int, 256, bytes_value(rest) as int, s[0] as int);
        assert(s =~= seq![(v % 256) as u8] + nat_le_bytes(v / 256, (s.len() - 1) as nat));
    } else {
        assert(s =~= Seq::<u8>::empty());
    }
}

/// The bytes of digits are the little-endian bytes of their value.
pub proof fn lemma_digits_le_bytes_value(d: Seq<u64>)
    ensures
        digits_le_bytes(d) == nat_le_bytes(digits_value(d), 8 * d.len()),
{
    lemma_digits_le_bytes(d);
    lemma_bytes_of_value(digits_le_bytes(d));
}

/// Appending a digit appends its bytes.
pub proof fn lemma_digits_le_bytes_push(d: Seq<u64>, x: u64)
    ensures
        digits_le_bytes(d.push(x)) == digits_le_bytes(d) + u64_le_bytes(x),
    decreases d.len(),
{
    if d.len() == 0 {
        assert(d.push(x).drop_first() =~= Seq::<u64>::empty());
        assert(digits_le_bytes(Seq::<u64>::empty()) =~= Seq::<u8>::empty());
        assert(digits_le_bytes(d) =~= Seq::<u8>::empty());
        assert(u64_le_bytes(x) + Seq::<u8>::empty() =~= u64_le_bytes(x));
        assert(Seq::<u8>::empty() + u64_le_bytes(x) =~= u64_le_bytes(x));
    } else {
        lemma_digits_le_bytes_push(d.drop_first(), x);
        assert(d.push(x).drop_first() =~= d.drop_first().push(x));
        assert(d.push(x)[0] == d[0]);
        assert(u64_le_bytes(d[0]) + (digits_le_bytes(d.drop_first()) + u64_le_bytes(x))
            =~= (u64_le_bytes(d[0]) + digits_le_bytes(d.drop_first())) + u64_le_bytes(x));
    }
}

/// Writes the little-endian bytes of `num` into `out` from `offset` on, leaving the other
/// bytes as they were.
pub fn write_digits<const S: usize>(num: &BigUint<S>, out: &mut [u8], offset: usize)
    requires
        offset + 8 * S <= old(out)@.len(),
    ensures
        final(out)@ == old(out)@.subrange(0, offset as int) + digits_le_bytes(num.digits@)
            + old(out)@.subrange(offset + 8 * S, old(out)@.len() as int),
        final(out)@.len() == old(out)@.len(),
{
    let ghost d = num.digits@;
    let ghost orig = out@;
    let len = out.len();
    let mut i: usize = 0;
    while i < S
        invariant
            i <= S,
            d == num.digits@,
            offset + 8 * S <= orig.len(),
            len == orig.len(),
            out@.len() == orig.len(),
            forall|k: int| 0 <= k < offset ==> out@[k] == orig[k],
            forall|k: int| offset + 8 * i <= k < orig.len() ==> out@[k] == orig[k],
            out@.subrange(offset as int, offset + 8 * i) == digits_le_bytes(d.take(i as int)),
        decreases S - i,
    {
        let b = u64_to_le_bytes(num.digits[i]);
        let base = offset + 8 * i;
        let ghost before = out@;
        let mut j: usize = 0;
        while j < 8
            invariant
                j <= 8,
                base == offset + 8 * i,
                i < S,
                offset + 8 * S <= orig.len(),
                len == orig.len(),
                out@.len() == orig.len(),
                before.len() == orig.len(),
                forall|k: int| 0 <= k < base ==> out@[k] == before[k],
                forall|k: int| base + j <= k < orig.len() ==> out@[k] == before[k],
                forall|t: int| 0 <= t < j ==> out@[base + t] == b@[t],
            decreases 8 - j,
        {
            out[base + j] = b[j];
            j = j + 1;
        }
        proof {
            lemma_digits_le_bytes_push(d.take(i as int), d[i as int]);
            assert(d.take(i as int).push(d[i as int]) =~= d.take(i + 1));
            assert(out@.subrange(offset as int, base as int) =~= before.subrange(offset as int, base as int));
            assert(out@.subrange(base as int, base + 8) =~= u64_le_bytes(d[i as int]));
            assert(out@.subrange(offset as int, base + 8) =~= out@.subrange(offset as int, base as int)
                + out@.subrange(base as int, base + 8));
        }
        i = i + 1;
    }
    proof {
        assert(d.take(S as int) =~= d);
        lemma_digits_le_bytes(d);
        assert(out@ =~= orig.subrange(0, offset as int) + digits_le_bytes(d)
            + orig.subrange(offset + 8 * S, orig.len() as int)) by {
            lemma_digits_le_bytes(d);
            assert forall|k: int| 0 <= k < out@.len() implies out@[k] == (orig.subrange(0, offset as int)
                + digits_le_bytes(d) + orig.subrange(offset + 8 * S, orig.len() as int))[k] by {
                if offset <= k < offset + 8 * S {
                    assert(out@[k] == out@.subrange(offset as int, offset + 8 * S)[k - offset]);
                }
            }
        }
    }
}

/// The 32-bit number in the four little-endian bytes of `s` from `offset` on
/// (`u32::from_le_bytes`).
pub fn u32_from_le_bytes_at(s: &[u8], offset: usize) -> (r: u32)
    requires
        offset + 4 <= s@.len(),
    ensures
        r == bytes_value(s@.subrange(offset as int, offset + 4)),
{
    let b0 = s[offset] as u32;
    let b1 = s[offset + 1] as u32;
    let b2 = s[offset + 2] as u32;
    let b3 = s[offset + 3] as u32;
    proof {
        let t = s@.subrange(offset as int, offset + 4);
        reveal_with_fuel(bytes_value, 5);
        assert(t.drop_first().drop_first().drop_first().drop_first().len() == 0);
        assert(t.drop_first()[0] == s@[offset + 1]);
        assert(t.drop_first().drop_first()[0] == s@[offset + 2]);
        assert(t.drop_first().drop_first().drop_first()[0] == s@[offset + 3]);
    }
    b0 + 256 * (b1 + 256 * (b2 + 256 * b3))
}

/// The `n` little-endian 64-bit digits of `v` (modulo `2^(64 n)`).
pub open spec fn nat_digits(v: nat, n: nat) -> Seq<u64>
    decreases n,
{
    if n == 0 {
        Seq::empty()
    } else {
        seq![(v % pow2(64)) as u64] + nat_digits(v / pow2(64), (n - 1) as nat)
    }
}

/// `nat_digits` gives `n` digits.
pub proof fn lemma_nat_digits_len(v: nat, n: nat)
    ensures
        nat_digits(v, n).len() == n,
    decreases n,
{
    if n > 0 {
        let m = (n - 1) as nat;
        lemma_nat_digits_len(v / pow2(64), m);
        lemma_nat_digits_unfold(v, n);
    }
}

/// One more digit is one more element.
proof fn lemma_nat_digits_unfold(v: nat, n: nat)
    requires
        n > 0,
    ensures
        nat_digits(v, n).len() == 1 + nat_digits(v / pow2(64), (n - 1) as nat).len(),
{
    let r = nat_digits(v, n);
    let q = nat_digits(v / pow2(64), (n - 1) as nat);
    assert(pow2(64) == 0x1_0000_0000_0000_0000) by { lemma2_to64(); }
    assert(r == seq![(v % 0x1_0000_0000_0000_0000) as u64] + nat_digits(v / 0x1_0000_0000_0000_0000, (n - 1) as nat));
    assert(r.drop_first() =~= q);
}

/// Digits are the little-endian digits of their value.
pub proof fn lemma_digits_of_value(d: Seq<u64>)
    ensures
        d == nat_digits(digits_value(d), d.len()),
    decreases d.len(),
{
    if d.len() > 0 {
        lemma_digits_value_low(d);
        lemma_digits_of_value(d.drop_first());
        assert(d =~= seq![(digits_value(d) % pow2(64)) as u64] + nat_digits(
            digits_value(d) / pow2(64),
            (d.len() - 1) as nat,
        ));
    } else {
        assert(d =~= Seq::<u64>::empty());
    }
}

/// The 64-bit number in the eight little-endian bytes of `s` from `offset` on
/// (`u64::from_le_bytes`).
pub fn u64_from_le_bytes_at(s: &[u8], offset: usize) -> (r: u64)
    requires
        offset + 8 <= s@.len(),
    ensures
        r == bytes_value(s@.subrange(offset as int, offset + 8)),
        u64_le_bytes(r) == s@.subrange(offset as int, offset + 8),
{
    let ghost t = s@.subrange(offset as int, offset + 8);
    let len = s.len();
    let mut r: u64 = 0;
    let mut j: usize = 8;
    proof {
        assert(t.skip(8) =~= Seq::<u8>::empty());
    }
    while j > 0
        invariant
            j <= 8,
            len == s@.len(),
            offset + 8 <= s@.len(),
            t == s@.subrange(offset as int, offset + 8),
            r as nat == bytes_value(t.skip(j as int)),
        decreases j,
    {
        j = j - 1;
        let b = s[offset + j] as u64;
        proof {
            let tail = t.skip(j as int);
            let prev = t.skip(j + 1);
            assert(tail.drop_first() =~= prev);
            assert(tail[0] == s@[offset + j]);
            lemma_bytes_value_bound(prev);
            lemma_bytes_value_bound(tail);
            assert(tail.len() == 8 - j);
            assert(pow2(8 * tail.len()) <= pow2(64)) by {
                if j > 0 {
                    lemma_pow2_strictly_increases(8 * tail.len(), 64);
                }
            }
            assert(pow2(64) == 0x1_0000_0000_0000_0000) by { lemma2_to64(); }
            assert(bytes_value(tail) == b + 256 * bytes_value(prev));
        }
        r = b + 256 * r;
    }
    proof {
        assert(t.skip(0) =~= t);
        lemma_bytes_value_u64(r);
        lemma_bytes_of_value(t);
        lemma_bytes_of_value(u64_le_bytes(r));
    }
    r
}

/// `bnum`'s multiplication `BUint<N> * BUint<N>`: the product, where it fits in `N` digits.
#[verifier::external_body]
pub(crate) fn bu_mul<const N: usize>(a: &BigUint<N>, b: &BigUint<N>) -> (r: BigUint<N>)
    requires
        a@ * b@ < width_bound(N as nat),
    ensures
        r@ == a@ * b@,
{
    BigUint { digits: *(BUint::<N>::from_digits(a.digits) * BUint::<N>::from_digits(b.digits)).digits() }
}

} // verus!
