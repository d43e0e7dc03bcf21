//! Ring signature verification on the curve secp256k1: affine point addition modulo the
//! field prime, scalar multiplication by doubling and adding, and the check that the ring of
//! challenges closes.
use vstd::prelude::*;
use vstd::arithmetic::div_mod::*;
use vstd::arithmetic::mul::*;
use vstd::arithmetic::power2::*;
use crate::bignum::{
    read_le_uint, law_nat_le_bytes_value, BigUint, width_bound, lemma_digits_value_4, lemma_width_bound_4_8,
    lemma_digits_value_bound, lemma_fits_wider, nat_le_bytes, digits_le_bytes, bytes_value,
    lemma_bytes_value_bound, lemma_bytes_of_value, u32_from_le_bytes_at, bu_from_le_slice,
    write_digits, lemma_digits_le_bytes_value, lemma_digits_le_bytes, bu_cast, bu_add,
    bu_sub, bu_mul, bu_rem, bu_is_zero, bu_eq, bu_small, bu_is_odd, bu_shr,
};
use crate::utils::{
    inverse_mod, spec_inverse_mod, coprime, law_inverse_mod_inverts, lemma_invertible_coprime,
    lemma_inverse_unique,
};

verus! {

/// The prime of the field of secp256k1, `2^256 - 2^32 - 977`.
pub open spec fn spec_field_prime() -> nat {
    115792089237316195423570985008687907853269984665640564039457584007908834671663nat
}

/// The x coordinate of the generator of secp256k1.
pub open spec fn spec_generator_x() -> nat {
    55066263022277343669578718895168534326250603453777594175500187360389116729240nat
}

/// The y coordinate of the generator of secp256k1.
pub open spec fn spec_generator_y() -> nat {
    32670510020758816978083085130507043184471273380659243275938904335757337482424nat
}

/// The field prime in four digits.
pub fn field_prime() -> (r: BigUint<4>)
    ensures
        r@ == spec_field_prime(),
{
    let r = BigUint {
        digits: [
            0xFFFF_FFFE_FFFF_FC2Fu64,
            0xFFFF_FFFF_FFFF_FFFFu64,
            0xFFFF_FFFF_FFFF_FFFFu64,
            0xFFFF_FFFF_FFFF_FFFFu64,
        ],
    };
    proof {
        lemma_digits_value_4(r.digits@);
    }
    r
}

/// A point in affine coordinates; `(0, 0)` stands for the point at infinity.
#[derive(Clone, Copy)]
pub struct Point(pub BigUint<4>, pub BigUint<4>);

impl View for Point {
    type V = (nat, nat);

    open spec fn view(&self) -> (nat, nat) {
        (self.0@, self.1@)
    }
}

/// The generator of secp256k1.
pub fn generator() -> (r: Point)
    ensures
        r@ == (spec_generator_x(), spec_generator_y()),
{
    let x = BigUint {
        digits: [
            0x59F2_815B_16F8_1798u64,
            0x029B_FCDB_2DCE_28D9u64,
            0x55A0_6295_CE87_0B07u64,
            0x79BE_667E_F9DC_BBACu64,
        ],
    };
    let y = BigUint {
        digits: [
            0x9C47_D08F_FB10_D4B8u64,
            0xFD17_B448_A685_5419u64,
            0x5DA4_FBFC_0E11_08A8u64,
            0x483A_DA77_26A3_C465u64,
        ],
    };
    proof {
        lemma_digits_value_4(x.digits@);
        lemma_digits_value_4(y.digits@);
    }
    Point(x, y)
}

/// The inverse that `inverse_mod` computes for `v` modulo the field prime.
#[verifier::opaque]
pub open spec fn field_inverse(v: nat) -> nat {
    spec_inverse_mod(v, spec_field_prime())
}

/// Adding the same amount keeps two numbers congruent.
pub proof fn lemma_mod_add_compat(a: int, b: int, c: int, m: int)
    requires
        m > 0,
        a % m == b % m,
    ensures
        (a + c) % m == (b + c) % m,
{
    lemma_add_mod_noop(a, c, m);
    lemma_add_mod_noop(b, c, m);
}

/// Multiplying by the same amount keeps two numbers congruent.
pub proof fn lemma_mod_mul_compat(a: int, b: int, c: int, m: int)
    requires
        m > 0,
        a % m == b % m,
    ensures
        (a * c) % m == (b * c) % m,
{
    lemma_mul_mod_noop_left(a, c, m);
    lemma_mul_mod_noop_left(b, c, m);
}

/// Whether a point stands for the point at infinity.
pub open spec fn is_infinity(pt: (nat, nat)) -> bool {
    pt.0 == 0 && pt.1 == 0
}

/// Whether `point_add` returns early: one side is at infinity, or the points are
/// opposite (same x, y coordinates summing to a multiple of the prime).
pub open spec fn point_add_trivial(p1: (nat, nat), p2: (nat, nat)) -> bool {
    ||| is_infinity(p1)
    ||| is_infinity(p2)
    ||| (p1.0 == p2.0 && (p1.1 + p2.1) as int % (spec_field_prime() as int) == 0)
}

/// The slope of the line through two points, or of the tangent at a point when they are
/// equal, modulo the field prime, with the inverse that `inverse_mod` computes.
#[verifier::opaque]
pub open spec fn spec_slope(p1: (nat, nat), p2: (nat, nat)) -> int {
    let p = spec_field_prime() as int;
    let (x1, y1, x2, y2) = (p1.0 as int, p1.1 as int, p2.0 as int, p2.1 as int);
    if p1 != p2 {
        ((y1 - y2) * field_inverse(((x1 - x2) % p) as nat)) % p
    } else {
        (3 * x1 * x1 * field_inverse(((2 * y1) % p) as nat)) % p
    }
}

/// `k^2 - x1 - x2` modulo the field prime: the x coordinate of a sum with slope `k`.
#[verifier::opaque]
pub open spec fn sum_x(k: int, x1: int, x2: int) -> int {
    (k * k - x1 - x2) % (spec_field_prime() as int)
}

/// `k (x1 - x3) - y1` modulo the field prime: the y coordinate of a sum with slope `k`.
#[verifier::opaque]
pub open spec fn sum_y(k: int, x1: int, x3: int, y1: int) -> int {
    (k * (x1 - x3) - y1) % (spec_field_prime() as int)
}

/// `k^2` modulo the field prime.
#[verifier::opaque]
pub open spec fn slope_square(k: int) -> int {
    (k * k) % (spec_field_prime() as int)
}

/// `k (x1 - x3)` modulo the field prime.
#[verifier::opaque]
pub open spec fn slope_times(k: int, x1: int, x3: int) -> int {
    (k * (x1 - x3)) % (spec_field_prime() as int)
}

/// The sum of two points by the affine formulas of the curve `y^2 = x^3 + 7`:
/// `x3 = k^2 - x1 - x2`, `y3 = k (x1 - x3) - y1` modulo the field prime, with `k` the slope.
pub open spec fn spec_point_add(p1: (nat, nat), p2: (nat, nat)) -> (nat, nat) {
    let p = spec_field_prime() as int;
    if is_infinity(p1) {
        p2
    } else if is_infinity(p2) {
        p1
    } else if p1.0 == p2.0 && (p1.1 + p2.1) as int % p == 0 {
        (0, 0)
    } else {
        let k = spec_slope(p1, p2);
        let x3 = sum_x(k, p1.0 as int, p2.0 as int);
        let y3 = sum_y(k, p1.0 as int, x3, p1.1 as int);
        (x3 as nat, y3 as nat)
    }
}

/// The inputs on which `point_add` completes: none of its subtractions, which add the
/// prime first, goes below zero. Coordinates up to the prime always qualify.
pub open spec fn point_add_ok(p1: (nat, nat), p2: (nat, nat)) -> bool {
    let p = spec_field_prime() as int;
    let k = spec_slope(p1, p2);
    let x3 = sum_x(k, p1.0 as int, p2.0 as int);
    point_add_trivial(p1, p2) || {
        &&& p1 != p2 ==> p2.1 <= p1.1 + p && p2.0 <= p1.0 + p
        &&& p1.0 <= slope_square(k) + p
        &&& p2.0 <= slope_square(k) + p - p1.0 + p
        &&& p1.1 <= slope_times(k, p1.0 as int, x3) + p
    }
}

/// The slope of the chord through two points given in eight digits, each coordinate below
/// `2^256`: `(y1 - y2) / (x1 - x2)` modulo the prime, with the prime added before each
/// subtraction.
#[verifier::spinoff_prover]
fn chord_slope(
    x1: &BigUint<8>,
    y1: &BigUint<8>,
    x2: &BigUint<8>,
    y2: &BigUint<8>,
    pr: &BigUint<4>,
    p512: &BigUint<8>,
) -> (k: BigUint<8>)
    requires
        pr@ == spec_field_prime(),
        p512@ == spec_field_prime(),
        x1@ < width_bound(4),
        y1@ < width_bound(4),
        x2@ < width_bound(4),
        y2@ < width_bound(4),
        y2@ <= y1@ + spec_field_prime(),
        x2@ <= x1@ + spec_field_prime(),
    ensures
        k@ == ((y1@ - y2@) * field_inverse(((x1@ - x2@) % (spec_field_prime() as int)) as nat))
            % (spec_field_prime() as int),
        k@ < spec_field_prime(),
{
    let ghost p = spec_field_prime() as int;
    let ghost w4 = width_bound(4);
    proof {
        lemma_width_bound_4_8();
    }
    let num = bu_rem(&bu_sub(&bu_add(y1, p512), y2), p512);
    let den = bu_rem(&bu_sub(&bu_add(x1, p512), x2), p512);
    proof {
        lemma_mod_add_multiples_vanish(y1@ - y2@, p);
        lemma_mod_add_multiples_vanish(x1@ - x2@, p);
        lemma_fits_wider(den@, 4, 8);
    }
    let den4 = bu_cast::<8, 4>(&den);
    let inv = inverse_mod::<4, 8>(den4, *pr);
    proof {
        reveal(field_inverse);
        lemma_digits_value_bound(inv.digits@);
        lemma_fits_wider(inv@, 4, 8);
        assert(num@ * inv@ < w4 * w4) by (nonlinear_arith)
            requires num@ < w4, inv@ < w4;
    }
    let invw = bu_cast::<4, 8>(&inv);
    let k = bu_rem(&bu_mul(&num, &invw), p512);
    proof {
        lemma_mod_mul_compat(num@ as int, y1@ - y2@, inv@ as int, p);
    }
    k
}

/// The slope of the tangent at a point given in eight digits, each coordinate below
/// `2^256`: `3 x^2 / (2 y)` modulo the prime.
#[verifier::spinoff_prover]
fn tangent_slope(x1: &BigUint<8>, y1: &BigUint<8>, pr: &BigUint<4>, p512: &BigUint<8>) -> (k: BigUint<8>)
    requires
        pr@ == spec_field_prime(),
        p512@ == spec_field_prime(),
        x1@ < width_bound(4),
        y1@ < width_bound(4),
    ensures
        k@ == (3 * x1@ * x1@ * field_inverse(((2 * y1@) as int % (spec_field_prime() as int)) as nat))
            as int % (spec_field_prime() as int),
        k@ < spec_field_prime(),
{
    let ghost p = spec_field_prime() as int;
    let ghost w4 = width_bound(4);
    proof {
        lemma_width_bound_4_8();
    }
    let three = bu_small::<8>(3);
    let two = bu_small::<8>(2);
    let t1 = bu_rem(&bu_mul(&three, x1), p512);
    proof {
        assert(t1@ * x1@ < w4 * w4) by (nonlinear_arith)
            requires t1@ < w4, x1@ < w4;
    }
    let t2 = bu_rem(&bu_mul(&t1, x1), p512);
    let d = bu_rem(&bu_mul(y1, &two), p512);
    proof {
        lemma_fits_wider(d@, 4, 8);
    }
    let d4 = bu_cast::<8, 4>(&d);
    proof {
        assert(y1@ * 2 == 2 * y1@);
    }
    let inv = inverse_mod::<4, 8>(d4, *pr);
    proof {
        reveal(field_inverse);
        lemma_digits_value_bound(inv.digits@);
        lemma_fits_wider(inv@, 4, 8);
        assert(t2@ * inv@ < w4 * w4) by (nonlinear_arith)
            requires t2@ < w4, inv@ < w4;
    }
    let invw = bu_cast::<4, 8>(&inv);
    let k = bu_rem(&bu_mul(&t2, &invw), p512);
    proof {
        lemma_mod_mul_compat(t1@ as int, (3 * x1@) as int, x1@ as int, p);
        lemma_mod_mul_compat(t2@ as int, (3 * x1@ * x1@) as int, inv@ as int, p);
    }
    k
}

/// Adding the prime twice before subtracting leaves `k^2 - x1 - x2` unchanged modulo it.
proof fn lemma_x3_value(k: int, kk: int, x1: int, x2: int, p: int)
    requires
        p > 0,
        kk == (k * k) % p,
    ensures
        (kk + p - x1 + p - x2) % p == (k * k - x1 - x2) % p,
{
    lemma_mod_twice(k * k, p);
    lemma_mod_add_compat(kk, k * k, -x1 - x2, p);
    lemma_mod_multiples_vanish(2, kk - x1 - x2, p);
    assert(kk + p - x1 + p - x2 == p * 2 + (kk - x1 - x2));
}

/// Adding the prime before subtracting leaves `k (x1 - x3) - y1` unchanged modulo it.
proof fn lemma_y3_value(k: int, x1: int, x3: int, y1: int, e: int, f: int, p: int)
    requires
        p > 0,
        e == (x1 + p - x3) % p,
        f == (k * e) % p,
    ensures
        (f + p - y1) % p == (k * (x1 - x3) - y1) % p,
        f == (k * (x1 - x3)) % p,
{
    lemma_mod_add_multiples_vanish(x1 - x3, p);
    assert(x1 + p - x3 == p + (x1 - x3));
    assert(e == (x1 - x3) % p);
    lemma_mul_mod_noop_right(k, x1 - x3, p);
    assert(f == (k * (x1 - x3)) % p);
    lemma_mod_twice(k * (x1 - x3), p);
    lemma_mod_add_multiples_vanish(f - y1, p);
    assert(f + p - y1 == p + (f - y1));
    lemma_mod_add_compat(f, k * (x1 - x3), -y1, p);
}

/// The coordinates `k^2 - x1 - x2` and `k (x1 - x3) - y1` modulo the prime, with the
/// prime added before each subtraction.
fn sum_from_slope(
    k: &BigUint<8>,
    x1: &BigUint<8>,
    y1: &BigUint<8>,
    x2: &BigUint<8>,
    p512: &BigUint<8>,
) -> (r: (BigUint<8>, BigUint<8>))
    requires
        p512@ == spec_field_prime(),
        k@ < spec_field_prime(),
        x1@ < width_bound(4),
        y1@ < width_bound(4),
        x2@ < width_bound(4),
        x1@ <= slope_square(k@ as int) + spec_field_prime(),
        x2@ <= slope_square(k@ as int) + spec_field_prime() - x1@ + spec_field_prime(),
        y1@ <= slope_times(k@ as int, x1@ as int, sum_x(k@ as int, x1@ as int, x2@ as int))
            + spec_field_prime(),
    ensures
        r.0@ == sum_x(k@ as int, x1@ as int, x2@ as int),
        r.1@ == sum_y(k@ as int, x1@ as int, r.0@ as int, y1@ as int),
{
    reveal(sum_x);
    reveal(sum_y);
    reveal(slope_square);
    reveal(slope_times);
    let ghost p = spec_field_prime() as int;
    let ghost w4 = width_bound(4);
    proof {
        lemma_width_bound_4_8();
        assert(k@ * k@ < w4 * w4) by (nonlinear_arith)
            requires k@ < w4;
    }
    let kk = bu_rem(&bu_mul(k, k), p512);
    let a1 = bu_add(&kk, p512);
    let a2 = bu_sub(&a1, x1);
    let a3 = bu_add(&a2, p512);
    let a4 = bu_sub(&a3, x2);
    let x3 = bu_rem(&a4, p512);
    proof {
        lemma_x3_value(k@ as int, kk@ as int, x1@ as int, x2@ as int, p);
    }
    let e = bu_rem(&bu_sub(&bu_add(x1, p512), &x3), p512);
    proof {
        assert(k@ * e@ < w4 * w4) by (nonlinear_arith)
            requires k@ < w4, e@ < w4;
    }
    let f = bu_rem(&bu_mul(k, &e), p512);
    proof {
        lemma_y3_value(k@ as int, x1@ as int, x3@ as int, y1@ as int, e@ as int, f@ as int, p);
    }
    let g = bu_sub(&bu_add(&f, p512), y1);
    let y3 = bu_rem(&g, p512);
    (x3, y3)
}

/// The coordinates of a sum lie below the prime, as do the squared slope and the product.
pub proof fn lemma_sum_bounded(k: int, x1: int, x2: int, y1: int)
    ensures
        0 <= sum_x(k, x1, x2) < spec_field_prime(),
        0 <= sum_y(k, x1, sum_x(k, x1, x2), y1) < spec_field_prime(),
        0 <= slope_square(k),
        0 <= slope_times(k, x1, sum_x(k, x1, x2)),
{
    reveal(sum_x);
    reveal(sum_y);
    reveal(slope_square);
    reveal(slope_times);
    let p = spec_field_prime() as int;
    lemma_mod_bound(k * k - x1 - x2, p);
    let x3 = (k * k - x1 - x2) % p;
    lemma_mod_bound(k * (x1 - x3) - y1, p);
    lemma_mod_bound(k * k, p);
    lemma_mod_bound(k * (x1 - x3), p);
}

/// The sum of two points of secp256k1 in affine coordinates.
#[verifier::spinoff_prover]
pub fn point_add(p1: Point, p2: Point) -> (r: Point)
    requires
        point_add_ok(p1@, p2@),
    ensures
        r@ == spec_point_add(p1@, p2@),
{
    let ghost p = spec_field_prime() as int;
    let pr = field_prime();
    let Point(x1, y1) = p1;
    let Point(x2, y2) = p2;
    proof {
        lemma_width_bound_4_8();
        lemma_digits_value_bound(x1.digits@);
        lemma_digits_value_bound(y1.digits@);
        lemma_digits_value_bound(x2.digits@);
        lemma_digits_value_bound(y2.digits@);
        lemma_fits_wider(x1@, 4, 8);
        lemma_fits_wider(y1@, 4, 8);
        lemma_fits_wider(x2@, 4, 8);
        lemma_fits_wider(y2@, 4, 8);
        lemma_fits_wider(pr@, 4, 8);
    }
    let p512 = bu_cast::<4, 8>(&pr);
    let x1w = bu_cast::<4, 8>(&x1);
    let y1w = bu_cast::<4, 8>(&y1);
    let x2w = bu_cast::<4, 8>(&x2);
    let y2w = bu_cast::<4, 8>(&y2);
    if bu_is_zero(&x1) && bu_is_zero(&y1) {
        return p2;
    }
    if bu_is_zero(&x2) && bu_is_zero(&y2) {
        return p1;
    }
    if bu_eq(&x1, &x2) && bu_is_zero(&bu_rem(&bu_add(&y1w, &y2w), &p512)) {
        let zero = bu_small::<4>(0);
        return Point(zero, zero);
    }
    let k = if !bu_eq(&x1, &x2) || !bu_eq(&y1, &y2) {
        chord_slope(&x1w, &y1w, &x2w, &y2w, &pr, &p512)
    } else {
        tangent_slope(&x1w, &y1w, &pr, &p512)
    };
    assert(k@ == spec_slope(p1@, p2@)) by {
        reveal(spec_slope);
    }
    let (x3, y3) = sum_from_slope(&k, &x1w, &y1w, &x2w, &p512);
    proof {
        lemma_sum_bounded(k@ as int, x1@ as int, x2@ as int, y1@ as int);
        lemma_fits_wider(x3@, 4, 8);
        lemma_fits_wider(y3@, 4, 8);
    }
    Point(bu_cast::<8, 4>(&x3), bu_cast::<8, 4>(&y3))
}

/// Doubling and adding from the lowest bit of `k` up: with the accumulator `acc`, add
/// `point` for a set bit, then go on with `k / 2` and `point + point`.
pub open spec fn spec_kmul_from(k: nat, point: (nat, nat), acc: (nat, nat)) -> (nat, nat)
    decreases k,
{
    if k == 0 {
        acc
    } else {
        let next = if k % 2 == 1 { spec_point_add(acc, point) } else { acc };
        spec_kmul_from(k / 2, spec_point_add(point, point), next)
    }
}

/// The multiple `k * point` as `kmul` computes it, from the point at infinity.
pub open spec fn spec_kmul(k: nat, point: (nat, nat)) -> (nat, nat) {
    spec_kmul_from(k, point, (0, 0))
}

/// The inputs on which the doubling and adding completes: each addition it makes does.
pub open spec fn kmul_ok_from(k: nat, point: (nat, nat), acc: (nat, nat)) -> bool
    decreases k,
{
    if k == 0 {
        true
    } else {
        let next = if k % 2 == 1 { spec_point_add(acc, point) } else { acc };
        &&& k % 2 == 1 ==> point_add_ok(acc, point)
        &&& point_add_ok(point, point)
        &&& kmul_ok_from(k / 2, spec_point_add(point, point), next)
    }
}

/// The inputs on which `kmul` completes.
pub open spec fn kmul_ok(k: nat, point: (nat, nat)) -> bool {
    kmul_ok_from(k, point, (0, 0))
}

/// Both coordinates are at most the field prime.
pub open spec fn coords_bounded(pt: (nat, nat)) -> bool {
    pt.0 <= spec_field_prime() && pt.1 <= spec_field_prime()
}

/// Points with coordinates at most the prime can be added, and so is their sum.
pub proof fn lemma_point_add_bounded(p1: (nat, nat), p2: (nat, nat))
    requires
        coords_bounded(p1),
        coords_bounded(p2),
    ensures
        point_add_ok(p1, p2),
        coords_bounded(spec_point_add(p1, p2)),
{
    let k = spec_slope(p1, p2);
    lemma_sum_bounded(k, p1.0 as int, p2.0 as int, p1.1 as int);
}

/// Multiples of a point with coordinates at most the prime can be computed, and have
/// such coordinates.
pub proof fn lemma_kmul_bounded(k: nat, point: (nat, nat), acc: (nat, nat))
    requires
        coords_bounded(point),
        coords_bounded(acc),
    ensures
        kmul_ok_from(k, point, acc),
        coords_bounded(spec_kmul_from(k, point, acc)),
    decreases k,
{
    if k > 0 {
        lemma_point_add_bounded(acc, point);
        lemma_point_add_bounded(point, point);
        let next = if k % 2 == 1 { spec_point_add(acc, point) } else { acc };
        lemma_kmul_bounded(k / 2, spec_point_add(point, point), next);
    }
}

/// The multiple `k * point`, by doubling and adding from the lowest bit of `k` up.
pub fn kmul(k: BigUint<4>, point: Point) -> (r: Point)
    requires
        kmul_ok(k@, point@),
    ensures
        r@ == spec_kmul(k@, point@),
{
    let ghost k0 = k@;
    let ghost p0 = point@;
    let zero = bu_small::<4>(0);
    let mut result = Point(zero, zero);
    let mut k = k;
    let mut point = point;
    proof {
        assert(pow2(1) == 2) by { lemma2_to64(); }
    }
    while !bu_is_zero(&k)
        invariant
            pow2(1) == 2,
            spec_kmul_from(k@, point@, result@) == spec_kmul(k0, p0),
            kmul_ok_from(k@, point@, result@),
        decreases k@,
    {
        if bu_is_odd(&k) {
            result = point_add(result, point);
        }
        point = point_add(point, point);
        k = bu_shr(&k, 1);
    }
    result
}

/// What `lhash::sha256` returns for `input`: its SHA-256 digest.
pub uninterp spec fn lhash_sha256(input: Seq<u8>) -> Seq<u8>;

/// `lhash::sha256`: the SHA-256 digest of `input`, named by `lhash_sha256`.
#[verifier::external_body]
pub(crate) fn sha256_digest(input: &[u8]) -> (r: [u8; 32])
    ensures
        r@ == lhash_sha256(input@),
{
    lhash::sha256(input)
}

/// The 64 bytes of a point: the 32 little-endian bytes of each coordinate.
pub open spec fn point_le_bytes(pt: (nat, nat)) -> Seq<u8> {
    nat_le_bytes(pt.0, 32) + nat_le_bytes(pt.1, 32)
}

/// The bytes of points, one after the other.
pub open spec fn points_le_bytes(pts: Seq<Point>) -> Seq<u8>
    decreases pts.len(),
{
    if pts.len() == 0 {
        Seq::empty()
    } else {
        points_le_bytes(pts.drop_last()) + point_le_bytes(pts.last()@)
    }
}

/// Writes the little-endian digits of `num` to the start of `out`.
pub fn uint_to_bytes<const S: usize>(num: &BigUint<S>, out: &mut [u8])
    requires
        8 * S <= old(out)@.len(),
    ensures
        final(out)@ == nat_le_bytes(num@, 8 * S as nat) + old(out)@.subrange(8 * S, old(out)@.len() as int),
{
    write_digits(num, out, 0);
    proof {
        lemma_digits_le_bytes_value(num.digits@);
        assert(old(out)@.subrange(0, 0) =~= Seq::<u8>::empty());
        assert(Seq::<u8>::empty() + digits_le_bytes(num.digits@) =~= digits_le_bytes(num.digits@));
    }
}

/// Writes the 64 bytes of a point to the start of `out`.
pub fn point_to_bytes(pnt: &Point, out: &mut [u8])
    requires
        64 <= old(out)@.len(),
    ensures
        final(out)@ == point_le_bytes(pnt@) + old(out)@.subrange(64, old(out)@.len() as int),
{
    let ghost orig = out@;
    write_digits(&pnt.0, out, 0);
    write_digits(&pnt.1, out, 32);
    proof {
        lemma_digits_le_bytes_value(pnt.0.digits@);
        lemma_digits_le_bytes_value(pnt.1.digits@);
        lemma_digits_le_bytes(pnt.0.digits@);
        lemma_digits_le_bytes(pnt.1.digits@);
        assert(out@ =~= point_le_bytes(pnt@) + orig.subrange(64, orig.len() as int));
    }
}

/// The SHA-256 digest of the message, the bytes of all public keys and the bytes of
/// `extra_point`.
pub fn compound_hash(message: &[u8], pub_keys: &[Point], extra_point: &Point) -> (r: [u8; 32])
    ensures
        r@ == lhash_sha256(message@ + points_le_bytes(pub_keys@) + point_le_bytes(extra_point@)),
{
    let mut buf: Vec<u8> = Vec::new();
    buf.extend_from_slice(message);
    proof {
        assert(buf@ =~= message@);
    }
    let mut local_buf = [0u8; 64];
    let mut i: usize = 0;
    while i < pub_keys.len()
        invariant
            i <= pub_keys@.len(),
            local_buf@.len() == 64,
            buf@ == message@ + points_le_bytes(pub_keys@.take(i as int)),
        decreases pub_keys@.len() - i,
    {
        point_to_bytes(&pub_keys[i], &mut local_buf);
        buf.extend_from_slice(&local_buf);
        proof {
            assert(pub_keys@.take(i + 1).drop_last() =~= pub_keys@.take(i as int));
            assert(local_buf@ =~= point_le_bytes(pub_keys@[i as int]@));
            assert(buf@ =~= message@ + points_le_bytes(pub_keys@.take(i + 1)));
        }
        i = i + 1;
    }
    point_to_bytes(extra_point, &mut local_buf);
    buf.extend_from_slice(&local_buf);
    proof {
        assert(pub_keys@.take(i as int) =~= pub_keys@);
        assert(local_buf@ =~= point_le_bytes(extra_point@));
        assert(buf@ =~= message@ + points_le_bytes(pub_keys@) + point_le_bytes(extra_point@));
    }
    sha256_digest(buf.as_slice())
}

/// The generator as a pair of coordinates.
pub open spec fn spec_generator() -> (nat, nat) {
    (spec_generator_x(), spec_generator_y())
}

/// The number of ring members: the 32-bit little-endian number at the start.
pub open spec fn sig_count(sig: Seq<u8>) -> nat {
    bytes_value(sig.subrange(0, 4))
}

/// The first challenge: the 32 little-endian bytes after the count.
pub open spec fn sig_c0(sig: Seq<u8>) -> nat {
    bytes_value(sig.subrange(4, 36))
}

/// Where the 96 bytes of ring member `i` start: response, then public key x and y.
pub open spec fn member_start(i: nat) -> int {
    (36 + 96 * i) as int
}

/// The response of ring member `i`.
pub open spec fn sig_response(sig: Seq<u8>, i: nat) -> nat {
    bytes_value(sig.subrange(member_start(i), member_start(i) + 32))
}

/// The public key of ring member `i`.
pub open spec fn sig_key(sig: Seq<u8>, i: nat) -> (nat, nat) {
    (
        bytes_value(sig.subrange(member_start(i) + 32, member_start(i) + 64)),
        bytes_value(sig.subrange(member_start(i) + 64, member_start(i) + 96)),
    )
}

/// The bytes of the public keys of the first `i` ring members, as they stand in the
/// signature.
pub open spec fn sig_keys_bytes(sig: Seq<u8>, i: nat) -> Seq<u8>
    decreases i,
{
    if i == 0 {
        Seq::empty()
    } else {
        sig_keys_bytes(sig, (i - 1) as nat) + sig.subrange(
            member_start((i - 1) as nat) + 32,
            member_start((i - 1) as nat) + 96,
        )
    }
}

/// The point of ring member `i` for the challenge `c`: `r_i G + c K_i`.
pub open spec fn ring_point(sig: Seq<u8>, i: nat, c: nat) -> (nat, nat) {
    spec_point_add(spec_kmul(sig_response(sig, i), spec_generator()), spec_kmul(c, sig_key(sig, i)))
}

/// The challenge after `i` ring members: the first from the signature, each next the hash of
/// the message, all public keys and the point of the member before.
pub open spec fn ring_challenge(message: Seq<u8>, sig: Seq<u8>, i: nat) -> nat
    decreases i,
{
    if i == 0 {
        sig_c0(sig)
    } else {
        let c = ring_challenge(message, sig, (i - 1) as nat);
        bytes_value(
            lhash_sha256(
                message + sig_keys_bytes(sig, sig_count(sig)) + point_le_bytes(
                    ring_point(sig, (i - 1) as nat, c),
                ),
            ),
        )
    }
}

/// The signature holds its count, at least one member, and all members.
pub open spec fn ecc_signature_well_formed(sig: Seq<u8>) -> bool {
    &&& sig.len() >= 4
    &&& sig_count(sig) >= 1
    &&& sig.len() >= member_start(sig_count(sig))
}

/// The point computations of ring member `i` complete.
pub open spec fn ring_step_ok(message: Seq<u8>, sig: Seq<u8>, i: nat) -> bool {
    let c = ring_challenge(message, sig, i);
    &&& kmul_ok(sig_response(sig, i), spec_generator())
    &&& kmul_ok(c, sig_key(sig, i))
    &&& point_add_ok(
        spec_kmul(sig_response(sig, i), spec_generator()),
        spec_kmul(c, sig_key(sig, i)),
    )
}

/// The point computations of all ring members complete.
pub open spec fn ring_ok(message: Seq<u8>, sig: Seq<u8>) -> bool {
    forall|i: nat| i < sig_count(sig) ==> #[trigger] ring_step_ok(message, sig, i)
}

/// The ring closes: the challenge after all members is the first one.
pub open spec fn ring_closes(message: Seq<u8>, sig: Seq<u8>) -> bool {
    ring_challenge(message, sig, sig_count(sig)) == sig_c0(sig)
}

/// Verifies a ring signature on secp256k1: `Ok` when the challenge after all ring members
/// equals the first, else `Err("Bad signature")`.
pub fn check_hash_ecc(message: &[u8], signature: &[u8]) -> (r: Result<(), &'static str>)
    requires
        ecc_signature_well_formed(signature@),
        ring_ok(message@, signature@),
    ensures
        r is Ok <==> ring_closes(message@, signature@),
        r matches Err(e) ==> e == "Bad signature",
        ring_challenge(message@, signature@, sig_count(signature@)) < pow2(256),
{
    let buf = signature;
    let ghost sig = signature@;
    let ghost count = sig_count(sig);
    let len = buf.len();
    let n = u32_from_le_bytes_at(buf, 0) as usize;
    let c0 = read_le_uint::<4>(buf, 4);
    let mut r: Vec<BigUint<4>> = Vec::new();
    let mut pub_keys: Vec<Point> = Vec::new();
    let start_offset: usize = 4 + 32;
    let mut i: usize = 0;
    while i < n
        invariant
            n == count,
            count == sig_count(sig),
            len == sig.len(),
            i <= n,
            sig == buf@,
            ecc_signature_well_formed(sig),
            start_offset == 36,
            r@.len() == i,
            pub_keys@.len() == i,
            forall|j: int| 0 <= j < i ==> (#[trigger] r@[j])@ == sig_response(sig, j as nat),
            forall|j: int| 0 <= j < i ==> (#[trigger] pub_keys@[j])@ == sig_key(sig, j as nat),
            points_le_bytes(pub_keys@) == sig_keys_bytes(sig, i as nat),
        decreases n - i,
    {
        let ghost old_keys = pub_keys@;
        let ghost old_r = r@;
        assert(36 + 96 * i + 96 <= len) by {
            assert(member_start(count) == 36 + 96 * count);
        }
        let curr_sec_off = start_offset + i * 96;
        r.push(read_le_uint::<4>(buf, curr_sec_off));
        let p1 = read_le_uint::<4>(buf, curr_sec_off + 32);
        let p2 = read_le_uint::<4>(buf, curr_sec_off + 32 * 2);
        pub_keys.push(Point(p1, p2));
        proof {
            lemma_bytes_of_value(sig.subrange(curr_sec_off + 32, curr_sec_off + 64));
            lemma_bytes_of_value(sig.subrange(curr_sec_off + 64, curr_sec_off + 96));
            let off = curr_sec_off as int;
            assert(off == member_start(i as nat));
            assert(pub_keys@.drop_last() =~= old_keys);
            assert(sig.subrange(off + 32, off + 96) =~= sig.subrange(off + 32, off + 64)
                + sig.subrange(off + 64, off + 96));
            assert(points_le_bytes(pub_keys@) == sig_keys_bytes(sig, (i + 1) as nat));
            assert forall|j: int| 0 <= j < i + 1 implies (#[trigger] r@[j])@ == sig_response(sig, j as nat) by {
                if j < i {
                    assert(r@[j] == old_r[j]);
                }
            }
            assert forall|j: int| 0 <= j < i + 1 implies (#[trigger] pub_keys@[j])@ == sig_key(sig, j as nat) by {
                if j < i {
                    assert(pub_keys@[j] == old_keys[j]);
                }
            }
        }
        i = i + 1;
    }
    let mut c: Vec<BigUint<4>> = Vec::new();
    let mut j: usize = 0;
    while j < n
        invariant
            j <= n,
            c@.len() == j,
        decreases n - j,
    {
        c.push(bu_small::<4>(0));
        j = j + 1;
    }
    c.set(0, c0);
    let g = generator();
    let mut i: usize = 0;
    while i < n
        invariant
            n == count,
            count == sig_count(sig),
            i <= n,
            n >= 1,
            sig == buf@,
            c@.len() == n,
            r@.len() == n,
            pub_keys@.len() == n,
            g@ == spec_generator(),
            forall|j: int| 0 <= j < n ==> (#[trigger] r@[j])@ == sig_response(sig, j as nat),
            forall|j: int| 0 <= j < n ==> (#[trigger] pub_keys@[j])@ == sig_key(sig, j as nat),
            points_le_bytes(pub_keys@) == sig_keys_bytes(sig, count),
            ring_ok(message@, sig),
            i < n ==> c@[i as int]@ == ring_challenge(message@, sig, i as nat),
            i == n ==> c@[0]@ == ring_challenge(message@, sig, n as nat),
        decreases n - i,
    {
        let pub_key = pub_keys[i];
        proof {
            assert(ring_step_ok(message@, sig, i as nat));
        }
        let rg = kmul(r[i], g);
        let ck = kmul(c[i], pub_key);
        let rgck = point_add(rg, ck);
        let h = compound_hash(message, pub_keys.as_slice(), &rgck);
        proof {
            lemma_bytes_value_bound(h@);
            lemma_width_bound_4_8();
            assert(pow2(256) == width_bound(4));
        }
        let next = bu_from_le_slice::<4>(&h).unwrap();
        proof {
            if i + 1 < n {
                lemma_small_mod((i + 1) as nat, n as nat);
            } else {
                lemma_mod_self_0(n as int);
            }
        }
        c.set((i + 1) % n, next);
        i = i + 1;
    }
    proof {
        lemma_digits_value_bound(c@[0].digits@);
        lemma_width_bound_4_8();
        assert(pow2(256) == width_bound(4));
    }
    if !bu_eq(&c0, &c[0]) {
        return Err("Bad signature");
    }
    Ok(())
}

/// Whether a value of four digits is at most the field prime.
pub fn at_most_field_prime(v: &BigUint<4>) -> (r: bool)
    ensures
        r == (v@ <= spec_field_prime()),
{
    proof {
        lemma_digits_value_4(v.digits@);
    }
    let top = v.digits[1] == u64::MAX && v.digits[2] == u64::MAX && v.digits[3] == u64::MAX;
    !(top && v.digits[0] > 0xFFFF_FFFE_FFFF_FC2Fu64)
}

/// Verifies a ring signature as `check_hash_ecc` does, after testing at run time that the
/// signature holds at least one member, all of its members, and public keys with
/// coordinates at most the field prime: `None` where it does not, else `Some` of the
/// verdict.
pub fn check_hash_ecc_checked(message: &[u8], signature: &[u8]) -> (r: Option<Result<(), &'static str>>)
    ensures
        r is Some <==> ecc_signature_well_formed(signature@) && forall|i: nat|
            i < sig_count(signature@) ==> coords_bounded(#[trigger] sig_key(signature@, i)),
        r matches Some(v) ==> (v is Ok <==> ring_closes(message@, signature@)),
        r is Some ==> ring_challenge(message@, signature@, sig_count(signature@)) < pow2(256),
        r matches Some(Err(e)) ==> e == "Bad signature",
{
    let ghost sig = signature@;
    let len = signature.len();
    if len < 4 {
        return None;
    }
    let n = u32_from_le_bytes_at(signature, 0);
    if n == 0 || (len as u64) < 36 + 96 * (n as u64) {
        return None;
    }
    assert(ecc_signature_well_formed(sig));
    let mut i: u32 = 0;
    while i < n
        invariant
            n == sig_count(sig),
            len == sig.len(),
            sig == signature@,
            ecc_signature_well_formed(sig),
            i <= n,
            forall|j: nat| j < i ==> coords_bounded(#[trigger] sig_key(sig, j)),
        decreases n - i,
    {
        assert(member_start(i as nat) + 96 <= len) by {
            assert(member_start(n as nat) == 36 + 96 * n);
        }
        let off = 36 + 96 * (i as usize);
        let x = read_le_uint::<4>(signature, off + 32);
        let y = read_le_uint::<4>(signature, off + 64);
        if !at_most_field_prime(&x) || !at_most_field_prime(&y) {
            assert(!coords_bounded(sig_key(sig, i as nat)));
            return None;
        }
        assert(coords_bounded(sig_key(sig, i as nat)));
        i = i + 1;
    }
    proof {
        lemma_ring_ok_bounded_keys(message@, sig);
    }
    Some(check_hash_ecc(message, signature))
}

/// The generator's coordinates are below the prime.
pub proof fn lemma_generator_bounded()
    ensures
        coords_bounded(spec_generator()),
{
}

/// Where every public key of the signature has coordinates at most the prime, all point
/// computations of `check_hash_ecc` complete.
pub proof fn lemma_ring_ok_bounded_keys(message: Seq<u8>, sig: Seq<u8>)
    requires
        forall|i: nat| i < sig_count(sig) ==> coords_bounded(#[trigger] sig_key(sig, i)),
    ensures
        ring_ok(message, sig),
{
    assert forall|i: nat| i < sig_count(sig) implies #[trigger] ring_step_ok(message, sig, i) by {
        let c = ring_challenge(message, sig, i);
        let r = sig_response(sig, i);
        lemma_kmul_bounded(r, spec_generator(), (0, 0));
        lemma_kmul_bounded(c, sig_key(sig, i), (0, 0));
        lemma_point_add_bounded(spec_kmul(r, spec_generator()), spec_kmul(c, sig_key(sig, i)));
    }
}

/// Appending bytes after the members keeps every field of the first `n` members, and their
/// key bytes.
proof fn lemma_ecc_fields_append(sig: Seq<u8>, extra: Seq<u8>, n: nat)
    requires
        sig.len() >= member_start(n),
    ensures
        forall|i: nat| i < n ==> #[trigger] sig_response(sig + extra, i) == sig_response(sig, i),
        forall|i: nat| i < n ==> #[trigger] sig_key(sig + extra, i) == sig_key(sig, i),
        sig_keys_bytes(sig + extra, n) == sig_keys_bytes(sig, n),
    decreases n,
{
    let t = sig + extra;
    if n > 0 {
        let j = (n - 1) as nat;
        lemma_ecc_fields_append(sig, extra, j);
        let s = member_start(j);
        assert(t.subrange(s, s + 32) =~= sig.subrange(s, s + 32));
        assert(t.subrange(s + 32, s + 64) =~= sig.subrange(s + 32, s + 64));
        assert(t.subrange(s + 64, s + 96) =~= sig.subrange(s + 64, s + 96));
        assert(t.subrange(s + 32, s + 96) =~= sig.subrange(s + 32, s + 96));
    }
}

/// Appending bytes after the members keeps the challenges along the ring.
proof fn lemma_ecc_challenges_append(message: Seq<u8>, sig: Seq<u8>, extra: Seq<u8>, i: nat)
    requires
        sig.len() >= 36,
        sig.len() >= member_start(sig_count(sig)),
        i <= sig_count(sig),
    ensures
        ring_challenge(message, sig + extra, i) == ring_challenge(message, sig, i),
    decreases i,
{
    let t = sig + extra;
    assert(t.subrange(0, 4) =~= sig.subrange(0, 4));
    assert(t.subrange(4, 36) =~= sig.subrange(4, 36));
    lemma_ecc_fields_append(sig, extra, sig_count(sig));
    if i > 0 {
        lemma_ecc_challenges_append(message, sig, extra, (i - 1) as nat);
        let j = (i - 1) as nat;
        assert(sig_response(t, j) == sig_response(sig, j));
        assert(sig_key(t, j) == sig_key(sig, j));
    }
}

/// Law: bytes after the last ring member change neither whether `check_hash_ecc` may be
/// called on a signature nor its verdict.
pub proof fn law_check_hash_ecc_ignores_trailing_bytes(message: Seq<u8>, sig: Seq<u8>, extra: Seq<u8>)
    requires
        ecc_signature_well_formed(sig),
    ensures
        ecc_signature_well_formed(sig + extra),
        ring_ok(message, sig + extra) == ring_ok(message, sig),
        ring_closes(message, sig + extra) == ring_closes(message, sig),
{
    let t = sig + extra;
    let n = sig_count(sig);
    assert(t.subrange(0, 4) =~= sig.subrange(0, 4));
    assert(t.subrange(4, 36) =~= sig.subrange(4, 36));
    assert(member_start(n) >= 36);
    lemma_ecc_fields_append(sig, extra, n);
    assert forall|i: nat| i < n implies #[trigger] ring_step_ok(message, t, i)
        == ring_step_ok(message, sig, i) by {
        lemma_ecc_challenges_append(message, sig, extra, i);
        assert(sig_response(t, i) == sig_response(sig, i));
        assert(sig_key(t, i) == sig_key(sig, i));
    }
    if ring_ok(message, sig) {
        assert forall|i: nat| i < sig_count(t) implies #[trigger] ring_step_ok(message, t, i) by {
            assert(ring_step_ok(message, sig, i));
        }
    }
    if ring_ok(message, t) {
        assert forall|i: nat| i < n implies #[trigger] ring_step_ok(message, sig, i) by {
            assert(ring_step_ok(message, t, i));
        }
    }
    lemma_ecc_challenges_append(message, sig, extra, n);
}

/// Law: the key bytes that every challenge hashes are the 64 bytes of each member's public
/// key (x then y, as they stand in the signature), member after member.
pub proof fn law_sig_keys_bytes(sig: Seq<u8>, n: nat)
    requires
        sig.len() >= member_start(n),
    ensures
        sig_keys_bytes(sig, n).len() == 64 * n,
        forall|j: int, t: int| 0 <= j < n && 0 <= t < 64 ==> #[trigger] sig_keys_bytes(sig, n)[64 * j + t]
            == sig[36 + 96 * j + 32 + t],
    decreases n,
{
    if n > 0 {
        let m = (n - 1) as nat;
        law_sig_keys_bytes(sig, m);
        let prev = sig_keys_bytes(sig, m);
        let s = member_start(m);
        let last = sig.subrange(s + 32, s + 96);
        assert forall|j: int, t: int| 0 <= j < n && 0 <= t < 64 implies #[trigger] sig_keys_bytes(sig, n)[64 * j + t]
            == sig[36 + 96 * j + 32 + t] by {
            if j < m {
                assert(64 * j + t < 64 * m) by (nonlinear_arith) requires j < m, t < 64, 0 <= t;
                assert(sig_keys_bytes(sig, m)[64 * j + t] == sig[36 + 96 * j + 32 + t]);
            } else {
                assert(j == m);
                assert(64 * j + t - 64 * m == t);
            }
        }
    }
}

/// Law: each next challenge of the ring is the little-endian value of the SHA-256 digest of
/// the whole message, the key bytes of all members, and the 64 bytes of the point
/// `r_i G + c_i K_i`, where `r_i` and `K_i` are the response and public key of member `i` as
/// they stand in the signature and `c_i` is the challenge before.
pub proof fn law_ring_challenge_step(message: Seq<u8>, sig: Seq<u8>, i: nat)
    requires
        ecc_signature_well_formed(sig),
        i < sig_count(sig),
    ensures
        ({
            let s = 36 + 96 * (i as int);
            let r = bytes_value(sig.subrange(s, s + 32));
            let key = (bytes_value(sig.subrange(s + 32, s + 64)), bytes_value(sig.subrange(s + 64, s + 96)));
            let c = ring_challenge(message, sig, i);
            let pt = spec_point_add(spec_kmul(r, spec_generator()), spec_kmul(c, key));
            ring_challenge(message, sig, i + 1) == bytes_value(
                lhash_sha256(message + sig_keys_bytes(sig, sig_count(sig)) + point_le_bytes(pt)),
            )
        }),
        ring_challenge(message, sig, 0) == bytes_value(sig.subrange(4, 36)),
        sig_count(sig) == bytes_value(sig.subrange(0, 4)),
        ring_closes(message, sig) <==> ring_challenge(message, sig, sig_count(sig))
            == bytes_value(sig.subrange(4, 36)),
{
}

/// The point doubled `j` times: `2^j` times it.
pub open spec fn spec_double_n(j: nat, pt: (nat, nat)) -> (nat, nat)
    decreases j,
{
    if j == 0 {
        pt
    } else {
        spec_double_n((j - 1) as nat, spec_point_add(pt, pt))
    }
}

/// Adding a top bit `2^j` to a scalar below it adds the point doubled `j` times, last.
proof fn lemma_kmul_from_top_bit(k: nat, j: nat, q: (nat, nat), acc: (nat, nat))
    requires
        k < pow2(j),
    ensures
        spec_kmul_from(k + pow2(j), q, acc) == spec_point_add(spec_kmul_from(k, q, acc), spec_double_n(j, q)),
    decreases j,
{
    if j == 0 {
        assert(pow2(0) == 1) by { lemma2_to64(); }
        assert(k == 0);
        assert(spec_kmul_from(1, q, acc) == spec_kmul_from(0, spec_point_add(q, q), spec_point_add(acc, q)));
    } else {
        let jm = (j - 1) as nat;
        lemma_pow2_unfold(j);
        let h = pow2(jm);
        let kk = k + pow2(j);
        assert(kk / 2 == k / 2 + h && kk % 2 == k % 2) by {
            assert(kk == 2 * (k / 2 + h) + k % 2);
        }
        assert(k / 2 < h);
        let next = if k % 2 == 1 { spec_point_add(acc, q) } else { acc };
        lemma_kmul_from_top_bit(k / 2, jm, spec_point_add(q, q), next);
        if k == 0 {
            assert(spec_kmul_from(0, spec_point_add(q, q), acc) == acc);
        }
    }
}

/// Law: scalar multiplication by double and add uses every bit of the scalar: for `k`
/// below `2^j`, multiplying by `k + 2^j` is the multiple by `k` plus the point doubled `j`
/// times. With `spec_kmul(0, pt) == (0, 0)` this fixes the multiple of every scalar, bit by
/// bit; in particular the multiple by `2^j` is the point doubled `j` times.
pub proof fn law_kmul_top_bit(k: nat, j: nat, pt: (nat, nat))
    requires
        k < pow2(j),
    ensures
        spec_kmul(k + pow2(j), pt) == spec_point_add(spec_kmul(k, pt), spec_double_n(j, pt)),
        spec_kmul(pow2(j), pt) == spec_double_n(j, pt),
{
    lemma_kmul_from_top_bit(k, j, pt, (0, 0));
    lemma_pow2_pos(j);
    lemma_kmul_from_top_bit(0, j, pt, (0, 0));
    assert(spec_kmul(0, pt) == (0nat, 0nat));
    assert(spec_point_add((0, 0), spec_double_n(j, pt)) == spec_double_n(j, pt));
}

/// Law: the 64 bytes of a point are the 32 little-endian bytes of its x coordinate, then
/// those of its y coordinate.
pub proof fn law_point_le_bytes(pt: (nat, nat))
    ensures
        point_le_bytes(pt).len() == 64,
        bytes_value(point_le_bytes(pt).subrange(0, 32)) == pt.0 % pow2(256),
        bytes_value(point_le_bytes(pt).subrange(32, 64)) == pt.1 % pow2(256),
{
    law_nat_le_bytes_value(pt.0, 32);
    law_nat_le_bytes_value(pt.1, 32);
    let b = point_le_bytes(pt);
    assert(b.subrange(0, 32) =~= nat_le_bytes(pt.0, 32));
    assert(b.subrange(32, 64) =~= nat_le_bytes(pt.1, 32));
}

/// Law: the bytes of a sequence of points are the 64 bytes of each point, one after the
/// other.
pub proof fn law_points_le_bytes(pts: Seq<Point>)
    ensures
        points_le_bytes(pts).len() == 64 * pts.len(),
        forall|j: int| 0 <= j < pts.len() ==> #[trigger] points_le_bytes(pts).subrange(64 * j, 64 * j + 64)
            == point_le_bytes(pts[j]@),
    decreases pts.len(),
{
    if pts.len() > 0 {
        let init = pts.drop_last();
        law_points_le_bytes(init);
        law_point_le_bytes(pts.last()@);
        let b = points_le_bytes(pts);
        let m = init.len() as int;
        assert forall|j: int| 0 <= j < pts.len() implies #[trigger] points_le_bytes(pts).subrange(64 * j, 64 * j + 64)
            == point_le_bytes(pts[j]@) by {
            if j < m {
                assert(64 * j + 64 <= 64 * m) by (nonlinear_arith) requires j < m;
                assert(b.subrange(64 * j, 64 * j + 64) =~= points_le_bytes(init).subrange(64 * j, 64 * j + 64));
                assert(init[j] == pts[j]);
            } else {
                assert(j == m);
                assert(b.subrange(64 * j, 64 * j + 64) =~= point_le_bytes(pts.last()@));
            }
        }
    }
}

/// Law: the point `(0, 0)` is the neutral element of `point_add` on either side, and a point
/// plus the point with the opposite y coordinate is `(0, 0)`.
pub proof fn law_point_add_neutral(pt: (nat, nat))
    ensures
        spec_point_add((0, 0), pt) == pt,
        spec_point_add(pt, (0, 0)) == pt,
        point_add_ok((0, 0), pt),
        point_add_ok(pt, (0, 0)),
        !is_infinity(pt) && pt.1 < spec_field_prime() ==> spec_point_add(
            pt,
            (pt.0, (spec_field_prime() - pt.1) as nat),
        ) == (0nat, 0nat),
{
    let p = spec_field_prime() as int;
    if !is_infinity(pt) && pt.1 < spec_field_prime() {
        let q = (pt.0, (spec_field_prime() - pt.1) as nat);
        assert((pt.1 + q.1) as int == p);
        lemma_mod_self_0(p);
        assert(!is_infinity(q));
    }
}

/// The inverse of the negation of `d` modulo the field prime is the negation of its inverse.
pub proof fn lemma_field_inverse_neg(d: nat)
    requires
        0 < d < spec_field_prime(),
        coprime(d as int, spec_field_prime() as int),
    ensures
        0 < field_inverse(d) < spec_field_prime(),
        (d * field_inverse(d)) % spec_field_prime() == 1,
        field_inverse((spec_field_prime() - d) as nat) == spec_field_prime() - field_inverse(d),
{
    reveal(field_inverse);
    let p = spec_field_prime() as int;
    let inv = field_inverse(d) as int;
    law_inverse_mod_inverts(d, spec_field_prime());
    if inv == 0 {
        assert(d * 0 == 0);
        lemma_small_mod(0, spec_field_prime());
    }
    let nd = p - d;
    let ninv = p - inv;
    // (p - d)(p - inv) == d inv + p (p - d - inv)
    assert(nd * ninv == d * inv + p * (p - d - inv)) by (nonlinear_arith)
        requires nd == p - d, ninv == p - inv;
    lemma_mod_multiples_vanish(p - d - inv, d * inv, p);
    lemma_mul_is_commutative(p, p - d - inv);
    lemma_invertible_coprime(nd, ninv, p);
    law_inverse_mod_inverts(nd as nat, spec_field_prime());
    lemma_inverse_unique(nd, field_inverse(nd as nat) as int, ninv, p);
}

/// The slope of the chord through two points with coordinates below the prime, where the
/// difference of their x coordinates is coprime to the prime, times that difference is the
/// difference of their y coordinates, modulo the prime.
pub proof fn lemma_chord_slope(p1: (nat, nat), p2: (nat, nat))
    requires
        p1 != p2,
        p1.0 < spec_field_prime(),
        p2.0 < spec_field_prime(),
        coprime((p1.0 - p2.0) % (spec_field_prime() as int), spec_field_prime() as int),
    ensures
        (spec_slope(p1, p2) * (p1.0 - p2.0)) % (spec_field_prime() as int)
            == (p1.1 - p2.1) % (spec_field_prime() as int),
{
    let p = spec_field_prime() as int;
    let (x1, y1, x2, y2) = (p1.0 as int, p1.1 as int, p2.0 as int, p2.1 as int);
    let d = (x1 - x2) % p;
    lemma_mod_bound(x1 - x2, p);
    reveal(field_inverse);
    law_inverse_mod_inverts(d as nat, spec_field_prime());
    let inv = field_inverse(d as nat) as int;
    reveal(spec_slope);
    let k = spec_slope(p1, p2);
    assert(k == ((y1 - y2) * inv) % p);
    lemma_mod_twice((y1 - y2) * inv, p);
    lemma_mod_mul_compat(k, (y1 - y2) * inv, x1 - x2, p);
    lemma_mod_twice(x1 - x2, p);
    lemma_mod_mul_compat(x1 - x2, d, inv, p);
    lemma_mul_mod_noop_right(y1 - y2, (x1 - x2) * inv, p);
    lemma_mul_mod_noop_right(y1 - y2, d * inv, p);
    lemma_mul_is_commutative(d, inv);
    assert(((y1 - y2) * inv) * (x1 - x2) == (y1 - y2) * ((x1 - x2) * inv)) by (nonlinear_arith);
    assert((d * inv) % p == 1);
    assert(((y1 - y2) * 1) % p == (y1 - y2) % p);
}

/// The slope of the tangent at a point with coordinates below the prime, where twice its y
/// coordinate is coprime to the prime, times twice that y coordinate is three times the
/// square of its x coordinate, modulo the prime.
pub proof fn lemma_tangent_slope(p1: (nat, nat))
    requires
        coprime((2 * p1.1) as int % (spec_field_prime() as int), spec_field_prime() as int),
    ensures
        (spec_slope(p1, p1) * (2 * p1.1)) as int % (spec_field_prime() as int)
            == (3 * p1.0 * p1.0) as int % (spec_field_prime() as int),
{
    let p = spec_field_prime() as int;
    let (x1, y1) = (p1.0 as int, p1.1 as int);
    let d = (2 * y1) % p;
    lemma_mod_bound(2 * y1, p);
    reveal(field_inverse);
    law_inverse_mod_inverts(d as nat, spec_field_prime());
    let inv = field_inverse(d as nat) as int;
    reveal(spec_slope);
    let k = spec_slope(p1, p1);
    let t = 3 * x1 * x1;
    assert(k == (t * inv) % p);
    lemma_mod_twice(t * inv, p);
    lemma_mod_mul_compat(k, t * inv, 2 * y1, p);
    lemma_mod_twice(2 * y1, p);
    lemma_mod_mul_compat(2 * y1, d, inv, p);
    lemma_mul_mod_noop_right(t, (2 * y1) * inv, p);
    lemma_mul_mod_noop_right(t, d * inv, p);
    lemma_mul_is_commutative(d, inv);
    assert((t * inv) * (2 * y1) == t * ((2 * y1) * inv)) by (nonlinear_arith);
    assert((d * inv) % p == 1);
    assert((t * 1) % p == t % p);
}

/// Law: on points with coordinates below the field prime whose sum is not decided early, and
/// whose chord (or tangent) denominator is coprime to the prime (as every nonzero one is, the
/// field prime being prime), `point_add` gives the affine sum on the curve: with `k` the
/// slope, `k (x1 - x2) == y1 - y2` for distinct points, `k 2 y1 == 3 x1^2` for equal ones,
/// `x3 == k^2 - x1 - x2` and `y3 == k (x1 - x3) - y1`, all modulo the prime.
pub proof fn law_point_add_affine_sum(p1: (nat, nat), p2: (nat, nat))
    requires
        p1.0 < spec_field_prime(),
        p1.1 < spec_field_prime(),
        p2.0 < spec_field_prime(),
        p2.1 < spec_field_prime(),
        !point_add_trivial(p1, p2),
        p1 != p2 ==> coprime((p1.0 - p2.0) % (spec_field_prime() as int), spec_field_prime() as int),
        p1 == p2 ==> coprime((2 * p1.1) as int % (spec_field_prime() as int), spec_field_prime() as int),
    ensures
        0 <= spec_slope(p1, p2) < spec_field_prime(),
        p1 != p2 ==> (spec_slope(p1, p2) * (p1.0 - p2.0)) % (spec_field_prime() as int)
            == (p1.1 - p2.1) % (spec_field_prime() as int),
        p1 == p2 ==> (spec_slope(p1, p2) * (2 * p1.1)) % (spec_field_prime() as int)
            == (3 * p1.0 * p1.0) as int % (spec_field_prime() as int),
        spec_point_add(p1, p2).0 == (spec_slope(p1, p2) * spec_slope(p1, p2) - p1.0 - p2.0)
            % (spec_field_prime() as int),
        spec_point_add(p1, p2).1 == (spec_slope(p1, p2) * (p1.0 - spec_point_add(p1, p2).0)
            - p1.1) % (spec_field_prime() as int),
{
    let p = spec_field_prime() as int;
    reveal(spec_slope);
    reveal(sum_x);
    reveal(sum_y);
    let k = spec_slope(p1, p2);
    if p1 != p2 {
        lemma_mod_bound((p1.1 - p2.1) * field_inverse(((p1.0 - p2.0) % p) as nat), p);
        lemma_chord_slope(p1, p2);
    } else {
        lemma_mod_bound((3 * p1.0 * p1.0 * field_inverse(((2 * p1.1) as int % p) as nat)) as int, p);
        lemma_tangent_slope(p1);
    }
    let x3 = sum_x(k, p1.0 as int, p2.0 as int);
    lemma_mod_bound(k * k - p1.0 - p2.0, p);
    lemma_mod_bound(k * (p1.0 - x3) - p1.1, p);
}

/// A point of secp256k1: coordinates below the prime with `y^2 == x^3 + 7` modulo it.
pub open spec fn on_curve(pt: (nat, nat)) -> bool {
    &&& pt.0 < spec_field_prime()
    &&& pt.1 < spec_field_prime()
    &&& (pt.1 * pt.1) as int % (spec_field_prime() as int)
        == (pt.0 * pt.0 * pt.0 + 7) as int % (spec_field_prime() as int)
}

/// `a` is a multiple of the field prime.
pub open spec fn zmod(a: int) -> bool {
    a % (spec_field_prime() as int) == 0
}

/// Multiples of the prime stay multiples when multiplied by anything.
proof fn lemma_zmod_mul(a: int, c: int)
    requires
        zmod(a),
    ensures
        zmod(a * c),
        zmod(c * a),
{
    let p = spec_field_prime() as int;
    lemma_mul_mod_noop_left(a, c, p);
    lemma_mul_is_commutative(a, c);
    assert(0 * c == 0);
}

/// Sums and differences of multiples of the prime are multiples of it.
proof fn lemma_zmod_add(a: int, b: int)
    requires
        zmod(a),
        zmod(b),
    ensures
        zmod(a + b),
        zmod(a - b),
{
    let p = spec_field_prime() as int;
    lemma_add_mod_noop(a, b, p);
    lemma_sub_mod_noop(a, b, p);
}

/// Two numbers are congruent modulo the prime exactly when their difference is a multiple.
proof fn lemma_cong_zmod(a: int, b: int)
    ensures
        (a % (spec_field_prime() as int) == b % (spec_field_prime() as int)) <==> zmod(a - b),
{
    let p = spec_field_prime() as int;
    lemma_sub_mod_noop(a, b, p);
    lemma_add_mod_noop(b, a - b, p);
    lemma_mod_twice(b, p);
    lemma_mod_bound(a, p);
    lemma_mod_bound(b, p);
    if zmod(a - b) {
        assert(b + (a - b) == a);
    }
    if a % p == b % p {
        lemma_small_mod(0, p as nat);
    }
}

/// A number minus its remainder is a multiple of the prime.
proof fn lemma_zmod_reduce(x: int)
    ensures
        zmod(x - x % (spec_field_prime() as int)),
{
    let p = spec_field_prime() as int;
    lemma_fundamental_div_mod(x, p);
    lemma_mod_multiples_basic(x / p, p);
    lemma_mul_is_commutative(p, x / p);
}

/// The cubic `x^3 + 7 - (k (x - x1) + y1)^2` less `(x - x1)(x - x2)(x - x3)`, for
/// `x3 = k^2 - x1 - x2`, is the line `alpha x + beta`.
proof fn lemma_chord_cubic(k: int, x1: int, y1: int, x2: int, x: int)
    ensures
        ({
            let x3 = k * k - x1 - x2;
            let alpha = 2 * k * k * x1 - 2 * k * y1 - (x1 * x2 + x1 * x3 + x2 * x3);
            let beta = 7 - (y1 - k * x1) * (y1 - k * x1) + x1 * x2 * x3;
            x * x * x + 7 - (k * (x - x1) + y1) * (k * (x - x1) + y1)
                == (x - x1) * (x - x2) * (x - x3) + alpha * x + beta
        }),
{
    let x3 = k * k - x1 - x2;
    let s = y1 - k * x1;
    let kk = k * k;
    let xx = x * x;
    let xxx = x * x * x;
    let ksx = k * s * x;
    let ss = s * s;
    let e2 = x1 * x2 + x1 * x3 + x2 * x3;
    let p3 = x1 * x2 * x3;
    let alpha = 2 * k * k * x1 - 2 * k * y1 - e2;
    let beta = 7 - (y1 - k * x1) * (y1 - k * x1) + p3;
    assert(k * (x - x1) + y1 == k * x + s) by (nonlinear_arith) requires s == y1 - k * x1;
    assert((k * x + s) * (k * x + s) == kk * xx + 2 * ksx + ss) by (nonlinear_arith)
        requires kk == k * k, xx == x * x, ksx == k * s * x, ss == s * s;
    let q = (x - x1) * (x - x2);
    assert(q == xx - (x1 + x2) * x + x1 * x2) by (nonlinear_arith)
        requires q == (x - x1) * (x - x2), xx == x * x;
    let a12 = x1 + x2;
    let m12 = x1 * x2;
    assert(q * (x - x3) == q * x - q * x3) by (nonlinear_arith);
    assert(q * x == xxx - a12 * xx + m12 * x) by (nonlinear_arith)
        requires q == xx - a12 * x + m12, xx == x * x, xxx == x * x * x;
    assert(q * x3 == xx * x3 - (a12 * x) * x3 + m12 * x3) by (nonlinear_arith)
        requires q == xx - a12 * x + m12;
    assert((a12 * x) * x3 == (x1 * x3 + x2 * x3) * x) by (nonlinear_arith) requires a12 == x1 + x2;
    assert(m12 * x3 == p3) by (nonlinear_arith) requires m12 == x1 * x2, p3 == x1 * x2 * x3;
    assert(a12 * xx + xx * x3 == (x1 + x2 + x3) * xx) by (nonlinear_arith) requires a12 == x1 + x2;
    assert(m12 * x + (x1 * x3 + x2 * x3) * x == e2 * x) by (nonlinear_arith)
        requires m12 == x1 * x2, e2 == x1 * x2 + x1 * x3 + x2 * x3;
    assert(q * (x - x3) == xxx - (x1 + x2 + x3) * xx + e2 * x - p3);
    assert((x1 + x2 + x3) * xx == kk * xx);
    assert(alpha == -2 * k * s - e2) by (nonlinear_arith)
        requires alpha == 2 * k * k * x1 - 2 * k * y1 - e2, s == y1 - k * x1;
    assert(alpha * x == -2 * ksx - e2 * x) by (nonlinear_arith)
        requires alpha == -2 * k * s - e2, ksx == k * s * x;
    assert(beta == 7 - ss + p3);
}

/// Where the cubic `x^3 + 7 - (k (x - x1) + y1)^2` vanishes modulo the prime at `x3`, the
/// point `(x3 mod p, (k (x1 - x3 mod p) - y1) mod p)` is on the curve.
proof fn lemma_third_point_on_curve(k: int, x1: int, y1: int, x3: int)
    requires
        zmod(x3 * x3 * x3 + 7 - (k * (x3 - x1) + y1) * (k * (x3 - x1) + y1)),
    ensures
        ({
            let p = spec_field_prime() as int;
            let rx = x3 % p;
            let ry = (k * (x1 - rx) - y1) % p;
            (ry * ry) % p == (rx * rx * rx + 7) % p
        }),
{
    let p = spec_field_prime() as int;
    let rx = x3 % p;
    let ry = (k * (x1 - rx) - y1) % p;
    let v = k * (x3 - x1) + y1;
    // rx == x3 and ry == -v modulo p
    lemma_zmod_reduce(x3);
    lemma_zmod_reduce(k * (x1 - rx) - y1);
    let e1 = x3 - rx;
    let e2 = (k * (x1 - rx) - y1) - ry;
    lemma_zmod_mul(e1, k);
    assert(ry + v == e1 * k - e2) by (nonlinear_arith)
        requires e1 == x3 - rx, e2 == (k * (x1 - rx) - y1) - ry, v == k * (x3 - x1) + y1;
    lemma_zmod_add(e1 * k, e2);
    // ry^2 - v^2 == (ry + v)(ry - v)
    lemma_zmod_mul(ry + v, ry - v);
    assert(ry * ry - v * v == (ry + v) * (ry - v)) by (nonlinear_arith);
    // rx^3 - x3^3 == -(x3 - rx)(rx^2 + rx x3 + x3^2)
    lemma_zmod_mul(e1, rx * rx + rx * x3 + x3 * x3);
    assert(x3 * x3 * x3 - rx * rx * rx == e1 * (rx * rx + rx * x3 + x3 * x3)) by (nonlinear_arith)
        requires e1 == x3 - rx;
    let f = x3 * x3 * x3 + 7 - v * v;
    // ry^2 - (rx^3 + 7) == (ry^2 - v^2) + (x3^3 - rx^3) - f
    assert(ry * ry - (rx * rx * rx + 7) == (ry * ry - v * v) + (x3 * x3 * x3 - rx * rx * rx) - f);
    lemma_zmod_add(ry * ry - v * v, x3 * x3 * x3 - rx * rx * rx);
    lemma_zmod_add((ry * ry - v * v) + (x3 * x3 * x3 - rx * rx * rx), f);
    lemma_cong_zmod(ry * ry, rx * rx * rx + 7);
}

/// Law: the sum of two distinct points of secp256k1 through the chord is on the curve, where
/// the difference of their x coordinates is coprime to the prime (as every nonzero
/// difference is, the field prime being prime).
pub proof fn law_chord_sum_on_curve(p1: (nat, nat), p2: (nat, nat))
    requires
        on_curve(p1),
        on_curve(p2),
        !point_add_trivial(p1, p2),
        p1 != p2,
        coprime((p1.0 - p2.0) % (spec_field_prime() as int), spec_field_prime() as int),
    ensures
        on_curve(spec_point_add(p1, p2)),
{
    let p = spec_field_prime() as int;
    let (x1, y1, x2, y2) = (p1.0 as int, p1.1 as int, p2.0 as int, p2.1 as int);
    law_point_add_affine_sum(p1, p2);
    let k = spec_slope(p1, p2);
    let x3 = k * k - x1 - x2;
    let alpha = 2 * k * k * x1 - 2 * k * y1 - (x1 * x2 + x1 * x3 + x2 * x3);
    let beta = 7 - (y1 - k * x1) * (y1 - k * x1) + x1 * x2 * x3;
    // the cubic vanishes at x1
    lemma_chord_cubic(k, x1, y1, x2, x1);
    lemma_cong_zmod(y1 * y1, x1 * x1 * x1 + 7);
    assert(zmod(-(y1 * y1 - (x1 * x1 * x1 + 7)))) by {
        lemma_zmod_mul(y1 * y1 - (x1 * x1 * x1 + 7), -1);
    }
    assert((x1 - x1) * (x1 - x2) * (x1 - x3) == 0) by (nonlinear_arith);
    assert(zmod(alpha * x1 + beta));
    // and at x2, where k (x2 - x1) + y1 is y2 modulo p
    lemma_chord_cubic(k, x1, y1, x2, x2);
    assert((x2 - x1) * (x2 - x2) * (x2 - x3) == 0) by (nonlinear_arith);
    lemma_cong_zmod(k * (x1 - x2), y1 - y2);
    let w = k * (x2 - x1) + y1;
    let e3 = k * (x1 - x2) - (y1 - y2);
    assert(w - y2 == -e3) by (nonlinear_arith) requires w == k * (x2 - x1) + y1, e3 == k * (x1 - x2) - (y1 - y2);
    lemma_zmod_mul(e3, -1);
    assert(-e3 == e3 * -1);
    lemma_zmod_mul(w - y2, w + y2);
    assert(w * w - y2 * y2 == (w - y2) * (w + y2)) by (nonlinear_arith);
    lemma_cong_zmod(y2 * y2, x2 * x2 * x2 + 7);
    lemma_zmod_add(y2 * y2 - (x2 * x2 * x2 + 7), w * w - y2 * y2);
    assert(x2 * x2 * x2 + 7 - w * w == -((y2 * y2 - (x2 * x2 * x2 + 7)) + (w * w - y2 * y2)));
    lemma_zmod_mul((y2 * y2 - (x2 * x2 * x2 + 7)) + (w * w - y2 * y2), -1);
    assert(zmod(alpha * x2 + beta));
    // so alpha (x1 - x2) is a multiple of p, and so is alpha
    lemma_zmod_add(alpha * x1 + beta, alpha * x2 + beta);
    assert((alpha * x1 + beta) - (alpha * x2 + beta) == alpha * (x1 - x2)) by (nonlinear_arith);
    let d = (x1 - x2) % p;
    reveal(field_inverse);
    lemma_mod_bound(x1 - x2, p);
    law_inverse_mod_inverts(d as nat, spec_field_prime());
    let inv = field_inverse(d as nat) as int;
    lemma_zmod_mul(alpha * (x1 - x2), inv);
    lemma_zmod_reduce(x1 - x2);
    lemma_cong_zmod(d * inv, 1);
    lemma_small_mod(1, p as nat);
    lemma_zmod_mul((x1 - x2) - d, inv);
    lemma_zmod_add(((x1 - x2) - d) * inv, d * inv - 1);
    assert(((x1 - x2) - d) * inv + (d * inv - 1) == (x1 - x2) * inv - 1) by (nonlinear_arith);
    lemma_zmod_mul((x1 - x2) * inv - 1, alpha);
    lemma_zmod_add(alpha * (x1 - x2) * inv, ((x1 - x2) * inv - 1) * alpha);
    assert(alpha * (x1 - x2) * inv - ((x1 - x2) * inv - 1) * alpha == alpha) by (nonlinear_arith);
    assert(zmod(alpha));
    lemma_zmod_mul(alpha, x1);
    lemma_zmod_add(alpha * x1 + beta, alpha * x1);
    assert(zmod(beta));
    // so the cubic vanishes at x3
    lemma_chord_cubic(k, x1, y1, x2, x3);
    assert((x3 - x1) * (x3 - x2) * (x3 - x3) == 0) by (nonlinear_arith);
    lemma_zmod_mul(alpha, x3);
    lemma_zmod_add(alpha * x3, beta);
    lemma_third_point_on_curve(k, x1, y1, x3);
    lemma_mod_bound(x3, p);
    lemma_mod_bound(k * (x1 - x3 % p) - y1, p);
}

/// Law: the double of a point of secp256k1 through the tangent is on the curve, where twice
/// its y coordinate is coprime to the prime (as every nonzero value is, the field prime being
/// prime).
pub proof fn law_tangent_sum_on_curve(p1: (nat, nat))
    requires
        on_curve(p1),
        !point_add_trivial(p1, p1),
        coprime((2 * p1.1) as int % (spec_field_prime() as int), spec_field_prime() as int),
    ensures
        on_curve(spec_point_add(p1, p1)),
{
    let p = spec_field_prime() as int;
    let (x1, y1) = (p1.0 as int, p1.1 as int);
    law_point_add_affine_sum(p1, p1);
    let k = spec_slope(p1, p1);
    let x3 = k * k - x1 - x1;
    let alpha = 2 * k * k * x1 - 2 * k * y1 - (x1 * x1 + x1 * x3 + x1 * x3);
    let beta = 7 - (y1 - k * x1) * (y1 - k * x1) + x1 * x1 * x3;
    // alpha is 3 x1^2 - 2 k y1, a multiple of p by the tangent's slope
    assert(alpha == -(k * (2 * y1) - 3 * x1 * x1)) by (nonlinear_arith)
        requires
            x3 == k * k - x1 - x1,
            alpha == 2 * k * k * x1 - 2 * k * y1 - (x1 * x1 + x1 * x3 + x1 * x3);
    lemma_cong_zmod(k * (2 * y1), 3 * x1 * x1);
    lemma_zmod_mul(k * (2 * y1) - 3 * x1 * x1, -1);
    assert(zmod(alpha));
    // the cubic vanishes at x1, so beta is a multiple of p
    lemma_chord_cubic(k, x1, y1, x1, x1);
    assert((x1 - x1) * (x1 - x1) * (x1 - x3) == 0) by (nonlinear_arith);
    lemma_cong_zmod(y1 * y1, x1 * x1 * x1 + 7);
    lemma_zmod_mul(y1 * y1 - (x1 * x1 * x1 + 7), -1);
    assert(zmod(alpha * x1 + beta));
    lemma_zmod_mul(alpha, x1);
    lemma_zmod_add(alpha * x1 + beta, alpha * x1);
    assert(zmod(beta));
    // so it vanishes at x3
    lemma_chord_cubic(k, x1, y1, x1, x3);
    assert((x3 - x1) * (x3 - x1) * (x3 - x3) == 0) by (nonlinear_arith);
    lemma_zmod_mul(alpha, x3);
    lemma_zmod_add(alpha * x3, beta);
    lemma_third_point_on_curve(k, x1, y1, x3);
    lemma_mod_bound(x3, p);
    lemma_mod_bound(k * (x1 - x3 % p) - y1, p);
}

/// Law: `point_add` keeps the points of secp256k1 and the point at infinity among
/// themselves, where the chord or tangent denominator of the sum is coprime to the prime (as
/// every nonzero one is, the field prime being prime).
pub proof fn law_point_add_on_curve(p1: (nat, nat), p2: (nat, nat))
    requires
        is_infinity(p1) || on_curve(p1),
        is_infinity(p2) || on_curve(p2),
        !point_add_trivial(p1, p2) && p1 != p2 ==> coprime(
            (p1.0 - p2.0) % (spec_field_prime() as int),
            spec_field_prime() as int,
        ),
        !point_add_trivial(p1, p2) && p1 == p2 ==> coprime(
            (2 * p1.1) as int % (spec_field_prime() as int),
            spec_field_prime() as int,
        ),
    ensures
        is_infinity(spec_point_add(p1, p2)) || on_curve(spec_point_add(p1, p2)),
{
    if !point_add_trivial(p1, p2) {
        if p1 != p2 {
            law_chord_sum_on_curve(p1, p2);
        } else {
            law_tangent_sum_on_curve(p1);
        }
    }
}

/// Law: `point_add` is commutative on points with coordinates below the field prime, where
/// two points with the same x coordinate are equal or opposite, and the difference of two
/// distinct x coordinates is coprime to the prime (as every nonzero difference is, the field
/// prime being prime).
pub proof fn law_point_add_commutative(p1: (nat, nat), p2: (nat, nat))
    requires
        p1.0 < spec_field_prime(),
        p1.1 < spec_field_prime(),
        p2.0 < spec_field_prime(),
        p2.1 < spec_field_prime(),
        p1.0 == p2.0 ==> p1.1 == p2.1 || (p1.1 + p2.1) as int % (spec_field_prime() as int) == 0,
        p1.0 != p2.0 ==> coprime(
            (p1.0 - p2.0) % (spec_field_prime() as int),
            spec_field_prime() as int,
        ),
    ensures
        spec_point_add(p1, p2) == spec_point_add(p2, p1),
{
    let p = spec_field_prime() as int;
    if is_infinity(p1) || is_infinity(p2) || point_add_trivial(p1, p2) || p1 == p2 {
        return;
    }
    let (x1, y1, x2, y2) = (p1.0 as int, p1.1 as int, p2.0 as int, p2.1 as int);
    assert(x1 != x2);
    let d = (x1 - x2) % p;
    lemma_mod_bound(x1 - x2, p);
    if d == 0 {
        lemma_small_mod((x1 - x2 + p) as nat, p as nat);
        lemma_mod_add_multiples_vanish(x1 - x2, p);
        lemma_small_mod((x2 - x1 + p) as nat, p as nat);
        lemma_mod_add_multiples_vanish(x2 - x1, p);
        if x1 > x2 {
            lemma_small_mod((x1 - x2) as nat, p as nat);
        }
        assert(false);
    }
    // (x2 - x1) mod p is p - d
    assert((x2 - x1) % p == p - d) by {
        lemma_fundamental_div_mod(x1 - x2, p);
        lemma_mod_multiples_vanish(-((x1 - x2) / p) - 1, p - d, p);
        assert(x2 - x1 == p * (-((x1 - x2) / p) - 1) + (p - d)) by (nonlinear_arith)
            requires x1 - x2 == p * ((x1 - x2) / p) + d;
        lemma_small_mod((p - d) as nat, p as nat);
    }
    lemma_field_inverse_neg(d as nat);
    let inv = field_inverse(d as nat) as int;
    reveal(spec_slope);
    let k = spec_slope(p1, p2);
    assert(k == ((y1 - y2) * inv) % p);
    assert(spec_slope(p2, p1) == ((y2 - y1) * (p - inv)) % p);
    // (y2 - y1)(p - inv) == (y1 - y2) inv + p (y2 - y1)
    assert((y2 - y1) * (p - inv) == (y1 - y2) * inv + p * (y2 - y1)) by (nonlinear_arith);
    lemma_mod_multiples_vanish(y2 - y1, (y1 - y2) * inv, p);
    lemma_mul_is_commutative(p, y2 - y1);
    assert(spec_slope(p2, p1) == k);
    reveal(sum_x);
    let x3 = sum_x(k, x1, x2);
    assert(sum_x(k, x2, x1) == x3);
    lemma_chord_slope(p1, p2);
    reveal(sum_y);
    let c = k * (x2 - x3) - y2 - (y1 - y2);
    lemma_mod_add_compat(k * (x1 - x2), y1 - y2, c, p);
    assert(k * (x1 - x2) + c == k * (x1 - x3) - y1) by (nonlinear_arith)
        requires c == k * (x2 - x3) - y2 - (y1 - y2);
    assert(sum_y(k, x1, x3, y1) == sum_y(k, x2, x3, y2));
}

/// Law: multiplying by 0 gives `(0, 0)`, by 1 the point itself, by 2 the point added to
/// itself, by 3 the point added to its double, and any multiple of `(0, 0)` is `(0, 0)`.
pub proof fn law_kmul_small(k: nat, pt: (nat, nat))
    ensures
        spec_kmul(0, pt) == (0nat, 0nat),
        spec_kmul(1, pt) == pt,
        spec_kmul(2, pt) == spec_point_add(pt, pt),
        spec_kmul(3, pt) == spec_point_add(pt, spec_point_add(pt, pt)),
        spec_kmul(k, (0, 0)) == (0nat, 0nat),
{
    let d = spec_point_add(pt, pt);
    assert(spec_point_add((0, 0), d) == d);
    assert(spec_kmul_from(2, pt, (0, 0)) == spec_kmul_from(1, d, (0, 0)));
    assert(spec_kmul_from(1, d, (0, 0)) == spec_kmul_from(0, spec_point_add(d, d), d));
    assert(spec_kmul_from(3, pt, (0, 0)) == spec_kmul_from(1, d, spec_point_add((0, 0), pt)));
    assert(spec_kmul_from(1, d, pt) == spec_kmul_from(0, spec_point_add(d, d), spec_point_add(pt, d)));
    assert(spec_point_add((0, 0), pt) == pt);
    assert(spec_kmul_from(1, pt, (0, 0)) == spec_kmul_from(0, spec_point_add(pt, pt), pt));
    lemma_kmul_infinity(k, (0, 0));
}

/// Law: multiplying a point by an even scalar `2 k` is multiplying its double by `k`.
pub proof fn law_kmul_even(k: nat, pt: (nat, nat))
    ensures
        spec_kmul(2 * k, pt) == spec_kmul(k, spec_point_add(pt, pt)),
{
    if k > 0 {
        assert((2 * k) % 2 == 0 && (2 * k) / 2 == k);
    }
}

/// Doubling and adding from `(0, 0)` on `(0, 0)` stays at `(0, 0)`.
proof fn lemma_kmul_infinity(k: nat, acc: (nat, nat))
    requires
        acc == (0nat, 0nat),
    ensures
        spec_kmul_from(k, (0, 0), acc) == (0nat, 0nat),
    decreases k,
{
    if k > 0 {
        assert(spec_point_add((0, 0), (0, 0)) == (0nat, 0nat));
        lemma_kmul_infinity(k / 2, (0, 0));
    }
}

/// Law: the bytes that `uint_to_bytes` writes read back to the number (as `from_le_slice`
/// reads them).
pub proof fn law_uint_bytes_round_trip<const S: usize>(num: BigUint<S>)
    ensures
        bytes_value(nat_le_bytes(num@, 8 * S as nat)) == num@,
        nat_le_bytes(num@, 8 * S as nat).len() == 8 * S,
{
    lemma_digits_le_bytes_value(num.digits@);
    lemma_digits_le_bytes(num.digits@);
}

} // verus!
