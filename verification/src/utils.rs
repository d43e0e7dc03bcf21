//! Modular arithmetic on fixed-width big integers: products and sums reduced modulo a
//! modulus, exponentiation by squaring, and modular inversion by the extended Euclidean
//! algorithm.
use vstd::prelude::*;
use vstd::arithmetic::power::*;
use vstd::arithmetic::power2::*;
use vstd::arithmetic::div_mod::*;
use vstd::arithmetic::mul::*;
use crate::bignum::{
    BigInt, BigUint, width_bound, lemma_digits_value_bound, lemma_width_bound_mono,
    lemma_width_bound_square, lemma_fits_wider, bu_mul, bu_cast, bu_rem, bu_add, bu_small,
    bu_is_zero, bu_is_odd, bu_shr, digits_value, lemma_digits_value_last,
    lemma_width_bound_step, abs, tdiv, trem, half_bound, fits_signed, lemma_signed_negative,
    bi_is_zero, bi_is_negative, bi_rem, bi_div, bi_mul, bi_sub, bi_add, bu_as_signed,
    bi_as_unsigned,
};

verus! {

/// `x` taken modulo the bound of `n` digits, as a cast to `n` digits does.
pub open spec fn truncate(x: nat, n: nat) -> nat {
    x % width_bound(n)
}

/// `a * b mod p`, computed in `S2` digits and cast back to `S` digits.
pub fn mul_mod_expand<const S: usize, const S2: usize>(
    a: BigUint<S>,
    b: BigUint<S>,
    p: BigUint<S>,
) -> (r: BigUint<S>)
    requires
        truncate(p@, S2 as nat) != 0,
        truncate(a@, S2 as nat) * truncate(b@, S2 as nat) < width_bound(S2 as nat),
    ensures
        r@ == truncate(
            (truncate(a@, S2 as nat) * truncate(b@, S2 as nat)) % truncate(p@, S2 as nat),
            S as nat,
        ),
        S <= S2 ==> r@ == (a@ * b@) % p@,
{
    let c = bu_mul(&bu_cast::<S, S2>(&a), &bu_cast::<S, S2>(&b));
    let result = bu_rem(&c, &bu_cast::<S, S2>(&p));
    let r = bu_cast::<S2, S>(&result);
    proof {
        if S <= S2 {
            lemma_digits_value_bound(a.digits@);
            lemma_digits_value_bound(b.digits@);
            lemma_digits_value_bound(p.digits@);
            lemma_fits_wider(a@, S as nat, S2 as nat);
            lemma_fits_wider(b@, S as nat, S2 as nat);
            lemma_fits_wider(p@, S as nat, S2 as nat);
            lemma_mod_bound((a@ * b@) as int, p@ as int);
            lemma_small_mod((a@ * b@) % p@, width_bound(S as nat));
        }
    }
    r
}

/// `a + b mod p`, computed in `S2` digits and cast back to `S` digits.
pub fn add_mod_expand<const S: usize, const S2: usize>(
    a: BigUint<S>,
    b: BigUint<S>,
    p: BigUint<S>,
) -> (r: BigUint<S>)
    requires
        truncate(p@, S2 as nat) != 0,
        truncate(a@, S2 as nat) + truncate(b@, S2 as nat) < width_bound(S2 as nat),
    ensures
        r@ == truncate(
            (truncate(a@, S2 as nat) + truncate(b@, S2 as nat)) % truncate(p@, S2 as nat),
            S as nat,
        ),
        S <= S2 ==> r@ == (a@ + b@) % p@,
{
    let c = bu_add(&bu_cast::<S, S2>(&a), &bu_cast::<S, S2>(&b));
    let result = bu_rem(&c, &bu_cast::<S, S2>(&p));
    let r = bu_cast::<S2, S>(&result);
    proof {
        if S <= S2 {
            lemma_digits_value_bound(a.digits@);
            lemma_digits_value_bound(b.digits@);
            lemma_digits_value_bound(p.digits@);
            lemma_fits_wider(a@, S as nat, S2 as nat);
            lemma_fits_wider(b@, S as nat, S2 as nat);
            lemma_fits_wider(p@, S as nat, S2 as nat);
            lemma_mod_bound((a@ + b@) as int, p@ as int);
            lemma_small_mod((a@ + b@) % p@, width_bound(S as nat));
        }
    }
    r
}

/// `a * b mod p` in `S` digits, where the product fits in `S` digits.
pub fn mul_mod<const S: usize>(a: BigUint<S>, b: BigUint<S>, p: BigUint<S>) -> (r: BigUint<S>)
    requires
        p@ != 0,
        a@ * b@ < width_bound(S as nat),
    ensures
        r@ == (a@ * b@) % p@,
{
    let c = bu_mul(&a, &b);
    bu_rem(&c, &p)
}

/// Multiplying representatives of two powers of `b` modulo `m` gives the power of the
/// summed exponents.
pub proof fn lemma_pow_mul_mod(b: int, m: int, x: int, y: int, e1: nat, e2: nat)
    requires
        m > 0,
        x % m == pow(b, e1) % m,
        y % m == pow(b, e2) % m,
    ensures
        (x * y) % m == pow(b, e1 + e2) % m,
{
    lemma_mul_mod_noop_general(x, y, m);
    lemma_mul_mod_noop_general(pow(b, e1), pow(b, e2), m);
    lemma_pow_adds(b, e1, e2);
}

/// The value that `power_mod` and `power_mod_buint` compute: `base^index mod modular`,
/// except that an exponent of zero gives 1 unreduced.
pub open spec fn spec_power_mod(base: nat, index: nat, modular: nat) -> nat {
    if index == 0 {
        1
    } else {
        (pow(base as int, index) % (modular as int)) as nat
    }
}

/// `base^index mod modular` by squaring and multiplying in `S2` digits, for a 64-bit
/// exponent.
pub fn power_mod<const S: usize, const S2: usize>(
    base: BigUint<S>,
    index: u64,
    modular: BigUint<S>,
) -> (r: BigUint<S>)
    requires
        S >= 1,
        2 * S <= S2,
        index != 0 ==> modular@ != 0,
    ensures
        r@ == spec_power_mod(base@, index as nat, modular@),
        index == 0 ==> r@ == 1,
        index != 0 ==> r@ == pow(base@ as int, index as nat) % (modular@ as int),
{
    let ghost b0 = base@ as int;
    let ghost m = modular@ as int;
    let ghost e0 = index as nat;
    proof {
        lemma_digits_value_bound(base.digits@);
        lemma_digits_value_bound(modular.digits@);
        lemma_fits_wider(base@, S as nat, S2 as nat);
        lemma_fits_wider(modular@, S as nat, S2 as nat);
        lemma_width_bound_mono(1, S as nat);
        assert(width_bound(1) == pow2(64));
        assert(pow2(64) == 0x1_0000_0000_0000_0000) by { lemma2_to64(); }
        lemma_width_bound_square(S as nat);
        lemma_width_bound_mono(2 * S as nat, S2 as nat);
        lemma_pow1(b0);
        lemma_pow0(b0);
    }
    let mut base: BigUint<S2> = bu_cast::<S, S2>(&base);
    let mut result: BigUint<S2> = bu_small::<S2>(1);
    let modular: BigUint<S2> = bu_cast::<S, S2>(&modular);
    let mut index = index;
    let ghost mut low: nat = 0;
    let ghost mut pw: nat = 1;
    while index != 0
        invariant
            S >= 1,
            2 * S <= S2,
            0 <= m < width_bound(S as nat),
            e0 != 0 ==> m > 0,
            width_bound(S as nat) >= 0x1_0000_0000_0000_0000,
            width_bound(S as nat) * width_bound(S as nat) <= width_bound(S2 as nat),
            modular@ == m,
            e0 == low + pw * index,
            low < pw,
            (result@ as int) % m == pow(b0, low) % m,
            (base@ as int) % m == pow(b0, pw) % m,
            low == 0 ==> result@ == 1,
            low != 0 ==> result@ < m,
            base@ < width_bound(S as nat),
        decreases index,
    {
        let ghost old_index = index;
        let ghost old_result = result@ as int;
        let ghost old_base = base@ as int;
        assert(e0 != 0) by (nonlinear_arith)
            requires e0 == low + pw * index, low < pw, index != 0, low >= 0;
        assert(result@ < width_bound(S as nat));
        proof {
            let w = width_bound(S as nat);
            assert(result@ * base@ < w * w) by (nonlinear_arith)
                requires result@ < w, base@ < w;
            assert(base@ * base@ < w * w) by (nonlinear_arith)
                requires base@ < w;
        }
        let odd = index & 1 == 1;
        assert(odd == (index % 2 == 1)) by (bit_vector)
            requires odd == (index & 1 == 1);
        if odd {
            result = mul_mod::<S2>(result, base, modular);
            proof {
                lemma_pow_mul_mod(b0, m, old_result, old_base, low, pw);
                lemma_mod_twice((old_result * old_base), m);
                lemma_mod_bound(old_result * old_base, m);
                low = low + pw;
            }
        }
        base = mul_mod::<S2>(base, base, modular);
        index = index >> 1;
        proof {
            assert(index == old_index / 2) by (bit_vector)
                requires index == old_index >> 1;
            lemma_pow_mul_mod(b0, m, old_base, old_base, pw, pw);
            lemma_mod_twice(old_base * old_base, m);
            lemma_mod_bound(old_base * old_base, m);
            let p = pw;
            if odd {
                assert(e0 == (low - p) + p * old_index);
                assert(p * old_index == p + (2 * p) * (old_index / 2)) by (nonlinear_arith)
                    requires old_index % 2 == 1;
            } else {
                assert(p * old_index == (2 * p) * (old_index / 2)) by (nonlinear_arith)
                    requires old_index % 2 == 0;
            }
            pw = 2 * pw;
        }
    }
    proof {
        if e0 != 0 {
            lemma_small_mod(result@, m as nat);
        }
        lemma_small_mod(result@, width_bound(S as nat));
    }
    bu_cast::<S2, S>(&result)
}

/// `base^index mod modular` by squaring and multiplying in `S2` digits, for an exponent
/// of `S` digits.
pub fn power_mod_buint<const S: usize, const S2: usize>(
    base: BigUint<S>,
    index: BigUint<S>,
    modular: BigUint<S>,
) -> (r: BigUint<S>)
    requires
        S >= 1,
        2 * S <= S2,
        index@ != 0 ==> modular@ != 0,
    ensures
        r@ == spec_power_mod(base@, index@, modular@),
        index@ == 0 ==> r@ == 1,
        index@ != 0 ==> r@ == pow(base@ as int, index@) % (modular@ as int),
{
    let ghost b0 = base@ as int;
    let ghost m = modular@ as int;
    let ghost e0 = index@;
    proof {
        lemma_digits_value_bound(base.digits@);
        lemma_digits_value_bound(modular.digits@);
        lemma_fits_wider(base@, S as nat, S2 as nat);
        lemma_fits_wider(modular@, S as nat, S2 as nat);
        lemma_width_bound_mono(1, S as nat);
        assert(width_bound(1) == pow2(64));
        assert(pow2(64) == 0x1_0000_0000_0000_0000) by { lemma2_to64(); }
        lemma_width_bound_square(S as nat);
        lemma_width_bound_mono(2 * S as nat, S2 as nat);
        lemma_pow1(b0);
        lemma_pow0(b0);
        assert(pow2(1) == 2) by { lemma2_to64(); }
    }
    let mut result: BigUint<S2> = bu_small::<S2>(1);
    let mut base: BigUint<S2> = bu_cast::<S, S2>(&base);
    let modular: BigUint<S2> = bu_cast::<S, S2>(&modular);
    let mut index = index;
    let ghost mut low: nat = 0;
    let ghost mut pw: nat = 1;
    while !bu_is_zero(&index)
        invariant
            S >= 1,
            2 * S <= S2,
            pow2(1) == 2,
            0 <= m < width_bound(S as nat),
            e0 != 0 ==> m > 0,
            width_bound(S as nat) >= 0x1_0000_0000_0000_0000,
            width_bound(S as nat) * width_bound(S as nat) <= width_bound(S2 as nat),
            modular@ == m,
            e0 == low + pw * index@,
            low < pw,
            (result@ as int) % m == pow(b0, low) % m,
            (base@ as int) % m == pow(b0, pw) % m,
            low == 0 ==> result@ == 1,
            low != 0 ==> result@ < m,
            base@ < width_bound(S as nat),
        decreases index@,
    {
        let ghost old_index = index@;
        let ghost old_result = result@ as int;
        let ghost old_base = base@ as int;
        assert(e0 != 0) by (nonlinear_arith)
            requires e0 == low + pw * index@, low < pw, index@ != 0, low >= 0;
        proof {
            let w = width_bound(S as nat);
            assert(result@ * base@ < w * w) by (nonlinear_arith)
                requires result@ < w, base@ < w;
            assert(base@ * base@ < w * w) by (nonlinear_arith)
                requires base@ < w;
        }
        let odd = bu_is_odd(&index);
        if odd {
            result = mul_mod::<S2>(result, base, modular);
            proof {
                lemma_pow_mul_mod(b0, m, old_result, old_base, low, pw);
                lemma_mod_twice((old_result * old_base), m);
                lemma_mod_bound(old_result * old_base, m);
                low = low + pw;
            }
        }
        base = mul_mod::<S2>(base, base, modular);
        index = bu_shr(&index, 1);
        proof {
            lemma_pow_mul_mod(b0, m, old_base, old_base, pw, pw);
            lemma_mod_twice(old_base * old_base, m);
            lemma_mod_bound(old_base * old_base, m);
            let p = pw;
            lemma_fundamental_div_mod(old_index as int, 2);
            if odd {
                assert(p * old_index == p + (2 * p) * (old_index / 2)) by (nonlinear_arith)
                    requires old_index == 2 * (old_index / 2) + 1;
            } else {
                assert(p * old_index == (2 * p) * (old_index / 2)) by (nonlinear_arith)
                    requires old_index == 2 * (old_index / 2);
            }
            pw = 2 * pw;
        }
    }
    proof {
        if e0 != 0 {
            lemma_small_mod(result@, m as nat);
        }
        lemma_small_mod(result@, width_bound(S as nat));
    }
    bu_cast::<S2, S>(&result)
}

/// `x^(2^64) mod p`: `x^(2^64 - 1) mod p`, times `x`, modulo `p`.
fn power_of_c<const S: usize, const S2: usize>(x: BigUint<S>, p: BigUint<S>) -> (r: BigUint<S>)
    requires
        S >= 1,
        2 * S <= S2,
        p@ != 0,
    ensures
        r@ == pow(x@ as int, pow2(64)) % (p@ as int),
{
    let y = power_mod::<S, S2>(x, 0xFFFF_FFFF_FFFF_FFFFu64, p);
    proof {
        lemma_digits_value_bound(x.digits@);
        lemma_digits_value_bound(p.digits@);
        lemma_mod_bound(pow(x@ as int, 0xFFFF_FFFF_FFFF_FFFF), p@ as int);
        let w = width_bound(S as nat);
        lemma_width_bound_square(S as nat);
        lemma_width_bound_mono(2 * S as nat, S2 as nat);
        lemma_fits_wider(x@, S as nat, S2 as nat);
        lemma_fits_wider(y@, S as nat, S2 as nat);
        lemma_fits_wider(p@, S as nat, S2 as nat);
        assert(y@ * x@ < w * w) by (nonlinear_arith)
            requires y@ < w, x@ < w;
    }
    let r = mul_mod_expand::<S, S2>(y, x, p);
    proof {
        let m = p@ as int;
        let b = x@ as int;
        lemma_pow1(b);
        lemma_mod_twice(pow(b, 0xFFFF_FFFF_FFFF_FFFF), m);
        lemma_pow_mul_mod(b, m, y@ as int, b, 0xFFFF_FFFF_FFFF_FFFF, 1);
        assert(pow2(64) == 0x1_0000_0000_0000_0000) by { lemma2_to64(); }
    }
    r
}

/// `a^b mod p`, by one exponentiation per digit of `b`: with `c = 2^64`, the digit `k`
/// contributes `(a^(c^k))^(digit k)`.
pub fn multi_step_power<const S: usize, const S2: usize>(
    a: BigUint<S>,
    b: BigUint<S>,
    p: BigUint<S>,
) -> (r: BigUint<S>)
    requires
        S >= 1,
        2 * S <= S2,
        p@ != 0,
    ensures
        r@ == pow(a@ as int, b@) % (p@ as int),
{
    let ghost m = p@ as int;
    let ghost a0 = a@ as int;
    let mut result = bu_small::<S>(1);
    let mut a_power_c_power_k = a;
    proof {
        lemma_digits_value_bound(a.digits@);
        lemma_digits_value_bound(p.digits@);
        lemma_width_bound_square(S as nat);
        lemma_width_bound_mono(2 * S as nat, S2 as nat);
        lemma_width_bound_mono(1, S as nat);
        assert(width_bound(1) == pow2(64));
        assert(pow2(64) == 0x1_0000_0000_0000_0000) by { lemma2_to64(); }
        assert(width_bound(0) == 1) by { lemma2_to64(); }
        lemma_pow1(a0);
        assert(b.digits@.subrange(0, 0).len() == 0);
    }
    let mut k: usize = 0;
    while k < S
        invariant
            S >= 1,
            2 * S <= S2,
            k <= S,
            0 < m < width_bound(S as nat),
            width_bound(S as nat) >= 0x1_0000_0000_0000_0000,
            width_bound(S as nat) * width_bound(S as nat) <= width_bound(S2 as nat),
            p@ == m,
            a@ == a0,
            k == 0 ==> result@ == 1,
            k > 0 ==> result@ == pow(a0, digits_value(b.digits@.subrange(0, k as int))) % m,
            (a_power_c_power_k@ as int) % m == pow(a0, width_bound(k as nat)) % m,
            a_power_c_power_k@ < width_bound(S as nat),
        decreases S - k,
    {
        let digit = b.digits[k];
        let t = power_mod::<S, S2>(a_power_c_power_k, digit, p);
        let ghost prefix = b.digits@.subrange(0, k as int);
        let ghost next = b.digits@.subrange(0, k + 1);
        proof {
            let w = width_bound(S as nat);
            lemma_mod_bound(pow(a_power_c_power_k@ as int, digit as nat), m);
            lemma_digits_value_bound(result.digits@);
            assert(t@ < w);
            assert(result@ * t@ < w * w) by (nonlinear_arith)
                requires result@ < w, t@ < w;
            lemma_fits_wider(result@, S as nat, S2 as nat);
            lemma_fits_wider(t@, S as nat, S2 as nat);
            lemma_fits_wider(p@, S as nat, S2 as nat);
        }
        let new_result = mul_mod_expand::<S, S2>(result, t, p);
        proof {
            // t is congruent to (a^(c^k))^digit, that is a^(c^k * digit)
            let x = a_power_c_power_k@ as int;
            let ck = width_bound(k as nat);
            lemma_pow0(x);
            lemma_pow_mod_noop(x, digit as nat, m);
            lemma_pow_mod_noop(pow(a0, ck), digit as nat, m);
            lemma_pow_multiplies(a0, ck, digit as nat);
            assert((t@ as int) % m == pow(a0, ck * (digit as nat)) % m) by {
                if digit == 0 {
                    lemma_pow0(pow(a0, ck));
                    assert(ck * (digit as nat) == 0) by (nonlinear_arith) requires digit == 0;
                    lemma_pow0(a0);
                } else {
                    lemma_mod_twice(pow(x, digit as nat), m);
                }
            }
            // the prefix value grows by c^k * digit
            assert(next.drop_last() =~= prefix);
            assert(next.last() == digit);
            lemma_digits_value_last(next);
            let low = digits_value(prefix);
            if k == 0 {
                lemma_pow0(a0);
                assert(prefix.len() == 0);
                assert(low == 0);
            }
            assert((result@ as int) % m == pow(a0, low) % m) by {
                if k > 0 {
                    lemma_mod_twice(pow(a0, low), m);
                } 
            }
            lemma_pow_mul_mod(a0, m, result@ as int, t@ as int, low, ck * (digit as nat));
            assert(digits_value(next) == low + ck * (digit as nat));
        }
        result = new_result;
        proof {
            lemma_width_bound_step(k as nat);
            assert(width_bound(k as nat + 1) == pow2(64) * width_bound(k as nat));
            lemma_pow_multiplies(a0, width_bound(k as nat), pow2(64));
            lemma_pow_mod_noop(a_power_c_power_k@ as int, pow2(64), m);
            lemma_pow_mod_noop(pow(a0, width_bound(k as nat)), pow2(64), m);
            assert(width_bound(k as nat) * pow2(64) == pow2(64) * width_bound(k as nat)) by (nonlinear_arith);
        }
        a_power_c_power_k = power_of_c::<S, S2>(a_power_c_power_k, p);
        proof {
            lemma_mod_bound(pow(a_power_c_power_k@ as int, 0), m);
            lemma_mod_twice(pow(pow(a0, width_bound(k as nat)), pow2(64)), m);
        }
        k = k + 1;
    }
    proof {
        assert(b.digits@.subrange(0, S as int) =~= b.digits@);
    }
    result
}


/// 1 for zero, else the number itself.
pub open spec fn at_least_one(n: nat) -> nat {
    if n == 0 { 1 } else { n }
}

/// The extended Euclidean algorithm with division rounded towards zero, as `bnum`'s signed
/// integers divide: `(g, x, y)` with `a * x + b * y == g`.
pub open spec fn spec_extended_gcd(a: int, b: int) -> (int, int, int)
    decreases abs(b),
{
    if b == 0 {
        (a, 1, 0)
    } else {
        proof {
            lemma_tdiv_trem(a, b);
        }
        let (g, x1, y1) = spec_extended_gcd(b, trem(a, b));
        (g, y1, x1 - tdiv(a, b) * y1)
    }
}

/// Division rounded towards zero: the dividend is the quotient times the divisor plus the
/// remainder, and the magnitudes add up.
pub proof fn lemma_tdiv_trem(a: int, b: int)
    requires
        b != 0,
    ensures
        a == b * tdiv(a, b) + trem(a, b),
        abs(trem(a, b)) < abs(b),
        abs(tdiv(a, b)) * abs(b) + abs(trem(a, b)) == abs(a),
        abs(tdiv(a, b)) <= abs(a),
        trem(a, b) == 0 || (trem(a, b) < 0) == (a < 0),
        a >= 0 && b > 0 ==> tdiv(a, b) == a / b && trem(a, b) == a % b,
{
    let q = abs(a) / abs(b);
    let r = abs(a) % abs(b);
    lemma_fundamental_div_mod(abs(a) as int, abs(b) as int);
    lemma_mod_bound(abs(a) as int, abs(b) as int);
    assert(abs(a) == abs(b) * q + r);
    assert(q * abs(b) == abs(b) * q) by (nonlinear_arith);
    assert(q <= abs(a)) by (nonlinear_arith)
        requires abs(a) == abs(b) * q + r, abs(b) >= 1, r >= 0;
    if a < 0 && b < 0 {
        assert(b * q == -(abs(b) * q)) by (nonlinear_arith) requires b == -(abs(b) as int);
    } else if a < 0 {
        assert(b * (-(q as int)) == -(abs(b) * q)) by (nonlinear_arith) requires b == abs(b);
    } else if b < 0 {
        assert(b * (-(q as int)) == abs(b) * q) by (nonlinear_arith) requires b == -(abs(b) as int);
    }
}

/// `|x * y| == |x| * |y|`.
pub proof fn lemma_abs_mul(x: int, y: int)
    ensures
        abs(x * y) == abs(x) * abs(y),
{
    if x < 0 && y < 0 {
        assert(x * y == (-x) * (-y)) by (nonlinear_arith);
        assert((-x) * (-y) >= 0) by (nonlinear_arith) requires x < 0, y < 0;
    } else if x < 0 {
        assert(x * y == -((-x) * y)) by (nonlinear_arith);
        assert((-x) * y >= 0) by (nonlinear_arith) requires x < 0, y >= 0;
    } else if y < 0 {
        assert(x * y == -(x * (-y))) by (nonlinear_arith);
        assert(x * (-y) >= 0) by (nonlinear_arith) requires x >= 0, y < 0;
    } else {
        assert(x * y >= 0) by (nonlinear_arith) requires x >= 0, y >= 0;
    }
}

/// The Bezout coefficients stay below the inputs: `|x| <= max(|b|, 1)`, `|y| <= max(|a|, 1)`.
pub proof fn lemma_extended_gcd_bounds(a: int, b: int)
    ensures
        abs(spec_extended_gcd(a, b).1) <= at_least_one(abs(b)),
        abs(spec_extended_gcd(a, b).2) <= at_least_one(abs(a)),
    decreases abs(b),
{
    if b != 0 {
        lemma_tdiv_trem(a, b);
        let q = tdiv(a, b);
        let r = trem(a, b);
        lemma_extended_gcd_bounds(b, r);
        let (g, x1, y1) = spec_extended_gcd(b, r);
        assert(spec_extended_gcd(a, b) == (g, y1, x1 - q * y1));
        if r == 0 {
            assert(spec_extended_gcd(b, 0) == (b, 1int, 0int));
            assert(q * 0 == 0);
        } else {
            lemma_abs_mul(q, y1);
            assert(abs(q) * abs(y1) <= abs(q) * abs(b)) by (nonlinear_arith)
                requires abs(y1) <= abs(b);
            assert(abs(x1 - q * y1) <= abs(x1) + abs(q * y1));
        }
    }
}

/// Bezout's identity: `a * x + b * y == g`.
pub proof fn lemma_extended_gcd_bezout(a: int, b: int)
    ensures
        a * spec_extended_gcd(a, b).1 + b * spec_extended_gcd(a, b).2 == spec_extended_gcd(a, b).0,
    decreases abs(b),
{
    if b != 0 {
        lemma_tdiv_trem(a, b);
        let q = tdiv(a, b);
        let r = trem(a, b);
        lemma_extended_gcd_bezout(b, r);
        let (g, x1, y1) = spec_extended_gcd(b, r);
        assert(a * y1 + b * (x1 - q * y1) == b * x1 + r * y1) by (nonlinear_arith)
            requires a == b * q + r;
    }
}

/// The inputs on which `extended_gcd` completes: no quotient along the way is the one that
/// does not fit in `n` digits (the most negative value divided by -1).
pub open spec fn extended_gcd_ok(a: int, b: int, n: nat) -> bool
    decreases abs(b),
{
    if b == 0 {
        true
    } else {
        proof {
            lemma_tdiv_trem(a, b);
        }
        fits_signed(tdiv(a, b), n) && extended_gcd_ok(b, trem(a, b), n)
    }
}

/// Where `b` does not divide `a`, the Bezout coefficients are strictly below the inputs;
/// where it does, they are `0` and `1`.
pub proof fn lemma_extended_gcd_strict(a: int, b: int)
    requires
        b != 0,
    ensures
        trem(a, b) == 0 ==> spec_extended_gcd(a, b).1 == 0 && spec_extended_gcd(a, b).2 == 1,
        trem(a, b) != 0 ==> abs(spec_extended_gcd(a, b).1) < abs(b)
            && abs(spec_extended_gcd(a, b).2) < abs(a),
    decreases abs(b),
{
    lemma_tdiv_trem(a, b);
    let q = tdiv(a, b);
    let r = trem(a, b);
    let (g, x1, y1) = spec_extended_gcd(b, r);
    assert(spec_extended_gcd(a, b) == (g, y1, x1 - q * y1));
    if r == 0 {
        assert(spec_extended_gcd(b, 0) == (b, 1int, 0int));
        assert(q * 0 == 0);
    } else {
        lemma_tdiv_trem(b, r);
        lemma_extended_gcd_strict(b, r);
        if trem(b, r) == 0 {
            assert(q * 1 == q);
            assert(abs(q) < abs(a)) by (nonlinear_arith)
                requires abs(q) * abs(b) + abs(r) == abs(a), abs(b) >= 1, abs(r) >= 1;
        } else {
            lemma_abs_mul(q, y1);
            assert(abs(q) * abs(y1) <= abs(q) * abs(b)) by (nonlinear_arith)
                requires abs(y1) < abs(b);
        }
    }
}

/// Inputs below the bound of the signed values on both sides never overflow.
pub proof fn lemma_extended_gcd_ok(a: int, b: int, n: nat)
    requires
        abs(a) < half_bound(n),
        abs(b) < half_bound(n),
    ensures
        extended_gcd_ok(a, b, n),
    decreases abs(b),
{
    if b != 0 {
        lemma_tdiv_trem(a, b);
        lemma_extended_gcd_ok(b, trem(a, b), n);
    }
}

/// The extended Euclidean algorithm on signed integers of `S` digits.
fn extended_gcd<const S: usize>(a: BigInt<S>, b: BigInt<S>) -> (r: (BigInt<S>, BigInt<S>, BigInt<S>))
    requires
        S >= 1,
        extended_gcd_ok(a@, b@, S as nat),
    ensures
        (r.0@, r.1@, r.2@) == spec_extended_gcd(a@, b@),
    decreases abs(b@),
{
    proof {
        lemma_signed_negative(a.digits@);
        lemma_signed_negative(b.digits@);
        lemma_width_bound_mono(1, S as nat);
        assert(width_bound(1) == pow2(64));
        assert(pow2(64) == 0x1_0000_0000_0000_0000) by { lemma2_to64(); }
    }
    if bi_is_zero(&b) {
        let one = BigInt { digits: bu_small::<S>(1).digits };
        let zero = BigInt { digits: bu_small::<S>(0).digits };
        (a, one, zero)
    } else {
        proof {
            lemma_tdiv_trem(a@, b@);
        }
        let rem = bi_rem(&a, &b);
        let (gcd, x1, y1) = extended_gcd(b, rem);
        let q = bi_div(&a, &b);
        proof {
            let r = trem(a@, b@);
            lemma_extended_gcd_strict(a@, b@);
            if r == 0 {
                assert(spec_extended_gcd(b@, 0) == (b@, 1int, 0int));
                assert(q@ * y1@ == 0);
            } else {
                lemma_tdiv_trem(b@, r);
                lemma_extended_gcd_strict(b@, r);
                lemma_abs_mul(q@, y1@);
                if trem(b@, r) == 0 {
                    assert(abs(q@) * abs(b@) >= abs(q@) * 2) by (nonlinear_arith)
                        requires abs(b@) >= 2;
                    assert(q@ * y1@ == q@);
                } else {
                    assert(abs(q@) * abs(y1@) <= abs(q@) * abs(b@)) by (nonlinear_arith)
                        requires abs(y1@) < abs(b@);
                }
            }
        }
        let qy = bi_mul(&q, &y1);
        let y = bi_sub(&x1, &qy);
        (gcd, y1, y)
    }
}

/// The value `inverse_mod` returns: the Bezout coefficient `x` of `a` in `a x + p y == g`,
/// moved up by `p` when it is negative.
pub open spec fn spec_inverse_mod(a: nat, p: nat) -> nat {
    let x = spec_extended_gcd(a as int, p as int).1;
    if x < 0 {
        ((x + p) % (p as int)) as nat
    } else {
        x as nat
    }
}

/// The Bezout coefficient of `a` lies in `[-p, p]`, and in `[0, 1]` when `p` is zero, so
/// the value of `inverse_mod` is below `p` when `x` is negative and at most `max(p, 1)`.
pub proof fn lemma_spec_inverse_mod_bound(a: nat, p: nat)
    ensures
        spec_extended_gcd(a as int, p as int).1 < 0 ==> p > 0
            && spec_inverse_mod(a, p) == spec_extended_gcd(a as int, p as int).1 + p
            && spec_inverse_mod(a, p) < p,
        spec_inverse_mod(a, p) <= at_least_one(p),
{
    lemma_extended_gcd_bounds(a as int, p as int);
    let x = spec_extended_gcd(a as int, p as int).1;
    if p == 0 {
        assert(spec_extended_gcd(a as int, 0) == (a as int, 1int, 0int));
    }
    if x < 0 {
        lemma_small_mod((x + p) as nat, p);
    }
}

/// The inverse of `a` modulo `p` by the extended Euclidean algorithm, carried out on signed
/// integers of `S2` digits, where both inputs are non-negative. For a modulus `p > 1` and an
/// `a` coprime to it, the result is the inverse of `a` below `p`.
pub fn inverse_mod<const S: usize, const S2: usize>(a: BigUint<S>, p: BigUint<S>) -> (r: BigUint<S>)
    requires
        1 <= S < S2,
    ensures
        r@ == spec_inverse_mod(a@, p@),
        p@ > 1 && coprime(a@ as int, p@ as int) ==> r@ < p@ && (a@ * r@) % p@ == 1,
{
    proof {
        lemma_digits_value_bound(a.digits@);
        lemma_digits_value_bound(p.digits@);
        lemma_width_bound_step(S as nat);
        lemma_width_bound_mono(S as nat + 1, S2 as nat);
        lemma_width_bound_mono(1, S as nat);
        assert(width_bound(1) == pow2(64));
        assert(pow2(64) == 0x1_0000_0000_0000_0000) by { lemma2_to64(); }
        lemma_fits_wider(a@, S as nat, S2 as nat);
        lemma_fits_wider(p@, S as nat, S2 as nat);
        lemma_spec_inverse_mod_bound(a@, p@);
        if p@ > 1 && coprime(a@ as int, p@ as int) {
            law_inverse_mod_inverts(a@, p@);
        }
    }
    let wa = bu_cast::<S, S2>(&a);
    let wp = bu_cast::<S, S2>(&p);
    let sa = bu_as_signed(&wa);
    let sp = bu_as_signed(&wp);
    proof {
        lemma_signed_negative(sa.digits@);
        lemma_signed_negative(sp.digits@);
        assert(sa@ == a@);
        assert(sp@ == p@);
        lemma_extended_gcd_ok(a@ as int, p@ as int, S2 as nat);
    }
    let (_, x, _) = extended_gcd(sa, sp);
    if bi_is_negative(&x) {
        let signed_p = bu_as_signed(&wp);
        proof {
            lemma_tdiv_trem(x@ + p@, p@ as int);
            assert(tdiv(x@ + p@, p@ as int) == 0) by {
                lemma_basic_div(x@ + p@, p@ as int);
            }
        }
        let sum = bi_add(&x, &signed_p);
        let v = bi_rem(&sum, &signed_p);
        proof {
            lemma_signed_negative(v.digits@);
            lemma_digits_value_bound(v.digits@);
        }
        let w = bi_as_unsigned(&v);
        proof {
            lemma_fits_wider(w@, S as nat, S2 as nat);
            lemma_small_mod(w@, width_bound(S as nat));
        }
        bu_cast::<S2, S>(&w)
    } else {
        proof {
            lemma_signed_negative(x.digits@);
            lemma_digits_value_bound(x.digits@);
        }
        let w = bi_as_unsigned(&x);
        proof {
            lemma_small_mod(w@, width_bound(S as nat));
        }
        bu_cast::<S2, S>(&w)
    }
}

/// `a` and `b` have no common divisor above 1.
pub open spec fn coprime(a: int, b: int) -> bool {
    forall|d: int| d > 1 ==> !(#[trigger] (a % d) == 0 && b % d == 0)
}

/// On non-negative inputs the first component of the extended Euclidean algorithm divides
/// both inputs, and is zero only when both are.
pub proof fn lemma_extended_gcd_divides(a: int, b: int)
    requires
        a >= 0,
        b >= 0,
    ensures
        spec_extended_gcd(a, b).0 >= 0,
        spec_extended_gcd(a, b).0 == 0 ==> a == 0 && b == 0,
        spec_extended_gcd(a, b).0 > 0 ==> a % spec_extended_gcd(a, b).0 == 0
            && b % spec_extended_gcd(a, b).0 == 0,
    decreases b,
{
    if b > 0 {
        lemma_tdiv_trem(a, b);
        let q = a / b;
        let r = a % b;
        lemma_mod_bound(a, b);
        lemma_extended_gcd_divides(b, r);
        let g = spec_extended_gcd(b, r).0;
        if g > 0 {
            lemma_fundamental_div_mod(a, b);
            assert(a == q * b + r) by (nonlinear_arith) requires a == b * q + r;
            lemma_mod_multiples_vanish(q * (b / g), r, g);
            lemma_fundamental_div_mod(b, g);
            assert(q * b == g * (q * (b / g))) by (nonlinear_arith)
                requires b == g * (b / g);
            assert(a == g * (q * (b / g)) + r);
            lemma_mul_is_commutative(g, q * (b / g));
        }
    } else {
        if a > 0 {
            lemma_mod_self_0(a);
        }
    }
}

/// Law: for a modulus `p > 1` and an `a` coprime to it, the value of `inverse_mod` is the
/// inverse of `a` modulo `p`, below `p`.
pub proof fn law_inverse_mod_inverts(a: nat, p: nat)
    requires
        p > 1,
        coprime(a as int, p as int),
    ensures
        spec_inverse_mod(a, p) < p,
        (a * spec_inverse_mod(a, p)) % p == 1,
{
    let sa = a as int;
    let sp = p as int;
    lemma_extended_gcd_divides(sa, sp);
    lemma_extended_gcd_bezout(sa, sp);
    lemma_spec_inverse_mod_bound(a, p);
    let (g, x, y) = spec_extended_gcd(sa, sp);
    assert(g == 1) by {
        if g > 1 {
            assert(!(sa % g == 0 && sp % g == 0));
        }
    }
    // a * x == 1 - p * y, which is 1 modulo p
    assert(sa * x == 1 + sp * (-y)) by (nonlinear_arith) requires sa * x + sp * y == 1;
    lemma_mod_multiples_vanish(-y, 1, sp);
    lemma_small_mod(1, p);
    assert((sa * x) % sp == 1) by {
        lemma_mul_is_commutative(sp, -y);
    }
    if x < 0 {
        // a * (x + p) is a * x + a * p, still 1 modulo p
        assert(sa * (x + sp) == sp * sa + sa * x) by (nonlinear_arith);
        lemma_mod_multiples_vanish(sa, sa * x, sp);
        lemma_mul_is_commutative(sp, sa);
    } else {
        // x is at most p, and not p itself, since a * p is 0 modulo p
        if x == sp {
            lemma_mod_multiples_vanish(sa, 0, sp);
            lemma_mul_is_commutative(sp, sa);
            lemma_small_mod(0, p);
        }
    }
}

/// A number with an inverse modulo `p` is coprime to `p`.
pub proof fn lemma_invertible_coprime(a: int, r: int, p: int)
    requires
        p > 1,
        (a * r) % p == 1,
    ensures
        coprime(a, p),
{
    assert forall|d: int| d > 1 implies !(#[trigger] (a % d) == 0 && p % d == 0) by {
        if a % d == 0 && p % d == 0 {
            // d divides a * r and p, so it divides (a * r) % p == 1
            lemma_fundamental_div_mod(a, d);
            lemma_fundamental_div_mod(p, d);
            lemma_fundamental_div_mod(a * r, p);
            let k = (a * r) / p;
            assert(a * r == p * k + 1);
            assert(a * r == d * ((a / d) * r)) by (nonlinear_arith) requires a == d * (a / d);
            assert(p * k == d * ((p / d) * k)) by (nonlinear_arith) requires p == d * (p / d);
            assert(1 == d * ((a / d) * r - (p / d) * k)) by (nonlinear_arith)
                requires a * r == p * k + 1, a * r == d * ((a / d) * r), p * k == d * ((p / d) * k);
            let m = (a / d) * r - (p / d) * k;
            assert(false) by (nonlinear_arith) requires 1 == d * m, d > 1;
        }
    }
}

/// An inverse modulo `p` is unique below `p`.
pub proof fn lemma_inverse_unique(a: int, r: int, s: int, p: int)
    requires
        p > 1,
        0 <= r < p,
        0 <= s < p,
        (a * r) % p == 1,
        (a * s) % p == 1,
    ensures
        r == s,
{
    // r == r (a s) == (r a) s == s modulo p
    lemma_mul_mod_noop_right(r, a * s, p);
    lemma_mul_mod_noop_left(r * a, s, p);
    lemma_mul_is_associative(r, a, s);
    lemma_mul_is_commutative(r, a);
    lemma_small_mod(r as nat, p as nat);
    lemma_small_mod(s as nat, p as nat);
    assert((r * 1) % p == r);
    assert((1 * s) % p == s);
}

/// Law: inverting twice modulo `p > 1` gives back any `a` in `(0, p)` coprime to `p`.
pub proof fn law_inverse_mod_involution(a: nat, p: nat)
    requires
        p > 1,
        0 < a < p,
        coprime(a as int, p as int),
    ensures
        coprime(spec_inverse_mod(a, p) as int, p as int),
        spec_inverse_mod(spec_inverse_mod(a, p), p) == a,
{
    let r = spec_inverse_mod(a, p);
    law_inverse_mod_inverts(a, p);
    assert((r * a) % p == 1) by {
        lemma_mul_is_commutative(a as int, r as int);
    }
    lemma_invertible_coprime(r as int, a as int, p as int);
    let s = spec_inverse_mod(r, p);
    law_inverse_mod_inverts(r, p);
    // a == a (r s) == (a r) s == s modulo p
    let pi = p as int;
    lemma_mul_mod_noop_left((a * r) as int, s as int, pi);
    lemma_mul_is_associative(a as int, r as int, s as int);
    lemma_mul_mod_noop_right(a as int, (r * s) as int, pi);
    lemma_small_mod(s, p);
    lemma_small_mod(a, p);
    assert((1 * (s as int)) % pi == s as int);
    assert((a as int * 1) % pi == a as int);
}

/// `ckb_std::syscalls::current_cycles`: the cycles the VM has spent so far. The value comes
/// from the machine, so nothing is stated of it.
#[verifier::external_body]
fn current_cycles() -> u64 {
    ckb_std::syscalls::current_cycles()
}

/// A named mark of the cycle count, taken when it is made; the cycles spent since then are
/// its end count minus its start count.
pub struct CycleMeasure(u64, &'static str);

impl CycleMeasure {
    /// The cycle count when the mark was made.
    pub closed spec fn start(&self) -> u64 {
        self.0
    }

    /// The name of the mark.
    pub closed spec fn name(&self) -> &'static str {
        self.1
    }

    /// A mark named `name` at the cycle count `start`.
    pub fn from_start(start: u64, name: &'static str) -> (r: Self)
        ensures
            r.start() == start,
            r.name() == name,
    {
        Self(start, name)
    }

    /// A mark named `name` at the current cycle count, as the VM reports it.
    pub fn new(name: &'static str) -> (r: Self)
        ensures
            r.name() == name,
    {
        let start = current_cycles();
        Self::from_start(start, name)
    }

    /// The cycle count when the mark was made.
    pub fn start_cycles(&self) -> (r: u64)
        ensures
            r == self.start(),
    {
        self.0
    }

    /// The name of the mark.
    pub fn label(&self) -> (r: &'static str)
        ensures
            r == self.name(),
    {
        self.1
    }

    /// The cycles spent between the mark and the cycle count `end`.
    pub fn used_cycles(&self, end: u64) -> (r: u64)
        requires
            end >= self.start(),
        ensures
            r == end - self.start(),
    {
        end - self.0
    }
}

/// Law: for an exponent other than zero, the digit-by-digit exponentiation of
/// `multi_step_power` gives what the squaring and multiplying of `power_mod_buint` gives.
pub proof fn law_multi_step_matches_power_mod(a: nat, b: nat, p: nat)
    requires
        p > 0,
        b > 0,
    ensures
        (pow(a as int, b) % (p as int)) as nat == spec_power_mod(a, b, p),
        pow(a as int, b) % (p as int) >= 0,
{
    lemma_mod_bound(pow(a as int, b), p as int);
}

/// Law: where the product fits in `S` digits, `mul_mod` and `mul_mod_expand` give the same.
pub proof fn law_mul_mod_matches_expand<const S: usize, const S2: usize>(
    a: BigUint<S>,
    b: BigUint<S>,
    p: BigUint<S>,
)
    requires
        S <= S2,
        p@ != 0,
        a@ * b@ < width_bound(S as nat),
    ensures
        truncate(p@, S2 as nat) == p@,
        truncate(a@, S2 as nat) * truncate(b@, S2 as nat) < width_bound(S2 as nat),
        truncate(
            (truncate(a@, S2 as nat) * truncate(b@, S2 as nat)) % truncate(p@, S2 as nat),
            S as nat,
        ) == (a@ * b@) % p@,
{
    lemma_digits_value_bound(a.digits@);
    lemma_digits_value_bound(b.digits@);
    lemma_digits_value_bound(p.digits@);
    lemma_fits_wider(a@, S as nat, S2 as nat);
    lemma_fits_wider(b@, S as nat, S2 as nat);
    lemma_fits_wider(p@, S as nat, S2 as nat);
    lemma_width_bound_mono(S as nat, S2 as nat);
    lemma_mod_bound((a@ * b@) as int, p@ as int);
    lemma_small_mod((a@ * b@) % p@, width_bound(S as nat));
}

} // verus!
