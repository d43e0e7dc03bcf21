//! RSA ring signature verification: each ring member's RSA function maps the response,
//! times the previous challenge, to a value whose SHA-256 digest (after the message and all
//! moduli) is the next challenge; the signature holds when the ring closes.
use vstd::prelude::*;
use vstd::arithmetic::power::pow;
use sha2::Digest;
use vstd::arithmetic::power2::pow2;
use crate::bignum::{
    read_le_uint,
    BigUint, bytes_value, nat_le_bytes, digits_le_bytes, width_bound, lemma_bytes_value_bound,
    lemma_digits_le_bytes_value, lemma_digits_le_bytes_push, lemma_digits_value_bound,
    lemma_fits_wider, lemma_width_bound_mono, lemma_width_bound_square, u64_to_le_bytes,
    u32_from_le_bytes_at, bu_from_le_slice, bu_eq, bu_is_zero,
};
use crate::utils::{mul_mod_expand, power_mod, spec_power_mod};

verus! {

/// A SHA-256 hasher of the `sha2` crate (`sha2::Sha256`), held opaque: what the library
/// knows of it is the bytes it has absorbed (`sha2_absorbed`).
#[verifier::external_body]
pub struct Sha256Hasher {
    inner: sha2::Sha256,
}

/// The bytes that a hasher has absorbed since it was made, in order.
pub uninterp spec fn sha2_absorbed(h: Sha256Hasher) -> Seq<u8>;

/// What `sha2`'s `Digest::finalize` gives for the absorbed bytes `data`: their SHA-256
/// digest.
pub uninterp spec fn sha2_digest(data: Seq<u8>) -> Seq<u8>;

/// `<sha2::Sha256 as Digest>::new`: a hasher that has absorbed nothing.
#[verifier::external_body]
fn sha2_new() -> (h: Sha256Hasher)
    ensures
        sha2_absorbed(h) == Seq::<u8>::empty(),
{
    Sha256Hasher { inner: sha2::Sha256::new() }
}

/// `<sha2::Sha256 as Digest>::update`: the hasher absorbs `data` after what it holds.
#[verifier::external_body]
fn sha2_update(h: &mut Sha256Hasher, data: &[u8])
    ensures
        sha2_absorbed(*final(h)) == sha2_absorbed(*old(h)) + data@,
{
    h.inner.update(data)
}

/// `<sha2::Sha256 as Clone>::clone`: a hasher that has absorbed the same bytes.
#[verifier::external_body]
fn sha2_clone(h: &Sha256Hasher) -> (r: Sha256Hasher)
    ensures
        sha2_absorbed(r) == sha2_absorbed(*h),
{
    Sha256Hasher { inner: h.inner.clone() }
}

/// `<sha2::Sha256 as Digest>::finalize`: the digest of the absorbed bytes, named by
/// `sha2_digest`.
#[verifier::external_body]
fn sha2_finalize(h: Sha256Hasher) -> (r: [u8; 32])
    ensures
        r@ == sha2_digest(sha2_absorbed(h)),
{
    let out = h.inner.finalize();
    let mut r = [0u8; 32];
    r.copy_from_slice(&out);
    r
}

/// The number of ring members: the 32-bit little-endian number at the start.
pub open spec fn rsa_count(sig: Seq<u8>) -> nat {
    bytes_value(sig.subrange(0, 4))
}

/// The first challenge: the 256 little-endian bytes after the count.
pub open spec fn rsa2_c0(sig: Seq<u8>) -> nat {
    bytes_value(sig.subrange(4, 260))
}

/// Where the 516 bytes of ring member `i` start: response (256 bytes), public exponent
/// (4 bytes), modulus (256 bytes).
pub open spec fn rsa2_member_start(i: nat) -> int {
    (260 + 516 * i) as int
}

/// The response of ring member `i`.
pub open spec fn rsa2_response(sig: Seq<u8>, i: nat) -> nat {
    bytes_value(sig.subrange(rsa2_member_start(i), rsa2_member_start(i) + 256))
}

/// The public exponent of ring member `i`.
pub open spec fn rsa2_exponent(sig: Seq<u8>, i: nat) -> nat {
    bytes_value(sig.subrange(rsa2_member_start(i) + 256, rsa2_member_start(i) + 260))
}

/// The modulus of ring member `i`.
pub open spec fn rsa2_modulus(sig: Seq<u8>, i: nat) -> nat {
    bytes_value(sig.subrange(rsa2_member_start(i) + 260, rsa2_member_start(i) + 516))
}

/// The bytes of the moduli of the first `i` ring members, as they stand in the signature.
pub open spec fn rsa2_moduli_bytes(sig: Seq<u8>, i: nat) -> Seq<u8>
    decreases i,
{
    if i == 0 {
        Seq::empty()
    } else {
        rsa2_moduli_bytes(sig, (i - 1) as nat) + sig.subrange(
            rsa2_member_start((i - 1) as nat) + 260,
            rsa2_member_start((i - 1) as nat) + 516,
        )
    }
}

/// The challenge that `value` gives: the SHA-256 digest of the message, all moduli and the
/// 256 little-endian bytes of `value`, read as a little-endian number.
pub open spec fn rsa2_hash(message: Seq<u8>, sig: Seq<u8>, value: nat) -> nat {
    bytes_value(sha2_digest(message + rsa2_moduli_bytes(sig, rsa_count(sig)) + nat_le_bytes(value, 256)))
}

/// The challenge after `i` ring members: the first from the signature; each next one the
/// hash of `((r * c) mod n)^e mod n` for the member's response `r`, exponent `e` and modulus
/// `n` and the challenge `c` before it.
pub open spec fn rsa2_challenge(message: Seq<u8>, sig: Seq<u8>, i: nat) -> nat
    decreases i,
{
    if i == 0 {
        rsa2_c0(sig)
    } else {
        let j = (i - 1) as nat;
        let c = rsa2_challenge(message, sig, j);
        let n = rsa2_modulus(sig, j);
        let v = spec_power_mod((rsa2_response(sig, j) * c) % n, rsa2_exponent(sig, j), n);
        rsa2_hash(message, sig, v)
    }
}

/// The signature holds its count, first challenge and all members, and no modulus is zero.
pub open spec fn rsa2_signature_well_formed(sig: Seq<u8>) -> bool {
    &&& sig.len() >= 260
    &&& sig.len() >= rsa2_member_start(rsa_count(sig))
    &&& forall|i: nat| i < rsa_count(sig) ==> #[trigger] rsa2_modulus(sig, i) != 0
}

/// The challenge that `integer` gives: the digest of what the hasher holds followed by the
/// little-endian bytes of `integer`, read as a number.
fn compound_hash(hasher: &Sha256Hasher, integer: &BigUint<32>) -> (r: BigUint<32>)
    ensures
        r@ == bytes_value(sha2_digest(sha2_absorbed(*hasher) + nat_le_bytes(integer@, 256))),
        r@ < pow2(256),
{
    let mut local_hasher = sha2_clone(hasher);
    let ghost d = integer.digits@;
    let mut i: usize = 0;
    while i < 32
        invariant
            i <= 32,
            d == integer.digits@,
            sha2_absorbed(local_hasher) == sha2_absorbed(*hasher) + digits_le_bytes(d.take(i as int)),
        decreases 32 - i,
    {
        let bytes = u64_to_le_bytes(integer.digits[i]);
        sha2_update(&mut local_hasher, &bytes);
        proof {
            lemma_digits_le_bytes_push(d.take(i as int), d[i as int]);
            assert(d.take(i as int).push(d[i as int]) =~= d.take(i + 1));
        }
        i = i + 1;
    }
    let digest = sha2_finalize(local_hasher);
    proof {
        assert(d.take(32) =~= d);
        lemma_digits_le_bytes_value(d);
        lemma_bytes_value_bound(digest@);
        lemma_width_bound_mono(4, 32);
        assert(pow2(256) == width_bound(4));
    }
    bu_from_le_slice::<32>(&digest).unwrap()
}

/// Verifies an RSA ring signature: `Ok` when the challenge after all ring members equals
/// the first, else `Err("Bad signature")`.
pub fn check_hash_rsa2(message: &[u8], buf: &[u8]) -> (r: Result<(), &'static str>)
    requires
        rsa2_signature_well_formed(buf@),
    ensures
        r is Ok <==> rsa2_challenge(message@, buf@, rsa_count(buf@)) == rsa2_c0(buf@),
        r matches Err(e) ==> e == "Bad signature",
        rsa_count(buf@) >= 1 ==> rsa2_challenge(message@, buf@, rsa_count(buf@)) < pow2(256),
{
    let ghost sig = buf@;
    let ghost count = rsa_count(sig);
    let len = buf.len();
    let n_size = u32_from_le_bytes_at(buf, 0) as usize;
    let c0 = read_le_uint::<32>(buf, 4);
    let mut hasher = sha2_new();
    sha2_update(&mut hasher, message);
    let mut i: usize = 0;
    while i < n_size
        invariant
            n_size == count,
            count == rsa_count(sig),
            len == sig.len(),
            sig == buf@,
            i <= n_size,
            rsa2_signature_well_formed(sig),
            sha2_absorbed(hasher) == message@ + rsa2_moduli_bytes(sig, i as nat),
        decreases n_size - i,
    {
        assert(260 + 516 * i + 516 <= len) by {
            assert(rsa2_member_start(count) == 260 + 516 * count);
        }
        let start_offset = 4 + 256 + i * 516;
        sha2_update(&mut hasher, &buf[start_offset + 256 + 4..start_offset + 256 + 4 + 256]);
        proof {
            assert(message@ + rsa2_moduli_bytes(sig, i as nat) + sig.subrange(
                start_offset + 260,
                start_offset + 516,
            ) =~= message@ + rsa2_moduli_bytes(sig, (i + 1) as nat));
        }
        i = i + 1;
    }
    let mut last_c = c0;
    let mut i: usize = 0;
    while i < n_size
        invariant
            n_size == count,
            count == rsa_count(sig),
            len == sig.len(),
            sig == buf@,
            i <= n_size,
            rsa2_signature_well_formed(sig),
            sha2_absorbed(hasher) == message@ + rsa2_moduli_bytes(sig, count),
            last_c@ == rsa2_challenge(message@, sig, i as nat),
            i > 0 ==> last_c@ < pow2(256),
        decreases n_size - i,
    {
        assert(260 + 516 * i + 516 <= len) by {
            assert(rsa2_member_start(count) == 260 + 516 * count);
        }
        let start_offset = 4 + 256 + i * 516;
        let r = read_le_uint::<32>(buf, start_offset);
        let e = u32_from_le_bytes_at(buf, start_offset + 256);
        let n = read_le_uint::<32>(buf, start_offset + 256 + 4);
        proof {
            assert(rsa2_modulus(sig, i as nat) != 0);
            lemma_digits_value_bound(r.digits@);
            lemma_digits_value_bound(last_c.digits@);
            lemma_digits_value_bound(n.digits@);
            lemma_fits_wider(r@, 32, 64);
            lemma_fits_wider(last_c@, 32, 64);
            lemma_fits_wider(n@, 32, 64);
            lemma_width_bound_square(32);
            let w = width_bound(32);
            assert(r@ * last_c@ < w * w) by (nonlinear_arith)
                requires r@ < w, last_c@ < w;
        }
        let product = mul_mod_expand::<32, 64>(r, last_c, n);
        let value = power_mod::<32, 64>(product, e as u64, n);
        last_c = compound_hash(&hasher, &value);
        i = i + 1;
    }
    if !bu_eq(&last_c, &c0) {
        return Err("Bad signature");
    }
    Ok(())
}


/// Verifies an RSA ring signature as `check_hash_rsa2` does, after testing at run time that
/// the signature holds its count, first challenge and every member, and that no modulus is
/// zero: `None` where it does not, else `Some` of the verdict.
pub fn check_hash_rsa2_checked(message: &[u8], buf: &[u8]) -> (r: Option<Result<(), &'static str>>)
    ensures
        r is Some <==> rsa2_signature_well_formed(buf@),
        r matches Some(v) ==> (v is Ok <==> rsa2_challenge(message@, buf@, rsa_count(buf@))
            == rsa2_c0(buf@)),
        r matches Some(Err(e)) ==> e == "Bad signature",
        r is Some && rsa_count(buf@) >= 1 ==> rsa2_challenge(message@, buf@, rsa_count(buf@))
            < pow2(256),
{
    let ghost sig = buf@;
    let len = buf.len();
    if len < 260 {
        return None;
    }
    let n = u32_from_le_bytes_at(buf, 0);
    if (len as u64) < 260 + 516 * (n as u64) {
        return None;
    }
    let mut i: u32 = 0;
    while i < n
        invariant
            n == rsa_count(sig),
            len == sig.len(),
            sig == buf@,
            sig.len() >= 260,
            sig.len() >= rsa2_member_start(n as nat),
            i <= n,
            forall|j: nat| j < i ==> #[trigger] rsa2_modulus(sig, j) != 0,
        decreases n - i,
    {
        assert(rsa2_member_start(i as nat) + 516 <= len);
        let off = 260 + 516 * (i as usize);
        let m = read_le_uint::<32>(buf, off + 260);
        if bu_is_zero(&m) {
            assert(rsa2_modulus(sig, i as nat) == 0);
            return None;
        }
        i = i + 1;
    }
    Some(check_hash_rsa2(message, buf))
}

/// Appending bytes after the members keeps every field of the first `n` members, and their
/// moduli bytes.
proof fn lemma_rsa2_fields_append(sig: Seq<u8>, extra: Seq<u8>, n: nat)
    requires
        sig.len() >= rsa2_member_start(n),
    ensures
        forall|i: nat| i < n ==> #[trigger] rsa2_response(sig + extra, i) == rsa2_response(sig, i),
        forall|i: nat| i < n ==> #[trigger] rsa2_exponent(sig + extra, i) == rsa2_exponent(sig, i),
        forall|i: nat| i < n ==> #[trigger] rsa2_modulus(sig + extra, i) == rsa2_modulus(sig, i),
        rsa2_moduli_bytes(sig + extra, n) == rsa2_moduli_bytes(sig, n),
    decreases n,
{
    let t = sig + extra;
    if n > 0 {
        let j = (n - 1) as nat;
        lemma_rsa2_fields_append(sig, extra, j);
        let s = rsa2_member_start(j);
        assert(t.subrange(s, s + 256) =~= sig.subrange(s, s + 256));
        assert(t.subrange(s + 256, s + 260) =~= sig.subrange(s + 256, s + 260));
        assert(t.subrange(s + 260, s + 516) =~= sig.subrange(s + 260, s + 516));
    }
}

/// Appending bytes after the members keeps the challenges along the ring.
proof fn lemma_rsa2_challenges_append(message: Seq<u8>, sig: Seq<u8>, extra: Seq<u8>, i: nat)
    requires
        sig.len() >= 260,
        sig.len() >= rsa2_member_start(rsa_count(sig)),
        i <= rsa_count(sig),
    ensures
        rsa2_challenge(message, sig + extra, i) == rsa2_challenge(message, sig, i),
    decreases i,
{
    let t = sig + extra;
    assert(t.subrange(0, 4) =~= sig.subrange(0, 4));
    assert(t.subrange(4, 260) =~= sig.subrange(4, 260));
    lemma_rsa2_fields_append(sig, extra, rsa_count(sig));
    if i > 0 {
        let j = (i - 1) as nat;
        lemma_rsa2_challenges_append(message, sig, extra, j);
        assert(rsa2_response(t, j) == rsa2_response(sig, j));
        assert(rsa2_exponent(t, j) == rsa2_exponent(sig, j));
        assert(rsa2_modulus(t, j) == rsa2_modulus(sig, j));
    }
}

/// Law: bytes after the last ring member change neither whether `check_hash_rsa2` may be
/// called on a signature nor its verdict.
pub proof fn law_check_hash_rsa2_ignores_trailing_bytes(message: Seq<u8>, sig: Seq<u8>, extra: Seq<u8>)
    requires
        sig.len() >= 260,
        sig.len() >= rsa2_member_start(rsa_count(sig)),
    ensures
        rsa2_signature_well_formed(sig + extra) == rsa2_signature_well_formed(sig),
        rsa_count(sig + extra) == rsa_count(sig),
        rsa2_c0(sig + extra) == rsa2_c0(sig),
        rsa2_challenge(message, sig + extra, rsa_count(sig)) == rsa2_challenge(message, sig, rsa_count(sig)),
{
    let t = sig + extra;
    let n = rsa_count(sig);
    assert(t.subrange(0, 4) =~= sig.subrange(0, 4));
    assert(t.subrange(4, 260) =~= sig.subrange(4, 260));
    lemma_rsa2_fields_append(sig, extra, n);
    lemma_rsa2_challenges_append(message, sig, extra, n);
    if rsa2_signature_well_formed(sig) {
        assert forall|i: nat| i < rsa_count(t) implies #[trigger] rsa2_modulus(t, i) != 0 by {
            assert(rsa2_modulus(sig, i) != 0);
        }
    }
    if rsa2_signature_well_formed(t) {
        assert forall|i: nat| i < n implies #[trigger] rsa2_modulus(sig, i) != 0 by {
            assert(rsa2_modulus(t, i) != 0);
        }
    }
}

/// Law: the moduli bytes that every challenge hashes are the 256 bytes of each member's
/// modulus, as they stand in the signature, member after member.
pub proof fn law_rsa2_moduli_bytes(sig: Seq<u8>, n: nat)
    requires
        sig.len() >= rsa2_member_start(n),
    ensures
        rsa2_moduli_bytes(sig, n).len() == 256 * n,
        forall|j: int, t: int| 0 <= j < n && 0 <= t < 256 ==> #[trigger] rsa2_moduli_bytes(sig, n)[256 * j + t]
            == sig[260 + 516 * j + 260 + t],
    decreases n,
{
    if n > 0 {
        let m = (n - 1) as nat;
        law_rsa2_moduli_bytes(sig, m);
        assert forall|j: int, t: int| 0 <= j < n && 0 <= t < 256 implies #[trigger] rsa2_moduli_bytes(sig, n)[256 * j + t]
            == sig[260 + 516 * j + 260 + t] by {
            if j < m {
                assert(256 * j + t < 256 * m) by (nonlinear_arith) requires j < m, t < 256, 0 <= t;
                assert(rsa2_moduli_bytes(sig, m)[256 * j + t] == sig[260 + 516 * j + 260 + t]);
            } else {
                assert(j == m);
                assert(256 * j + t - 256 * m == t);
            }
        }
    }
}

/// Law: each next challenge of the ring is the little-endian value of the SHA-256 digest of
/// the whole message, the moduli bytes of all members and the 256 little-endian bytes of
/// `((r_i c_i) mod n_i)^e_i mod n_i` (1 for a zero exponent), where `r_i`, `e_i` and `n_i`
/// are the response, public exponent and modulus of member `i` as they stand in the
/// signature and `c_i` is the challenge before.
pub proof fn law_rsa2_challenge_step(message: Seq<u8>, sig: Seq<u8>, i: nat)
    requires
        rsa2_signature_well_formed(sig),
        i < rsa_count(sig),
    ensures
        ({
            let s = 260 + 516 * (i as int);
            let r = bytes_value(sig.subrange(s, s + 256));
            let e = bytes_value(sig.subrange(s + 256, s + 260));
            let n = bytes_value(sig.subrange(s + 260, s + 516));
            let c = rsa2_challenge(message, sig, i);
            let v: nat = if e == 0 { 1 } else { (pow(((r * c) % n) as int, e) % (n as int)) as nat };
            &&& n != 0
            &&& rsa2_challenge(message, sig, i + 1) == bytes_value(
                sha2_digest(message + rsa2_moduli_bytes(sig, rsa_count(sig)) + nat_le_bytes(v, 256)),
            )
        }),
        rsa2_challenge(message, sig, 0) == bytes_value(sig.subrange(4, 260)),
        rsa_count(sig) == bytes_value(sig.subrange(0, 4)),
{
    assert(rsa2_modulus(sig, i) != 0);
}

} // verus!
