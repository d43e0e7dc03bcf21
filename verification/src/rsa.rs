//! RSA ring signature verification with AES: each ring member's RSA function applied to its
//! input is folded into a running value by exclusive or, and the value is then encrypted
//! with AES-256 in ECB mode under the SHA-256 digest of the message; the signature holds when
//! the value comes back to where it started.
use vstd::prelude::*;
use vstd::arithmetic::power::pow;
use aes::cipher::{BlockEncryptMut, KeyInit};
use crate::bignum::{
    lemma_nat_digits_len, read_le_uint, BigUint, bytes_value, nat_digits, u64_le_bytes, lemma_digits_of_value,
    lemma_digits_value_injective, u64_to_le_bytes, u64_from_le_bytes_at,
    u32_from_le_bytes_at, bu_eq, bu_xor, bu_is_zero,
};
use crate::utils::{power_mod, spec_power_mod};
use crate::ecc::lhash_sha256;

verus! {

/// An AES-256 encryptor in ECB mode (`ecb::Encryptor<aes::Aes256>`), held opaque: what the
/// library knows of it is the key it was made with (`ecb_key`).
#[verifier::external_body]
pub struct Aes256Ecb {
    inner: ecb::Encryptor<aes::Aes256>,
}

/// The key that an encryptor was made with.
pub uninterp spec fn ecb_key(e: Aes256Ecb) -> Seq<u8>;

/// What encrypting the 16-byte `block` with AES-256 under `key` gives.
pub uninterp spec fn aes256_encrypt_block(key: Seq<u8>, block: Seq<u8>) -> Seq<u8>;

/// `<ecb::Encryptor<aes::Aes256> as KeyInit>::new`: an encryptor for the 32-byte `key`.
#[verifier::external_body]
fn aes_ecb_new(key: &[u8; 32]) -> (r: Aes256Ecb)
    ensures
        ecb_key(r) == key@,
{
    Aes256Ecb { inner: ecb::Encryptor::<aes::Aes256>::new(key.into()) }
}

/// `BlockEncryptMut::encrypt_block_mut` of an ECB encryptor: the block is replaced by its
/// AES-256 encryption under the encryptor's key (ECB keeps no state between blocks).
#[verifier::external_body]
fn aes_ecb_encrypt_block(e: &mut Aes256Ecb, block: &mut [u8; 16])
    ensures
        ecb_key(*final(e)) == ecb_key(*old(e)),
        final(block)@ == aes256_encrypt_block(ecb_key(*old(e)), old(block)@),
{
    let b: &mut [u8] = &mut block[..];
    e.inner.encrypt_block_mut(b.into())
}

/// The digit of eight little-endian bytes.
pub open spec fn u64_of_le_bytes(b: Seq<u8>) -> u64 {
    bytes_value(b) as u64
}

/// The two digits that encrypting the 16 little-endian bytes of `lo` and `hi` gives.
pub open spec fn encrypt_pair(key: Seq<u8>, lo: u64, hi: u64) -> Seq<u64> {
    let enc = aes256_encrypt_block(key, u64_le_bytes(lo) + u64_le_bytes(hi));
    seq![u64_of_le_bytes(enc.subrange(0, 8)), u64_of_le_bytes(enc.subrange(8, 16))]
}

/// Digits encrypted in ECB mode, two digits (one 16-byte block) at a time.
pub open spec fn ecb_encrypt_digits(key: Seq<u8>, d: Seq<u64>) -> Seq<u64>
    decreases d.len(),
{
    if d.len() < 2 {
        Seq::empty()
    } else {
        encrypt_pair(key, d[0], d[1]) + ecb_encrypt_digits(key, d.skip(2))
    }
}

/// Encrypting two more digits appends their pair.
pub proof fn lemma_ecb_encrypt_digits_step(key: Seq<u8>, d: Seq<u64>, m: int)
    requires
        0 <= m,
        2 * m + 2 <= d.len(),
    ensures
        ecb_encrypt_digits(key, d.take(2 * m + 2)) == ecb_encrypt_digits(key, d.take(2 * m))
            + encrypt_pair(key, d[2 * m], d[2 * m + 1]),
    decreases m,
{
    if m == 0 {
        assert(d.take(2).skip(2) =~= Seq::<u64>::empty());
        assert(d.take(0) =~= Seq::<u64>::empty());
        assert(ecb_encrypt_digits(key, Seq::<u64>::empty()) =~= Seq::<u64>::empty());
        assert(encrypt_pair(key, d[0], d[1]) + Seq::<u64>::empty() =~= encrypt_pair(key, d[0], d[1]));
        assert(Seq::<u64>::empty() + encrypt_pair(key, d[0], d[1]) =~= encrypt_pair(key, d[0], d[1]));
    } else {
        let rest = d.skip(2);
        lemma_ecb_encrypt_digits_step(key, rest, m - 1);
        assert(d.take(2 * m + 2).skip(2) =~= rest.take(2 * (m - 1) + 2));
        assert(d.take(2 * m).skip(2) =~= rest.take(2 * (m - 1)));
        assert(rest[2 * (m - 1)] == d[2 * m]);
        assert(rest[2 * (m - 1) + 1] == d[2 * m + 1]);
        let a = encrypt_pair(key, d[0], d[1]);
        let b = ecb_encrypt_digits(key, rest.take(2 * (m - 1)));
        let c = encrypt_pair(key, d[2 * m], d[2 * m + 1]);
        assert(a + (b + c) =~= (a + b) + c);
    }
}

/// Law: encrypting digits in ECB mode encrypts each pair of digits `2 b`, `2 b + 1` on its
/// own, as the 16-byte block of their little-endian bytes, and puts the two halves of the
/// encrypted block back in place, low half first.
pub proof fn law_ecb_encrypt_digits(key: Seq<u8>, d: Seq<u64>)
    requires
        d.len() % 2 == 0,
    ensures
        ecb_encrypt_digits(key, d).len() == d.len(),
        forall|b: int| 0 <= b < d.len() / 2 ==> {
            let enc = #[trigger] aes256_encrypt_block(key, u64_le_bytes(d[2 * b]) + u64_le_bytes(d[2 * b + 1]));
            &&& ecb_encrypt_digits(key, d)[2 * b] == bytes_value(enc.subrange(0, 8)) as u64
            &&& ecb_encrypt_digits(key, d)[2 * b + 1] == bytes_value(enc.subrange(8, 16)) as u64
        },
    decreases d.len(),
{
    if d.len() >= 2 {
        let rest = d.skip(2);
        law_ecb_encrypt_digits(key, rest);
        let out = ecb_encrypt_digits(key, d);
        assert forall|b: int| 0 <= b < d.len() / 2 implies {
            let enc = #[trigger] aes256_encrypt_block(key, u64_le_bytes(d[2 * b]) + u64_le_bytes(d[2 * b + 1]));
            &&& out[2 * b] == bytes_value(enc.subrange(0, 8)) as u64
            &&& out[2 * b + 1] == bytes_value(enc.subrange(8, 16)) as u64
        } by {
            if b > 0 {
                let c = b - 1;
                assert(rest[2 * c] == d[2 * b]);
                assert(rest[2 * c + 1] == d[2 * b + 1]);
                assert(0 <= c < rest.len() / 2);
                let enc = aes256_encrypt_block(key, u64_le_bytes(rest[2 * c]) + u64_le_bytes(rest[2 * c + 1]));
                assert(out[2 * b] == ecb_encrypt_digits(key, rest)[2 * c]);
                assert(out[2 * b + 1] == ecb_encrypt_digits(key, rest)[2 * c + 1]);
            }
        }
    } else {
        assert(d.len() == 0);
    }
}

/// Digit-wise exclusive or.
pub open spec fn xor_digits(a: Seq<u64>, b: Seq<u64>) -> Seq<u64> {
    Seq::new(a.len(), |j: int| a[j] ^ b[j])
}

/// The starting value: the first 256 bytes.
pub open spec fn rsa_start(sig: Seq<u8>) -> nat {
    bytes_value(sig.subrange(0, 256))
}

/// The number of ring members: the 32-bit little-endian number after the starting value.
pub open spec fn rsa_member_count(sig: Seq<u8>) -> nat {
    bytes_value(sig.subrange(256, 260))
}

/// Where the 516 bytes of ring member `i` start: exponent (4 bytes), modulus (256 bytes),
/// input (256 bytes).
pub open spec fn rsa_member_start(i: nat) -> int {
    (260 + 516 * i) as int
}

/// The public exponent of ring member `i`.
pub open spec fn rsa_exponent(sig: Seq<u8>, i: nat) -> nat {
    bytes_value(sig.subrange(rsa_member_start(i), rsa_member_start(i) + 4))
}

/// The modulus of ring member `i`.
pub open spec fn rsa_modulus(sig: Seq<u8>, i: nat) -> nat {
    bytes_value(sig.subrange(rsa_member_start(i) + 4, rsa_member_start(i) + 260))
}

/// The input of ring member `i`.
pub open spec fn rsa_input(sig: Seq<u8>, i: nat) -> nat {
    bytes_value(sig.subrange(rsa_member_start(i) + 260, rsa_member_start(i) + 516))
}

/// The running value, as digits, after `i` ring members: each member's `x^e mod n` is
/// folded in by exclusive or, then the whole is encrypted with AES-256 in ECB mode under the
/// SHA-256 digest of the message.
pub open spec fn rsa_equation(message: Seq<u8>, sig: Seq<u8>, i: nat) -> Seq<u64>
    decreases i,
{
    if i == 0 {
        nat_digits(rsa_start(sig), 32)
    } else {
        let j = (i - 1) as nat;
        let y = spec_power_mod(rsa_input(sig, j), rsa_exponent(sig, j), rsa_modulus(sig, j));
        ecb_encrypt_digits(
            lhash_sha256(message),
            xor_digits(rsa_equation(message, sig, j), nat_digits(y, 32)),
        )
    }
}

/// The signature holds its starting value, count and all members, and no member with an
/// exponent other than zero has a zero modulus.
pub open spec fn rsa_signature_well_formed(sig: Seq<u8>) -> bool {
    &&& sig.len() >= 260
    &&& sig.len() >= rsa_member_start(rsa_member_count(sig))
    &&& forall|i: nat|
        i < rsa_member_count(sig) && #[trigger] rsa_exponent(sig, i) != 0 ==> rsa_modulus(sig, i) != 0
}

/// Encrypts the digits of `value` in place, two digits (16 little-endian bytes) per block.
#[verifier::spinoff_prover]
fn encrypt_digits(aes_inst: &mut Aes256Ecb, value: &mut BigUint<32>)
    ensures
        ecb_key(*final(aes_inst)) == ecb_key(*old(aes_inst)),
        final(value).digits@ == ecb_encrypt_digits(ecb_key(*old(aes_inst)), old(value).digits@),
{
    let ghost key = ecb_key(*aes_inst);
    let ghost orig = value.digits@;
    let mut m: usize = 0;
    while m < 16
        invariant
            m <= 16,
            ecb_key(*aes_inst) == key,
            orig.len() == 32,
            value.digits@.take(2 * m as int) == ecb_encrypt_digits(key, orig.take(2 * m as int)),
            value.digits@.skip(2 * m as int) == orig.skip(2 * m as int),
        decreases 16 - m,
    {
        let k = 2 * m;
        let lo = u64_to_le_bytes(value.digits[k]);
        let hi = u64_to_le_bytes(value.digits[k + 1]);
        let mut block = [0u8; 16];
        let mut j: usize = 0;
        while j < 8
            invariant
                j <= 8,
                forall|t: int| 0 <= t < j ==> block@[t] == lo@[t],
                forall|t: int| 0 <= t < j ==> block@[8 + t] == hi@[t],
            decreases 8 - j,
        {
            block[j] = lo[j];
            block[8 + j] = hi[j];
            j = j + 1;
        }
        let ghost before = value.digits@;
        proof {
            assert(before[k as int] == before.skip(k as int)[0]);
            assert(before[k + 1] == before.skip(k as int)[1]);
            assert(block@ =~= u64_le_bytes(orig[k as int]) + u64_le_bytes(orig[k + 1]));
        }
        aes_ecb_encrypt_block(aes_inst, &mut block);
        value.digits[k] = u64_from_le_bytes_at(&block, 0);
        value.digits[k + 1] = u64_from_le_bytes_at(&block, 8);
        proof {
            lemma_ecb_encrypt_digits_step(key, orig, m as int);
            assert(value.digits@.take(k + 2) =~= before.take(k as int) + encrypt_pair(
                key,
                orig[k as int],
                orig[k + 1],
            ));
            assert(before.skip(k + 2) =~= before.skip(k as int).skip(2));
            assert(orig.skip(k + 2) =~= orig.skip(k as int).skip(2));
            assert(value.digits@.skip(k + 2) =~= orig.skip(k + 2));
        }
        m = m + 1;
    }
    proof {
        assert(value.digits@ =~= value.digits@.take(32));
        assert(orig.take(32) =~= orig);
    }
}

/// Verifies an RSA ring signature: `Ok` when the running value after all ring members is
/// the starting value, else `Err("Bad signature")`.
pub fn check_hash_rsa(message: &[u8], buf: &[u8]) -> (r: Result<(), &'static str>)
    requires
        rsa_signature_well_formed(buf@),
    ensures
        r is Ok <==> rsa_equation(message@, buf@, rsa_member_count(buf@)) == nat_digits(
            rsa_start(buf@),
            32,
        ),
        r matches Err(e) ==> e == "Bad signature",
{
    let ghost sig = buf@;
    let ghost count = rsa_member_count(sig);
    let len = buf.len();
    let aes_key = crate::ecc::sha256_digest(message);
    let v = read_le_uint::<32>(buf, 0);
    let n = u32_from_le_bytes_at(buf, 256) as usize;
    let mut aes_inst = aes_ecb_new(&aes_key);
    let mut equation = v;
    proof {
        lemma_digits_of_value(v.digits@);
    }
    let mut i: usize = 0;
    while i < n
        invariant
            n == count,
            count == rsa_member_count(sig),
            len == sig.len(),
            sig == buf@,
            i <= n,
            rsa_signature_well_formed(sig),
            ecb_key(aes_inst) == lhash_sha256(message@),
            equation.digits@ == rsa_equation(message@, sig, i as nat),
        decreases n - i,
    {
        assert(260 + 516 * i + 516 <= len) by {
            assert(rsa_member_start(count) == 260 + 516 * count);
        }
        let start_offset = 256 + 4 + i * 516;
        let e = u32_from_le_bytes_at(buf, start_offset);
        let n_i = read_le_uint::<32>(buf, start_offset + 4);
        let x = read_le_uint::<32>(buf, start_offset + 4 + 256);
        proof {
            assert(rsa_exponent(sig, i as nat) != 0 ==> rsa_modulus(sig, i as nat) != 0);
        }
        let y = power_mod::<32, 64>(x, e as u64, n_i);
        let ghost prev = equation.digits@;
        equation = bu_xor(&equation, &y);
        proof {
            lemma_digits_of_value(y.digits@);
            assert(equation.digits@ =~= xor_digits(prev, nat_digits(y@, 32)));
        }
        encrypt_digits(&mut aes_inst, &mut equation);
        i = i + 1;
    }
    proof {
        if equation@ == v@ {
            lemma_digits_value_injective(equation.digits@, v.digits@);
        }
    }
    if !bu_eq(&equation, &v) {
        return Err("Bad signature");
    }
    Ok(())
}


/// Verifies an RSA ring signature as `check_hash_rsa` does, after testing at run time that
/// the signature holds its starting value, count and every member, and that no member with
/// an exponent other than zero has a zero modulus: `None` where it does not, else `Some` of
/// the verdict.
pub fn check_hash_rsa_checked(message: &[u8], buf: &[u8]) -> (r: Option<Result<(), &'static str>>)
    ensures
        r is Some <==> rsa_signature_well_formed(buf@),
        r matches Some(v) ==> (v is Ok <==> rsa_equation(message@, buf@, rsa_member_count(buf@))
            == nat_digits(rsa_start(buf@), 32)),
        r matches Some(Err(e)) ==> e == "Bad signature",
{
    let ghost sig = buf@;
    let len = buf.len();
    if len < 260 {
        return None;
    }
    let n = u32_from_le_bytes_at(buf, 256);
    if (len as u64) < 260 + 516 * (n as u64) {
        return None;
    }
    let mut i: u32 = 0;
    while i < n
        invariant
            n == rsa_member_count(sig),
            len == sig.len(),
            sig == buf@,
            sig.len() >= 260,
            sig.len() >= rsa_member_start(n as nat),
            i <= n,
            forall|j: nat| j < i && #[trigger] rsa_exponent(sig, j) != 0 ==> rsa_modulus(sig, j) != 0,
        decreases n - i,
    {
        assert(rsa_member_start(i as nat) + 516 <= len);
        let off = 260 + 516 * (i as usize);
        let e = u32_from_le_bytes_at(buf, off);
        let m = read_le_uint::<32>(buf, off + 4);
        if e != 0 && bu_is_zero(&m) {
            assert(rsa_exponent(sig, i as nat) != 0 && rsa_modulus(sig, i as nat) == 0);
            return None;
        }
        i = i + 1;
    }
    Some(check_hash_rsa(message, buf))
}

/// Appending bytes after the members keeps every field of the first `n` members.
proof fn lemma_rsa_fields_append(sig: Seq<u8>, extra: Seq<u8>, n: nat)
    requires
        sig.len() >= rsa_member_start(n),
    ensures
        forall|i: nat| i < n ==> #[trigger] rsa_exponent(sig + extra, i) == rsa_exponent(sig, i),
        forall|i: nat| i < n ==> #[trigger] rsa_modulus(sig + extra, i) == rsa_modulus(sig, i),
        forall|i: nat| i < n ==> #[trigger] rsa_input(sig + extra, i) == rsa_input(sig, i),
    decreases n,
{
    let t = sig + extra;
    if n > 0 {
        let j = (n - 1) as nat;
        lemma_rsa_fields_append(sig, extra, j);
        let s = rsa_member_start(j);
        assert(t.subrange(s, s + 4) =~= sig.subrange(s, s + 4));
        assert(t.subrange(s + 4, s + 260) =~= sig.subrange(s + 4, s + 260));
        assert(t.subrange(s + 260, s + 516) =~= sig.subrange(s + 260, s + 516));
    }
}

/// Appending bytes after the members keeps the running value along the ring.
proof fn lemma_rsa_equation_append(message: Seq<u8>, sig: Seq<u8>, extra: Seq<u8>, i: nat)
    requires
        sig.len() >= 260,
        sig.len() >= rsa_member_start(rsa_member_count(sig)),
        i <= rsa_member_count(sig),
    ensures
        rsa_equation(message, sig + extra, i) == rsa_equation(message, sig, i),
    decreases i,
{
    let t = sig + extra;
    assert(t.subrange(0, 256) =~= sig.subrange(0, 256));
    lemma_rsa_fields_append(sig, extra, rsa_member_count(sig));
    if i > 0 {
        let j = (i - 1) as nat;
        lemma_rsa_equation_append(message, sig, extra, j);
        assert(rsa_exponent(t, j) == rsa_exponent(sig, j));
        assert(rsa_modulus(t, j) == rsa_modulus(sig, j));
        assert(rsa_input(t, j) == rsa_input(sig, j));
    }
}

/// Law: bytes after the last ring member change neither whether `check_hash_rsa` may be
/// called on a signature nor its verdict.
pub proof fn law_check_hash_rsa_ignores_trailing_bytes(message: Seq<u8>, sig: Seq<u8>, extra: Seq<u8>)
    requires
        sig.len() >= 260,
        sig.len() >= rsa_member_start(rsa_member_count(sig)),
    ensures
        rsa_signature_well_formed(sig + extra) == rsa_signature_well_formed(sig),
        rsa_member_count(sig + extra) == rsa_member_count(sig),
        rsa_start(sig + extra) == rsa_start(sig),
        rsa_equation(message, sig + extra, rsa_member_count(sig))
            == rsa_equation(message, sig, rsa_member_count(sig)),
{
    let t = sig + extra;
    let n = rsa_member_count(sig);
    assert(t.subrange(0, 256) =~= sig.subrange(0, 256));
    assert(t.subrange(256, 260) =~= sig.subrange(256, 260));
    lemma_rsa_fields_append(sig, extra, n);
    lemma_rsa_equation_append(message, sig, extra, n);
    if rsa_signature_well_formed(sig) {
        assert forall|i: nat| i < rsa_member_count(t) && #[trigger] rsa_exponent(t, i) != 0
            implies rsa_modulus(t, i) != 0 by {
            assert(rsa_exponent(sig, i) != 0);
        }
    }
    if rsa_signature_well_formed(t) {
        assert forall|i: nat| i < n && #[trigger] rsa_exponent(sig, i) != 0
            implies rsa_modulus(sig, i) != 0 by {
            assert(rsa_exponent(t, i) != 0);
        }
    }
}

/// The running value has 32 digits.
proof fn lemma_rsa_equation_len(message: Seq<u8>, sig: Seq<u8>, i: nat)
    ensures
        rsa_equation(message, sig, i).len() == 32,
    decreases i,
{
    lemma_nat_digits_len(rsa_start(sig), 32);
    if i > 0 {
        let j = (i - 1) as nat;
        lemma_rsa_equation_len(message, sig, j);
        let y = spec_power_mod(rsa_input(sig, j), rsa_exponent(sig, j), rsa_modulus(sig, j));
        let x = xor_digits(rsa_equation(message, sig, j), nat_digits(y, 32));
        assert(x.len() == 32);
        law_ecb_encrypt_digits(lhash_sha256(message), x);
    }
}

/// Law: the starting value, and each next running value of the ring: the previous one, as
/// 32 digits, exclusive-or'ed with the digits of `x_i^e_i mod n_i` (1 for a zero exponent)
/// and encrypted block by block with AES-256 under the SHA-256 digest of the whole message,
/// where `e_i`, `n_i` and `x_i` are the full 32-bit exponent, the modulus and the input of
/// member `i` as they stand in the signature.
pub proof fn law_rsa_equation_step(message: Seq<u8>, sig: Seq<u8>, i: nat)
    requires
        rsa_signature_well_formed(sig),
        i < rsa_member_count(sig),
    ensures
        ({
            let s = 260 + 516 * (i as int);
            let e = bytes_value(sig.subrange(s, s + 4));
            let n = bytes_value(sig.subrange(s + 4, s + 260));
            let x = bytes_value(sig.subrange(s + 260, s + 516));
            let y: nat = if e == 0 { 1 } else { (pow(x as int, e) % (n as int)) as nat };
            &&& e != 0 ==> n != 0
            &&& rsa_equation(message, sig, i + 1) == ecb_encrypt_digits(
                lhash_sha256(message),
                Seq::new(32, |j: int| rsa_equation(message, sig, i)[j] ^ nat_digits(y, 32)[j]),
            )
        }),
        rsa_equation(message, sig, 0) == nat_digits(bytes_value(sig.subrange(0, 256)), 32),
        rsa_member_count(sig) == bytes_value(sig.subrange(256, 260)),
{
    lemma_rsa_equation_len(message, sig, i);
    assert(xor_digits(rsa_equation(message, sig, i), nat_digits(
        if rsa_exponent(sig, i) == 0 { 1 } else { (pow(rsa_input(sig, i) as int, rsa_exponent(sig, i))
            % (rsa_modulus(sig, i) as int)) as nat },
        32,
    )) =~= Seq::new(32, |j: int| rsa_equation(message, sig, i)[j] ^ nat_digits(
        if rsa_exponent(sig, i) == 0 { 1 } else { (pow(rsa_input(sig, i) as int, rsa_exponent(sig, i))
            % (rsa_modulus(sig, i) as int)) as nat },
        32,
    )[j]));
    if rsa_exponent(sig, i) != 0 {
        assert(rsa_modulus(sig, i) != 0);
    }
}

} // verus!
