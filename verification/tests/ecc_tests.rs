use ring_signature::bignum::BigUint;
use ring_signature::utils::{add_mod_expand, mul_mod_expand};
use ring_signature::ecc::{
    at_most_field_prime, check_hash_ecc, check_hash_ecc_checked, compound_hash, field_prime, generator, kmul, point_add, point_to_bytes,
    uint_to_bytes, Point,
};

fn big(d: [u64; 4]) -> BigUint<4> {
    BigUint { digits: d }
}

fn infinity() -> Point {
    Point(big([0; 4]), big([0; 4]))
}

fn two_g() -> Point {
    Point(
        big([0xabac_09b9_5c70_9ee5, 0x5c77_8e4b_8cef_3ca7, 0x3045_406e_95c0_7cd8, 0xc604_7f94_41ed_7d6d]),
        big([0x2364_31a9_50cf_e52a, 0xf7f6_3265_3266_d0e1, 0xa3c5_8419_466c_eaee, 0x1ae1_68fe_a63d_c339]),
    )
}

fn three_g() -> Point {
    Point(
        big([0x8601_f113_bce0_36f9, 0xb531_c845_836f_99b0, 0x4934_4f85_f89d_5229, 0xf930_8a01_9258_c310]),
        big([0x6cb9_fd75_84b8_e672, 0x6500_a999_34c2_231b, 0x0fe3_37e6_2a37_f356, 0x388f_7b0f_632d_e814]),
    )
}

fn same(a: &Point, b: &Point) -> bool {
    a.0.digits == b.0.digits && a.1.digits == b.1.digits
}

#[test]
fn generator_and_prime_constants() {
    let g = generator();
    assert_eq!(g.0.digits[3], 0x79BE_667E_F9DC_BBAC);
    assert_eq!(g.1.digits[0], 0x9C47_D08F_FB10_D4B8);
    assert_eq!(field_prime().digits, [0xFFFF_FFFE_FFFF_FC2F, u64::MAX, u64::MAX, u64::MAX]);
}

#[test]
fn point_add_infinity_is_neutral() {
    let g = generator();
    assert!(same(&point_add(infinity(), g), &g));
    assert!(same(&point_add(g, infinity()), &g));
    assert!(same(&point_add(infinity(), infinity()), &infinity()));
}

#[test]
fn point_add_opposite_points_give_infinity() {
    let g = generator();
    let p = field_prime();
    // p - y, digit by digit with borrow
    let mut neg = [0u64; 4];
    let mut borrow = 0u64;
    for i in 0..4 {
        let (d1, b1) = p.digits[i].overflowing_sub(g.1.digits[i]);
        let (d2, b2) = d1.overflowing_sub(borrow);
        neg[i] = d2;
        borrow = (b1 || b2) as u64;
    }
    let minus_g = Point(g.0, big(neg));
    assert!(same(&point_add(g, minus_g), &infinity()));
}

#[test]
fn point_add_doubling_of_generator() {
    let g = generator();
    assert!(same(&point_add(g, g), &two_g()));
}

#[test]
fn kmul_small_scalars() {
    let g = generator();
    assert!(same(&kmul(big([0; 4]), g), &infinity()));
    assert!(same(&kmul(big([1, 0, 0, 0]), g), &g));
    assert!(same(&kmul(big([2, 0, 0, 0]), g), &two_g()));
    assert!(same(&kmul(big([12345, 0, 0, 0]), infinity()), &infinity()));
}

#[test]
fn kmul_three_is_double_plus_one() {
    let g = generator();
    let three = kmul(big([3, 0, 0, 0]), g);
    assert!(same(&three, &point_add(g, two_g())));
    assert!(same(&three, &three_g()));
}

#[test]
fn point_add_is_commutative_on_the_curve() {
    let g = generator();
    assert!(same(&point_add(g, two_g()), &point_add(two_g(), g)));
    assert!(same(&point_add(g, two_g()), &three_g()));
}

#[test]
fn kmul_by_the_group_order_gives_infinity() {
    let n = big([0xBFD2_5E8C_D036_4141, 0xBAAE_DCE6_AF48_A03B, 0xFFFF_FFFF_FFFF_FFFE, u64::MAX]);
    assert!(same(&kmul(n, generator()), &infinity()));
    let n_plus_one = big([0xBFD2_5E8C_D036_4142, 0xBAAE_DCE6_AF48_A03B, 0xFFFF_FFFF_FFFF_FFFE, u64::MAX]);
    assert!(same(&kmul(n_plus_one, generator()), &generator()));
}

#[test]
fn uint_to_bytes_is_little_endian() {
    let mut out = [0xAAu8; 40];
    uint_to_bytes(&big([0x0807_0605_0403_0201, 0, 0, 0x1122_3344_5566_7788]), &mut out);
    assert_eq!(&out[0..8], &[1, 2, 3, 4, 5, 6, 7, 8]);
    assert_eq!(&out[8..24], &[0u8; 16]);
    assert_eq!(&out[24..32], &[0x88, 0x77, 0x66, 0x55, 0x44, 0x33, 0x22, 0x11]);
    assert_eq!(&out[32..40], &[0xAA; 8]);
}

#[test]
fn point_to_bytes_writes_both_coordinates() {
    let mut out = [0u8; 70];
    point_to_bytes(&Point(big([1, 0, 0, 0]), big([0, 0, 0, 1 << 63])), &mut out);
    assert_eq!(out[0], 1);
    assert_eq!(out[32], 0);
    assert_eq!(out[63], 0x80);
    assert_eq!(&out[64..70], &[0u8; 6]);
}

#[test]
fn compound_hash_hashes_message_keys_and_point() {
    let keys = [generator(), two_g()];
    let extra = infinity();
    let h = compound_hash(b"hello, world!", &keys, &extra);
    let mut data: Vec<u8> = b"hello, world!".to_vec();
    for k in keys.iter() {
        let mut b = [0u8; 64];
        point_to_bytes(k, &mut b);
        data.extend_from_slice(&b);
    }
    data.extend_from_slice(&[0u8; 64]);
    assert_eq!(h, lhash::sha256(&data));
}

/// A ring of `n` members whose keys are the point at infinity and whose responses are zero:
/// every member's point is at infinity, so the ring closes when the first challenge is the
/// hash of the message, the key bytes and 64 zero bytes.
fn closing_ecc_ring(message: &[u8], n: u32) -> Vec<u8> {
    let mut hashed = message.to_vec();
    hashed.extend_from_slice(&vec![0u8; 64 * n as usize + 64]);
    let c0 = lhash::sha256(&hashed);
    let mut sig = n.to_le_bytes().to_vec();
    sig.extend_from_slice(&c0);
    sig.extend_from_slice(&vec![0u8; 96 * n as usize]);
    sig
}

fn closing_ecc_signature(message: &[u8]) -> Vec<u8> {
    closing_ecc_ring(message, 1)
}

/// A ring signature on "hello, world!" by the fourth of ten secp256k1 keys: count, first
/// challenge, then each member's response and public key, all little-endian.
const TEN_MEMBER_RING: [&str; 21] = [
    "0a0000005fde5cbd62a17020eb716d6e01b4227b0d0c78875292fa1c431f3aff1b4e76ee348d9cf8e5e67c4a2f1b6025",
    "f7a12fa2e30f41480432391b238861406d794350a1e92d2c70b616916a8f87a934cbeac70f9a43f045d23186ef81e2c8",
    "6df465e61ca6d4f0615f29e76a06bd71fbca15aab17624fcc63d15bfcbdfed42919ba7000878886e291887c515389404",
    "a9d6981041492e3567b7383a47e3c960eccd199ba3d6aca1b360cb77a4d47016e3dde2f921e9a6e37512edad16f3bd73",
    "f714db081e8a9c4315006d485a774fc1f64c3d97f62354f9b7c89f416dac051277aba4e113182a6a48860b784b45b5af",
    "8fb23589224e47328e8e8defabd88b5131e5cd17e01f3ffbf243f9257f2857cfdfb5300279d478eba78f31c05a5cc219",
    "e24f579e96128c02fa8791caca2ac820168ab3e5c7b1c74d5ebc13a3dbcab898829049fcf1ff4736cdc8f1e0b9032548",
    "a1156302bcd28e7c231b342af5eaf92b0f5fb272efb7259dd6b1246c91e4b82d782f5c02b2821f2e93c09ff8e9a7f7d9",
    "b3546708d59fe04d117e1196d0e2b8247d07117f373269d6a7f8149821e4c9be5d322195a46d1dc9e1d2f64680f9e1a8",
    "88270cc1eb9fecc8254d5d9e28a2c462b0d503d73c92037a8fc98b7bbdeef452e1d644563982a3151ca75f01300f86db",
    "4c34aaad6f2db6a0e33978b59af1225983a91a9d7c7aadf69b5679535f18290ad273433a843dd36bbf09317dd9d23ad2",
    "7087bdc8c16a23d56367f562f2a9102dbae5b82661e0ed1bfeba3fc6cf6ddd34f713fae6d32fc4bfa928bd938478d3f2",
    "ef377120201a11a0b2406f7a50e6112224deabeba281998a0c43cb75e1450c53b34649c35e1dc0105ff73954a19e2eb3",
    "5b2639fdbf5a60ef08c6a48c4f9ea1d6cd7362613c915b264344ca41f5af616df511e7f8000e90ce60fe2578270b3115",
    "31200ced2b4ccefa05b1e629d167d982ca9d326ac06584fdc086dc355b594b585d9974820e22b5695e27fc402f0976f4",
    "be2e9dbbe101e1570a4ed1c2ad5f22363b32622f093b247d75ed95f2be56e324b49d3e432d4f7c030b6bee0fa539ef1a",
    "9145016bc3f9831203a99514378db37a6df49d47e28fd4b7cc58a6b7c249b3e361abfbd8c5172463dcf164857e36ed40",
    "636a3d2e2d6f9aadcd9c5f3a0043cb6236b913974afa70b28851e15ff7e9040ed3a28b3925236161abb48d5f059d9b4c",
    "e1b9d54f88b163e484396b437424f6ba1b69da6089f26f9d4cf4f7f4be063d99198ee189f534c38cf2cf8f24c54a46d5",
    "78188c9e41b7ebcbba999776169df29fee78bd52197e1cb2f7806599af698c88027e61ecac230ab4f9f5cad1f52cabb8",
    "3c88e82871957a8468dc51d7b46ab5c71fe1d52a93ef8dae9413ad1d8766d2089e80a657",
];

fn ten_member_ring() -> Vec<u8> {
    let hex: String = TEN_MEMBER_RING.concat();
    (0..hex.len())
        .step_by(2)
        .map(|i| u8::from_str_radix(&hex[i..i + 2], 16).unwrap())
        .collect()
}

#[test]
fn test_ecc() {
    let ecc_data = ten_member_ring();
    check_hash_ecc(b"hello, world!", &ecc_data[..]).unwrap();
}

#[test]
fn check_hash_ecc_rejects_altered_ring_signature() {
    let mut sig = ten_member_ring();
    sig[36 + 96 * 5] ^= 1;
    assert_eq!(check_hash_ecc(b"hello, world!", &sig), Err("Bad signature"));
    let sig = ten_member_ring();
    assert_eq!(check_hash_ecc(b"hello, world?", &sig), Err("Bad signature"));
}

#[test]
fn check_hash_ecc_accepts_closing_ring() {
    let sig = closing_ecc_signature(b"hello, world!");
    assert_eq!(check_hash_ecc(b"hello, world!", &sig), Ok(()));
}

#[test]
fn check_hash_ecc_rejects_broken_ring() {
    let mut sig = closing_ecc_signature(b"hello, world!");
    sig[4] ^= 1;
    assert_eq!(check_hash_ecc(b"hello, world!", &sig), Err("Bad signature"));
    let sig = closing_ecc_signature(b"hello, world?");
    assert_eq!(check_hash_ecc(b"hello, world!", &sig), Err("Bad signature"));
}

#[test]
fn check_hash_ecc_ignores_trailing_bytes() {
    let mut sig = ten_member_ring();
    sig.extend_from_slice(&[0x5Au8; 17]);
    assert_eq!(check_hash_ecc(b"hello, world!", &sig), Ok(()));
}

#[test]
fn at_most_field_prime_bounds() {
    let p = field_prime();
    assert!(at_most_field_prime(&p));
    assert!(at_most_field_prime(&big([0xFFFF_FFFE_FFFF_FC2E, u64::MAX, u64::MAX, u64::MAX])));
    assert!(!at_most_field_prime(&big([0xFFFF_FFFE_FFFF_FC30, u64::MAX, u64::MAX, u64::MAX])));
    assert!(at_most_field_prime(&big([u64::MAX, u64::MAX, u64::MAX - 1, u64::MAX])));
}

#[test]
fn check_hash_ecc_checked_tests_the_signature_first() {
    let sig = ten_member_ring();
    assert_eq!(check_hash_ecc_checked(b"hello, world!", &sig), Some(Ok(())));
    assert_eq!(check_hash_ecc_checked(b"hello, world?", &sig), Some(Err("Bad signature")));
    // too short, no members, fewer bytes than members
    assert_eq!(check_hash_ecc_checked(b"hello, world!", &sig[..3]), None);
    let mut empty = sig[..36].to_vec();
    empty[0] = 0;
    assert_eq!(check_hash_ecc_checked(b"hello, world!", &empty), None);
    assert_eq!(check_hash_ecc_checked(b"hello, world!", &sig[..sig.len() - 1]), None);
    // a key coordinate above the prime
    let mut wide = sig.clone();
    for b in wide[36 + 96 * 2 + 32..36 + 96 * 2 + 64].iter_mut() {
        *b = 0xFF;
    }
    assert_eq!(check_hash_ecc_checked(b"hello, world!", &wide), None);
}

fn on_curve(pt: &Point) -> bool {
    let p = field_prime();
    let yy = mul_mod_expand::<4, 8>(pt.1, pt.1, p);
    let xxx = mul_mod_expand::<4, 8>(mul_mod_expand::<4, 8>(pt.0, pt.0, p), pt.0, p);
    let rhs = add_mod_expand::<4, 8>(xxx, big([7, 0, 0, 0]), p);
    yy.digits == rhs.digits
}

#[test]
fn point_add_keeps_points_on_the_curve() {
    let g = generator();
    assert!(on_curve(&g));
    let two = point_add(g, g);
    assert!(on_curve(&two));
    let three = point_add(g, two);
    assert!(on_curve(&three));
    let five = point_add(two, three);
    assert!(on_curve(&five));
    assert!(on_curve(&kmul(big([0x1234_5678, 0x9abc, 0, 0]), g)));
}
