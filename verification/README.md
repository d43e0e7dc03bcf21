# ring_signature

Ring signature checks meant to run on CKB-VM, with their arithmetic and parsing proved
in Verus.

- `src/bignum.rs`: fixed-width unsigned and signed big integers as arrays of 64-bit
  digits, their values as mathematical integers, little-endian byte encodings, and the
  `bnum` operations the library calls.
- `src/utils.rs`: modular multiplication and addition, exponentiation by squaring,
  inversion by the extended Euclidean algorithm, and a cycle-count mark.
- `src/ecc.rs`: affine point addition and scalar multiplication on secp256k1,
  the compound hash, and the check that a ring of challenges closes (with a variant that
  first tests the signature at run time).
- `src/rsa.rs`, `src/rsa2.rs`: the two RSA ring checks, over AES-256 in ECB mode and over
  SHA-256 respectively, each with a variant that first tests the signature at run time.
- `app/main.rs`: the on-chain entry point, which loads the signature from cell data and
  reports the cycles used.
