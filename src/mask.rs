//! The blinding value a party adds to its partial decryption: a hash of the
//! ciphertext and the party's private key seeds a generator, whose draw is
//! reduced and square-rooted.

use crate::lwe::Ciphertext;
use crate::ring::{floor_mod, fmod};
use num::integer::Roots;
use num::bigint::RandBigInt;
use num::{BigUint, ToPrimitive};
use rand::rngs::SmallRng;
use rand::SeedableRng;
use vstd::arithmetic::power2::pow2;
use vstd::math::abs;
use vstd::prelude::*;

verus! {

/// The lowercase hexadecimal SHA-256 digest of `b`, as ASCII bytes.
pub uninterp spec fn sha256_hex_of(b: Seq<u8>) -> Seq<u8>;

/// Relies on `sha256::digest`: the hex digest of the bytes, a function of
/// them alone.
#[verifier::external_body]
fn sha256_hex(b: &Vec<u8>) -> (r: Vec<u8>)
    ensures
        r@ == sha256_hex_of(b@),
{
    sha256::digest(b.as_slice()).into_bytes()
}

/// Big-endian bytes of `v` without leading zeros; zero is one zero byte.
pub open spec fn be_digits(v: nat) -> Seq<u8>
    decreases v,
{
    if v < 256 {
        seq![v as u8]
    } else {
        be_digits(v / 256).push((v % 256) as u8)
    }
}

/// Relies on num's `BigUint::to_bytes_be`: the big-endian bytes of the value,
/// `[0]` for zero.
#[verifier::external_body]
fn be_bytes(v: u128) -> (r: Vec<u8>)
    ensures
        r@ == be_digits(v as nat),
{
    BigUint::from(v).to_bytes_be()
}

/// Relies on num's `Roots::sqrt` on `BigUint`: the truncated square root.
#[verifier::external_body]
fn isqrt(v: u64) -> (r: u64)
    ensures
        r * r <= v < (r + 1) * (r + 1),
{
    BigUint::from(v).sqrt().to_u64().unwrap()
}

/// Relies on rand's `SmallRng::from_seed` and num's `RandBigInt::gen_bigint`:
/// a signed value whose magnitude has at most `bits` bits. `SmallRng` is not
/// portable across platforms, so nothing more is stated of the value.
#[verifier::external_body]
fn seeded_draw(seed: &Vec<u8>, bits: usize) -> (r: i128)
    requires
        seed.len() == 32,
        bits <= 126,
    ensures
        abs(r as int) < pow2(bits as nat),
{
    let mut s = [0u8; 32];
    s.copy_from_slice(seed.as_slice());
    SmallRng::from_seed(s).gen_bigint(bits as u64).to_i128().unwrap()
}

/// The bytes of `a_0, ..., a_{k-1}`, each written by `be_digits`, one after another.
pub open spec fn digits_of_all(a: Seq<u64>, k: nat) -> Seq<u8>
    decreases k,
{
    if k == 0 {
        Seq::empty()
    } else {
        digits_of_all(a, (k - 1) as nat) + be_digits(a[k - 1] as nat)
    }
}

/// The hash input for ciphertext `(a, b)` and private key `key`.
pub open spec fn hash_input(a: Seq<u64>, b: u64, key: i128) -> Seq<u8> {
    digits_of_all(a, a.len()) + be_digits(b as nat) + be_digits(abs(key as int))
}

/// The 32-byte seed taken from the front of `h`, padded with zeros.
pub open spec fn seed_of(h: Seq<u8>) -> Seq<u8> {
    Seq::new(32, |i: int| if i < h.len() { h[i] } else { 0u8 })
}

/// The magnitude bytes of every entry of `c`, then of `key`.
pub fn cipher_key_bytes(c: &Ciphertext, key: i128) -> (r: Vec<u8>)
    ensures
        r@ == hash_input(c.0@, c.1, key),
{
    let mut input: Vec<u8> = Vec::new();
    let mut i: usize = 0;
    while i < c.0.len()
        invariant
            i <= c.0.len(),
            input@ == digits_of_all(c.0@, i as nat),
        decreases c.0.len() - i,
    {
        let mut d = be_bytes(c.0[i] as u128);
        input.append(&mut d);
        i = i + 1;
    }
    let mut d = be_bytes(c.1 as u128);
    input.append(&mut d);
    let mag: u128 = if key >= 0 {
        key as u128
    } else {
        ((-(key + 1)) as u128) + 1
    };
    let mut d = be_bytes(mag);
    input.append(&mut d);
    input
}

/// The first 32 bytes of `h`, padded with zeros where `h` is shorter.
pub fn seed_from_digest(h: &Vec<u8>) -> (r: Vec<u8>)
    ensures
        r@ == seed_of(h@),
{
    let mut seed: Vec<u8> = Vec::new();
    let mut i: usize = 0;
    while i < 32
        invariant
            i <= 32,
            seed@.len() == i,
            forall|k: int| 0 <= k < i ==> (#[trigger] seed@[k]) == seed_of(h@)[k],
        decreases 32 - i,
    {
        if i < h.len() {
            seed.push(h[i]);
        } else {
            seed.push(0);
        }
        i = i + 1;
    }
    assert(seed@ =~= seed_of(h@));
    seed
}

/// The truncated square root of `draw mod q`.
pub fn mask_from_draw(draw: i128, q: u64) -> (r: u64)
    requires
        q > 0,
    ensures
        r * r <= fmod(draw as int, q as int) < (r + 1) * (r + 1),
{
    isqrt(floor_mod(draw, q))
}

/// The generator seed for ciphertext `c` and key `key`: the front of the
/// hex digest of their bytes.
pub fn digest_seed(c: &Ciphertext, key: i128) -> (r: Vec<u8>)
    ensures
        r@ == seed_of(sha256_hex_of(hash_input(c.0@, c.1, key))),
{
    let input = cipher_key_bytes(c, key);
    let hash = sha256_hex(&input);
    seed_from_digest(&hash)
}

/// Derives a party's blinding value for ciphertext `c` from its key.
pub fn rand_from_cipher_and_key(c: &Ciphertext, key: i128, n: usize, q: u64) -> (r: u64)
    requires
        q > 0,
        n <= 126,
    ensures
        r * r < q,
        exists|draw: int|
            abs(draw) < pow2(n as nat) && r * r <= #[trigger] fmod(draw, q as int) < (r + 1) * (r + 1),
{
    let seed = digest_seed(c, key);
    let draw = seeded_draw(&seed, n);
    let r = mask_from_draw(draw, q);
    proof {
        crate::ring::lemma_fmod_periodic(draw as int, 0, q as int);
        assert(r * r <= fmod(draw as int, q as int) < (r + 1) * (r + 1));
    }
    r
}

} // verus!
