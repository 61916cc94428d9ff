use threshold_lwe::lwe::{Lwe, LweError};
use threshold_lwe::pke::Pke;
use threshold_lwe::mask::{cipher_key_bytes, digest_seed, mask_from_draw, rand_from_cipher_and_key, seed_from_digest};

#[test]
fn parameters() {
    let l = Lwe::new(4);
    assert_eq!((l.n, l.m, l.q), (4, 64, 16));
    let l = Lwe::new(10);
    assert_eq!((l.n, l.m, l.q), (10, 1000, 1024));
}

#[test]
fn round_trip_without_noise() {
    for n in [4usize, 8] {
        let lwe = Lwe::new(n);
        let e = vec![0i64; lwe.m];
        for _ in 0..50 {
            let (pk, sk) = lwe.keygen(&e);
            for bit in 0..=1usize {
                let c = lwe.encrypt(&pk, &bit).unwrap();
                assert_eq!(c.0.len(), n);
                assert_eq!(lwe.decrypt(&sk, &c), bit);
            }
        }
    }
}

#[test]
fn round_trip_with_small_noise() {
    let lwe = Lwe::new(16);
    let e: Vec<i64> = (0..lwe.m).map(|i| (i % 3) as i64 - 1).collect();
    let (pk, sk) = lwe.keygen(&e);
    for _ in 0..20 {
        for bit in 0..=1usize {
            let c = lwe.encrypt(&pk, &bit).unwrap();
            assert_eq!(lwe.decrypt(&sk, &c), bit);
        }
    }
}

#[test]
fn encrypt_rows_sums_the_chosen_rows() {
    let lwe = Lwe::new(4);
    let a: Vec<Vec<u64>> = (0..64).map(|i| vec![i % 16, (i * 3) % 16, 1, 0]).collect();
    let b: Vec<u64> = (0..64).map(|i| (i * 5) % 16).collect();
    let c = lwe.encrypt_rows(&(a, b), 1, &vec![1, 2, 5]);
    assert_eq!(c.0, vec![8, 8 * 3 % 16, 3, 0]);
    assert_eq!(c.1, (8 + 5 + 10 + 25) % 16);
}

#[test]
fn decrypt_decodes_the_residual() {
    let lwe = Lwe::new(4);
    let sk = vec![1i64, -2, 0, 3];
    // a·s = 2 - 6 + 0 + 3 = -1; b - a·s = 8 + 1 = 9.
    assert_eq!(lwe.decrypt(&sk, &(vec![2, 3, 7, 1], 8)), 1);
    // b - a·s = 3 + 1 = 4: on the band's edge.
    assert_eq!(lwe.decrypt(&sk, &(vec![2, 3, 7, 1], 3)), 0);
}

#[test]
fn rejects_malformed_plaintext() {
    let lwe = Lwe::new(4);
    let (pk, _) = lwe.keygen(&vec![0i64; lwe.m]);
    assert_eq!(lwe.encrypt(&pk, &2), Err(LweError::InvalidPlaintext));
    assert_eq!(lwe.encrypt(&pk, &usize::MAX), Err(LweError::InvalidPlaintext));
}

#[test]
fn mask_inputs() {
    let c = (vec![0u64, 255, 256], 1u64);
    assert_eq!(cipher_key_bytes(&c, -258), vec![0, 255, 1, 0, 1, 1, 2]);
    let seed = seed_from_digest(&vec![7u8; 40]);
    assert_eq!(seed, vec![7u8; 32]);
    let mut short = vec![1u8, 2];
    short.extend(vec![0u8; 30]);
    assert_eq!(seed_from_digest(&vec![1u8, 2]), short);
    assert_eq!(mask_from_draw(-7, 16), 3);
    assert_eq!(mask_from_draw(24, 16), 2);
}

#[test]
fn mask_is_bounded_and_repeatable() {
    let c = (vec![3u64, 9, 12, 1], 5u64);
    let x = rand_from_cipher_and_key(&c, 77, 16, 1 << 16);
    assert!(x * x < 1 << 16);
    assert_eq!(x, rand_from_cipher_and_key(&c, 77, 16, 1 << 16));
}

#[test]
fn seed_is_front_of_hex_digest() {
    let c = (vec![1u64, 300], 2u64);
    let input: Vec<u8> = vec![1, 1, 44, 2, 5];
    let hex = sha256::digest(input.as_slice()).into_bytes();
    assert_eq!(digest_seed(&c, -5), hex[..32].to_vec());
    assert_ne!(digest_seed(&c, -5), digest_seed(&c, 6));
}

#[test]
fn scheme_through_its_trait() {
    let lwe = Lwe::new(6);
    let noise = vec![0i64; lwe.m];
    let (pk, sk) = <Lwe as Pke>::keygen(&lwe, &noise).unwrap();
    for bit in 0..=1usize {
        let c = <Lwe as Pke>::encrypt(&lwe, &pk, &bit).unwrap();
        assert_eq!(<Lwe as Pke>::decrypt(&lwe, &sk, &c), Some(bit));
    }
    assert!(<Lwe as Pke>::encrypt(&lwe, &pk, &2).is_none());
    assert!(<Lwe as Pke>::keygen(&lwe, &vec![0i64; 3]).is_none());
    assert!(<Lwe as Pke>::decrypt(&lwe, &sk, &(vec![64, 0, 0, 0, 0, 0], 0)).is_none());
    let mut bad = lwe;
    bad.q = 63;
    assert!(!bad.is_consistent());
    assert!(<Lwe as Pke>::keygen(&bad, &noise).is_none());
}
