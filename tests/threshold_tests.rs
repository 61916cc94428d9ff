use threshold_lwe::lagrange::{interpolate, Share};
use threshold_lwe::threshold::{combine_rows, Dealer};

fn zero_noise(committee: usize, n: usize) -> Vec<Vec<i64>> {
    vec![vec![0i64; n * n * n]; committee]
}

#[test]
fn committee_round_trip() {
    let dealer = Dealer::new(3, 16, &zero_noise(3, 16)).unwrap();
    for _ in 0..5 {
        for bit in 0..=1usize {
            let c = dealer.encrypt(&bit).unwrap();
            let res = dealer.decrypt(&c).unwrap();
            assert_eq!(res.len(), 3);
            for (i, (p, r)) in res.iter().enumerate() {
                assert_eq!(*p, i + 1);
                assert_eq!(*r, bit);
            }
        }
    }
}

#[test]
fn committee_round_trip_with_noise() {
    let n = 16;
    let noise: Vec<Vec<i64>> = (0..3).map(|j| (0..n * n * n).map(|i| ((i + j) % 3) as i64 - 1).collect()).collect();
    let dealer = Dealer::new(3, n, &noise).unwrap();
    for bit in 0..=1usize {
        let c = dealer.encrypt(&bit).unwrap();
        let res = dealer.decrypt(&c).unwrap();
        assert!(res.iter().all(|(_, r)| *r == bit));
    }
}

#[test]
fn toy_committee_parties_agree() {
    let dealer = Dealer::new(3, 4, &zero_noise(3, 4)).unwrap();
    for bit in 0..=1usize {
        let c = dealer.encrypt(&bit).unwrap();
        let res = dealer.decrypt(&c).unwrap();
        assert_eq!(res.len(), 3);
        assert!(res.iter().all(|(_, r)| *r == res[0].1));
    }
}

#[test]
fn committee_rejects_malformed_plaintext() {
    let dealer = Dealer::new(3, 4, &zero_noise(3, 4)).unwrap();
    assert!(dealer.encrypt(&2).is_err());
}

#[test]
fn combine_rows_interpolates_each_row() {
    // Party p holds f_i(p) for f_0(x) = 5 + 2x and f_1(x) = 14 + x (mod 16).
    let partials = vec![vec![7u64, 15], vec![9, 0], vec![11, 1]];
    let b = combine_rows(&partials, 2, 16).unwrap();
    assert_eq!(b, vec![5, 14]);
    let direct = interpolate(&vec![Share(1, 7), Share(2, 9), Share(3, 11)]).eval(0);
    assert_eq!(direct, Some(5));
}

#[test]
fn small_committee_always_keys() {
    for committee in 1..=3 {
        let dealer = Dealer::new(committee, 8, &zero_noise(committee, 8));
        assert!(dealer.is_some());
        let dealer = dealer.unwrap();
        let c = dealer.encrypt(&1).unwrap();
        assert_eq!(dealer.decrypt(&c).unwrap().len(), committee);
    }
}
