use threshold_lwe::lagrange::{interpolate, Share};

fn poly(x: i128) -> i128 {
    7 + 3 * x - 2 * x * x + 5 * x * x * x
}

#[test]
fn reconstructs_secret_at_zero() {
    let shares: Vec<Share> = (1..=4).map(|i| Share(i, poly(i as i128))).collect();
    let l = interpolate(&shares);
    assert_eq!(l.eval(0), Some(7));
    assert_eq!(l.eval(5), Some(poly(5)));
}

#[test]
fn reconstructs_random_secret_with_large_coefficients() {
    let c = [123_456_789_012i128, -98_765_432_101, 55_555_555_555, 1_000_000_007, -3];
    let f = |x: i128| c.iter().rev().fold(0i128, |acc, k| acc * x + k);
    let shares: Vec<Share> = (1..=5).map(|i| Share(i, f(i as i128))).collect();
    assert_eq!(interpolate(&shares).eval(0), Some(c[0]));
}

#[test]
fn share_order_does_not_matter() {
    let shares: Vec<Share> = vec![Share(1, 10), Share(2, -4), Share(3, 99), Share(5, 12)];
    let mut permuted = shares.clone();
    permuted.reverse();
    permuted.swap(0, 2);
    for x in 0..8 {
        assert_eq!(interpolate(&shares).eval(x), interpolate(&permuted).eval(x));
    }
}

#[test]
fn exact_fractions_are_truncated_once() {
    // f(0) = 3 * 3/2 = 4.5 and -4.5: rounded towards zero only at the end.
    assert_eq!(interpolate(&vec![Share(1, 3), Share(3, 0)]).eval(0), Some(4));
    assert_eq!(interpolate(&vec![Share(1, -3), Share(3, 0)]).eval(0), Some(-4));
    assert_eq!(interpolate(&vec![Share(1, 1), Share(3, 2)]).eval(0), Some(0));
}

#[test]
fn single_share_is_constant() {
    assert_eq!(interpolate(&vec![Share(2, 42)]).eval(0), Some(42));
}

#[test]
fn non_integer_weights_give_exact_secret() {
    let shares = vec![Share(1, 6), Share(2, 12), Share(4, 30)];
    assert_eq!(interpolate(&shares).eval(0), Some(2));
    let reordered = vec![Share(4, 30), Share(1, 6), Share(2, 12)];
    assert_eq!(interpolate(&reordered).eval(0), Some(2));
}

#[test]
fn negative_interpolation_normalises_into_the_band() {
    let v = interpolate(&vec![Share(1, -5), Share(2, -2), Share(3, 1)]).eval(0).unwrap();
    assert_eq!(v, -8);
    assert_eq!(threshold_lwe::ring::floor_mod(v, 16), 8);
    assert!(threshold_lwe::ring::in_signal_band(8, 16));
    let v = interpolate(&vec![Share(1, 4), Share(2, 4), Share(3, 4)]).eval(0).unwrap();
    assert!(!threshold_lwe::ring::in_signal_band(threshold_lwe::ring::floor_mod(v, 16), 16));
    let v = interpolate(&vec![Share(1, 12), Share(2, 12), Share(3, 12)]).eval(0).unwrap();
    assert!(!threshold_lwe::ring::in_signal_band(threshold_lwe::ring::floor_mod(v, 16), 16));
}

#[test]
fn evaluation_is_repeatable_after_the_input_changes() {
    let mut shares = vec![Share(1, 3), Share(2, 5)];
    let l = interpolate(&shares);
    let first = l.eval(0);
    shares[0] = Share(1, 100);
    shares.clear();
    assert_eq!(l.eval(0), first);
    assert_eq!(first, Some(1));
}

#[test]
fn large_committee_evaluates() {
    let f = |x: i128| 1_000_000_007 + 12_345 * x - 77 * x * x;
    let shares: Vec<Share> = (1..=10).map(|i| Share(i, f(i as i128))).collect();
    assert_eq!(interpolate(&shares).eval(0), Some(1_000_000_007));
}
