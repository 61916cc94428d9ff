use threshold_lwe::ring::{add_mod, floor_mod, in_signal_band, mul_mod, sub_mod};

#[test]
fn floor_mod_of_negative_zero_and_positive() {
    assert_eq!(floor_mod(-1, 16), 15);
    assert_eq!(floor_mod(-16, 16), 0);
    assert_eq!(floor_mod(-17, 16), 15);
    assert_eq!(floor_mod(0, 16), 0);
    assert_eq!(floor_mod(17, 16), 1);
    assert_eq!(floor_mod(i128::MIN, 7), ((i128::MIN % 7) + 7) as u64 % 7);
}

#[test]
fn floor_mod_ignores_multiples_of_q() {
    for x in -40i128..40 {
        for k in -5i128..5 {
            let r = floor_mod(x, 16);
            assert!(r < 16);
            assert_eq!(floor_mod(x + k * 16, 16), r);
        }
    }
}

#[test]
fn modular_operations() {
    assert_eq!(add_mod(15, 3, 16), 2);
    assert_eq!(sub_mod(3, 15, 16), 4);
    assert_eq!(mul_mod(7, 5, 16), 3);
    assert_eq!(mul_mod(u64::MAX, u64::MAX, 1 << 62), ((u64::MAX as u128 * u64::MAX as u128) % (1u128 << 62)) as u64);
}

#[test]
fn signal_band_excludes_both_endpoints() {
    assert!(!in_signal_band(4, 16));
    assert!(!in_signal_band(12, 16));
    assert!(in_signal_band(5, 16));
    assert!(in_signal_band(11, 16));
    assert!(in_signal_band(8, 16));
    assert!(!in_signal_band(0, 16));
    assert!(!in_signal_band(15, 16));
}
