use ray_tracing::key::{key_bits, order_key};
use ray_tracing::material::{checker_selects_second, metal_fuzziness};

fn key(x: f64) -> u64 {
    order_key(x.to_bits()).unwrap()
}

#[test]
fn keys_follow_numeric_order() {
    let values = [-1.0e300, -2.5, -1.0, -1.0e-300, 0.0, 1.0e-300, 0.5, 1.0, 3.0, 1.0e300];
    for w in values.windows(2) {
        assert!(key(w[0]) < key(w[1]), "{} {}", w[0], w[1]);
    }
    assert!(key(f64::NEG_INFINITY) < key(-1.0e300));
    assert!(key(1.0e300) < key(f64::INFINITY));
    assert!(key(-0.0) < key(0.0));
}

#[test]
fn key_of_zero_and_one() {
    assert_eq!(key(0.0), 0x8000_0000_0000_0000);
    assert_eq!(key(-0.0), 0x7fff_ffff_ffff_ffff);
    assert_eq!(key(1.0), 0xbff0_0000_0000_0000);
}

#[test]
fn nan_has_no_key() {
    assert_eq!(order_key(f64::NAN.to_bits()), None);
    assert_eq!(order_key((-f64::NAN).to_bits()), None);
}

#[test]
fn key_bits_recovers_the_value() {
    for x in [-7.25f64, -0.0, 0.0, 0.1, 42.0, f64::INFINITY, f64::NEG_INFINITY] {
        let back = f64::from_bits(key_bits(key(x)));
        assert_eq!(back.to_bits(), x.to_bits());
    }
}

#[test]
fn metal_fuzz_snaps_to_zero_or_one() {
    assert_eq!(f64::from_bits(metal_fuzziness((0.4f64).to_bits())), 1.0);
    assert_eq!(f64::from_bits(metal_fuzziness((7.0f64).to_bits())), 1.0);
    assert_eq!(f64::from_bits(metal_fuzziness((-0.3f64).to_bits())), 0.0);
    assert_eq!(metal_fuzziness((-0.3f64).to_bits()), (0.0f64).to_bits());
    assert_eq!(metal_fuzziness((0.0f64).to_bits()), (0.0f64).to_bits());
    assert_eq!(metal_fuzziness((-0.0f64).to_bits()), (-0.0f64).to_bits());
}

#[test]
fn checker_at_origin_selects_first() {
    let p = (10.0f64 * 0.0).sin() * (10.0f64 * 0.0).sin() * (10.0f64 * 0.0).sin();
    assert_eq!(p, 0.0);
    assert!(!checker_selects_second(p.to_bits()));
    assert!(!checker_selects_second((-0.0f64).to_bits()));
}

#[test]
fn checker_selects_second_on_negative_product() {
    assert!(checker_selects_second((-0.25f64).to_bits()));
    assert!(!checker_selects_second((0.25f64).to_bits()));
    assert!(!checker_selects_second(f64::NAN.to_bits()));
}
