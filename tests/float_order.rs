use transit_search::float_order::{less_than, order_key};

fn key(x: f64) -> Option<u64> {
    order_key(x.to_bits())
}

#[test]
fn keys_order_like_values() {
    let values = [
        f64::NEG_INFINITY,
        -1.0e300,
        -2.5,
        -1.0,
        -f64::MIN_POSITIVE,
        -1.0e-320,
        0.0,
        1.0e-320,
        f64::MIN_POSITIVE,
        1.0,
        2.5,
        1.0e300,
        f64::INFINITY,
    ];
    for a in values.iter() {
        for b in values.iter() {
            let ka = key(*a).unwrap();
            let kb = key(*b).unwrap();
            assert_eq!(ka < kb, a < b, "{} {}", a, b);
            assert_eq!(ka == kb, a == b, "{} {}", a, b);
        }
    }
}

#[test]
fn nan_has_no_key() {
    assert_eq!(key(f64::NAN), None);
    assert_eq!(key(-f64::NAN), None);
    assert_eq!(order_key(0x7FF0_0000_0000_0001), None);
}

#[test]
fn zeros_share_a_key() {
    assert_eq!(key(0.0), key(-0.0));
    assert_eq!(key(0.0), Some(0x8000_0000_0000_0000));
    assert_eq!(key(1.0), Some(0x8000_0000_0000_0000 + 1.0f64.to_bits()));
}

#[test]
fn less_than_matches_float_comparison() {
    assert!(less_than((-3.0f64).to_bits(), 2.0f64.to_bits()));
    assert!(!less_than(2.0f64.to_bits(), (-3.0f64).to_bits()));
    assert!(!less_than((-0.0f64).to_bits(), 0.0f64.to_bits()));
    assert!(!less_than(f64::NAN.to_bits(), 1.0f64.to_bits()));
    assert!(!less_than(1.0f64.to_bits(), f64::NAN.to_bits()));
    assert!(less_than(f64::NEG_INFINITY.to_bits(), f64::MIN.to_bits()));
}
