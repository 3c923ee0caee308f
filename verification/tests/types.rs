use audiopaint::audio_types::{Amplitude, Value};
use audiopaint::AMP_ONE;

#[test]
fn amplitude_clamps_into_range() {
    assert_eq!(Amplitude::from(Some(-5)).value(), 0);
    assert_eq!(Amplitude::from(Some(0)).value(), 0);
    assert_eq!(Amplitude::from(Some(123)).value(), 123);
    assert_eq!(Amplitude::from(Some(AMP_ONE as i64)).value(), AMP_ONE);
    assert_eq!(Amplitude::from(Some(AMP_ONE as i64 + 10)).value(), AMP_ONE);
    assert_eq!(Amplitude::from(Some(i64::MAX)).value(), AMP_ONE);
    assert_eq!(Amplitude::from(Some(i64::MIN)).value(), 0);
}

#[test]
fn amplitude_non_finite_reading_becomes_zero() {
    assert_eq!(Amplitude::from(None).value(), 0);
}

#[test]
fn value_keeps_finite_readings() {
    assert_eq!(Value::from(Some(12345)).value(), 12345);
    assert_eq!(Value::from(Some(-12345)).value(), -12345);
    assert_eq!(Value::from(Some(0)).value(), 0);
}

#[test]
fn value_non_finite_reading_becomes_zero() {
    assert_eq!(Value::from(None).value(), 0);
}

#[test]
fn value_abs() {
    assert_eq!(Value::from(Some(-77)).abs().value(), 77);
    assert_eq!(Value::from(Some(77)).abs().value(), 77);
    assert_eq!(Value::from(Some(0)).abs().value(), 0);
}

#[test]
fn value_equality_and_order() {
    assert_eq!(Value::from(Some(5)), Value::from(Some(5)));
    assert_ne!(Value::from(Some(5)), Value::from(Some(6)));
    assert!(Value::from(Some(-2)) < Value::from(Some(3)));
    let peak = [Value::from(Some(4)), Value::from(Some(-9)), Value::from(Some(7))]
        .iter()
        .map(|v| v.abs())
        .max();
    assert_eq!(peak, Some(Value::from(Some(9))));
}
