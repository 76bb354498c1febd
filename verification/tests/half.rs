use subscript_runtime::half::{f16_from_f64_bits, f64_bits_from_f16, round_shift_even};

fn from_f64(value: f64) -> u16 {
    f16_from_f64_bits(value.to_bits())
}

fn to_f64(bits: u16) -> f64 {
    f64::from_bits(f64_bits_from_f16(bits))
}

#[test]
fn binary16_known_values_and_edges() {
    assert_eq!(from_f64(1.5), 0x3e00);
    assert_eq!(from_f64(-0.0), 0x8000);
    assert_eq!(from_f64(f64::INFINITY), 0x7c00);
    assert_eq!(from_f64(f64::NEG_INFINITY), 0xfc00);
    assert_eq!(from_f64(65_504.0), 0x7bff);
    assert_eq!(from_f64(65_520.0), 0x7c00);
    assert_eq!(from_f64(2.0f64.powi(-24)), 0x0001);
    assert_eq!(from_f64(2.0f64.powi(-25)), 0x0000);
    assert_eq!(from_f64(3.0 * 2.0f64.powi(-25)), 0x0002);
}

#[test]
fn binary16_widening_is_exact_and_preserves_special_values() {
    assert_eq!(to_f64(0x3e00), 1.5);
    assert_eq!(to_f64(0x0001), 2.0f64.powi(-24));
    assert_eq!(to_f64(0x8000).to_bits(), (-0.0f64).to_bits());
    assert!(to_f64(0x7e01).is_nan());
    assert_eq!(from_f64(to_f64(0x7e01)) & 0x7c00, 0x7c00);
}

#[test]
fn every_non_nan_binary16_value_round_trips() {
    for bits in 0u16..=u16::MAX {
        if bits & 0x7c00 == 0x7c00 && bits & 0x03ff != 0 {
            continue;
        }
        assert_eq!(from_f64(to_f64(bits)), bits, "{bits:#06x}");
    }
}

#[test]
fn nan_payloads_survive_a_round_trip() {
    for bits in [0x7c01u16, 0x7e00, 0x7fff, 0xfc01, 0xfe00] {
        assert_eq!(from_f64(to_f64(bits)), bits);
    }
}

#[test]
fn rounding_breaks_ties_toward_even() {
    assert_eq!(round_shift_even(5, 0), 5);
    assert_eq!(round_shift_even(0b1010, 2), 0b10);
    assert_eq!(round_shift_even(0b1110, 2), 0b100);
    assert_eq!(round_shift_even(0b1011, 2), 0b11);
    assert_eq!(round_shift_even(0b1001, 2), 0b10);
    assert_eq!(round_shift_even(u64::MAX, 63), 2);
    assert_eq!(from_f64(1.0 + 2.0f64.powi(-11)), 0x3c00);
    assert_eq!(from_f64(1.0 + 3.0 * 2.0f64.powi(-11)), 0x3c02);
}
