//! Scalars, their codes, and packed arrays of them.

use numtoy::elements::{
    are_non_negative, choose_scalable_float, pack_values, should_steal_sign, unpack_values,
    widest_int_bits,
};
use numtoy::hardware::HardwareEngine;
use numtoy::limbs::{count_limbs, get_bits, negate, set_bits};
use numtoy::soft_float::{
    f32_from_f64, f64_from_f32, f64_from_i64, f64_from_u64, rounded, FloatOp,
};
use numtoy::types::float_codec::{
    compute_scalable_float_config, decode_custom_float, decode_custom_float_limbs,
    decode_custom_float_with_e, encode_custom_float, encode_custom_float_limbs,
    encode_custom_float_with_e, scale_float,
};
use numtoy::types::int_codec::{
    compute_scalable_int_bits, decode_custom_int_limbs, decode_custom_int_limbs_to_double,
    encode_custom_int_limbs, encode_custom_int_limbs_from_double, extend_limbs,
};
use numtoy::types::{double_to_floating_int, exponent_width, sign_extend, DataType, Scalar};

fn unit(op: FloatOp, a: u64, b: u64) -> u64 {
    let x = f64::from_bits(a);
    let y = f64::from_bits(b);
    match op {
        FloatOp::Add => (x + y).to_bits(),
        FloatOp::Sub => (x - y).to_bits(),
        FloatOp::Mul => (x * y).to_bits(),
        FloatOp::Div => (x / y).to_bits(),
        FloatOp::Pow10 => 10f64.powi(a as i32).to_bits(),
    }
}

fn bits(values: &[f64]) -> Vec<u64> {
    values.iter().map(|v| v.to_bits()).collect()
}

#[test]
fn standard_floats_are_coded_as_themselves() {
    for v in [1.0f64, -2.5, 3.140625, 1e10, -1e-10, f64::INFINITY, 0.0] {
        assert_eq!(encode_custom_float(v.to_bits(), 64, false), v.to_bits());
        assert_eq!(f64::from_bits(decode_custom_float(v.to_bits(), 64, false)), v);
    }
    for v in [1.0f32, -2.5, 0.15625, 3.0e20] {
        let code = encode_custom_float((v as f64).to_bits(), 32, false);
        assert_eq!(code, v.to_bits() as u64);
        assert_eq!(f64::from_bits(decode_custom_float(code, 32, false)), v as f64);
    }
}

#[test]
fn half_floats_round_and_overflow() {
    assert_eq!(encode_custom_float(1.0f64.to_bits(), 16, false), 0x3C00);
    assert_eq!(encode_custom_float((-2.0f64).to_bits(), 16, false), 0xC000);
    assert_eq!(encode_custom_float(1e9f64.to_bits(), 16, false), 0x7C00);
    assert_eq!(encode_custom_float(1e-9f64.to_bits(), 16, false), 0);
    assert_eq!(f64::from_bits(decode_custom_float(0x7C00, 16, false)), f64::INFINITY);
}

#[test]
fn a_stolen_sign_gives_one_bit_of_precision() {
    // One and a half plus the 24th fraction bit needs 24 mantissa bits.
    let v = 1.5 + 2f64.powi(-24);
    let with_sign = decode_custom_float(encode_custom_float(v.to_bits(), 32, false), 32, false);
    let stolen = decode_custom_float(encode_custom_float(v.to_bits(), 32, true), 32, true);
    assert_ne!(f64::from_bits(with_sign), v);
    assert_eq!(f64::from_bits(stolen), v);
}

#[test]
fn infinite_and_not_a_number() {
    assert_eq!(encode_custom_float_with_e(f64::NAN.to_bits(), 12, 5, false), 0x7C0);
    assert_eq!(
        f64::from_bits(decode_custom_float_with_e(0xFC0, 12, 5, false)),
        f64::NEG_INFINITY
    );
}

#[test]
fn floats_of_many_bits_round_trip() {
    for v in [1.0f64, -1.0 / 3.0, 6.02e23, f64::MAX, 0.0] {
        for b in [68u32, 80, 128, 200] {
            let e = exponent_width(b);
            let limbs = encode_custom_float_limbs(v.to_bits(), b, e, false);
            assert_eq!(limbs.len(), count_limbs(b));
            assert_eq!(f64::from_bits(decode_custom_float_limbs(&limbs, b, e, false)), v);
        }
    }
}

#[test]
fn scale_splits_a_double() {
    // Six is one and a half times four.
    assert_eq!(scale_float(6.0f64.to_bits()), (1 << 51, 2));
    assert_eq!(scale_float(0), (0, -1023));
}

#[test]
fn integers_are_signed() {
    assert_eq!(sign_extend(0b101, 3), -3);
    assert_eq!(sign_extend(0b011, 3), 3);
    assert_eq!(sign_extend(u64::MAX, 64), -1);
    for v in [0i64, 1, -1, 100, -128, i64::MAX, i64::MIN] {
        for b in [64u32, 65, 100, 128, 192] {
            assert_eq!(decode_custom_int_limbs(&encode_custom_int_limbs(v, b), b), v);
        }
    }
    assert_eq!(decode_custom_int_limbs(&encode_custom_int_limbs(-5, 9), 9), -5);
}

#[test]
fn wide_integers_keep_the_integer_part() {
    let v = 2f64.powi(100) + 2f64.powi(60);
    let limbs = encode_custom_int_limbs_from_double(v.to_bits(), 128);
    assert_eq!(limbs, vec![1 << 60, 1 << 36]);
    assert_eq!(f64::from_bits(decode_custom_int_limbs_to_double(&limbs, 128, &unit)), v);
    let limbs = encode_custom_int_limbs_from_double((-v).to_bits(), 128);
    assert_eq!(f64::from_bits(decode_custom_int_limbs_to_double(&limbs, 128, &unit)), -v);
}

#[test]
fn extension_repeats_the_sign() {
    assert_eq!(extend_limbs(&[0b101], 3, 128), vec![u64::MAX - 2, u64::MAX]);
    assert_eq!(extend_limbs(&[0b011], 3, 128), vec![3, 0]);
    assert_eq!(extend_limbs(&[0, 1 << 35], 100, 130), vec![0, u64::MAX << 35, 3]);
}

#[test]
fn scalable_integers_have_the_width_of_their_value() {
    assert_eq!(compute_scalable_int_bits(0), 2);
    assert_eq!(compute_scalable_int_bits(1), 2);
    assert_eq!(compute_scalable_int_bits(3), 3);
    assert_eq!(compute_scalable_int_bits(-4), 4);
    assert_eq!(compute_scalable_int_bits(127), 8);
    assert_eq!(compute_scalable_int_bits(i64::MIN), 64);
    assert_eq!(widest_int_bits(&bits(&[1.0, -100.0, 3.0])), 8);
    assert_eq!(widest_int_bits(&[]), 2);
}

#[test]
fn scalable_floats_follow_their_values() {
    assert_eq!(compute_scalable_float_config(0f64.to_bits(), true), (8, 4));
    assert_eq!(compute_scalable_float_config(f64::NAN.to_bits(), false), (8, 4));
    let (b, e) = compute_scalable_float_config(1.0f64.to_bits(), false);
    assert_eq!((b, e), (11, 2));
    let d = choose_scalable_float(&bits(&[1.0, 1000.0]), true);
    assert!(matches!(d, DataType::ScalableFloat(_, _)));
    assert!(d.bit_width() <= 64);
}

#[test]
fn fixed_point_numbers_have_a_scale() {
    let s = double_to_floating_int(12.1f64.to_bits(), 1, &unit);
    assert!(matches!(s, Scalar::FloatingInt { value: 121, scale: 1 }));
    assert_eq!(f64::from_bits(s.to_double(&unit)), 12.1);
    let limbs = s.to_limbs(false);
    let back = Scalar::from_limbs(&limbs, DataType::FloatingInt, Some(1), false);
    assert!(matches!(back, Scalar::FloatingInt { value: 121, scale: 1 }));
}

#[test]
fn scalars_know_their_types() {
    assert_eq!(Scalar::Int(-3, 5).data_type(), DataType::Int(5));
    assert_eq!(Scalar::Int(-3, 5).to_u64_packed(false), (-3i64) as u64);
    let s = Scalar::from_u64_packed(0b11101, DataType::Int(5), None, false);
    assert!(matches!(s, Scalar::Int(-3, 5)));
    assert_eq!(f64::from_bits(s.to_double(&unit)), -3.0);
    assert_eq!(Scalar::Int(-1, 5).to_extended_limbs(128), vec![u64::MAX, u64::MAX]);
}

#[test]
fn single_and_double_convert() {
    for v in [0.1f64, -1.0 / 3.0, 1e300, 1e-300, 65504.0, f64::INFINITY] {
        assert_eq!(f32_from_f64(v.to_bits()), (v as f32).to_bits());
    }
    for v in [0.1f32, -3.5e-40, f32::MAX, 0.0] {
        assert_eq!(f64_from_f32(v.to_bits()), (v as f64).to_bits());
    }
    assert_eq!(f64_from_i64(i64::MIN), (i64::MIN as f64).to_bits());
    assert_eq!(f64_from_u64(false, u64::MAX), (u64::MAX as f64).to_bits());
}

#[test]
fn doubles_round_away_from_zero_at_halves() {
    for (v, r) in [(2.5, 3), (-2.5, -3), (0.49999999999999994, 0), (1e30, i64::MAX)] {
        assert_eq!(rounded(f64::to_bits(v)), r);
    }
    assert_eq!(rounded(f64::NAN.to_bits()), 0);
}

#[test]
fn fields_of_limbs() {
    let mut limbs = vec![0u64, 0];
    set_bits(&mut limbs, &[0b1011], 62, 4);
    assert_eq!(limbs, vec![0b11 << 62, 0b10]);
    assert_eq!(get_bits(&limbs, 62, 4), vec![0b1011]);
    negate(&mut limbs);
    assert_eq!(limbs, vec![1 << 62, u64::MAX - 2]);
}

#[test]
fn packed_streams_have_no_gaps() {
    let engine = HardwareEngine::new();
    let packed = engine.pack(&[0b101, 0b010, 0b111], 3);
    assert_eq!(packed, vec![0b1101_0101, 0b1]);
    assert_eq!(engine.unpack(&packed, 3, 3), vec![0b101, 0b010, 0b111]);
    assert_eq!(engine.pack(&[0xFFF], 4), vec![0x0F]);
    let wide = engine.pack(&[1, 2, 3, 4], 70);
    assert_eq!(wide.len(), 18);
    assert_eq!(engine.unpack(&wide, 2, 70), vec![1, 2, 3, 4]);
}

#[test]
fn signs_are_stolen_from_floats_without_negatives() {
    assert!(are_non_negative(&bits(&[0.0, 1.0])));
    assert!(!are_non_negative(&bits(&[0.0, f64::NAN])));
    assert!(should_steal_sign(DataType::Float(8), &bits(&[0.0, 1.0])));
    assert!(!should_steal_sign(DataType::Float(8), &bits(&[-1.0])));
    assert!(!should_steal_sign(DataType::Int(8), &bits(&[1.0])));
}

#[test]
fn arrays_of_exact_values_come_back() {
    let engine = HardwareEngine::new();
    let vals = bits(&[1.0, -0.5, 3.75, 0.0, f64::INFINITY]);
    for d in [
        DataType::Float(12),
        DataType::Float(33),
        DataType::Float(100),
        DataType::DynamicFloat,
        DataType::ScalableFloat(20, 7),
    ] {
        let data = pack_values(&engine, &vals, d, None, false, false, &unit);
        assert_eq!(unpack_values(&engine, &data, 5, d, None, false, &unit), vals);
    }
    let ints = bits(&[-8.0, 7.0, 0.0]);
    for d in [DataType::Int(4), DataType::ScalableInt(40), DataType::Int(90)] {
        let data = pack_values(&engine, &ints, d, None, false, true, &unit);
        assert_eq!(unpack_values(&engine, &data, 3, d, None, false, &unit), ints);
    }
}
