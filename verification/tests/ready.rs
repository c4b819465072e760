//! Tests of arguments before they are used.

use numtoy::array::NumToyArray;
use numtoy::binding::{array_from_values, SliceRange};
use numtoy::hardware::HardwareEngine;
use numtoy::ir::{flat_var, Expr};
use numtoy::ready::{
    can_broadcast, can_combine, can_multiply, can_repeat, can_reshape, can_slice, computed_in,
    count_uses, has_double, has_double_constants, has_strides, is_addressable, is_codable,
    is_countable, is_countable_shape, is_cpu_ready, is_decodable, is_elementwise, is_gpu_ready,
    is_kernel_ready, is_packed_ready, is_pool_ready, is_readable,
};
use numtoy::soft_float::FloatOp;
use numtoy::types::{DataType, Scalar};
use std::sync::Arc;

fn unit(op: FloatOp, a: u64, b: u64) -> u64 {
    let x = f64::from_bits(a);
    let y = f64::from_bits(b);
    match op {
        FloatOp::Add => (x + y).to_bits(),
        FloatOp::Sub => (x - y).to_bits(),
        FloatOp::Mul => (x * y).to_bits(),
        FloatOp::Div => (x / y).to_bits(),
        FloatOp::Pow10 => 10f64.powi(a as i32).to_bits(),
    }
}

fn array(values: &[f64], shape: &[usize]) -> NumToyArray {
    let engine = HardwareEngine::new();
    let bits: Vec<u64> = values.iter().map(|v| v.to_bits()).collect();
    array_from_values(&engine, 1, "a", DataType::Float(32), &bits, shape.to_vec(), None, &unit)
}

fn product() -> Expr {
    let a = Arc::new(array(&[1.0], &[1]).expr);
    Expr::DequantizeMatmul { activations: a.clone(), weights: a, m: usize::MAX, k: 1, n: 2 }
}

#[test]
fn types_that_can_be_coded() {
    assert!(is_codable(DataType::Float(6), false));
    assert!(!is_codable(DataType::Float(5), false));
    assert!(is_codable(DataType::Float(5), true));
    assert!(!is_codable(DataType::Int(0), false));
    assert!(!is_codable(DataType::ScalableFloat(8, 8), false));
    assert!(is_codable(DataType::ScalableFloat(8, 8), true));
    assert!(!is_codable(DataType::ScalableFloat(40, 31), false));
    assert!(is_codable(DataType::FloatingInt, false));
    assert!(!is_decodable(DataType::Int(0x9000_0000), false));
    assert_eq!(computed_in(DataType::ScalableInt(5)), DataType::Int(64));
    assert_eq!(computed_in(DataType::Int(5)), DataType::Int(5));
}

#[test]
fn sizes_that_can_be_counted() {
    assert!(is_addressable(1 << 20, 33));
    assert!(!is_addressable(usize::MAX, 1));
    assert!(is_countable_shape(&[usize::MAX, 1]));
    assert!(!is_countable_shape(&[usize::MAX, 2, 0]));
    assert!(is_countable_shape(&[0, usize::MAX, 2]));
    assert!(has_strides(&[usize::MAX, 4], 64));
    assert!(!has_strides(&[2, usize::MAX], 64));
    assert!(has_strides(&[2, usize::MAX, 3], 0));
    assert!(can_repeat(&[3, 1], &[2, 3, 4]));
    assert!(!can_repeat(&[3, 2], &[3, 4]));
    assert!(!can_repeat(&[1, 3], &[3]));
}

#[test]
fn expressions_that_can_be_run() {
    let a = array(&[1.0, 2.0], &[2]).expr;
    let c = Expr::new_const(Scalar::IntLimbs(vec![1], 0));
    assert!(is_readable(&a));
    assert!(!is_readable(&c));
    assert!(!is_countable(&product()));
    assert!(!is_elementwise(&product().add(a.clone())));
    assert!(!has_double(&Scalar::IntLimbs(vec![1], 0)));
    assert!(!has_double_constants(&a.clone().mul(c)));
    let sum = a.clone().add(a.clone()).div(a.clone());
    assert_eq!(count_uses(&sum), Some(3));
    assert!(is_kernel_ready(&sum, DataType::Float(32), &unit));
    assert!(is_gpu_ready(&sum));
    assert!(!is_kernel_ready(&product(), DataType::Float(32), &unit));
    assert!(!is_gpu_ready(&product()));
    let bad = flat_var(9, "b", DataType::Float(3), 2, vec![0; 2], None, false);
    assert!(!is_kernel_ready(&bad, DataType::Float(32), &unit));
    assert!(!is_gpu_ready(&sum.add(bad)));
}

#[test]
fn expressions_that_can_be_executed() {
    let a = array(&[1.0, 2.0], &[2]).expr;
    let sum = a.clone().add(a.clone());
    assert!(is_cpu_ready(&sum, &unit));
    assert!(is_packed_ready(&sum, &unit));
    assert!(!is_cpu_ready(&product(), &unit));
    assert!(!is_packed_ready(&product(), &unit));
    assert!(is_pool_ready(&sum, &unit));
    assert!(!is_pool_ready(&product(), &unit));
    let tight = |steal: bool| {
        flat_var(8, "t", DataType::ScalableFloat(5, 5), 2, vec![0; 2], None, steal)
    };
    assert!(!is_pool_ready(&tight(true), &unit));
    assert!(!is_pool_ready(&tight(false), &unit));
    let bad = flat_var(9, "b", DataType::Float(3), 2, vec![0; 2], None, false);
    assert!(!is_cpu_ready(&a.clone().add(bad.clone()), &unit));
    assert!(!is_packed_ready(&bad, &unit));
    let wide = flat_var(7, "w", DataType::Int(100), 2, vec![0; 25], None, false);
    assert!(is_cpu_ready(&wide.clone().mul(wide.clone()), &unit));
    let short = Expr::new_const(Scalar::IntLimbs(vec![1], 100));
    assert!(!is_cpu_ready(&wide.clone().mul(short), &unit));
    let limbs = Expr::new_const(Scalar::IntLimbs(vec![1, 0], 100));
    assert!(is_cpu_ready(&wide.mul(limbs), &unit));
}

#[test]
fn arrays_that_can_be_combined() {
    let a = array(&[1.0, 2.0, 3.0], &[3, 1]);
    let b = array(&[1.0, 2.0], &[2]);
    assert!(can_combine(&a, &b, &unit));
    assert!(!can_combine(&array(&[1.0; 3], &[3]), &b, &unit));
    assert!(can_broadcast(&a, &[3, 2]));
    assert!(!can_broadcast(&a, &[2, 3]));
    let lazy = NumToyArray::from_expr(product(), vec![2], vec![64]);
    assert!(!can_broadcast(&lazy, &[2, 2]));
    assert!(!can_combine(&lazy, &b, &unit));
    assert!(can_reshape(&a, &[1, 3]));
    assert!(!can_reshape(&a, &[2]));
    assert!(can_multiply(&a, &b));
    let huge = NumToyArray::from_expr(product(), vec![2, usize::MAX], vec![64, 64]);
    assert!(!can_multiply(&a, &huge));
}

#[test]
fn ranges_that_can_be_taken() {
    let a = array(&[1.0, 2.0, 3.0, 4.0], &[4]);
    let range = |start: usize, stop: usize, step: usize| SliceRange { start, stop, step };
    assert!(can_slice(&a, &[range(1, 9, 2)]));
    assert!(!can_slice(&a, &[range(1, 9, 0)]));
    assert!(can_slice(&a, &[range(5, 9, 0)]));
    assert!(!can_slice(&a, &[range(0, 4, usize::MAX)]));
    assert!(!can_slice(&a, &[range(0, 1, 1), range(0, 1, 1)]));
    let lazy = NumToyArray::from_expr(product(), vec![2], vec![64]);
    assert!(!can_slice(&lazy, &[]));
}
