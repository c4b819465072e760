//! Shapes, arrays, tensors, and what bindings are made of.

use numtoy::array::{IdCounter, NumToyArray};
use numtoy::binding::{
    array_from_bytes, array_from_values, array_interface, dequantize_matmul, dtype_from_name,
    dtype_from_number, slice_and_dice, stored_dtype, unpack_upto, var_from_values,
    InterfaceError, SliceRange,
};
use numtoy::fuser::plan::KernelPlan;
use numtoy::graph::ArenaGraph;
use numtoy::hardware::HardwareEngine;
use numtoy::helper_matmul::helper_dequantize_matmul;
use numtoy::ir::{Expr, PackedBuffer};
use numtoy::mode::ExecutionMode;
use numtoy::shape::{
    are_compatible, broadcast_shape, count_elements, pad_shape, row_major_bit_strides,
    row_major_element_strides,
};
use numtoy::soft_float::FloatOp;
use numtoy::tensor::Tensor;
use numtoy::types::{DataType, Scalar};

fn unit(op: FloatOp, a: u64, b: u64) -> u64 {
    let x = f64::from_bits(a);
    let y = f64::from_bits(b);
    match op {
        FloatOp::Add => (x + y).to_bits(),
        FloatOp::Sub => (x - y).to_bits(),
        FloatOp::Mul => (x * y).to_bits(),
        FloatOp::Div => (x / y).to_bits(),
        FloatOp::Pow10 => 10f64.powi(a as i32).to_bits(),
    }
}

fn bits(values: &[f64]) -> Vec<u64> {
    values.iter().map(|v| v.to_bits()).collect()
}

fn floats(values: &[u64]) -> Vec<f64> {
    values.iter().map(|v| f64::from_bits(*v)).collect()
}

fn array(id: usize, values: &[f64], shape: &[usize], d: DataType) -> NumToyArray {
    let engine = HardwareEngine::new();
    array_from_values(&engine, id, "a", d, &bits(values), shape.to_vec(), None, &unit)
}

fn no_graph(
    _g: &ArenaGraph,
    _p: &KernelPlan,
    _b: &Vec<PackedBuffer>,
    _w: u32,
    _n: usize,
) -> Vec<u8> {
    unreachable!()
}

fn no_doubles(_p: &KernelPlan, _b: &Vec<Vec<u64>>, _n: usize) -> Vec<u64> {
    unreachable!()
}

#[test]
fn strides_are_row_major() {
    assert_eq!(row_major_bit_strides(&[2, 3, 4], 5), vec![60, 20, 5]);
    assert_eq!(row_major_element_strides(&[2, 3, 4]), vec![12, 4, 1]);
    assert_eq!(count_elements(&[2, 3, 4]), 24);
    assert_eq!(count_elements(&[]), 1);
}

#[test]
fn shapes_broadcast_from_the_right() {
    assert_eq!(broadcast_shape(&[3, 1], &[1, 2]), vec![3, 2]);
    assert_eq!(broadcast_shape(&[1, 2], &[3, 1]), vec![3, 2]);
    assert_eq!(broadcast_shape(&[4], &[2, 3, 1]), vec![2, 3, 4]);
    assert_eq!(pad_shape(&[4], 3), vec![1, 1, 4]);
    assert!(are_compatible(&[3, 1], &[2]));
    assert!(!are_compatible(&[3], &[2]));
}

#[test]
fn arrays_transpose_and_reshape() {
    let a = array(1, &[1.0, 2.0, 3.0, 4.0, 5.0, 6.0], &[2, 3], DataType::Float(32));
    assert_eq!(a.dtype(), "Float(32)");
    assert_eq!(a.element_bits(), 32);
    assert_eq!(a.numel(), 6);
    let t = a.transpose();
    assert_eq!(t.shape, vec![3, 2]);
    assert_eq!(t.bit_strides, vec![32, 96]);
    assert_eq!(t.numel(), a.numel());
    let back = t.transpose();
    assert_eq!(back.shape, a.shape);
    assert_eq!(back.bit_strides, a.bit_strides);
    let r = a.reshape(vec![6]);
    assert_eq!(r.shape, vec![6]);
    assert_eq!(r.bit_strides, vec![32]);
    let engine = HardwareEngine::new();
    assert_eq!(floats(&r.to_flat_f64(&engine, &unit)), vec![1.0, 2.0, 3.0, 4.0, 5.0, 6.0]);
}

#[test]
fn types_have_names() {
    assert_eq!(array(1, &[1.0], &[1], DataType::Int(9)).dtype(), "Int(9)");
    assert_eq!(array(1, &[1.0], &[1], DataType::DynamicFloat).dtype(), "DynamicFloat");
    assert_eq!(array(1, &[1.0], &[1], DataType::FloatingInt).dtype(), "FloatingInt");
    assert_eq!(array(1, &[1.0], &[1], DataType::ScalableInt(12)).dtype(), "ScalableInt(12)");
    assert_eq!(
        array(1, &[1.0], &[1], DataType::ScalableFloat(16, 4)).dtype(),
        "ScalableFloat(16, 4)"
    );
}

#[test]
fn arrays_broadcast() {
    let engine = HardwareEngine::new();
    let mut ids = IdCounter::new();
    let a = array(1, &[1.0, 2.0, 3.0], &[3, 1], DataType::Float(32));
    let b = a.broadcast_to(&engine, vec![2, 3, 2], &mut ids, &unit);
    assert_eq!(b.shape, vec![2, 3, 2]);
    assert_eq!(
        floats(&b.to_flat_f64(&engine, &unit)),
        vec![1.0, 1.0, 2.0, 2.0, 3.0, 3.0, 1.0, 1.0, 2.0, 2.0, 3.0, 3.0]
    );
    assert_eq!(ids.next, 10_001);
    let same = a.broadcast_to(&engine, vec![3, 1], &mut ids, &unit);
    assert_eq!(same.shape, a.shape);
    assert_eq!(ids.next, 10_001);
}

#[test]
fn broadcasts_read_back() {
    let engine = HardwareEngine::new();
    let mut ids = IdCounter::new();
    let cases = [
        (DataType::Int(5), vec![-16.0, 15.0, 3.0]),
        (DataType::ScalableInt(54), vec![-9007199254740991.0, 1.0, 0.0]),
        (DataType::Float(16), vec![-1.5, 0.25, 3.0]),
        (DataType::ScalableFloat(20, 6), vec![1.5, 0.25, 1024.0]),
        (DataType::DynamicFloat, vec![0.1, -0.2, 1e300]),
    ];
    for (d, values) in cases {
        let a = array(1, &values, &[3, 1], d);
        assert_eq!(floats(&a.to_flat_f64(&engine, &unit)), values);
        let b = a.broadcast_to(&engine, vec![2, 3, 2], &mut ids, &unit);
        assert_eq!(b.expr.data_type(), d);
        let flat = floats(&b.to_flat_f64(&engine, &unit));
        for c in 0..12 {
            assert_eq!(flat[c], values[c / 2 % 3]);
        }
    }
}

#[test]
fn array_sums_are_lazy() {
    let engine = HardwareEngine::new();
    let mut ids = IdCounter::new();
    let a = array(1, &[1.0, 2.0], &[2, 1], DataType::Float(32));
    let b = array(2, &[10.0, 20.0], &[2], DataType::Float(32));
    let mode = ExecutionMode::Default;
    let sum = a.add(&b, &engine, mode, &mut ids, &no_graph, &unit);
    assert_eq!(sum.shape, vec![2, 2]);
    assert_eq!(sum.bit_strides, vec![64, 32]);
    assert!(matches!(sum.expr, Expr::Add { .. }));
    let difference = a.sub(&b, &engine, mode, &mut ids, &no_graph, &unit);
    assert!(matches!(difference.expr, Expr::Sub { .. }));
    let product = a.mul(&b, &engine, mode, &mut ids, &no_graph, &unit);
    assert!(matches!(product.expr, Expr::Mul { .. }));
    let quotient = a.div(&b, &engine, mode, &mut ids, &no_graph, &unit);
    assert!(matches!(quotient.expr, Expr::Div { .. }));
    let slope = sum.grad(1);
    assert_eq!(slope.shape, vec![2, 2]);
}

#[test]
fn tensors_have_strides_in_elements() {
    let engine = HardwareEngine::new();
    let mut ids = IdCounter::new();
    let vals = bits(&[1.0, 2.0, 3.0]);
    let e = var_from_values(&engine, 1, "t", DataType::Float(32), &vals, None, &unit);
    let t = Tensor::from_expr(e, vec![3, 1]);
    assert_eq!(t.strides, vec![1, 1]);
    assert_eq!(t.numel(), 3);
    assert_eq!(t.reshape(vec![1, 3]).strides, vec![3, 1]);
    assert_eq!(t.packed_bytes().len(), 12);
    let wide = t.broadcast_to(&engine, vec![3, 2], &mut ids, &unit);
    assert_eq!(wide.strides, vec![2, 1]);
    assert_eq!(
        floats(&wide.to_flat_f64(&engine, &unit)),
        vec![1.0, 1.0, 2.0, 2.0, 3.0, 3.0]
    );
    let sum = t.add(&wide, &engine, &mut ids, &no_doubles, &unit);
    assert_eq!(sum.shape, vec![3, 2]);
    assert!(matches!(sum.expr, Expr::Add { .. }));
    assert!(matches!(
        t.mul(&wide, &engine, &mut ids, &no_doubles, &unit).grad(1).expr,
        Expr::Add { .. }
    ));
    assert!(matches!(
        t.sub(&wide, &engine, &mut ids, &no_doubles, &unit).expr,
        Expr::Sub { .. }
    ));
    assert!(matches!(
        t.div(&wide, &engine, &mut ids, &no_doubles, &unit).expr,
        Expr::Div { .. }
    ));
}

#[test]
fn quantized_weights_multiply() {
    // Two rows of three activations, three by two weights of four bits.
    let acts = bits(&[1.0, 2.0, 3.0, -1.0, 0.5, 0.0]);
    let engine = HardwareEngine::new();
    let signed = engine.pack(&[1, 0xF, 2, 0x8, 7, 3], 4);
    let out = helper_dequantize_matmul(&acts, &signed, 2, 3, 2, 4, false, &unit);
    // weights: [[1, -1], [2, -8], [7, 3]]
    assert_eq!(floats(&out), vec![26.0, -8.0, 0.0, -3.0]);
    let out = helper_dequantize_matmul(&acts, &signed, 2, 3, 2, 4, true, &unit);
    // weights: [[1, 15], [2, 8], [7, 3]]
    assert_eq!(floats(&out), vec![26.0, 40.0, 0.0, -11.0]);
}

#[test]
fn weights_are_read_whole() {
    let engine = HardwareEngine::new();
    let minus_one = engine.pack(&[0x7FFF_FFFF], 31);
    let out = helper_dequantize_matmul(&bits(&[2.0]), &minus_one, 1, 1, 1, 31, false, &unit);
    assert_eq!(floats(&out), vec![-2.0]);
    // The second weight begins inside a byte and ends in the ninth from there.
    let long = engine.pack(&[3, 1 << 60], 61);
    let acts = bits(&[0.0, 1.0]);
    let out = helper_dequantize_matmul(&acts, &long, 1, 2, 1, 61, true, &unit);
    assert_eq!(floats(&out), vec![(1u64 << 60) as f64]);
}

#[test]
fn types_are_chosen_by_name_and_number() {
    let vals = bits(&[1.0, -100.0]);
    assert_eq!(dtype_from_name("float", 12, &vals), Some(DataType::Float(12)));
    assert_eq!(dtype_from_name("int", 12, &vals), Some(DataType::Int(12)));
    assert_eq!(dtype_from_name("dynamic_float", 12, &vals), Some(DataType::DynamicFloat));
    assert_eq!(dtype_from_name("floating_int", 12, &vals), Some(DataType::FloatingInt));
    assert_eq!(dtype_from_name("scalable_int", 12, &vals), Some(DataType::ScalableInt(8)));
    assert!(matches!(
        dtype_from_name("scalable_float", 12, &vals),
        Some(DataType::ScalableFloat(_, _))
    ));
    assert_eq!(dtype_from_name("complex", 12, &vals), None);
    assert_eq!(dtype_from_number(0, 7, &vals), DataType::Float(7));
    assert_eq!(dtype_from_number(1, 7, &vals), DataType::Int(7));
    assert_eq!(dtype_from_number(2, 7, &vals), DataType::DynamicFloat);
    assert_eq!(dtype_from_number(3, 7, &vals), DataType::FloatingInt);
    assert_eq!(dtype_from_number(4, 7, &vals), DataType::ScalableInt(8));
    assert_eq!(dtype_from_number(99, 7, &vals), DataType::DynamicFloat);
    assert_eq!(stored_dtype("scalable_float", 10), Some(DataType::ScalableFloat(10, 4)));
    assert_eq!(stored_dtype("scalable_int", 10), Some(DataType::ScalableInt(10)));
    assert_eq!(stored_dtype("?", 10), None);
}

#[test]
fn values_come_back_from_variables() {
    let engine = HardwareEngine::new();
    let vals = bits(&[1.5, 2.25, 0.0]);
    let e = var_from_values(&engine, 4, "x", DataType::Float(20), &vals, None, &unit);
    assert!(e.steal_sign());
    assert_eq!(unpack_upto(&engine, &e, 10, &unit), vals);
    assert_eq!(unpack_upto(&engine, &e, 2, &unit), vals[..2].to_vec());
    let c = Expr::new_const(Scalar::DynamicFloat(0));
    assert!(unpack_upto(&engine, &c, 2, &unit).is_empty());
}

#[test]
fn matrix_products_have_the_outer_sizes() {
    let a = array(1, &[1.0; 6], &[2, 3], DataType::Float(32));
    let w = array(2, &[1.0; 12], &[3, 4], DataType::ScalableInt(4));
    let p = dequantize_matmul(&a, &w);
    assert_eq!(p.shape, vec![2, 4]);
    assert_eq!(p.bit_strides, vec![256, 64]);
    assert!(matches!(p.expr, Expr::DequantizeMatmul { m: 2, k: 3, n: 4, .. }));
    let flat = dequantize_matmul(&a.reshape(vec![6]), &w);
    assert_eq!(flat.shape, vec![1, 1]);
}

#[test]
fn slices_share_the_bytes() {
    let a = array(1, &[0.0, 1.0, 2.0, 3.0, 4.0, 5.0, 6.0, 7.0], &[4, 2], DataType::Int(8));
    let ranges = vec![SliceRange { start: 1, stop: 9, step: 2 }];
    let s = slice_and_dice(&a, &ranges);
    assert_eq!(s.shape, vec![2, 2]);
    assert_eq!(s.bit_strides, vec![32, 8]);
    match &s.expr {
        Expr::Variable { size, bit_offset, .. } => {
            assert_eq!(*size, 4);
            assert_eq!(*bit_offset, 16);
        }
        _ => panic!("expected Variable"),
    }
    let none = slice_and_dice(&a, &vec![SliceRange { start: 3, stop: 1, step: 1 }]);
    assert_eq!(none.shape, vec![0, 2]);
    let all = slice_and_dice(&a, &vec![SliceRange { start: 0, stop: 4, step: 1 }]);
    assert_eq!(all.shape, a.shape);
    assert_eq!(all.bit_strides, a.bit_strides);
}

#[test]
fn arrays_are_described_to_others() {
    let a = array(1, &[-1.0, 2.0], &[2], DataType::Float(32));
    let d = array_interface(&a).unwrap();
    assert_eq!(d.shape, vec![2]);
    assert_eq!(d.byte_strides, vec![4]);
    assert_eq!(d.typestr, "<f4");
    assert_eq!(d.byte_offset, 0);
    let i = array_from_bytes(1, "i", DataType::Int(16), 2, vec![0; 4], vec![2], None);
    assert_eq!(array_interface(&i).unwrap().typestr, "<i2");
    let error = |a: &NumToyArray| array_interface(a).err().unwrap();
    let unaligned = array(1, &[1.0], &[1], DataType::Int(9));
    assert_eq!(error(&unaligned), InterfaceError::UnalignedStride);
    let custom = array(1, &[1.0], &[1], DataType::ScalableInt(8));
    assert_eq!(error(&custom), InterfaceError::CustomType);
    let stolen = array(1, &[1.0], &[1], DataType::Float(32));
    assert_eq!(error(&stolen), InterfaceError::StolenSign);
    let lazy = NumToyArray::from_expr(a.expr.clone().add(a.expr.clone()), vec![2], vec![32]);
    assert_eq!(error(&lazy), InterfaceError::NotMaterialized);
    let shifted = NumToyArray::from_expr(
        Expr::new_var(
            1,
            "s",
            DataType::Int(8),
            1,
            PackedBuffer::from_bytes(vec![0; 2]),
            vec![1],
            vec![8],
            3,
            None,
            false,
        ),
        vec![1],
        vec![8],
    );
    assert_eq!(error(&shifted), InterfaceError::UnalignedOffset);
    assert!(error(&shifted).message().contains("offset"));
}
