//! Expressions executed through kernel plans.

use numtoy::array::{execute_expr_on_device, row_major_bit_strides, IdCounter, NumToyArray};
use numtoy::fuser::exec::{
    choose_compute_bits, execute_expr_cpu, execute_expr_secondary, execute_expr_tertiary,
    parse_device, workgroups, Device,
};
use numtoy::fuser::helpers::{
    dtype_code, dtype_from_code, helper_add_i128, helper_decode_to_f64, helper_div_i128,
    helper_encode_from_f64, helper_load_u64, helper_mul_i128, helper_store_u64, helper_sub_i128,
    ArithOp,
};
use numtoy::fuser::interp::execute_expr_limb_interpreter;
use numtoy::fuser::kernel::{needs_limb_interpreter, FusedOp, MicroKernel};
use numtoy::fuser::limb_arith::{add_limbs, mul_limbs, sub_limbs};
use numtoy::fuser::plan::{compile_kernel, KernelPlan, PlanInst};
use numtoy::fuser::wgsl::generate_wgsl;
use numtoy::gpu::{build_shader, execute_gpu};
use numtoy::graph::ArenaGraph;
use numtoy::hardware::HardwareEngine;
use numtoy::ir::{flat_var, Expr, PackedBuffer};
use numtoy::mode::ExecutionMode;
use numtoy::soft_float::FloatOp;
use numtoy::types::{DataType, Scalar};

fn unit(op: FloatOp, a: u64, b: u64) -> u64 {
    let x = f64::from_bits(a);
    let y = f64::from_bits(b);
    match op {
        FloatOp::Add => (x + y).to_bits(),
        FloatOp::Sub => (x - y).to_bits(),
        FloatOp::Mul => (x * y).to_bits(),
        FloatOp::Div => (x / y).to_bits(),
        FloatOp::Pow10 => 10f64.powi(a as i32).to_bits(),
    }
}

fn show(v: u64) -> String {
    format!("{:?}", f64::from_bits(v))
}

fn bits(values: &[f64]) -> Vec<u64> {
    values.iter().map(|v| v.to_bits()).collect()
}

fn floats(values: &[u64]) -> Vec<f64> {
    values.iter().map(|v| f64::from_bits(*v)).collect()
}

/// Runs a plan element by element.
fn run_plan(plan: &KernelPlan, bufs: &[&[u8]], out: &mut Vec<u8>, n: usize) {
    for i in 0..n {
        let mut vals: Vec<u64> = Vec::new();
        for inst in &plan.insts {
            let v = match *inst {
                PlanInst::IntConst(v) => v,
                PlanInst::FloatConst(v) => v,
                PlanInst::LoadLimb { input, width, limb } => {
                    helper_load_u64(bufs[input], i, width, limb)
                }
                PlanInst::Decode { limb0, limb1, code, bits, e, scale, steal } => {
                    helper_decode_to_f64(
                        vals[limb0], vals[limb1], code, bits, e, scale, steal, &unit,
                    )
                }
                PlanInst::FloatArith { op, l, r } => match op {
                    ArithOp::Add => unit(FloatOp::Add, vals[l], vals[r]),
                    ArithOp::Sub => unit(FloatOp::Sub, vals[l], vals[r]),
                    ArithOp::Mul => unit(FloatOp::Mul, vals[l], vals[r]),
                    ArithOp::Div => unit(FloatOp::Div, vals[l], vals[r]),
                },
                PlanInst::IntArith { op, l, r } => match op {
                    ArithOp::Add => vals[l].wrapping_add(vals[r]),
                    ArithOp::Sub => vals[l].wrapping_sub(vals[r]),
                    ArithOp::Mul => vals[l].wrapping_mul(vals[r]),
                    ArithOp::Div => (vals[l] as i64).wrapping_div(vals[r] as i64) as u64,
                },
                PlanInst::ShiftLeft { v, amount } => vals[v] << amount,
                PlanInst::ShiftRight { v, amount } => ((vals[v] as i64) >> amount) as u64,
                PlanInst::WideArith { op, l0, l1, r0, r1, limb } => {
                    let (a, b, c, d) = (vals[l0], vals[l1], vals[r0], vals[r1]);
                    match op {
                        ArithOp::Add => helper_add_i128(a, b, c, d, limb),
                        ArithOp::Sub => helper_sub_i128(a, b, c, d, limb),
                        ArithOp::Mul => helper_mul_i128(a, b, c, d, limb),
                        ArithOp::Div => helper_div_i128(a, b, c, d, limb),
                    }
                }
                PlanInst::Encode { val, code, bits, e, scale, steal, limb } => {
                    helper_encode_from_f64(vals[val], code, bits, e, scale, steal, limb, &unit)
                }
            };
            vals.push(v);
        }
        for s in &plan.stores {
            helper_store_u64(out, i, s.width, s.limb, vals[s.val]);
        }
    }
}

fn run_packed(plan: &KernelPlan, bufs: &Vec<PackedBuffer>, w: u32, n: usize) -> Option<Vec<u8>> {
    let slices: Vec<&[u8]> = bufs.iter().map(|b| b.as_slice()).collect();
    let mut out = vec![0u8; (n * w as usize + 7) / 8];
    run_plan(plan, &slices, &mut out, n);
    Some(out)
}

fn run_graph(
    _graph: &ArenaGraph,
    plan: &KernelPlan,
    bufs: &Vec<PackedBuffer>,
    w: u32,
    n: usize,
) -> Vec<u8> {
    run_packed(plan, bufs, w, n).unwrap()
}

fn run_doubles(plan: &KernelPlan, bufs: &Vec<Vec<u64>>, n: usize) -> Vec<u64> {
    let bytes: Vec<Vec<u8>> =
        bufs.iter().map(|b| b.iter().flat_map(|w| w.to_le_bytes()).collect()).collect();
    let slices: Vec<&[u8]> = bytes.iter().map(|b| b.as_slice()).collect();
    let mut out = vec![0u8; n * 8];
    run_plan(plan, &slices, &mut out, n);
    (0..n).map(|i| helper_load_u64(&out, i, 64, 0)).collect()
}

fn no_shader(_text: &String, _bufs: &Vec<Vec<u32>>, _n: usize) -> Option<Vec<u32>> {
    None
}

fn execute(engine: &HardwareEngine, expr: &Expr, device: &str) -> Expr {
    let mut ids = IdCounter::new();
    execute_expr_on_device(
        engine,
        expr,
        device,
        ExecutionMode::Default,
        &mut ids,
        &show,
        &run_graph,
        &no_shader,
        &unit,
    )
    .unwrap()
}

fn make_typed(
    engine: &HardwareEngine,
    id: usize,
    values: &[f64],
    dtype: DataType,
    steal: bool,
) -> Expr {
    let width = dtype.bit_width();
    let u64s: Vec<u64> = values
        .iter()
        .flat_map(|&v| match dtype {
            DataType::Int(b) => Scalar::Int(v as i64, b).to_limbs(false),
            DataType::ScalableInt(b) => Scalar::ScalableInt(v as i64, b).to_limbs(false),
            DataType::Float(b) => Scalar::Float(v.to_bits(), b).to_limbs(steal),
            DataType::ScalableFloat(b, e) => {
                Scalar::ScalableFloat(v.to_bits(), b, e).to_limbs(steal)
            }
            _ => Scalar::DynamicFloat(v.to_bits()).to_limbs(steal),
        })
        .collect();
    let packed = engine.pack(&u64s, width);
    Expr::new_var(
        id,
        &format!("v{id}"),
        dtype,
        values.len(),
        PackedBuffer::from_bytes(packed),
        vec![values.len()],
        row_major_bit_strides(&[values.len()], width as usize),
        0,
        None,
        steal,
    )
}

fn make_var(engine: &HardwareEngine, id: usize, values: &[f64]) -> Expr {
    let steal = values.iter().all(|&v| v >= 0.0);
    make_typed(engine, id, values, DataType::Float(32), steal)
}

/// Fixed-point numbers with two places.
fn make_fixed(engine: &HardwareEngine, id: usize, hundredths: &[i64]) -> Expr {
    let words: Vec<u64> = hundredths.iter().map(|v| *v as u64).collect();
    let packed = engine.pack(&words, 64);
    flat_var(id, "v", DataType::FloatingInt, words.len(), packed, Some(2), false)
}

fn unpack(engine: &HardwareEngine, expr: &Expr) -> Vec<f64> {
    match expr {
        Expr::Variable { size, packed_data, dtype, scale, steal_sign, .. } => {
            let w = dtype.bit_width();
            let k = ((w + 63) / 64) as usize;
            engine
                .unpack(packed_data.as_slice(), *size, w)
                .chunks_exact(k)
                .map(|l| {
                    f64::from_bits(
                        Scalar::from_limbs(l, *dtype, *scale, *steal_sign).to_double(&unit),
                    )
                })
                .collect()
        }
        _ => panic!("expected Variable"),
    }
}

#[test]
fn test_end_to_end_jit_compilation() {
    let engine = HardwareEngine::new();
    let x = make_var(&engine, 1, &[1.0, 2.0, 3.0]);
    let y = make_var(&engine, 2, &[4.0, 5.0, 6.0]);
    let z = x.add(y).mul(Expr::new_const(Scalar::DynamicFloat(2.0f64.to_bits())));
    let result = execute(&engine, &z, "cpu");
    match result {
        Expr::Variable { size, packed_data, dtype, scale, steal_sign, .. } => {
            assert_eq!(size, 3);
            let raw = engine.unpack(packed_data.as_slice(), size, 32);
            let vals: Vec<f64> = raw
                .into_iter()
                .map(|u| {
                    f64::from_bits(
                        Scalar::from_u64_packed(u, dtype, scale, steal_sign).to_double(&unit),
                    )
                })
                .collect();
            for (got, exp) in vals.iter().zip([10.0, 14.0, 18.0]) {
                assert!((got - exp).abs() < 0.1, "got {} expected {}", got, exp);
            }
        }
        _ => panic!("expected Variable"),
    }
}

#[test]
fn test_auto_diff_product_rule() {
    // z = (x + y) * x   =>   dz/dx = 2*x + y
    // At x=[2.0], y=[3.0]: dz/dx = 2*2 + 3 = 7
    let engine = HardwareEngine::new();
    let x = make_var(&engine, 1, &[2.0]);
    let y = make_var(&engine, 2, &[3.0]);
    let z = (x.clone().add(y.clone())).mul(x.clone());
    let dz_dx = z.grad(1); // wrt x (id=1)
    let result = execute(&engine, &dz_dx, "cpu");
    match result {
        Expr::Variable { size, packed_data, dtype, scale, steal_sign, .. } => {
            let raw = engine.unpack(packed_data.as_slice(), size, 32);
            let val = f64::from_bits(
                Scalar::from_u64_packed(raw[0], dtype, scale, steal_sign).to_double(&unit),
            );
            assert!((val - 7.0).abs() < 0.5, "d(z)/d(x) = {} expected 7.0", val);
        }
        _ => panic!("expected Variable"),
    }
}

#[test]
fn test_tensor_broadcast_add() {
    // a = [[1.0], [2.0], [3.0]]  shape [3,1]
    // b = [[10.0, 20.0]]          shape [1,2]
    // a + b should be [[11,21],[12,22],[13,23]]  shape [3,2]
    let engine = HardwareEngine::new();
    let a_expr = make_var(&engine, 1, &[1.0, 2.0, 3.0]);
    let b_expr = make_var(&engine, 2, &[10.0, 20.0]);
    let a = NumToyArray::from_expr(
        a_expr.clone(),
        vec![3, 1],
        row_major_bit_strides(&[3, 1], a_expr.data_type().bit_width() as usize),
    );
    let b = NumToyArray::from_expr(
        b_expr.clone(),
        vec![1, 2],
        row_major_bit_strides(&[1, 2], b_expr.data_type().bit_width() as usize),
    );
    let mut ids = IdCounter::new();
    let c = a
        .add(&b, &engine, ExecutionMode::Default, &mut ids, &run_graph, &unit)
        .execute(
            &engine,
            "cpu",
            ExecutionMode::Default,
            &mut ids,
            &show,
            &run_graph,
            &no_shader,
            &unit,
        )
        .unwrap();
    let flat = floats(&c.to_flat_f64(&engine, &unit));
    assert_eq!(flat.len(), 6);
    let expected = [11.0, 21.0, 12.0, 22.0, 13.0, 23.0];
    for (got, exp) in flat.iter().zip(expected) {
        assert!((got - exp).abs() < 0.5, "got {} expected {}", got, exp);
    }
}

#[test]
fn quick_start_scenario() {
    let engine = HardwareEngine::new();
    let x = make_var(&engine, 1, &[1.0, 2.0, 3.0]);
    let y = make_var(&engine, 2, &[4.0, 5.0, 6.0]);
    let z = x.add(y).mul(Expr::new_const(Scalar::DynamicFloat(2.5f64.to_bits())));
    assert_eq!(unpack(&engine, &execute(&engine, &z, "cpu")), vec![12.5, 17.5, 22.5]);
    let on_doubles = execute_expr_cpu(&engine, &z, &run_doubles, &unit);
    assert_eq!(unpack(&engine, &on_doubles), vec![12.5, 17.5, 22.5]);
}

#[test]
fn every_path_computes_the_expression() {
    let engine = HardwareEngine::new();
    let x = make_typed(&engine, 1, &[-1.5, 2.0, 3.25], DataType::Float(32), false);
    let y = make_typed(&engine, 2, &[4.0, -5.0, 0.5], DataType::Float(32), false);
    let z = x.clone().sub(y.clone()).div(y).add(x);
    let exp: Vec<f64> = [(-1.5f64, 4.0f64), (2.0, -5.0), (3.25, 0.5)]
        .iter()
        .map(|(a, b)| ((a - b) / b + a) as f32 as f64)
        .collect();
    let close = |e: &Expr| {
        let got = unpack(&engine, e);
        assert_eq!(got.len(), 3);
        for (g, x) in got.iter().zip(&exp) {
            assert!((g - x).abs() < 1e-6, "{} {}", g, x);
        }
    };
    close(&execute_expr_cpu(&engine, &z, &run_doubles, &unit));
    close(&execute_expr_secondary(&engine, &z, &run_packed, &unit).unwrap());
    close(&execute_expr_tertiary(&engine, &z, &run_packed, &run_doubles, &unit).unwrap());
    close(&execute(&engine, &z, "cpu"));
    close(&execute_expr_limb_interpreter(&engine, &z, &unit));
}

#[test]
fn sampled_and_packed_execution_agree() {
    let engine = HardwareEngine::new();
    let fields = |e: Expr| match e {
        Expr::Variable { dtype, size, packed_data, scale, steal_sign, .. } => {
            (dtype, size, packed_data.as_slice().to_vec(), scale, steal_sign)
        }
        _ => panic!("expected Variable"),
    };
    let mut values: Vec<f64> = (0..150).map(|i| (i % 3) as f64).collect();
    values[140] = 12345.0;
    let types = [
        DataType::Int(16),
        DataType::Int(64),
        DataType::ScalableInt(20),
        DataType::Float(32),
        DataType::DynamicFloat,
    ];
    for d in types {
        let x = make_typed(&engine, 1, &values, d, false);
        let z = x.clone().mul(x.clone()).add(x);
        let whole = execute_expr_secondary(&engine, &z, &run_packed, &unit).unwrap();
        let sampled =
            execute_expr_tertiary(&engine, &z, &run_packed, &run_doubles, &unit).unwrap();
        assert_eq!(fields(sampled), fields(whole), "{d:?}");
    }
}

fn on_every_path(engine: &HardwareEngine, z: &Expr) -> Vec<Expr> {
    vec![
        execute_expr_cpu(engine, z, &run_doubles, &unit),
        execute_expr_secondary(engine, z, &run_packed, &unit).unwrap(),
        execute_expr_tertiary(engine, z, &run_packed, &run_doubles, &unit).unwrap(),
        execute(engine, z, "cpu"),
    ]
}

#[test]
fn results_keep_their_sign() {
    let engine = HardwareEngine::new();
    let types = [
        DataType::Float(32),
        DataType::DynamicFloat,
        DataType::Float(100),
        DataType::ScalableFloat(20, 6),
    ];
    for d in types {
        let x = make_typed(&engine, 1, &[1.0, 2.0, 3.5], d, true);
        let y = make_typed(&engine, 2, &[2.0, 0.5, 3.5], d, true);
        for r in on_every_path(&engine, &x.clone().sub(y.clone())) {
            assert!(!r.steal_sign(), "{d:?}");
            assert_eq!(unpack(&engine, &r), vec![-1.0, 1.5, 0.0], "{d:?}");
        }
        for r in on_every_path(&engine, &x.add(y)) {
            assert!(r.steal_sign(), "{d:?}");
            assert_eq!(unpack(&engine, &r), vec![3.0, 2.5, 7.0], "{d:?}");
        }
    }
    let x = make_typed(&engine, 1, &[1.0, 2.0], DataType::Int(8), true);
    let y = make_typed(&engine, 2, &[2.0, 1.0], DataType::Int(8), true);
    let r = execute(&engine, &x.clone().sub(y.clone()), "cpu");
    assert_eq!((r.steal_sign(), unpack(&engine, &r)), (false, vec![-1.0, 1.0]));
    let r = execute(&engine, &x.add(y), "cpu");
    assert_eq!((r.steal_sign(), unpack(&engine, &r)), (true, vec![3.0, 3.0]));
}

#[test]
fn fixed_point_numbers_keep_their_scale() {
    let engine = HardwareEngine::new();
    let x = make_fixed(&engine, 1, &[150, -225]);
    let y = make_fixed(&engine, 2, &[200, 400]);
    let half = Expr::new_const(Scalar::DynamicFloat(0.5f64.to_bits()));
    for r in on_every_path(&engine, &x.clone().mul(y.clone())) {
        assert_eq!(unpack(&engine, &r), vec![3.0, -9.0]);
    }
    for r in on_every_path(&engine, &x.clone().div(y)) {
        assert_eq!(unpack(&engine, &r), vec![0.75, -0.56]);
    }
    for r in on_every_path(&engine, &x.add(half)) {
        assert_eq!(unpack(&engine, &r), vec![2.0, -1.75]);
    }
}

#[test]
fn scalable_floats_are_packed_as_they_are_labelled() {
    let engine = HardwareEngine::new();
    let x = make_typed(&engine, 1, &[1.0, -1.5], DataType::ScalableFloat(11, 5), false);
    let z = x.clone().mul(x);
    let r = execute_expr_secondary(&engine, &z, &run_packed, &unit).unwrap();
    assert_eq!(r.data_type(), DataType::ScalableFloat(11, 4));
    assert_eq!(unpack(&engine, &r), vec![1.0, 2.25]);
}

#[test]
fn packed_execution_computes_integers() {
    let engine = HardwareEngine::new();
    let run = |d: DataType| {
        let x = make_typed(&engine, 1, &[5.0, -3.0, 7.0], d, false);
        let z = x.clone().mul(x.clone()).sub(x);
        let r = execute_expr_secondary(&engine, &z, &run_packed, &unit).unwrap();
        (r.data_type(), unpack(&engine, &r))
    };
    assert_eq!(run(DataType::Int(5)), (DataType::Int(5), vec![-12.0, 12.0, 10.0]));
    let scaled = run(DataType::ScalableInt(9));
    assert_eq!(scaled, (DataType::ScalableInt(7), vec![20.0, 12.0, 42.0]));
    assert_eq!(run(DataType::Int(100)), (DataType::Int(100), vec![20.0, 12.0, 42.0]));
}

#[test]
fn integer_kernels_wrap_to_their_width() {
    let engine = HardwareEngine::new();
    let x = make_typed(&engine, 1, &[100.0, -7.0, 3.0], DataType::Int(8), false);
    let y = make_typed(&engine, 2, &[100.0, 3.0, -4.0], DataType::Int(8), false);
    let sum = execute(&engine, &x.clone().add(y.clone()), "cpu");
    assert_eq!(unpack(&engine, &sum), vec![-56.0, -4.0, -1.0]);
    let product = execute(&engine, &x.clone().mul(y.clone()), "cpu");
    assert_eq!(unpack(&engine, &product), vec![16.0, -21.0, -12.0]);
    let quotient = execute(&engine, &x.div(y), "cpu");
    assert_eq!(unpack(&engine, &quotient), vec![1.0, -2.0, 0.0]);
}

#[test]
fn scalable_integers_are_computed_in_64_bits() {
    let engine = HardwareEngine::new();
    let x = make_typed(&engine, 1, &[100.0, 3.0], DataType::ScalableInt(8), false);
    let r = execute(&engine, &x.clone().mul(x), "cpu");
    assert_eq!(r.data_type(), DataType::Int(64));
    assert_eq!(unpack(&engine, &r), vec![10000.0, 9.0]);
}

#[test]
fn wide_integers_take_the_limb_interpreter() {
    let engine = HardwareEngine::new();
    let x = make_typed(&engine, 1, &[1e6, -5.0], DataType::Int(128), false);
    let y = make_typed(&engine, 2, &[1e6, 7.0], DataType::Int(128), false);
    let z = x.mul(y);
    assert!(needs_limb_interpreter(&z));
    let r = execute_expr_cpu(&engine, &z, &run_doubles, &unit);
    assert_eq!(unpack(&engine, &r), vec![1e12, -35.0]);
}

#[test]
fn limb_arithmetic_carries() {
    let max = u64::MAX;
    assert_eq!(add_limbs(&[max, 0], &[1, 0], 128), vec![0, 1]);
    assert_eq!(sub_limbs(&[0, 1], &[1, 0], 128), vec![max, 0]);
    assert_eq!(mul_limbs(&[max, 0], &[max, 0], 128), vec![1, max - 1]);
    assert_eq!(add_limbs(&[max], &[1], 64), vec![0]);
}

#[test]
fn wide_words_divide_without_signs() {
    assert_eq!(helper_add_i128(u64::MAX, 0, 1, 0, 1), 1);
    assert_eq!(helper_sub_i128(0, 1, 1, 0, 0), u64::MAX);
    assert_eq!(helper_mul_i128(u64::MAX, 0, 2, 0, 1), 1);
    assert_eq!(helper_div_i128(0, 4, 2, 0, 1), 2);
    assert_eq!(helper_div_i128(5, 0, 0, 0, 0), 0);
}

#[test]
fn a_load_gives_what_a_store_wrote() {
    let mut buf = vec![0u8; 32];
    helper_store_u64(&mut buf, 3, 11, 0, 0x5A5);
    assert_eq!(helper_load_u64(&buf, 3, 11, 0), 0x5A5);
    assert_eq!(helper_load_u64(&buf, 2, 11, 0), 0);
    assert_eq!(helper_load_u64(&buf, 4, 11, 0), 0);
    helper_store_u64(&mut buf, 1, 100, 1, u64::MAX);
    assert_eq!(helper_load_u64(&buf, 1, 100, 1), (1 << 36) - 1);
}

#[test]
fn types_are_found_by_their_codes() {
    for d in [
        DataType::Float(7),
        DataType::Int(9),
        DataType::DynamicFloat,
        DataType::FloatingInt,
        DataType::ScalableInt(5),
        DataType::ScalableFloat(12, 4),
    ] {
        assert_eq!(dtype_from_code(dtype_code(d), d.bit_width(), 4), d);
    }
    assert_eq!(dtype_from_code(77, 8, 4), DataType::DynamicFloat);
}

#[test]
fn kernels_read_each_variable_once() {
    let engine = HardwareEngine::new();
    let x = make_var(&engine, 1, &[1.0]);
    let y = make_var(&engine, 2, &[2.0]);
    let z = x.clone().mul(y).add(x);
    let kernel = MicroKernel::generate(&z, &unit);
    assert_eq!(kernel.inputs.len(), 2);
    assert_eq!(kernel.size, 1);
    match &kernel.op {
        FusedOp::Add(l, r) => {
            assert!(matches!(**r, FusedOp::Input(0)));
            assert!(matches!(**l, FusedOp::Mul(_, _)));
        }
        _ => panic!("expected a sum"),
    }
    let plan = compile_kernel(&kernel, &unit);
    let out = run_doubles(&plan, &vec![bits(&[3.0]), bits(&[4.0])], 1);
    assert_eq!(floats(&out), vec![15.0]);
}

#[test]
fn shaders_spell_the_expression() {
    let engine = HardwareEngine::new();
    let x = make_var(&engine, 1, &[1.0, 2.0]);
    let z = x.clone().add(Expr::new_const(Scalar::DynamicFloat(2.5f64.to_bits()))).mul(x);
    let kernel = MicroKernel::generate(&z, &unit);
    let text = generate_wgsl(&kernel, &show);
    assert!(text.contains("2.5"), "{}", text);
    assert!(text.contains("@compute"), "{}", text);
    let graph = ArenaGraph::from_expr(&z);
    let text = build_shader(&graph, 2, 2, &show, &unit);
    assert!(text.contains("@compute"), "{}", text);
    assert!(text.contains("input_1: array<f32>;"), "{}", text);
}

#[test]
fn gpu_results_are_packed_and_failures_reported() {
    let engine = HardwareEngine::new();
    let x = make_var(&engine, 1, &[1.0, 2.0]);
    let z = x.clone().add(x);
    let graph = ArenaGraph::from_expr(&z);
    let run = |_t: &String, bufs: &Vec<Vec<u32>>, n: usize| -> Option<Vec<u32>> {
        assert_eq!(bufs.len(), 2);
        let at = |k: usize, i: usize| f32::from_bits(bufs[k][i]);
        Some((0..n).map(|i| (at(0, i) + at(1, i)).to_bits()).collect())
    };
    let r = execute_gpu(&engine, &z, &graph, &show, &run, &unit).unwrap();
    assert_eq!(unpack(&engine, &r), vec![2.0, 4.0]);
    assert!(r.steal_sign());
    assert!(execute_gpu(&engine, &z, &graph, &show, &no_shader, &unit).is_none());
    let below = |_t: &String, _b: &Vec<Vec<u32>>, _n: usize| -> Option<Vec<u32>> {
        Some(vec![(-1.5f32).to_bits(), 2.0f32.to_bits()])
    };
    let r = execute_gpu(&engine, &z, &graph, &show, &below, &unit).unwrap();
    assert!(!r.steal_sign());
    assert_eq!(unpack(&engine, &r), vec![-1.5, 2.0]);
}

#[test]
fn devices_have_names() {
    assert_eq!(parse_device("gpu"), Device::Gpu);
    assert_eq!(parse_device("cpu"), Device::Cpu);
    assert_eq!(parse_device("secondary"), Device::Secondary);
    assert_eq!(parse_device("tertiary"), Device::Tertiary);
    assert_eq!(parse_device("anything"), Device::Cpu);
    assert_eq!(workgroups(1), 1);
    assert_eq!(workgroups(64), 1);
    assert_eq!(workgroups(65), 2);
}

#[test]
fn samples_choose_a_compute_width() {
    assert_eq!(choose_compute_bits(DataType::DynamicFloat, false, &bits(&[1.0])), None);
    assert_eq!(choose_compute_bits(DataType::DynamicFloat, true, &bits(&[-1.0])), Some(64));
    assert_eq!(choose_compute_bits(DataType::Int(64), false, &bits(&[3.0])), Some(3));
    assert_eq!(choose_compute_bits(DataType::Int(2), false, &bits(&[300.0])), None);
}
