//! Fusion of expressions into single kernels, and their execution.

pub mod exec;
pub mod exec_laws;
pub mod helpers;
pub mod interp;
pub mod interp_laws;
pub mod kernel;
pub mod laws;
pub mod limb_arith;
pub mod packed_laws;
pub mod plan;
pub mod truncate;
pub mod wgsl;
pub mod wgsl_laws;
pub mod wide_laws;
pub mod words;

pub use crate::fuser::exec::{
    execute_expr, execute_expr_cpu, execute_expr_gpu, execute_expr_on_device,
    execute_expr_secondary, execute_expr_tertiary,
};
pub use crate::fuser::helpers::{
    helper_add_i128, helper_decode_to_f64, helper_div_i128, helper_encode_from_f64,
    helper_load_u64, helper_mul_i128, helper_store_u64, helper_sub_i128,
};
pub use crate::fuser::interp::execute_expr_limb_interpreter;
pub use crate::fuser::kernel::{FusedOp, MicroKernel};
pub use crate::fuser::limb_arith::{add_limbs, mul_limbs, sub_limbs};
pub use crate::fuser::plan::{compile_kernel, compile_packed_kernel};
