//! A numerical engine for arrays of elements of any width: packed storage, lazy
//! expressions, fused kernels and their native code.

pub mod array;
pub mod binding;
pub mod bits;
pub mod bytes;
pub mod cache;
pub mod calculator;
pub mod elements;
pub mod exact;
pub mod fuser;
pub mod gpu;
pub mod graph;
pub mod hardware;
pub mod helper_matmul;
pub mod ir;
pub mod jit;
pub mod limbs;
pub mod mode;
pub mod network;
pub mod pool;
pub mod ready;
pub mod shader;
pub mod shape;
pub mod slope;
pub mod soft_float;
pub mod tensor;
pub mod text;
pub mod types;
