//! Backends: one for each machine for which code is made.

use crate::jit::emit::{emit_kernel_x86_64, emittable, CodeEmitter, Target, X86_64Emitter};
use crate::jit::emit_aarch64::{emit_kernel_aarch64, AArch64CodeEmitter};
use crate::jit::ir::NtProgram;
use vstd::prelude::*;

verus! {

/// Makes machine code of programs.
pub trait KernelBackend: Send + Sync {
    /// The code of a program for a machine. There is none for another machine
    /// than its own, nor for a program without instructions.
    spec fn code(&self, prog: NtProgram, target: Target) -> Option<Seq<u8>>;

    /// The name of the machine.
    spec fn label(&self) -> Seq<char>;

    fn emit(&self, prog: &NtProgram, target: Target) -> (r: Option<Vec<u8>>)
        requires
            emittable(*prog),
        ensures
            match r {
                Some(c) => self.code(*prog, target) == Some(c@),
                None => self.code(*prog, target) is None,
            },
    ;

    fn name(&self) -> (r: &'static str)
        ensures
            r@ == self.label(),
    ;
}

/// The backend for x86-64.
#[derive(Clone, Copy, Debug)]
pub struct X86_64Backend;

impl KernelBackend for X86_64Backend {
    open spec fn code(&self, prog: NtProgram, target: Target) -> Option<Seq<u8>> {
        X86_64Emitter::code(prog, target)
    }

    open spec fn label(&self) -> Seq<char> {
        "x86_64"@
    }

    fn emit(&self, prog: &NtProgram, target: Target) -> (r: Option<Vec<u8>>) {
        emit_kernel_x86_64(prog, target)
    }

    fn name(&self) -> (r: &'static str) {
        "x86_64"
    }
}

/// The backend for AArch64.
#[derive(Clone, Copy, Debug)]
pub struct AArch64Backend;

impl KernelBackend for AArch64Backend {
    open spec fn code(&self, prog: NtProgram, target: Target) -> Option<Seq<u8>> {
        AArch64CodeEmitter::code(prog, target)
    }

    open spec fn label(&self) -> Seq<char> {
        "aarch64"@
    }

    fn emit(&self, prog: &NtProgram, target: Target) -> (r: Option<Vec<u8>>) {
        emit_kernel_aarch64(prog, target)
    }

    fn name(&self) -> (r: &'static str) {
        "aarch64"
    }
}

/// The backend for one of the machines.
#[derive(Clone, Copy, Debug)]
pub enum NativeBackend {
    X86_64(X86_64Backend),
    AArch64(AArch64Backend),
}

impl KernelBackend for NativeBackend {
    open spec fn code(&self, prog: NtProgram, target: Target) -> Option<Seq<u8>> {
        match *self {
            NativeBackend::X86_64(b) => b.code(prog, target),
            NativeBackend::AArch64(b) => b.code(prog, target),
        }
    }

    open spec fn label(&self) -> Seq<char> {
        match *self {
            NativeBackend::X86_64(b) => b.label(),
            NativeBackend::AArch64(b) => b.label(),
        }
    }

    fn emit(&self, prog: &NtProgram, target: Target) -> (r: Option<Vec<u8>>) {
        match self {
            NativeBackend::X86_64(b) => b.emit(prog, target),
            NativeBackend::AArch64(b) => b.emit(prog, target),
        }
    }

    fn name(&self) -> (r: &'static str) {
        match self {
            NativeBackend::X86_64(b) => b.name(),
            NativeBackend::AArch64(b) => b.name(),
        }
    }
}

/// The backend for a machine that has one.
pub fn native_backend(target: Target) -> (r: NativeBackend)
    requires
        !(target is Other),
    ensures
        target is X86_64 ==> r is X86_64,
        target is AArch64 ==> r is AArch64,
{
    match target {
        Target::X86_64 { .. } => NativeBackend::X86_64(X86_64Backend),
        _ => NativeBackend::AArch64(AArch64Backend),
    }
}

} // verus!
