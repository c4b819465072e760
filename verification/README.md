# NumToy

A numerical engine for arrays whose elements may have any width: packed storage,
lazy expressions with derivatives, fused kernels, native code for them, and tiles
that are spread over a network. The library under `src/` is written in Verus, and
its contracts are proved. Two calls are trusted: `blake3::hash`, which makes the
keys of graphs, and `Arc::clone`.

| Module | What it holds |
|---|---|
| `bits`, `limbs`, `bytes`, `text` | numbers as bits, limb strings, bytes and digits |
| `soft_float` | doubles and singles by their bit patterns |
| `types`, `elements`, `hardware` | element types, their codes, and packed streams |
| `ir`, `graph`, `cache`, `calculator` | expressions, their graphs and keys |
| `fuser` | kernels and what they compute; execution over doubles, packed inputs, limbs and shaders |
| `jit` | native code: programs, registers, checks, x86-64 and AArch64 |
| `shape`, `array`, `tensor`, `helper_matmul` | shapes, broadcasting and arrays |
| `network` | tiles, messages and the coordinator |
| `pool`, `mode`, `gpu`, `binding`, `ready` | the worker pool, execution modes, shaders, what bindings need, and tests of arguments |

Three things are asked of the caller, as functions: the floating-point unit, which
works on bit patterns; the printing of constants in shaders; and the running of a
kernel plan or a shader. `app/` answers with the machine's own unit, with Cranelift
and with wgpu, and holds threads, sockets, executable memory and the Python and C
bindings.
