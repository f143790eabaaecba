# crabbit

A verified importer from rustc's mid-level representation (MIR) to operations
of the `mir` and `llvm` dialects.

`src/` is the library. It takes a program as plain data (`mir::Program`: types,
functions, constants, memory) and builds the operations of two modules, one for
the functions of a crate and what they need, one for its kernels
(`importer::import_crate`). Everything in it is proved with Verus:

- `ir` holds the operations, and `sem` what they mean: each value has a meaning
  in every run, each block the list of its effects.
- `ty`, `layout`, `mirror`, `convert`, `abi` and `passing` say how types lie in
  memory, what they become, and how values of them are passed.
- `place`, `operand`, `constant`, `rvalue`, `cast`, `aggregate`, `enums`,
  `statement`, `call`, `terminator` and `function` lower one construct each; the
  contract of each says what the code that it appends means, or why it appends
  none.
- `arith`, `bits`, `bitwise`, `wide`, `simd`, `floats` and `intrinsics` build
  operations that the dialects do not have out of those that they do.
- `need`, `globals`, `thunk`, `allocator`, `module`, `linkage`, `minimal`,
  `provide`, `trace` and `importer` bring in what imported code refers to, once
  each, visible where it should be, and nothing else, or say which part of it
  failed first.
- `valid` tells whether a program hangs together, which the import requires.

`names` is the one place that relies on something unproved: pliron's
`Legaliser` turns names into identifiers.

`app/` asks a running rustc for the program and puts failures into words.
`tests/` runs the library; `tests/run.rs` also runs what it builds.
