//! Lowers the mid-level representation of a Rust crate to operations of the
//! `mir` and `llvm` dialects.

use vstd::prelude::*;

pub mod abi;
pub mod addresses;
pub mod aggregate;
pub mod allocator;
pub mod arith;
pub mod bits;
pub mod bitwise;
pub mod builtins;
pub mod call;
pub mod callee;
pub mod cast;
pub mod constant;
pub mod conversions;
pub mod convert;
pub mod copies;
pub mod emit;
pub mod enums;
pub mod error;
pub mod floats;
pub mod flow;
pub mod foreign;
pub mod function;
pub mod globals;
pub mod importer;
pub mod intrinsics;
pub mod ir;
pub mod kernel;
pub mod layout;
pub mod linkage;
pub mod meaning;
pub mod minimal;
pub mod mir;
pub mod mirror;
pub mod module;
pub mod names;
pub mod need;
pub mod numbers;
pub mod operand;
pub mod ox;
pub mod parts;
pub mod passing;
pub mod place;
pub mod prologue;
pub mod provide;
pub mod rvalue;
pub mod sem;
pub mod signature;
pub mod simd;
pub mod statement;
pub mod terminator;
pub mod text;
pub mod thunk;
pub mod trace;
pub mod ty;
pub mod types;
pub mod valid;
pub mod wide;

verus! {

} // verus!
