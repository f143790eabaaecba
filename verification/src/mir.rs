//! A program to import: its functions, constants and memory.
//!
//! The constructs are those of the front end's mid-level representation, with
//! all types known. What an operand, a function item or a constant stands for
//! has been looked up beforehand and stands beside it.

use crate::ty::{TyId, TyTable};
use vstd::prelude::*;

verus! {

/// A binary operation.
#[derive(Clone, Copy, PartialEq, Eq, Debug, Structural)]
pub enum BinOp {
    Add,
    AddUnchecked,
    AddWithOverflow,
    Sub,
    SubUnchecked,
    SubWithOverflow,
    Mul,
    MulUnchecked,
    MulWithOverflow,
    Div,
    Rem,
    BitXor,
    BitAnd,
    BitOr,
    Shl,
    ShlUnchecked,
    Shr,
    ShrUnchecked,
    Eq,
    Lt,
    Le,
    Ne,
    Ge,
    Gt,
    Cmp,
    Offset,
}

/// A unary operation.
#[derive(Clone, Copy, PartialEq, Eq, Debug, Structural)]
pub enum UnOp {
    Neg,
    Not,
    PtrMetadata,
}

/// The casts that are told apart.
#[derive(Clone, Copy, PartialEq, Eq, Debug, Structural)]
pub enum CastKind {
    ReifyFnPointer,
    Transmute,
    Unsize,
    Other,
}

/// A step from a place to another.
pub enum Projection {
    Deref,
    /// A field and its type.
    Field(usize, TyId),
    Downcast(u32),
    /// An element at the index that a local holds.
    Index(usize),
    ConstantIndex { offset: u64, min_length: u64, from_end: bool },
    Subslice { from: u64, to: u64, from_end: bool },
    /// The same place, seen with another type.
    Cast(TyId),
}

/// A place in memory: a local, and the way from it. The type is that of the
/// place.
pub struct Place {
    pub local: usize,
    pub projection: Vec<Projection>,
    pub ty: TyId,
}

/// The value of a constant in one word.
pub enum Scalar {
    /// An integer of a size in bytes.
    Int { bits: u128, size: u8 },
    /// A place in an allocation.
    Ptr { alloc: usize, offset: u64 },
}

/// The value of a constant.
pub enum ConstValue {
    Scalar(Scalar),
    ZeroSized,
    /// A slice of an allocation of a length.
    Slice { alloc: usize, len: u64 },
    /// A value in memory.
    Indirect { alloc: usize, offset: u64 },
}

/// A constant. Where it is a string, its text may be known before or after
/// the constant's generic arguments are.
pub struct Constant {
    pub ty: TyId,
    /// Whether the constant is a string before its generic arguments are
    /// known, and its text then.
    pub is_plain_str: bool,
    pub plain_text: Option<String>,
    pub text: Option<String>,
    /// The constant in print.
    pub printed: String,
    /// The constant in the source, without space around it.
    pub source: Option<String>,
    pub value: Option<ConstValue>,
    /// The bits of a constant that is one scalar.
    pub bits: Option<u128>,
    /// The static that the constant is the address of.
    pub static_item: Option<usize>,
}

/// An operand.
pub enum Operand {
    Copy(Place),
    Move(Place),
    Constant(Constant),
    /// Whether a kind of check is on, as a value of a type.
    RuntimeChecks(bool, TyId),
}

impl Operand {
    /// The type of the operand.
    pub open spec fn ty(self) -> TyId {
        match self {
            Operand::Copy(place) => place.ty,
            Operand::Move(place) => place.ty,
            Operand::Constant(constant) => constant.ty,
            Operand::RuntimeChecks(_, ty) => ty,
        }
    }

    /// The type of the operand.
    pub fn type_of(&self) -> (r: TyId)
        ensures
            r == self.ty(),
    {
        match self {
            Operand::Copy(place) => place.ty,
            Operand::Move(place) => place.ty,
            Operand::Constant(constant) => constant.ty,
            Operand::RuntimeChecks(_, ty) => *ty,
        }
    }
}

/// What an aggregate is.
pub enum AggregateKind {
    /// An array with elements of a type.
    Array(TyId),
    /// A tuple of a type.
    Tuple(TyId),
    /// A nominal type, and which of its variants.
    Adt(TyId, u32),
    Closure(TyId),
    /// A raw pointer: what it points to, and its own type.
    RawPtr(TyId, TyId),
    Other,
}

/// What is assigned.
pub enum Rvalue {
    Use(Operand),
    Ref(Place),
    RawPtr(Place),
    /// The address of a static of the current thread.
    ThreadLocalRef(usize, TyId),
    /// An operation and the type of its result.
    BinaryOp(BinOp, Operand, Operand, TyId),
    Cast(CastKind, Operand, TyId),
    UnaryOp(UnOp, Operand),
    Discriminant(Place),
    Aggregate(AggregateKind, Vec<Operand>),
    /// An array of copies; its length is unknown where it is not constant.
    Repeat(Operand, Option<u64>),
    Other,
}

/// A statement.
pub enum Statement {
    Assign(Place, Rvalue),
    /// A mark of a storage's life, or nothing.
    Nop,
    SetDiscriminant(Place, u32),
    Assume,
    CopyNonOverlapping { src: Operand, dst: Operand, count: Operand },
    Other,
}

/// The end of a block.
#[allow(inconsistent_fields)]
pub enum Terminator {
    Return,
    Goto(usize),
    Unreachable,
    UnwindResume,
    SwitchInt { discr: Operand, cases: Vec<(u128, usize)>, otherwise: usize },
    Call { func: Operand, args: Vec<Operand>, destination: Place, target: Option<usize> },
    Assert(usize),
    Drop { place: Place, target: usize },
    Other,
}

/// A block.
pub struct BlockData {
    pub statements: Vec<Statement>,
    pub terminator: Terminator,
}

/// The body of a function. The first local is the result, and those after it
/// are the arguments.
pub struct Body {
    pub locals: Vec<TyId>,
    pub arg_count: usize,
    /// The argument that is a tuple whose elements are passed on their own.
    pub spread_arg: Option<usize>,
    pub blocks: Vec<BlockData>,
}

/// What an instance is an instance of.
#[derive(Clone, Copy, PartialEq, Eq, Debug, Structural)]
pub enum InstanceKind {
    /// An item: whether it has a body, and whether it is a constructor.
    Item { has_body: bool, is_ctor: bool },
    Intrinsic,
    /// The dropping of a value: whether there is anything to drop.
    DropGlue(bool),
    /// A slot of a table of methods.
    Virtual(u64),
    ClosureOnceShim,
    CloneShim,
    FnPtrShim,
    VTableShim,
    ReifyShim,
    Other,
}

/// The signature of a function.
pub struct Signature {
    pub inputs: Vec<TyId>,
    pub output: TyId,
}

/// A function with all its generic arguments.
pub struct Instance {
    pub kind: InstanceKind,
    /// The mangled name.
    pub mangled: String,
    /// The path of the definition.
    pub path: String,
    /// The name of the definition.
    pub name: String,
    pub args: Vec<TyId>,
    pub signature: Signature,
    pub body: Body,
}

/// A function item, which is a type of its own.
pub struct FnItem {
    pub path: String,
    pub is_local: bool,
    /// Whether the last argument is a tuple that callers take apart.
    pub is_rust_call: bool,
    /// The name that the item is exported under, where it has its own.
    pub export_name: Option<String>,
    /// Whether the item is exported under its plain name, and that name.
    pub no_mangle: bool,
    pub name: String,
    /// What a call of the item calls.
    pub instance: Option<usize>,
    /// What a pointer to the item points to.
    pub pointed: Option<usize>,
}

/// A pointer in an allocation: where it is, and what allocation it points to.
pub struct Pointer {
    pub offset: u64,
    pub target: usize,
}

/// Bytes in memory.
pub struct Memory {
    /// The name of the allocation.
    pub name: String,
    pub bytes: Vec<u8>,
    /// Which of the bytes are initialized.
    pub init: Vec<bool>,
    pub align: u64,
    pub mutable: bool,
    pub pointers: Vec<Pointer>,
}

/// What lies at an address.
pub enum Alloc {
    Memory(Memory),
    Static(usize),
    Function(usize),
    /// The table of a type's methods for a trait, which is an allocation.
    VTable(usize, TyId),
    TypeId(TyId),
}

/// A static.
pub struct Static {
    pub mangled: String,
    pub is_local: bool,
    /// Its value, where it can be computed.
    pub initializer: Option<Memory>,
    pub link_section: Option<String>,
}

/// A method table that a coercion needs: of a type, for a principal trait.
pub struct TableFor {
    pub concrete: TyId,
    pub principal: Option<usize>,
    pub alloc: usize,
}

/// Two types and what they end in after as many fields as they share.
pub struct Tails {
    pub source: TyId,
    pub target: TyId,
    pub source_tail: TyId,
    pub target_tail: TyId,
}

/// A function of the crate itself.
pub struct Owner {
    pub path: String,
    pub is_codegen: bool,
    pub is_generic: bool,
    pub export_name: Option<String>,
    pub no_mangle: bool,
    pub name: String,
    pub mangled: String,
    pub body: Body,
}

/// A program.
pub struct Program {
    pub types: TyTable,
    pub items: Vec<FnItem>,
    pub instances: Vec<Instance>,
    pub allocs: Vec<Alloc>,
    pub statics: Vec<Static>,
    pub tables: Vec<TableFor>,
    pub tails: Vec<Tails>,
    pub owners: Vec<Owner>,
    /// The owner that is the entry point.
    pub entry: Option<usize>,
    /// The symbols of the allocator's functions: to allocate, to free, to
    /// resize, to allocate zeroed, and to do nothing.
    pub allocator: Vec<String>,
    pub is_aarch64_linux: bool,
    /// Whether imported functions stay visible to the linker.
    pub export_all: bool,
}

} // verus!
