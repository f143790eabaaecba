//! Why an import fails.

use crate::mir::BinOp;
use crate::ty::TyId;
use crate::types::TypeHandle;
use crate::need::Purpose;
use vstd::prelude::*;

verus! {

/// The type of a place: one of the program, or a part of an array.
#[derive(Clone, Copy, PartialEq, Eq, Debug, Structural)]
pub enum PlaceTy {
    Ty(TyId),
    Subarray(TyId, u64),
}

/// A construct that cannot be imported.
#[derive(Debug)]
#[allow(inconsistent_fields)]
pub enum Failure {
    /// An integer constant of a type that is no integer.
    NonIntegerConstant,
    /// A checked operation other than addition, subtraction, multiplication.
    OverflowOp(BinOp),
    /// A checked operation on values that are no integers.
    NonIntegerOverflowOp(BinOp),
    /// A checked multiplication of values that are no integers.
    NonIntegerMul,
    /// A checked multiplication at a width that cannot be doubled.
    WideMul { width: u32 },
    /// A bit operation on a value that is no integer.
    NonIntegerBits,
    /// A 128-bit operand where at most 64 bits can be widened.
    WideBits,
    /// A size that does not fit.
    TooLarge,
    /// A struct without a body where its size matters.
    OpaqueSize,
    /// A type without a size.
    UnsizedType(TypeHandle),
    /// A struct without a body as an argument.
    OpaqueArgument,
    /// An aggregate that cannot be passed in parts.
    AggregateArgument(TypeHandle),
    /// A saturating operation on values that are no integers.
    NonIntegerSaturating,
    /// A type that has no counterpart.
    Type(TyId),
    /// A type whose size is not known.
    Layout(TyId),
    /// A type whose alignment is not known.
    Align(TyId),
    /// A type that the front end has no layout for.
    NoLayout(TyId),
    /// An array whose length is not constant.
    ArrayLength(TyId),
    /// A type without fields in order where one is needed.
    NotStructLike(TyId),
    /// A field of an enum without its variant.
    FieldWithoutVariant { ty: TyId, index: usize },
    /// A field that a variant does not have.
    VariantField { ty: TyId, variant: u32, index: usize },
    /// A field that a union does not have.
    UnionField { index: usize, count: usize },
    /// A field that a type does not have.
    Field { index: usize, count: usize },
    /// A field of a type that has none.
    FieldOf(TyId),
    /// A table that does not fit the use made of it.
    Malformed,
    /// The discriminant of a type that is not nominal.
    DiscriminantOf(TyId),
    /// Discriminants that are no integers.
    NonIntegerDiscriminant,
    /// A type that cannot be read piece by piece from its real layout.
    RealLayout(TyId),
    /// A string constant whose text is not known.
    StringConstant,
    /// A constant whose value has no counterpart.
    Constant,
    /// A constant whose value is not known.
    ConstantEvaluation,
    /// A constant of an enum type whose value has no counterpart.
    EnumConstant,
    /// The address of a type's identity.
    TypeIdAddress(TyId),
    /// A method table that is not plain memory.
    TableMemory(TyId),
    /// A division of 128-bit integers by an operation that is none.
    WideDivision(BinOp),
    /// A cast of a 128-bit integer to a float type that is not known.
    WideToFloat,
    /// A cast of a value of an unknown float type to a 128-bit integer.
    FloatToWide,
    /// A function pointer made of a value that is no function item.
    ReifySource(TyId),
    /// A function pointer whose target is not known.
    ReifyTarget(TyId),
    /// A coercion of a trait object to one of another trait.
    Upcast(TyId, TyId),
    /// An aggregate of a kind that has no counterpart.
    AggregateKind,
    /// A raw pointer made of another number of operands than two.
    RawPointerOperands(usize),
    /// A format argument without one of its parts.
    FormatArgument,
    /// A format argument of a kind that is not known.
    FormatVariant,
    /// A field that an aggregate type does not have.
    AggregateField { index: u32, ty: TypeHandle },
    /// A type that is no aggregate where one is filled.
    AggregateType(TypeHandle),
    /// A binary operation that has no counterpart.
    BinaryOp(BinOp),
    /// The complement of a value that is no integer.
    NonIntegerNot,
    /// The second word of a value that is no fat pointer.
    Metadata(TypeHandle),
    /// An assigned value that has no counterpart.
    Rvalue,
    /// A bit operation at a width that has no counterpart.
    BitsWidth(u32),
    /// A vector made of copies of a value that is no byte.
    SplatLane,
    /// A vector of another size than eight bytes.
    VectorSize(u64),
    /// A lane of another size than eight bytes.
    LaneSize(u64),
    /// An intrinsic with another number of arguments than it takes.
    Arity(usize),
    /// An atomic exchange of a value of a size that has no counterpart.
    AtomicSize(u64),
    /// A statement that has no counterpart.
    Statement,
    /// A terminator that has no counterpart.
    Terminator,
    /// A call that never comes back where it must.
    CallTarget,
    /// Text as format arguments, with another number of arguments than one.
    FormatText(usize),
    /// A callee that is neither a function nor a pointer to one.
    Callee,
    /// A receiver that is no trait object.
    DynReceiver(TypeHandle),
    /// A call through a method table without a receiver.
    VirtualReceiver,
    /// A last argument that should be a tuple.
    RustCallTuple(TyId),
    /// A spread argument that should be a tuple.
    SpreadTuple(TyId),
    /// A call of a kernel from code that is no kernel.
    KernelCall,
    /// An entry point that is a kernel.
    KernelEntry,
    /// A local that a body does not have.
    UnknownLocal(usize),
    /// A local without storage where storage is needed.
    MissingSlot(usize),
    /// A block that a body does not have.
    MissingBlock(usize),
    /// A way to a place where only a local can stand.
    PlaceProjection,
    /// What a type that is no pointer points to.
    Deref(PlaceTy),
    /// An element of a type that has none.
    Index(PlaceTy),
    /// A field of a part of an array.
    FieldOfSubslice,
    /// A part of an array beyond its end.
    SubsliceBounds { from: u64, to: u64 },
    /// A part of a type that has none.
    SubsliceBase(PlaceTy),
    /// A failure in a function that was needed: which one, and for what.
    Nested { index: usize, purpose: Purpose, inner: Box<Failure> },
}

} // verus!
