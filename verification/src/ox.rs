//! Constructors for the operations that an import emits.
//!
//! Pointers live in the generic address space. Aggregate values and addresses
//! of symbols belong to the `llvm` dialect, as does arithmetic on pointers.
use crate::ir::{BlockId, Context, Dialect, OpId, OpKind, RegionId, Value};
use crate::sem::{BinKind, MirCastKind, Relation};
use crate::types;
use crate::types::{Signedness, StructBody, TypeHandle, TypeList, GENERIC};
use std::rc::Rc;
use vstd::prelude::*;

verus! {

/// The attribute under which a `mir` function keeps its linkage.
pub fn func_linkage_key() -> (r: String)
    ensures
        r@ == "mir_func_linkage"@,
{
    "mir_func_linkage".to_owned()
}

/// The attribute that marks an offset as counted in bytes.
pub fn byte_ptr_unit_key() -> (r: String)
    ensures
        r@ == "ptr_offset_unit"@,
{
    "ptr_offset_unit".to_owned()
}

/// Pointers of the `mir` dialect.
pub struct PtrType;

impl PtrType {
    /// A pointer in the generic address space.
    pub fn get(elem: TypeHandle, mutable: bool) -> (r: TypeHandle)
        ensures
            r == (TypeHandle::MirPtr { pointee: Rc::new(elem), mutable, address_space: GENERIC }),
    {
        TypeHandle::MirPtr { pointee: Rc::new(elem), mutable, address_space: GENERIC }
    }
}

/// Whether a type is a pointer of either dialect.
pub fn is_ptr_type(ty: &TypeHandle) -> (r: bool)
    ensures
        r == ty.is_ptr(),
{
    matches!(ty, TypeHandle::MirPtr { .. } | TypeHandle::Pointer { .. })
}

/// Whether a value is a pointer of either dialect.
fn is_ptr_value(ctx: &Context, value: Value) -> (r: bool)
    requires
        ctx.wf(),
        ctx.has(value),
    ensures
        r == value.ty().is_ptr(),
{
    is_ptr_type(&ctx.type_of(value))
}

/// The operation that binary arithmetic becomes: that of the `mir` dialect, or
/// its twin of the `llvm` dialect where a pointer takes part.
pub open spec fn binary_kind(kind: BinKind, twin: BinKind, lhs: Value, rhs: Value) -> OpKind {
    if lhs.ty().is_ptr() || rhs.ty().is_ptr() {
        OpKind::Binary { kind: twin, dialect: Dialect::Llvm }
    } else {
        OpKind::Binary { kind, dialect: Dialect::Mir }
    }
}

/// The operation that a comparison becomes.
pub open spec fn compare_kind(relation: Relation, lhs: Value, rhs: Value) -> OpKind {
    if lhs.ty().is_ptr() || rhs.ty().is_ptr() {
        OpKind::Compare { relation, dialect: Dialect::Llvm }
    } else {
        OpKind::Compare { relation, dialect: Dialect::Mir }
    }
}

fn new_binary(ctx: &mut Context, kind: BinKind, twin: BinKind, lhs: Value, rhs: Value) -> (r: OpId)
    requires
        old(ctx).wf(),
        old(ctx).has(lhs),
        old(ctx).has(rhs),
    ensures
        final(ctx).made(
            *old(ctx),
            r,
            binary_kind(kind, twin, lhs, rhs),
            seq![lhs, rhs],
            Some(lhs.ty()),
            seq![],
        ),
        final(ctx).dialects == old(ctx).dialects,
{
    let ty = ctx.type_of(lhs);
    let op_kind = if is_ptr_value(ctx, lhs) || is_ptr_value(ctx, rhs) {
        OpKind::Binary { kind: twin, dialect: Dialect::Llvm }
    } else {
        OpKind::Binary { kind, dialect: Dialect::Mir }
    };
    let operands: Vec<Value> = vec![lhs, rhs];
    assert(operands@ =~= seq![lhs, rhs]);
    let successors: Vec<BlockId> = Vec::new();
    assert(successors@ =~= seq![]);
    ctx.add_op(op_kind, operands, Some(ty), successors)
}

fn new_compare(ctx: &mut Context, relation: Relation, lhs: Value, rhs: Value) -> (r: OpId)
    requires
        old(ctx).wf(),
        old(ctx).has(lhs),
        old(ctx).has(rhs),
    ensures
        final(ctx).made(
            *old(ctx),
            r,
            compare_kind(relation, lhs, rhs),
            seq![lhs, rhs],
            Some(types::signless(1)),
            seq![],
        ),
        final(ctx).dialects == old(ctx).dialects,
{
    let ty = TypeHandle::integer(1, Signedness::Signless);
    let op_kind = if is_ptr_value(ctx, lhs) || is_ptr_value(ctx, rhs) {
        OpKind::Compare { relation, dialect: Dialect::Llvm }
    } else {
        OpKind::Compare { relation, dialect: Dialect::Mir }
    };
    let operands: Vec<Value> = vec![lhs, rhs];
    assert(operands@ =~= seq![lhs, rhs]);
    let successors: Vec<BlockId> = Vec::new();
    assert(successors@ =~= seq![]);
    ctx.add_op(op_kind, operands, Some(ty), successors)
}

/// Addition.
pub struct AddOp {
    pub op: OpId,
}

impl AddOp {
    /// The operation on two values. Where one of them is a pointer, it is the
    /// operation of the `llvm` dialect, which reads addresses as unsigned.
    pub fn new(ctx: &mut Context, lhs: Value, rhs: Value) -> (r: Self)
        requires
            old(ctx).wf(),
            old(ctx).has(lhs),
            old(ctx).has(rhs),
        ensures
            final(ctx).made(
                *old(ctx),
                r.op,
                binary_kind(BinKind::Add, BinKind::Add, lhs, rhs),
                seq![lhs, rhs],
                Some(lhs.ty()),
                seq![],
            ),
            final(ctx).dialects == old(ctx).dialects,
    {
        AddOp { op: new_binary(ctx, BinKind::Add, BinKind::Add, lhs, rhs) }
    }

    /// The operation itself.
    pub fn get_operation(&self) -> (r: OpId)
        ensures
            r == self.op,
    {
        self.op
    }

    /// The value that the operation computes.
    pub fn get_result(&self, ctx: &Context) -> (r: Value)
        requires
            ctx.is_op(self.op),
            ctx.op(self.op).result is Some,
        ensures
            ctx.op(self.op).result == Some(r),
    {
        ctx.result_of(self.op)
    }
}

/// Subtraction.
pub struct SubOp {
    pub op: OpId,
}

impl SubOp {
    /// The operation on two values. Where one of them is a pointer, it is the
    /// operation of the `llvm` dialect, which reads addresses as unsigned.
    pub fn new(ctx: &mut Context, lhs: Value, rhs: Value) -> (r: Self)
        requires
            old(ctx).wf(),
            old(ctx).has(lhs),
            old(ctx).has(rhs),
        ensures
            final(ctx).made(
                *old(ctx),
                r.op,
                binary_kind(BinKind::Sub, BinKind::Sub, lhs, rhs),
                seq![lhs, rhs],
                Some(lhs.ty()),
                seq![],
            ),
            final(ctx).dialects == old(ctx).dialects,
    {
        SubOp { op: new_binary(ctx, BinKind::Sub, BinKind::Sub, lhs, rhs) }
    }

    /// The operation itself.
    pub fn get_operation(&self) -> (r: OpId)
        ensures
            r == self.op,
    {
        self.op
    }

    /// The value that the operation computes.
    pub fn get_result(&self, ctx: &Context) -> (r: Value)
        requires
            ctx.is_op(self.op),
            ctx.op(self.op).result is Some,
        ensures
            ctx.op(self.op).result == Some(r),
    {
        ctx.result_of(self.op)
    }
}

/// Multiplication.
pub struct MulOp {
    pub op: OpId,
}

impl MulOp {
    /// The operation on two values. Where one of them is a pointer, it is the
    /// operation of the `llvm` dialect, which reads addresses as unsigned.
    pub fn new(ctx: &mut Context, lhs: Value, rhs: Value) -> (r: Self)
        requires
            old(ctx).wf(),
            old(ctx).has(lhs),
            old(ctx).has(rhs),
        ensures
            final(ctx).made(
                *old(ctx),
                r.op,
                binary_kind(BinKind::Mul, BinKind::Mul, lhs, rhs),
                seq![lhs, rhs],
                Some(lhs.ty()),
                seq![],
            ),
            final(ctx).dialects == old(ctx).dialects,
    {
        MulOp { op: new_binary(ctx, BinKind::Mul, BinKind::Mul, lhs, rhs) }
    }

    /// The operation itself.
    pub fn get_operation(&self) -> (r: OpId)
        ensures
            r == self.op,
    {
        self.op
    }

    /// The value that the operation computes.
    pub fn get_result(&self, ctx: &Context) -> (r: Value)
        requires
            ctx.is_op(self.op),
            ctx.op(self.op).result is Some,
        ensures
            ctx.op(self.op).result == Some(r),
    {
        ctx.result_of(self.op)
    }
}

/// Division.
pub struct DivOp {
    pub op: OpId,
}

impl DivOp {
    /// The operation on two values. Where one of them is a pointer, it is the
    /// operation of the `llvm` dialect, which reads addresses as unsigned.
    pub fn new(ctx: &mut Context, lhs: Value, rhs: Value) -> (r: Self)
        requires
            old(ctx).wf(),
            old(ctx).has(lhs),
            old(ctx).has(rhs),
        ensures
            final(ctx).made(
                *old(ctx),
                r.op,
                binary_kind(BinKind::Div, BinKind::Div, lhs, rhs),
                seq![lhs, rhs],
                Some(lhs.ty()),
                seq![],
            ),
            final(ctx).dialects == old(ctx).dialects,
    {
        DivOp { op: new_binary(ctx, BinKind::Div, BinKind::Div, lhs, rhs) }
    }

    /// The operation itself.
    pub fn get_operation(&self) -> (r: OpId)
        ensures
            r == self.op,
    {
        self.op
    }

    /// The value that the operation computes.
    pub fn get_result(&self, ctx: &Context) -> (r: Value)
        requires
            ctx.is_op(self.op),
            ctx.op(self.op).result is Some,
        ensures
            ctx.op(self.op).result == Some(r),
    {
        ctx.result_of(self.op)
    }
}

/// The remainder of a division.
pub struct RemOp {
    pub op: OpId,
}

impl RemOp {
    /// The operation on two values. Where one of them is a pointer, it is the
    /// operation of the `llvm` dialect, which reads addresses as unsigned.
    pub fn new(ctx: &mut Context, lhs: Value, rhs: Value) -> (r: Self)
        requires
            old(ctx).wf(),
            old(ctx).has(lhs),
            old(ctx).has(rhs),
        ensures
            final(ctx).made(
                *old(ctx),
                r.op,
                binary_kind(BinKind::Rem, BinKind::Rem, lhs, rhs),
                seq![lhs, rhs],
                Some(lhs.ty()),
                seq![],
            ),
            final(ctx).dialects == old(ctx).dialects,
    {
        RemOp { op: new_binary(ctx, BinKind::Rem, BinKind::Rem, lhs, rhs) }
    }

    /// The operation itself.
    pub fn get_operation(&self) -> (r: OpId)
        ensures
            r == self.op,
    {
        self.op
    }

    /// The value that the operation computes.
    pub fn get_result(&self, ctx: &Context) -> (r: Value)
        requires
            ctx.is_op(self.op),
            ctx.op(self.op).result is Some,
        ensures
            ctx.op(self.op).result == Some(r),
    {
        ctx.result_of(self.op)
    }
}

/// Bitwise and.
pub struct BitAndOp {
    pub op: OpId,
}

impl BitAndOp {
    /// The operation on two values. Where one of them is a pointer, it is the
    /// operation of the `llvm` dialect, which reads addresses as unsigned.
    pub fn new(ctx: &mut Context, lhs: Value, rhs: Value) -> (r: Self)
        requires
            old(ctx).wf(),
            old(ctx).has(lhs),
            old(ctx).has(rhs),
        ensures
            final(ctx).made(
                *old(ctx),
                r.op,
                binary_kind(BinKind::And, BinKind::And, lhs, rhs),
                seq![lhs, rhs],
                Some(lhs.ty()),
                seq![],
            ),
            final(ctx).dialects == old(ctx).dialects,
    {
        BitAndOp { op: new_binary(ctx, BinKind::And, BinKind::And, lhs, rhs) }
    }

    /// The operation itself.
    pub fn get_operation(&self) -> (r: OpId)
        ensures
            r == self.op,
    {
        self.op
    }

    /// The value that the operation computes.
    pub fn get_result(&self, ctx: &Context) -> (r: Value)
        requires
            ctx.is_op(self.op),
            ctx.op(self.op).result is Some,
        ensures
            ctx.op(self.op).result == Some(r),
    {
        ctx.result_of(self.op)
    }
}

/// Bitwise or.
pub struct BitOrOp {
    pub op: OpId,
}

impl BitOrOp {
    /// The operation on two values. Where one of them is a pointer, it is the
    /// operation of the `llvm` dialect, which reads addresses as unsigned.
    pub fn new(ctx: &mut Context, lhs: Value, rhs: Value) -> (r: Self)
        requires
            old(ctx).wf(),
            old(ctx).has(lhs),
            old(ctx).has(rhs),
        ensures
            final(ctx).made(
                *old(ctx),
                r.op,
                binary_kind(BinKind::Or, BinKind::Or, lhs, rhs),
                seq![lhs, rhs],
                Some(lhs.ty()),
                seq![],
            ),
            final(ctx).dialects == old(ctx).dialects,
    {
        BitOrOp { op: new_binary(ctx, BinKind::Or, BinKind::Or, lhs, rhs) }
    }

    /// The operation itself.
    pub fn get_operation(&self) -> (r: OpId)
        ensures
            r == self.op,
    {
        self.op
    }

    /// The value that the operation computes.
    pub fn get_result(&self, ctx: &Context) -> (r: Value)
        requires
            ctx.is_op(self.op),
            ctx.op(self.op).result is Some,
        ensures
            ctx.op(self.op).result == Some(r),
    {
        ctx.result_of(self.op)
    }
}

/// Bitwise exclusive or.
pub struct BitXorOp {
    pub op: OpId,
}

impl BitXorOp {
    /// The operation on two values. Where one of them is a pointer, it is the
    /// operation of the `llvm` dialect, which reads addresses as unsigned.
    pub fn new(ctx: &mut Context, lhs: Value, rhs: Value) -> (r: Self)
        requires
            old(ctx).wf(),
            old(ctx).has(lhs),
            old(ctx).has(rhs),
        ensures
            final(ctx).made(
                *old(ctx),
                r.op,
                binary_kind(BinKind::Xor, BinKind::Xor, lhs, rhs),
                seq![lhs, rhs],
                Some(lhs.ty()),
                seq![],
            ),
            final(ctx).dialects == old(ctx).dialects,
    {
        BitXorOp { op: new_binary(ctx, BinKind::Xor, BinKind::Xor, lhs, rhs) }
    }

    /// The operation itself.
    pub fn get_operation(&self) -> (r: OpId)
        ensures
            r == self.op,
    {
        self.op
    }

    /// The value that the operation computes.
    pub fn get_result(&self, ctx: &Context) -> (r: Value)
        requires
            ctx.is_op(self.op),
            ctx.op(self.op).result is Some,
        ensures
            ctx.op(self.op).result == Some(r),
    {
        ctx.result_of(self.op)
    }
}

/// A left shift.
pub struct ShlOp {
    pub op: OpId,
}

impl ShlOp {
    /// The operation on two values. Where one of them is a pointer, it is the
    /// operation of the `llvm` dialect, which reads addresses as unsigned.
    pub fn new(ctx: &mut Context, lhs: Value, rhs: Value) -> (r: Self)
        requires
            old(ctx).wf(),
            old(ctx).has(lhs),
            old(ctx).has(rhs),
        ensures
            final(ctx).made(
                *old(ctx),
                r.op,
                binary_kind(BinKind::Shl, BinKind::Shl, lhs, rhs),
                seq![lhs, rhs],
                Some(lhs.ty()),
                seq![],
            ),
            final(ctx).dialects == old(ctx).dialects,
    {
        ShlOp { op: new_binary(ctx, BinKind::Shl, BinKind::Shl, lhs, rhs) }
    }

    /// The operation itself.
    pub fn get_operation(&self) -> (r: OpId)
        ensures
            r == self.op,
    {
        self.op
    }

    /// The value that the operation computes.
    pub fn get_result(&self, ctx: &Context) -> (r: Value)
        requires
            ctx.is_op(self.op),
            ctx.op(self.op).result is Some,
        ensures
            ctx.op(self.op).result == Some(r),
    {
        ctx.result_of(self.op)
    }
}

/// A right shift that follows the signedness of its operand.
pub struct SignAwareShrOp {
    pub op: OpId,
}

impl SignAwareShrOp {
    /// The operation on two values. Where one of them is a pointer, it is the
    /// operation of the `llvm` dialect, which reads addresses as unsigned.
    pub fn new(ctx: &mut Context, lhs: Value, rhs: Value) -> (r: Self)
        requires
            old(ctx).wf(),
            old(ctx).has(lhs),
            old(ctx).has(rhs),
        ensures
            final(ctx).made(
                *old(ctx),
                r.op,
                binary_kind(BinKind::Shr, BinKind::LShr, lhs, rhs),
                seq![lhs, rhs],
                Some(lhs.ty()),
                seq![],
            ),
            final(ctx).dialects == old(ctx).dialects,
    {
        SignAwareShrOp { op: new_binary(ctx, BinKind::Shr, BinKind::LShr, lhs, rhs) }
    }

    /// The operation itself.
    pub fn get_operation(&self) -> (r: OpId)
        ensures
            r == self.op,
    {
        self.op
    }

    /// The value that the operation computes.
    pub fn get_result(&self, ctx: &Context) -> (r: Value)
        requires
            ctx.is_op(self.op),
            ctx.op(self.op).result is Some,
        ensures
            ctx.op(self.op).result == Some(r),
    {
        ctx.result_of(self.op)
    }
}

/// Equality.
pub struct EqOp {
    pub op: OpId,
}

impl EqOp {
    /// The comparison of two values. Pointers compare as unsigned addresses.
    pub fn new(ctx: &mut Context, lhs: Value, rhs: Value) -> (r: Self)
        requires
            old(ctx).wf(),
            old(ctx).has(lhs),
            old(ctx).has(rhs),
        ensures
            final(ctx).made(
                *old(ctx),
                r.op,
                compare_kind(Relation::Eq, lhs, rhs),
                seq![lhs, rhs],
                Some(types::signless(1)),
                seq![],
            ),
            final(ctx).dialects == old(ctx).dialects,
    {
        EqOp { op: new_compare(ctx, Relation::Eq, lhs, rhs) }
    }

    /// The operation itself.
    pub fn get_operation(&self) -> (r: OpId)
        ensures
            r == self.op,
    {
        self.op
    }

    /// The value that the operation computes.
    pub fn get_result(&self, ctx: &Context) -> (r: Value)
        requires
            ctx.is_op(self.op),
            ctx.op(self.op).result is Some,
        ensures
            ctx.op(self.op).result == Some(r),
    {
        ctx.result_of(self.op)
    }
}

/// Inequality.
pub struct NeOp {
    pub op: OpId,
}

impl NeOp {
    /// The comparison of two values. Pointers compare as unsigned addresses.
    pub fn new(ctx: &mut Context, lhs: Value, rhs: Value) -> (r: Self)
        requires
            old(ctx).wf(),
            old(ctx).has(lhs),
            old(ctx).has(rhs),
        ensures
            final(ctx).made(
                *old(ctx),
                r.op,
                compare_kind(Relation::Ne, lhs, rhs),
                seq![lhs, rhs],
                Some(types::signless(1)),
                seq![],
            ),
            final(ctx).dialects == old(ctx).dialects,
    {
        NeOp { op: new_compare(ctx, Relation::Ne, lhs, rhs) }
    }

    /// The operation itself.
    pub fn get_operation(&self) -> (r: OpId)
        ensures
            r == self.op,
    {
        self.op
    }

    /// The value that the operation computes.
    pub fn get_result(&self, ctx: &Context) -> (r: Value)
        requires
            ctx.is_op(self.op),
            ctx.op(self.op).result is Some,
        ensures
            ctx.op(self.op).result == Some(r),
    {
        ctx.result_of(self.op)
    }
}

/// Less than.
pub struct LtOp {
    pub op: OpId,
}

impl LtOp {
    /// The comparison of two values. Pointers compare as unsigned addresses.
    pub fn new(ctx: &mut Context, lhs: Value, rhs: Value) -> (r: Self)
        requires
            old(ctx).wf(),
            old(ctx).has(lhs),
            old(ctx).has(rhs),
        ensures
            final(ctx).made(
                *old(ctx),
                r.op,
                compare_kind(Relation::Lt, lhs, rhs),
                seq![lhs, rhs],
                Some(types::signless(1)),
                seq![],
            ),
            final(ctx).dialects == old(ctx).dialects,
    {
        LtOp { op: new_compare(ctx, Relation::Lt, lhs, rhs) }
    }

    /// The operation itself.
    pub fn get_operation(&self) -> (r: OpId)
        ensures
            r == self.op,
    {
        self.op
    }

    /// The value that the operation computes.
    pub fn get_result(&self, ctx: &Context) -> (r: Value)
        requires
            ctx.is_op(self.op),
            ctx.op(self.op).result is Some,
        ensures
            ctx.op(self.op).result == Some(r),
    {
        ctx.result_of(self.op)
    }
}

/// Less than or equal.
pub struct LeOp {
    pub op: OpId,
}

impl LeOp {
    /// The comparison of two values. Pointers compare as unsigned addresses.
    pub fn new(ctx: &mut Context, lhs: Value, rhs: Value) -> (r: Self)
        requires
            old(ctx).wf(),
            old(ctx).has(lhs),
            old(ctx).has(rhs),
        ensures
            final(ctx).made(
                *old(ctx),
                r.op,
                compare_kind(Relation::Le, lhs, rhs),
                seq![lhs, rhs],
                Some(types::signless(1)),
                seq![],
            ),
            final(ctx).dialects == old(ctx).dialects,
    {
        LeOp { op: new_compare(ctx, Relation::Le, lhs, rhs) }
    }

    /// The operation itself.
    pub fn get_operation(&self) -> (r: OpId)
        ensures
            r == self.op,
    {
        self.op
    }

    /// The value that the operation computes.
    pub fn get_result(&self, ctx: &Context) -> (r: Value)
        requires
            ctx.is_op(self.op),
            ctx.op(self.op).result is Some,
        ensures
            ctx.op(self.op).result == Some(r),
    {
        ctx.result_of(self.op)
    }
}

/// Greater than.
pub struct GtOp {
    pub op: OpId,
}

impl GtOp {
    /// The comparison of two values. Pointers compare as unsigned addresses.
    pub fn new(ctx: &mut Context, lhs: Value, rhs: Value) -> (r: Self)
        requires
            old(ctx).wf(),
            old(ctx).has(lhs),
            old(ctx).has(rhs),
        ensures
            final(ctx).made(
                *old(ctx),
                r.op,
                compare_kind(Relation::Gt, lhs, rhs),
                seq![lhs, rhs],
                Some(types::signless(1)),
                seq![],
            ),
            final(ctx).dialects == old(ctx).dialects,
    {
        GtOp { op: new_compare(ctx, Relation::Gt, lhs, rhs) }
    }

    /// The operation itself.
    pub fn get_operation(&self) -> (r: OpId)
        ensures
            r == self.op,
    {
        self.op
    }

    /// The value that the operation computes.
    pub fn get_result(&self, ctx: &Context) -> (r: Value)
        requires
            ctx.is_op(self.op),
            ctx.op(self.op).result is Some,
        ensures
            ctx.op(self.op).result == Some(r),
    {
        ctx.result_of(self.op)
    }
}

/// Greater than or equal.
pub struct GeOp {
    pub op: OpId,
}

impl GeOp {
    /// The comparison of two values. Pointers compare as unsigned addresses.
    pub fn new(ctx: &mut Context, lhs: Value, rhs: Value) -> (r: Self)
        requires
            old(ctx).wf(),
            old(ctx).has(lhs),
            old(ctx).has(rhs),
        ensures
            final(ctx).made(
                *old(ctx),
                r.op,
                compare_kind(Relation::Ge, lhs, rhs),
                seq![lhs, rhs],
                Some(types::signless(1)),
                seq![],
            ),
            final(ctx).dialects == old(ctx).dialects,
    {
        GeOp { op: new_compare(ctx, Relation::Ge, lhs, rhs) }
    }

    /// The operation itself.
    pub fn get_operation(&self) -> (r: OpId)
        ensures
            r == self.op,
    {
        self.op
    }

    /// The value that the operation computes.
    pub fn get_result(&self, ctx: &Context) -> (r: Value)
        requires
            ctx.is_op(self.op),
            ctx.op(self.op).result is Some,
        ensures
            ctx.op(self.op).result == Some(r),
    {
        ctx.result_of(self.op)
    }
}

/// A right shift that fills with zeros.
pub struct ShrOp {
    pub op: OpId,
}

impl ShrOp {
    /// The shift of a value, whatever its signedness.
    pub fn new(ctx: &mut Context, lhs: Value, rhs: Value) -> (r: Self)
        requires
            old(ctx).wf(),
            old(ctx).has(lhs),
            old(ctx).has(rhs),
        ensures
            final(ctx).made(
                *old(ctx),
                r.op,
                final(ctx).op(r.op).kind,
                seq![lhs, rhs],
                Some(lhs.ty()),
                seq![],
            ),
            final(ctx).op(r.op).kind == (OpKind::Binary { kind: BinKind::LShr, dialect: Dialect::Llvm }),
            final(ctx).dialects == old(ctx).dialects,
    {
        let ty = ctx.type_of(lhs);
        let operands: Vec<Value> = vec![lhs, rhs];
        assert(operands@ =~= seq![lhs, rhs]);
        let successors: Vec<BlockId> = Vec::new();
        assert(successors@ =~= seq![]);
        let kind = OpKind::Binary { kind: BinKind::LShr, dialect: Dialect::Llvm };
        ShrOp { op: ctx.add_op(kind, operands, Some(ty), successors) }
    }

    /// The operation itself.
    pub fn get_operation(&self) -> (r: OpId)
        ensures
            r == self.op,
    {
        self.op
    }

    /// The value that the operation computes.
    pub fn get_result(&self, ctx: &Context) -> (r: Value)
        requires
            ctx.is_op(self.op),
            ctx.op(self.op).result is Some,
        ensures
            ctx.op(self.op).result == Some(r),
    {
        ctx.result_of(self.op)
    }
}

/// Negation.
pub struct NegOp {
    pub op: OpId,
}

impl NegOp {
    /// The negation of a value.
    pub fn new(ctx: &mut Context, input: Value) -> (r: Self)
        requires
            old(ctx).wf(),
            old(ctx).has(input),
        ensures
            final(ctx).made(
                *old(ctx),
                r.op,
                final(ctx).op(r.op).kind,
                seq![input],
                Some(input.ty()),
                seq![],
            ),
            final(ctx).op(r.op).kind == OpKind::Neg,
            final(ctx).dialects == old(ctx).dialects,
    {
        let ty = ctx.type_of(input);
        let operands: Vec<Value> = vec![input];
        assert(operands@ =~= seq![input]);
        let successors: Vec<BlockId> = Vec::new();
        assert(successors@ =~= seq![]);
        NegOp { op: ctx.add_op(OpKind::Neg, operands, Some(ty), successors) }
    }

    /// The operation itself.
    pub fn get_operation(&self) -> (r: OpId)
        ensures
            r == self.op,
    {
        self.op
    }

    /// The value that the operation computes.
    pub fn get_result(&self, ctx: &Context) -> (r: Value)
        requires
            ctx.is_op(self.op),
            ctx.op(self.op).result is Some,
        ensures
            ctx.op(self.op).result == Some(r),
    {
        ctx.result_of(self.op)
    }
}

/// A value that is nothing definite.
pub struct UndefOp {
    pub op: OpId,
}

impl UndefOp {
    /// An undefined value of a type.
    pub fn new(ctx: &mut Context, result_ty: TypeHandle) -> (r: Self)
        requires
            old(ctx).wf(),
        ensures
            final(ctx).made(
                *old(ctx),
                r.op,
                final(ctx).op(r.op).kind,
                seq![],
                Some(result_ty),
                seq![],
            ),
            final(ctx).op(r.op).kind == OpKind::Undef,
            final(ctx).dialects == old(ctx).dialects,
    {
        let operands: Vec<Value> = Vec::new();
        assert(operands@ =~= seq![]);
        let successors: Vec<BlockId> = Vec::new();
        assert(successors@ =~= seq![]);
        UndefOp { op: ctx.add_op(OpKind::Undef, operands, Some(result_ty), successors) }
    }

    /// The operation itself.
    pub fn get_operation(&self) -> (r: OpId)
        ensures
            r == self.op,
    {
        self.op
    }

    /// The value that the operation computes.
    pub fn get_result(&self, ctx: &Context) -> (r: Value)
        requires
            ctx.is_op(self.op),
            ctx.op(self.op).result is Some,
        ensures
            ctx.op(self.op).result == Some(r),
    {
        ctx.result_of(self.op)
    }
}

/// The address of a symbol.
pub struct AddressOfOp {
    pub op: OpId,
}

impl AddressOfOp {
    /// The address of a symbol, as an opaque pointer.
    pub fn new(ctx: &mut Context, symbol: String) -> (r: Self)
        requires
            old(ctx).wf(),
        ensures
            final(ctx).made(
                *old(ctx),
                r.op,
                final(ctx).op(r.op).kind,
                seq![],
                Some(types::pointer()),
                seq![],
            ),
            final(ctx).op(r.op).kind == (OpKind::AddressOf { symbol }),
            final(ctx).dialects == old(ctx).dialects,
    {
        let operands: Vec<Value> = Vec::new();
        assert(operands@ =~= seq![]);
        let successors: Vec<BlockId> = Vec::new();
        assert(successors@ =~= seq![]);
        let ty = TypeHandle::Pointer { address_space: 0 };
        let kind = OpKind::AddressOf { symbol };
        AddressOfOp { op: ctx.add_op(kind, operands, Some(ty), successors) }
    }

    /// The operation itself.
    pub fn get_operation(&self) -> (r: OpId)
        ensures
            r == self.op,
    {
        self.op
    }

    /// The value that the operation computes.
    pub fn get_result(&self, ctx: &Context) -> (r: Value)
        requires
            ctx.is_op(self.op),
            ctx.op(self.op).result is Some,
        ensures
            ctx.op(self.op).result == Some(r),
    {
        ctx.result_of(self.op)
    }
}

/// A stack slot.
pub struct AllocaOp {
    pub op: OpId,
}

impl AllocaOp {
    /// A slot for one value of a type; its result is a mutable pointer to it.
    pub fn new(ctx: &mut Context, elem_type: TypeHandle) -> (r: Self)
        requires
            old(ctx).wf(),
        ensures
            final(ctx).made(
                *old(ctx),
                r.op,
                final(ctx).op(r.op).kind,
                seq![],
                Some(TypeHandle::MirPtr {
                    pointee: Rc::new(elem_type),
                    mutable: true,
                    address_space: GENERIC,
                }),
                seq![],
            ),
            final(ctx).op(r.op).kind == (OpKind::Alloca { elem: elem_type }),
            final(ctx).dialects == old(ctx).dialects,
    {
        let operands: Vec<Value> = Vec::new();
        assert(operands@ =~= seq![]);
        let successors: Vec<BlockId> = Vec::new();
        assert(successors@ =~= seq![]);
        let ty = PtrType::get(elem_type.clone(), true);
        let kind = OpKind::Alloca { elem: elem_type };
        AllocaOp { op: ctx.add_op(kind, operands, Some(ty), successors) }
    }

    /// The operation itself.
    pub fn get_operation(&self) -> (r: OpId)
        ensures
            r == self.op,
    {
        self.op
    }

    /// The value that the operation computes.
    pub fn get_result(&self, ctx: &Context) -> (r: Value)
        requires
            ctx.is_op(self.op),
            ctx.op(self.op).result is Some,
        ensures
            ctx.op(self.op).result == Some(r),
    {
        ctx.result_of(self.op)
    }
}

/// A read from memory.
pub struct LoadOp {
    pub op: OpId,
}

impl LoadOp {
    /// The value of a type at an address.
    pub fn new(ctx: &mut Context, addr: Value, result_type: TypeHandle) -> (r: Self)
        requires
            old(ctx).wf(),
            old(ctx).has(addr),
        ensures
            final(ctx).made(
                *old(ctx),
                r.op,
                final(ctx).op(r.op).kind,
                seq![addr],
                Some(result_type),
                seq![],
            ),
            final(ctx).op(r.op).kind == OpKind::Load,
            final(ctx).dialects == old(ctx).dialects,
    {
        let operands: Vec<Value> = vec![addr];
        assert(operands@ =~= seq![addr]);
        let successors: Vec<BlockId> = Vec::new();
        assert(successors@ =~= seq![]);
        LoadOp { op: ctx.add_op(OpKind::Load, operands, Some(result_type), successors) }
    }

    /// The operation itself.
    pub fn get_operation(&self) -> (r: OpId)
        ensures
            r == self.op,
    {
        self.op
    }

    /// The value that the operation computes.
    pub fn get_result(&self, ctx: &Context) -> (r: Value)
        requires
            ctx.is_op(self.op),
            ctx.op(self.op).result is Some,
        ensures
            ctx.op(self.op).result == Some(r),
    {
        ctx.result_of(self.op)
    }
}

/// A write to memory.
pub struct StoreOp {
    pub op: OpId,
}

impl StoreOp {
    /// Writes a value to an address. The operation takes the address first.
    pub fn new(ctx: &mut Context, value: Value, addr: Value) -> (r: Self)
        requires
            old(ctx).wf(),
            old(ctx).has(value),
            old(ctx).has(addr),
        ensures
            final(ctx).made(
                *old(ctx),
                r.op,
                final(ctx).op(r.op).kind,
                seq![addr, value],
                None,
                seq![],
            ),
            final(ctx).op(r.op).kind == OpKind::Store,
            final(ctx).dialects == old(ctx).dialects,
    {
        let operands: Vec<Value> = vec![addr, value];
        assert(operands@ =~= seq![addr, value]);
        let successors: Vec<BlockId> = Vec::new();
        assert(successors@ =~= seq![]);
        StoreOp { op: ctx.add_op(OpKind::Store, operands, None, successors) }
    }

    /// The operation itself.
    pub fn get_operation(&self) -> (r: OpId)
        ensures
            r == self.op,
    {
        self.op
    }
}

/// An address some bytes away from another.
pub struct PtrOffsetOp {
    pub op: OpId,
}

impl PtrOffsetOp {
    /// The address `byte_offset` bytes after `base`.
    pub fn new(ctx: &mut Context, base: Value, byte_offset: Value) -> (r: Self)
        requires
            old(ctx).wf(),
            old(ctx).has(base),
            old(ctx).has(byte_offset),
        ensures
            final(ctx).made(
                *old(ctx),
                r.op,
                final(ctx).op(r.op).kind,
                seq![base, byte_offset],
                Some(types::pointer()),
                seq![],
            ),
            final(ctx).op(r.op).kind == OpKind::ByteOffset,
            final(ctx).dialects == old(ctx).dialects,
    {
        let operands: Vec<Value> = vec![base, byte_offset];
        assert(operands@ =~= seq![base, byte_offset]);
        let successors: Vec<BlockId> = Vec::new();
        assert(successors@ =~= seq![]);
        let ty = TypeHandle::Pointer { address_space: 0 };
        PtrOffsetOp { op: ctx.add_op(OpKind::ByteOffset, operands, Some(ty), successors) }
    }

    /// The operation itself.
    pub fn get_operation(&self) -> (r: OpId)
        ensures
            r == self.op,
    {
        self.op
    }

    /// The value that the operation computes.
    pub fn get_result(&self, ctx: &Context) -> (r: Value)
        requires
            ctx.is_op(self.op),
            ctx.op(self.op).result is Some,
        ensures
            ctx.op(self.op).result == Some(r),
    {
        ctx.result_of(self.op)
    }
}

/// The cast of the `mir` dialect between two types, where there is one.
pub open spec fn cast_kind_of(input: TypeHandle, result: TypeHandle) -> Option<MirCastKind> {
    if input is Integer && result is Integer {
        Some(MirCastKind::IntToInt)
    } else if input is Integer && result.is_float() {
        Some(MirCastKind::IntToFloat)
    } else if input.is_float() && result is Integer {
        Some(MirCastKind::FloatToInt)
    } else if input.is_float() && result.is_float() {
        Some(MirCastKind::FloatToFloat)
    } else if input.is_ptr() && result.is_ptr() {
        Some(MirCastKind::PtrToPtr)
    } else if input.is_ptr() && result is Integer {
        Some(MirCastKind::PointerExposeAddress)
    } else if input is Integer && result.is_ptr() {
        Some(MirCastKind::PointerWithExposedProvenance)
    } else {
        None
    }
}

/// The operation that a cast becomes. A cast that involves an aggregate is a
/// plain reinterpretation of the `llvm` dialect.
pub open spec fn cast_op_kind(input: TypeHandle, result: TypeHandle) -> OpKind {
    match cast_kind_of(input, result) {
        Some(kind) => OpKind::Cast { kind },
        None => OpKind::Bitcast,
    }
}

#[derive(Clone, Copy, PartialEq, Eq, Structural)]
enum TypeClass {
    Int,
    Float,
    Pointer,
    Other,
}

spec fn class_of(ty: TypeHandle) -> TypeClass {
    if ty is Integer {
        TypeClass::Int
    } else if ty.is_float() {
        TypeClass::Float
    } else if ty.is_ptr() {
        TypeClass::Pointer
    } else {
        TypeClass::Other
    }
}

fn classify(ty: &TypeHandle) -> (r: TypeClass)
    ensures
        r == class_of(*ty),
{
    match ty {
        TypeHandle::Integer { .. } => TypeClass::Int,
        TypeHandle::Fp32 | TypeHandle::Fp64 => TypeClass::Float,
        TypeHandle::MirPtr { .. } | TypeHandle::Pointer { .. } => TypeClass::Pointer,
        _ => TypeClass::Other,
    }
}

/// Picks the cast between two types from their shapes.
pub fn cast_kind(input: &TypeHandle, result: &TypeHandle) -> (r: Option<MirCastKind>)
    ensures
        r == cast_kind_of(*input, *result),
{
    match (classify(input), classify(result)) {
        (TypeClass::Int, TypeClass::Int) => Some(MirCastKind::IntToInt),
        (TypeClass::Int, TypeClass::Float) => Some(MirCastKind::IntToFloat),
        (TypeClass::Float, TypeClass::Int) => Some(MirCastKind::FloatToInt),
        (TypeClass::Float, TypeClass::Float) => Some(MirCastKind::FloatToFloat),
        (TypeClass::Pointer, TypeClass::Pointer) => Some(MirCastKind::PtrToPtr),
        (TypeClass::Pointer, TypeClass::Int) => Some(MirCastKind::PointerExposeAddress),
        (TypeClass::Int, TypeClass::Pointer) => Some(MirCastKind::PointerWithExposedProvenance),
        _ => None,
    }
}

/// A cast.
pub struct CastOp {
    pub op: OpId,
}

impl CastOp {
    /// The cast of a value to a type.
    pub fn new(ctx: &mut Context, input: Value, result_type: TypeHandle) -> (r: Self)
        requires
            old(ctx).wf(),
            old(ctx).has(input),
        ensures
            final(ctx).made(
                *old(ctx),
                r.op,
                final(ctx).op(r.op).kind,
                seq![input],
                Some(result_type),
                seq![],
            ),
            final(ctx).op(r.op).kind == cast_op_kind(input.ty(), result_type),
            final(ctx).dialects == old(ctx).dialects,
    {
        let kind = match cast_kind(&ctx.type_of(input), &result_type) {
            Some(kind) => OpKind::Cast { kind },
            None => OpKind::Bitcast,
        };
        let operands: Vec<Value> = vec![input];
        assert(operands@ =~= seq![input]);
        let successors: Vec<BlockId> = Vec::new();
        assert(successors@ =~= seq![]);
        CastOp { op: ctx.add_op(kind, operands, Some(result_type), successors) }
    }

    /// The operation itself.
    pub fn get_operation(&self) -> (r: OpId)
        ensures
            r == self.op,
    {
        self.op
    }

    /// The value that the operation computes.
    pub fn get_result(&self, ctx: &Context) -> (r: Value)
        requires
            ctx.is_op(self.op),
            ctx.op(self.op).result is Some,
        ensures
            ctx.op(self.op).result == Some(r),
    {
        ctx.result_of(self.op)
    }
}

/// The type at the end of a path into an aggregate type.
pub open spec fn type_at(ty: TypeHandle, path: Seq<u32>) -> Option<TypeHandle>
    decreases path.len(),
{
    if path.len() == 0 {
        Some(ty)
    } else {
        match ty {
            TypeHandle::Array { elem, size } if path[0] < size => type_at(*elem, path.skip(1)),
            TypeHandle::Struct { body: StructBody::Fields(list), .. } if path[0]
                < list.seq().len() => type_at(list.seq()[path[0] as int], path.skip(1)),
            _ => None,
        }
    }
}

/// The type at the end of a path into an aggregate type, from a position of
/// the path on.
fn aggregate_type_at(ty: &TypeHandle, path: &Vec<u32>, from: usize) -> (r: Option<TypeHandle>)
    requires
        from <= path@.len(),
    ensures
        r == type_at(*ty, path@.skip(from as int)),
    decreases path@.len() - from,
{
    let ghost rest = path@.skip(from as int);
    if from == path.len() {
        return Some(ty.clone());
    }
    assert(rest[0] == path@[from as int]);
    assert(rest.skip(1) =~= path@.skip(from + 1));
    match ty {
        TypeHandle::Array { elem, size } if (path[from] as u64) < *size => {
            aggregate_type_at(elem, path, from + 1)
        },
        TypeHandle::Struct { body: StructBody::Fields(list), .. } => {
            let fields = list.to_vec();
            if (path[from] as usize) < fields.len() {
                aggregate_type_at(&fields[path[from] as usize], path, from + 1)
            } else {
                None
            }
        },
        _ => None,
    }
}

/// The type at the end of a path into an aggregate type.
pub fn aggregate_field(ty: &TypeHandle, path: &Vec<u32>) -> (r: Option<TypeHandle>)
    ensures
        r == type_at(*ty, path@),
{
    assert(path@.skip(0) =~= path@);
    aggregate_type_at(ty, path, 0)
}

/// A part of an aggregate.
pub struct ExtractValueOp {
    pub op: OpId,
}

impl ExtractValueOp {
    /// The part of an aggregate at the end of a path that leads somewhere.
    pub fn new(ctx: &mut Context, aggregate: Value, indices: Vec<u32>) -> (r: Self)
        requires
            old(ctx).wf(),
            old(ctx).has(aggregate),
            type_at(aggregate.ty(), indices@) is Some,
        ensures
            final(ctx).made(
                *old(ctx),
                r.op,
                final(ctx).op(r.op).kind,
                seq![aggregate],
                type_at(aggregate.ty(), indices@),
                seq![],
            ),
            final(ctx).op(r.op).kind == (OpKind::ExtractValue { indices }),
            final(ctx).dialects == old(ctx).dialects,
    {
        let ty = aggregate_type_at(&ctx.type_of(aggregate), &indices, 0);
        assert(indices@.skip(0) =~= indices@);
        let operands: Vec<Value> = vec![aggregate];
        assert(operands@ =~= seq![aggregate]);
        let successors: Vec<BlockId> = Vec::new();
        assert(successors@ =~= seq![]);
        let kind = OpKind::ExtractValue { indices };
        ExtractValueOp { op: ctx.add_op(kind, operands, ty, successors) }
    }

    /// The operation itself.
    pub fn get_operation(&self) -> (r: OpId)
        ensures
            r == self.op,
    {
        self.op
    }

    /// The value that the operation computes.
    pub fn get_result(&self, ctx: &Context) -> (r: Value)
        requires
            ctx.is_op(self.op),
            ctx.op(self.op).result is Some,
        ensures
            ctx.op(self.op).result == Some(r),
    {
        ctx.result_of(self.op)
    }
}

/// An aggregate with one part replaced.
pub struct InsertValueOp {
    pub op: OpId,
}

impl InsertValueOp {
    /// The aggregate with the value at the end of a path. The operation takes the
    /// aggregate first.
    pub fn new(ctx: &mut Context, value: Value, aggregate: Value, indices: Vec<u32>) -> (r: Self)
        requires
            old(ctx).wf(),
            old(ctx).has(value),
            old(ctx).has(aggregate),
        ensures
            final(ctx).made(
                *old(ctx),
                r.op,
                final(ctx).op(r.op).kind,
                seq![aggregate, value],
                Some(aggregate.ty()),
                seq![],
            ),
            final(ctx).op(r.op).kind == (OpKind::InsertValue { indices }),
            final(ctx).dialects == old(ctx).dialects,
    {
        let ty = ctx.type_of(aggregate);
        let operands: Vec<Value> = vec![aggregate, value];
        assert(operands@ =~= seq![aggregate, value]);
        let successors: Vec<BlockId> = Vec::new();
        assert(successors@ =~= seq![]);
        let kind = OpKind::InsertValue { indices };
        InsertValueOp { op: ctx.add_op(kind, operands, Some(ty), successors) }
    }

    /// The operation itself.
    pub fn get_operation(&self) -> (r: OpId)
        ensures
            r == self.op,
    {
        self.op
    }

    /// The value that the operation computes.
    pub fn get_result(&self, ctx: &Context) -> (r: Value)
        requires
            ctx.is_op(self.op),
            ctx.op(self.op).result is Some,
        ensures
            ctx.op(self.op).result == Some(r),
    {
        ctx.result_of(self.op)
    }
}

/// A return.
pub struct ReturnOp {
    pub op: OpId,
}

impl ReturnOp {
    /// A return with or without a value.
    pub fn new(ctx: &mut Context, retval: Option<Value>) -> (r: Self)
        requires
            old(ctx).wf(),
            retval matches Some(v) ==> old(ctx).has(v),
        ensures
            final(ctx).made(
                *old(ctx),
                r.op,
                final(ctx).op(r.op).kind,
                option_seq(retval),
                None,
                seq![],
            ),
            final(ctx).op(r.op).kind == (OpKind::Return { dialect: Dialect::Mir }),
            final(ctx).dialects == old(ctx).dialects,
    {
        let operands: Vec<Value> = match retval {
            Some(v) => vec![v],
            None => Vec::new(),
        };
        assert(operands@ =~= option_seq(retval));
        let successors: Vec<BlockId> = Vec::new();
        assert(successors@ =~= seq![]);
        let kind = OpKind::Return { dialect: Dialect::Mir };
        ReturnOp { op: ctx.add_op(kind, operands, None, successors) }
    }

    /// The operation itself.
    pub fn get_operation(&self) -> (r: OpId)
        ensures
            r == self.op,
    {
        self.op
    }
}

/// The zero or one items of an option.
pub open spec fn option_seq<T>(item: Option<T>) -> Seq<T> {
    match item {
        Some(item) => seq![item],
        None => Seq::empty(),
    }
}

/// A jump.
pub struct GotoOp {
    pub op: OpId,
}

impl GotoOp {
    /// A jump to a block with the arguments for it.
    pub fn new(ctx: &mut Context, dest: BlockId, dest_operands: Vec<Value>) -> (r: Self)
        requires
            old(ctx).wf(),
            forall|k: int|
                0 <= k < dest_operands@.len() ==> old(ctx).has(#[trigger] dest_operands@[k]),
        ensures
            final(ctx).made(
                *old(ctx),
                r.op,
                final(ctx).op(r.op).kind,
                dest_operands@,
                None,
                seq![dest],
            ),
            final(ctx).op(r.op).kind == OpKind::Goto,
            final(ctx).dialects == old(ctx).dialects,
    {
        let successors: Vec<BlockId> = vec![dest];
        assert(successors@ =~= seq![dest]);
        GotoOp { op: ctx.add_op(OpKind::Goto, dest_operands, None, successors) }
    }

    /// The operation itself.
    pub fn get_operation(&self) -> (r: OpId)
        ensures
            r == self.op,
    {
        self.op
    }
}

/// A branch.
pub struct CondBrOp {
    pub op: OpId,
}

impl CondBrOp {
    /// A branch to the first block where the condition is true, else to the
    /// second. Its operands are the condition and then those of each block.
    pub fn new(
        ctx: &mut Context,
        condition: Value,
        true_dest: BlockId,
        true_operands: Vec<Value>,
        false_dest: BlockId,
        false_operands: Vec<Value>,
    ) -> (r: Self)
        requires
            old(ctx).wf(),
            old(ctx).has(condition),
            forall|k: int|
                0 <= k < true_operands@.len() ==> old(ctx).has(#[trigger] true_operands@[k]),
            forall|k: int|
                0 <= k < false_operands@.len() ==> old(ctx).has(#[trigger] false_operands@[k]),
        ensures
            final(ctx).made(
                *old(ctx),
                r.op,
                final(ctx).op(r.op).kind,
                seq![condition] + true_operands@ + false_operands@,
                None,
                seq![true_dest, false_dest],
            ),
            final(ctx).op(r.op).kind == (OpKind::CondBr {
                true_operands: true_operands@.len() as usize,
                false_operands: false_operands@.len() as usize,
            }),
            final(ctx).dialects == old(ctx).dialects,
    {
        let kind = OpKind::CondBr {
            true_operands: true_operands.len(),
            false_operands: false_operands.len(),
        };
        let ghost taken = true_operands@;
        let ghost other = false_operands@;
        let mut operands: Vec<Value> = vec![condition];
        let mut true_operands = true_operands;
        let mut false_operands = false_operands;
        operands.append(&mut true_operands);
        operands.append(&mut false_operands);
        assert(operands@ =~= seq![condition] + taken + other);
        assert forall|k: int| 0 <= k < operands@.len() implies ctx.has(#[trigger] operands@[k]) by {
            if k == 0 {
            } else if k < 1 + taken.len() {
                assert(operands@[k] == taken[k - 1]);
            } else {
                assert(operands@[k] == other[k - 1 - taken.len()]);
            }
        }
        let successors: Vec<BlockId> = vec![true_dest, false_dest];
        assert(successors@ =~= seq![true_dest, false_dest]);
        CondBrOp { op: ctx.add_op(kind, operands, None, successors) }
    }

    /// The operation itself.
    pub fn get_operation(&self) -> (r: OpId)
        ensures
            r == self.op,
    {
        self.op
    }
}

/// A point that is never reached.
pub struct UnreachableOp {
    pub op: OpId,
}

impl UnreachableOp {
    /// The mark of such a point.
    pub fn new(ctx: &mut Context) -> (r: Self)
        requires
            old(ctx).wf(),
        ensures
            final(ctx).made(
                *old(ctx),
                r.op,
                final(ctx).op(r.op).kind,
                seq![],
                None,
                seq![],
            ),
            final(ctx).op(r.op).kind == OpKind::Unreachable,
            final(ctx).dialects == old(ctx).dialects,
    {
        let operands: Vec<Value> = Vec::new();
        assert(operands@ =~= seq![]);
        let successors: Vec<BlockId> = Vec::new();
        assert(successors@ =~= seq![]);
        UnreachableOp { op: ctx.add_op(OpKind::Unreachable, operands, None, successors) }
    }

    /// The operation itself.
    pub fn get_operation(&self) -> (r: OpId)
        ensures
            r == self.op,
    {
        self.op
    }
}

/// A type as it stands in the signature of an indirect call: pointers of the
/// `mir` dialect are opaque pointers there.
pub open spec fn sanitized(ty: TypeHandle) -> TypeHandle {
    if ty is MirPtr {
        types::pointer()
    } else {
        ty
    }
}

fn sanitize(ty: TypeHandle) -> (r: TypeHandle)
    ensures
        r == sanitized(ty),
{
    if matches!(ty, TypeHandle::MirPtr { .. }) {
        TypeHandle::Pointer { address_space: 0 }
    } else {
        ty
    }
}

/// The signature that an indirect call records.
pub open spec fn indirect_type(args: Seq<Value>, result: Option<TypeHandle>) -> TypeHandle {
    TypeHandle::LlvmFunction {
        result: Rc::new(
            match result {
                Some(ty) => sanitized(ty),
                None => TypeHandle::Void,
            },
        ),
        inputs: Rc::new(TypeList::of(args.map_values(|v: Value| sanitized(v.ty())))),
        variadic: false,
    }
}

/// A call.
pub struct CallOp {
    pub op: OpId,
}

impl CallOp {
    /// A call of a symbol.
    pub fn new_direct(
        ctx: &mut Context,
        callee: String,
        args: Vec<Value>,
        result_type: Option<TypeHandle>,
    ) -> (r: Self)
        requires
            old(ctx).wf(),
            forall|k: int| 0 <= k < args@.len() ==> old(ctx).has(#[trigger] args@[k]),
        ensures
            final(ctx).made(
                *old(ctx),
                r.op,
                final(ctx).op(r.op).kind,
                args@,
                result_type,
                seq![],
            ),
            final(ctx).op(r.op).kind == (OpKind::Call { callee }),
            final(ctx).dialects == old(ctx).dialects,
    {
        let successors: Vec<BlockId> = Vec::new();
        assert(successors@ =~= seq![]);
        let kind = OpKind::Call { callee };
        CallOp { op: ctx.add_op(kind, args, result_type, successors) }
    }

    /// A call through a function pointer. The signature is recorded now, with
    /// opaque pointers.
    pub fn new_indirect(
        ctx: &mut Context,
        callee: Value,
        args: Vec<Value>,
        result_type: Option<TypeHandle>,
    ) -> (r: Self)
        requires
            old(ctx).wf(),
            old(ctx).has(callee),
            forall|k: int| 0 <= k < args@.len() ==> old(ctx).has(#[trigger] args@[k]),
        ensures
            final(ctx).made(
                *old(ctx),
                r.op,
                final(ctx).op(r.op).kind,
                seq![callee] + args@,
                indirect_result(result_type),
                seq![],
            ),
            final(ctx).op(r.op).kind == (OpKind::IndirectCall { ty: indirect_type(args@, result_type) }),
            final(ctx).dialects == old(ctx).dialects,
    {
        let result_ty = match &result_type {
            Some(ty) => sanitize(ty.clone()),
            None => TypeHandle::Void,
        };
        let mut arg_tys: Vec<TypeHandle> = Vec::new();
        let mut i: usize = 0;
        while i < args.len()
            invariant
                i <= args@.len(),
                ctx.wf(),
                forall|k: int| 0 <= k < args@.len() ==> ctx.has(#[trigger] args@[k]),
                arg_tys@ == args@.take(i as int).map_values(|v: Value| sanitized(v.ty())),
            decreases args@.len() - i,
        {
            proof {
                assert(ctx.has(args@[i as int]));
            }
            arg_tys.push(sanitize(ctx.type_of(args[i])));
            i = i + 1;
            assert(arg_tys@ =~= args@.take(i as int).map_values(|v: Value| sanitized(v.ty())));
        }
        assert(args@.take(i as int) =~= args@);
        let ty = TypeHandle::llvm_function(result_ty, &arg_tys);
        let kind = OpKind::IndirectCall { ty };
        let result = match result_type {
            Some(ty) => Some(sanitize(ty)),
            None => None,
        };
        let ghost listed = args@;
        let mut operands: Vec<Value> = vec![callee];
        let mut args = args;
        operands.append(&mut args);
        assert(operands@ =~= seq![callee] + listed);
        assert forall|k: int| 0 <= k < operands@.len() implies ctx.has(#[trigger] operands@[k]) by {
            if k > 0 {
                assert(operands@[k] == listed[k - 1]);
            }
        }
        let successors: Vec<BlockId> = Vec::new();
        assert(successors@ =~= seq![]);
        CallOp { op: ctx.add_op(kind, operands, result, successors) }
    }

    /// The operation itself.
    pub fn get_operation(&self) -> (r: OpId)
        ensures
            r == self.op,
    {
        self.op
    }

    /// The value that the operation computes.
    pub fn get_result(&self, ctx: &Context) -> (r: Value)
        requires
            ctx.is_op(self.op),
            ctx.op(self.op).result is Some,
        ensures
            ctx.op(self.op).result == Some(r),
    {
        ctx.result_of(self.op)
    }
}

/// The type that an indirect call hands back.
pub open spec fn indirect_result(result: Option<TypeHandle>) -> Option<TypeHandle> {
    match result {
        Some(ty) => Some(sanitized(ty)),
        None => None,
    }
}

/// A constant that an operation can hold.
#[allow(inconsistent_fields)]
pub enum ConstantAttr {
    Integer { ty: TypeHandle, bits: u128 },
    F32 { bits: u32 },
    F64 { bits: u64 },
}

impl ConstantAttr {
    /// The operation that holds the constant.
    pub open spec fn kind(self) -> OpKind {
        match self {
            ConstantAttr::Integer { bits, .. } => OpKind::IntConstant { bits },
            ConstantAttr::F32 { bits } => OpKind::F32Constant { bits },
            ConstantAttr::F64 { bits } => OpKind::F64Constant { bits },
        }
    }

    /// The type of the constant.
    pub open spec fn ty(self) -> TypeHandle {
        match self {
            ConstantAttr::Integer { ty, .. } => ty,
            ConstantAttr::F32 { .. } => TypeHandle::Fp32,
            ConstantAttr::F64 { .. } => TypeHandle::Fp64,
        }
    }
}

/// A constant.
pub struct ConstantOp {
    pub op: OpId,
}

impl ConstantOp {
    /// The constant of an attribute.
    pub fn new(ctx: &mut Context, attr: ConstantAttr) -> (r: Self)
        requires
            old(ctx).wf(),
        ensures
            final(ctx).made(
                *old(ctx),
                r.op,
                final(ctx).op(r.op).kind,
                seq![],
                Some(attr.ty()),
                seq![],
            ),
            final(ctx).op(r.op).kind == attr.kind(),
            final(ctx).dialects == old(ctx).dialects,
    {
        let (kind, ty) = match attr {
            ConstantAttr::Integer { ty, bits } => {
                return ConstantOp::new_integer(ctx, ty, bits);
            },
            ConstantAttr::F32 { bits } => (OpKind::F32Constant { bits }, TypeHandle::Fp32),
            ConstantAttr::F64 { bits } => (OpKind::F64Constant { bits }, TypeHandle::Fp64),
        };
        let operands: Vec<Value> = Vec::new();
        assert(operands@ =~= seq![]);
        let successors: Vec<BlockId> = Vec::new();
        assert(successors@ =~= seq![]);
        ConstantOp { op: ctx.add_op(kind, operands, Some(ty), successors) }
    }

    /// The integer constant of a type with the given bits.
    pub fn new_integer(ctx: &mut Context, ty: TypeHandle, bits: u128) -> (r: Self)
        requires
            old(ctx).wf(),
        ensures
            final(ctx).made(
                *old(ctx),
                r.op,
                final(ctx).op(r.op).kind,
                seq![],
                Some(ty),
                seq![],
            ),
            final(ctx).op(r.op).kind == (OpKind::IntConstant { bits }),
            final(ctx).dialects == old(ctx).dialects,
    {
        let operands: Vec<Value> = Vec::new();
        assert(operands@ =~= seq![]);
        let successors: Vec<BlockId> = Vec::new();
        assert(successors@ =~= seq![]);
        let kind = OpKind::IntConstant { bits };
        ConstantOp { op: ctx.add_op(kind, operands, Some(ty), successors) }
    }

    /// The operation itself.
    pub fn get_operation(&self) -> (r: OpId)
        ensures
            r == self.op,
    {
        self.op
    }

    /// The value that the operation computes.
    pub fn get_result(&self, ctx: &Context) -> (r: Value)
        requires
            ctx.is_op(self.op),
            ctx.op(self.op).result is Some,
        ensures
            ctx.op(self.op).result == Some(r),
    {
        ctx.result_of(self.op)
    }
}

/// The argument types of a function type.
pub open spec fn function_inputs(ty: TypeHandle) -> Seq<TypeHandle> {
    match ty {
        TypeHandle::Function { inputs, .. } => inputs.seq(),
        TypeHandle::LlvmFunction { inputs, .. } => inputs.seq(),
        _ => Seq::empty(),
    }
}

/// The argument types of a function type.
pub fn inputs_of(ty: &TypeHandle) -> (r: Vec<TypeHandle>)
    ensures
        r@ == function_inputs(*ty),
{
    match ty {
        TypeHandle::Function { inputs, .. } => inputs.to_vec(),
        TypeHandle::LlvmFunction { inputs, .. } => inputs.to_vec(),
        _ => Vec::new(),
    }
}

/// A function of the `mir` dialect.
pub struct FuncOp {
    pub op: OpId,
    pub region: RegionId,
    pub entry: BlockId,
}

impl FuncOp {
    /// A function with a body of one block, whose arguments are those of the
    /// function. It has no linkage of its own yet.
    pub fn new(ctx: &mut Context, name: String, ty: TypeHandle) -> (r: Self)
        requires
            old(ctx).wf(),
        ensures
            final(ctx).grew(*old(ctx)),
            final(ctx).dialects == old(ctx).dialects,
            r.entry.0 == old(ctx)@.effects.len(),
            r.region.0 == old(ctx)@.regions.len(),
            ({
                let args = final(ctx)@.args.last();
                &&& final(ctx)@ == old(ctx)@.with_block("entry"@, args).with_region(seq![r.entry])
                &&& args.len() == function_inputs(ty).len()
                &&& forall|i: int|
                    0 <= i < args.len() ==> final(ctx).has(#[trigger] args[i]) && args[i].ty()
                        == function_inputs(ty)[i]
            }),
            final(ctx).kinds(r.entry) == Seq::<OpKind>::empty(),
            final(ctx).is_loose(r.op),
            final(ctx).is_op(r.op),
            final(ctx).op(r.op).kind == (OpKind::MirFunc { symbol: name, ty, linkage: None }),
            final(ctx).op(r.op).operands@ == Seq::<Value>::empty(),
            final(ctx).op(r.op).successors@ == Seq::<BlockId>::empty(),
            final(ctx).op(r.op).region == Some(r.region),
            final(ctx).op(r.op).result_ty is None,
    {
        let inputs: Vec<TypeHandle> = inputs_of(&ty);
        let entry: BlockId = ctx.new_block("entry".to_owned(), inputs);
        let body: Vec<BlockId> = vec![entry];
        assert(body@ =~= seq![entry]);
        let region: RegionId = ctx.new_region(body);
        let ghost bare = *ctx;
        let op: OpId = ctx.add_op(
            OpKind::MirFunc { symbol: name, ty, linkage: None },
            Vec::new(),
            None,
            Vec::new(),
        );
        proof {
            ctx.lemma_kept_kinds(bare, entry);
        }
        ctx.set_region(op, region);
        FuncOp { op, region, entry }
    }

    /// The operation itself.
    pub fn get_operation(&self) -> (r: OpId)
        ensures
            r == self.op,
    {
        self.op
    }

    /// The first block of the body.
    pub fn get_entry_block(&self) -> (r: BlockId)
        ensures
            r == self.entry,
    {
        self.entry
    }

    /// The body.
    pub fn get_region(&self) -> (r: RegionId)
        ensures
            r == self.region,
    {
        self.region
    }
}

} // verus!
