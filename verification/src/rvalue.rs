//! Assigned values.

use crate::aggregate;
use crate::aggregate::import_aggregate;
use crate::arith;
use crate::arith::{bool_storage_ty, is_128_bit_integer_value, low_mask, lower_overflow_binary};
use crate::cast;
use crate::cast::{import_cast, spill};
use crate::convert;
use crate::convert::{convert_immediate_ty, convert_ty};
use crate::enums;
use crate::enums::read_enum_discriminant;
use crate::error::{Failure, PlaceTy};
use crate::ir::{BlockId, Context, Meaning, Value};
use crate::layout;
use crate::layout::layout_size_of_ty;
use crate::meaning;
use crate::meaning::{
    put_address_of, put_arith, put_as_type, put_compare, put_constant, put_field, put_load, put_neg,
    put_offset, put_undef, put_with_field, scale_index, Arith,
};
use crate::mir::{BinOp, Place, Program, Rvalue, UnOp};
use crate::need;
use crate::need::{static_symbol_of, Asked, Demand, Lost, Lowered, Need, Needs};
use crate::operand;
use crate::operand::{address_of_place, import_operand, import_pair, Scene, Site};
use crate::place;
use crate::place::pointee_ty;
use crate::sem;
use crate::sem::{Env, Moment, Relation};
use crate::ty::{TyId, TyTable};
use crate::types;
use crate::types::TypeHandle;
use crate::wide;
use crate::wide::lower_i128_divrem;
use vstd::prelude::*;

verus! {

/// Whether checked arithmetic is defined on two types: they are one integer
/// type, of a width that a pattern can hold.
pub open spec fn is_checkable(a: TypeHandle, b: TypeHandle) -> bool {
    a is Integer && a == b && sem::held_width(a->width)
}

/// The result of checked arithmetic: the wrapped value, and whether it differs
/// from the true one.
pub open spec fn checked_pair(op: BinOp, lhs: Meaning, rhs: Meaning) -> Result<Meaning, Failure> {
    if !(lhs.ty is Integer) {
        Err(Failure::NonIntegerOverflowOp(op))
    } else if !is_checkable(lhs.ty, rhs.ty) {
        Err(Failure::Malformed)
    } else if op == BinOp::MulWithOverflow && !arith::mul_width(lhs.ty->width) {
        Err(Failure::WideMul { width: lhs.ty->width })
    } else {
        Ok(
            Meaning {
                ty: types::pair_of(lhs.ty, types::signless(8)),
                den: |env: Env|
                    arith::checked(
                        op,
                        lhs.ty->width,
                        lhs.ty->signedness,
                        lhs.bits(env),
                        rhs.bits(env),
                    ),
            },
        )
    }
}

fn put_checked(ctx: &mut Context, block: BlockId, op: BinOp, lhs: Value, rhs: Value) -> (r: Result<
    Value,
    Failure,
>)
    requires
        old(ctx).wf(),
        old(ctx).has_block(block),
        old(ctx).has(lhs),
        old(ctx).has(rhs),
        arith::is_checked_op(op),
    ensures
        final(ctx).computed_since(*old(ctx), block),
        place::gives(*final(ctx), r, checked_pair(op, lhs.meaning@, rhs.meaning@)),
{
    let ty: TypeHandle = ctx.type_of(lhs);
    let width: u32 = match ty.as_integer() {
        Some((width, _)) => width,
        None => return Err(Failure::NonIntegerOverflowOp(op)),
    };
    if width == 0 || width > 128 || !ctx.type_of(rhs).same(&ty) {
        return Err(Failure::Malformed);
    }
    let r: Result<Value, Failure> = lower_overflow_binary(ctx, block, op, lhs, rhs);
    proof {
        if let Ok(v) = r {
            let want = checked_pair(op, lhs.meaning@, rhs.meaning@)->Ok_0;
            assert forall|env: Env| #[trigger] v.den(env) == (want.den)(env) by {
                assert(lhs.bits(env) == lhs.meaning@.bits(env));
                assert(rhs.bits(env) == rhs.meaning@.bits(env));
            }
            meaning::lemma_means(v, want);
        }
    }
    r
}

/// The byte that tells how two values relate: whether the first is greater,
/// less whether it is less.
pub open spec fn order_tag(lhs: Meaning, rhs: Meaning) -> Meaning {
    let byte = types::signless(8);
    meaning::computed(
        Arith::Sub,
        meaning::as_type(meaning::compared(Relation::Gt, lhs, rhs), byte),
        meaning::as_type(meaning::compared(Relation::Lt, lhs, rhs), byte),
    )
}

/// The sign of a difference.
pub open spec fn order(a: int, b: int) -> int {
    if a < b {
        -1
    } else if a == b {
        0
    } else {
        1
    }
}

/// The tag of two integers is the sign of their difference: the tag of the
/// variant of the standard library's ordering that relates them.
pub proof fn law_order_tag(lhs: Meaning, rhs: Meaning, env: Env)
    requires
        lhs.ty is Integer,
        !rhs.ty.is_ptr(),
    ensures
        order_tag(lhs, rhs).bits(env) == sem::wrap(
            8,
            order(sem::int_value(lhs.ty, (lhs.den)(env)), sem::int_value(lhs.ty, (rhs.den)(env))),
        ),
{
}

/// A three-way comparison: the tag, seen as an enum through memory.
pub open spec fn three_way(table: TyTable, at: Moment, ty: TyId, lhs: Meaning, rhs: Meaning) -> Result<
    Lowered,
    Failure,
> {
    match convert::converted(table, ty) {
        Err(failure) => Err(failure),
        Ok(blob) => Ok(
            Lowered {
                value: meaning::loaded(
                    meaning::later(at, 2),
                    meaning::slot_at(at, blob),
                    blob,
                ),
                needs: Seq::empty(),
                steps: cast::spilled(at, blob, order_tag(lhs, rhs)),
            },
        ),
    }
}

/// Compares two values three ways.
pub fn lower_three_way_cmp(
    table: &TyTable,
    ctx: &mut Context,
    block: BlockId,
    needs: &mut Needs,
    ordering_ty: TyId,
    lhs: Value,
    rhs: Value,
) -> (r: Result<Value, Failure>)
    requires
        table.wf(),
        table.has(ordering_ty),
        old(ctx).wf(),
        old(ctx).has_block(block),
        old(ctx).has(lhs),
        old(ctx).has(rhs),
    ensures
        need::lowers(
            (*final(ctx), final(needs)@),
            (*old(ctx), old(needs)@),
            block,
            r,
            three_way(
                *table,
                old(ctx)@.now(block),
                ordering_ty,
                lhs.meaning@,
                rhs.meaning@,
            ),
        ),
{
    let ghost before = *ctx;
    let gt: Value = put_compare(ctx, block, Relation::Gt, lhs, rhs);
    let lt: Value = put_compare(ctx, block, Relation::Lt, lhs, rhs);
    let byte_ty: TypeHandle = bool_storage_ty();
    let above: Value = put_as_type(ctx, block, gt, &byte_ty);
    let below: Value = put_as_type(ctx, block, lt, &byte_ty);
    let tag: Value = put_arith(ctx, block, Arith::Sub, above, below);
    let blob: TypeHandle = convert_ty(table, ordering_ty)?;
    let ghost tagged = *ctx;
    let slot: Value = spill(ctx, block, &blob, tag);
    let ghost stored = *ctx;
    let r: Value = put_load(ctx, block, slot, &blob);
    proof {
        let steps = cast::spilled(before@.now(block), blob, tag.meaning@);
        stored.lemma_computed_ran(tagged, before, block, steps);
        ctx.lemma_ran_computed(stored, before, block, steps);
        assert(needs@ =~= old(needs)@ + Seq::<Asked>::empty());
    }
    Ok(r)
}

/// The arithmetic that an operation is.
pub open spec fn arith_of(op: BinOp) -> Option<Arith> {
    match op {
        BinOp::Add => Some(Arith::Add),
        BinOp::AddUnchecked => Some(Arith::Add),
        BinOp::Sub => Some(Arith::Sub),
        BinOp::SubUnchecked => Some(Arith::Sub),
        BinOp::Mul => Some(Arith::Mul),
        BinOp::MulUnchecked => Some(Arith::Mul),
        BinOp::Shr => Some(Arith::Shr),
        BinOp::ShrUnchecked => Some(Arith::Shr),
        BinOp::Shl => Some(Arith::Shl),
        BinOp::ShlUnchecked => Some(Arith::Shl),
        BinOp::Div => Some(Arith::Div),
        BinOp::Rem => Some(Arith::Rem),
        BinOp::BitAnd => Some(Arith::And),
        BinOp::BitOr => Some(Arith::Or),
        BinOp::BitXor => Some(Arith::Xor),
        _ => None,
    }
}

fn as_arith(op: BinOp) -> (r: Option<Arith>)
    ensures
        r == arith_of(op),
{
    match op {
        BinOp::Add | BinOp::AddUnchecked => Some(Arith::Add),
        BinOp::Sub | BinOp::SubUnchecked => Some(Arith::Sub),
        BinOp::Mul | BinOp::MulUnchecked => Some(Arith::Mul),
        BinOp::Shr | BinOp::ShrUnchecked => Some(Arith::Shr),
        BinOp::Shl | BinOp::ShlUnchecked => Some(Arith::Shl),
        BinOp::Div => Some(Arith::Div),
        BinOp::Rem => Some(Arith::Rem),
        BinOp::BitAnd => Some(Arith::And),
        BinOp::BitOr => Some(Arith::Or),
        BinOp::BitXor => Some(Arith::Xor),
        _ => None,
    }
}

/// The comparison that an operation is.
pub open spec fn relation_of(op: BinOp) -> Option<Relation> {
    match op {
        BinOp::Eq => Some(Relation::Eq),
        BinOp::Ne => Some(Relation::Ne),
        BinOp::Lt => Some(Relation::Lt),
        BinOp::Le => Some(Relation::Le),
        BinOp::Gt => Some(Relation::Gt),
        BinOp::Ge => Some(Relation::Ge),
        _ => None,
    }
}

fn as_relation(op: BinOp) -> (r: Option<Relation>)
    ensures
        r == relation_of(op),
{
    match op {
        BinOp::Eq => Some(Relation::Eq),
        BinOp::Ne => Some(Relation::Ne),
        BinOp::Lt => Some(Relation::Lt),
        BinOp::Le => Some(Relation::Le),
        BinOp::Gt => Some(Relation::Gt),
        BinOp::Ge => Some(Relation::Ge),
        _ => None,
    }
}

/// An address some elements after another.
pub open spec fn offset_address(table: TyTable, ty: TyId, lhs: Meaning, rhs: Meaning) -> Result<
    Meaning,
    Failure,
> {
    match place::pointee(table, PlaceTy::Ty(ty)) {
        Err(failure) => Err(failure),
        Ok(elem) => match layout::size_of(table, elem) {
            Err(failure) => Err(failure),
            Ok(size) => match meaning::scale(rhs, size) {
                Err(failure) => Err(failure),
                Ok(bytes) => Ok(meaning::moved(lhs, bytes)),
            },
        },
    }
}

fn put_offset_address(
    table: &TyTable,
    ctx: &mut Context,
    block: BlockId,
    ty: TyId,
    lhs: Value,
    rhs: Value,
) -> (r: Result<Value, Failure>)
    requires
        table.wf(),
        table.has(ty),
        old(ctx).wf(),
        old(ctx).has_block(block),
        old(ctx).has(lhs),
        old(ctx).has(rhs),
    ensures
        final(ctx).computed_since(*old(ctx), block),
        place::gives(
            *final(ctx),
            r,
            offset_address(*table, ty, lhs.meaning@, rhs.meaning@),
        ),
{
    let elem: TyId = pointee_ty(table, PlaceTy::Ty(ty))?;
    let size: u64 = layout_size_of_ty(table, elem)?;
    let bytes: Value = scale_index(ctx, block, rhs, size)?;
    Ok(put_offset(ctx, block, lhs, bytes))
}

/// Whether an operation divides 128-bit integers.
pub open spec fn is_wide_division(op: BinOp, ty: TypeHandle) -> bool {
    (op == BinOp::Div || op == BinOp::Rem) && ty is Integer && ty->width == 128
}

/// A binary operation on values that are only computed.
pub open spec fn plain_binary(table: TyTable, op: BinOp, lhs_ty: TyId, lhs: Meaning, rhs: Meaning) -> Result<
    Meaning,
    Failure,
> {
    if op == BinOp::Offset {
        offset_address(table, lhs_ty, lhs, rhs)
    } else if arith::is_checked_op(op) {
        checked_pair(op, lhs, rhs)
    } else {
        match arith_of(op) {
            Some(kind) => Ok(meaning::computed(kind, lhs, rhs)),
            None => match relation_of(op) {
                Some(relation) => Ok(meaning::compared(relation, lhs, rhs)),
                None => Err(Failure::BinaryOp(op)),
            },
        }
    }
}

/// A binary operation.
pub open spec fn binary(
    table: TyTable,
    at: Moment,
    op: BinOp,
    lhs_ty: TyId,
    result: TyId,
    lhs: Meaning,
    rhs: Meaning,
) -> Result<Lowered, Failure> {
    if op == BinOp::Cmp {
        three_way(table, at, result, lhs, rhs)
    } else if is_wide_division(op, lhs.ty) {
        wide::divided(at, op, lhs, rhs)
    } else {
        need::only(plain_binary(table, op, lhs_ty, lhs, rhs))
    }
}

fn put_plain_binary(
    table: &TyTable,
    ctx: &mut Context,
    block: BlockId,
    op: BinOp,
    lhs_ty: TyId,
    lhs: Value,
    rhs: Value,
) -> (r: Result<Value, Failure>)
    requires
        table.wf(),
        table.has(lhs_ty),
        old(ctx).wf(),
        old(ctx).has_block(block),
        old(ctx).has(lhs),
        old(ctx).has(rhs),
    ensures
        final(ctx).computed_since(*old(ctx), block),
        place::gives(
            *final(ctx),
            r,
            plain_binary(*table, op, lhs_ty, lhs.meaning@, rhs.meaning@),
        ),
{
    match op {
        BinOp::Offset => put_offset_address(table, ctx, block, lhs_ty, lhs, rhs),
        BinOp::AddWithOverflow | BinOp::SubWithOverflow | BinOp::MulWithOverflow => put_checked(
            ctx,
            block,
            op,
            lhs,
            rhs,
        ),
        _ => {
            if let Some(kind) = as_arith(op) {
                return Ok(put_arith(ctx, block, kind, lhs, rhs));
            }
            match as_relation(op) {
                Some(relation) => Ok(put_compare(ctx, block, relation, lhs, rhs)),
                None => Err(Failure::BinaryOp(op)),
            }
        },
    }
}

/// Applies a binary operation.
pub fn import_binary(
    table: &TyTable,
    ctx: &mut Context,
    block: BlockId,
    needs: &mut Needs,
    op: BinOp,
    lhs_ty: TyId,
    result: TyId,
    lhs: Value,
    rhs: Value,
) -> (r: Result<Value, Failure>)
    requires
        table.wf(),
        table.has(lhs_ty),
        table.has(result),
        old(ctx).wf(),
        old(ctx).has_block(block),
        old(ctx).has(lhs),
        old(ctx).has(rhs),
    ensures
        need::lowers(
            (*final(ctx), final(needs)@),
            (*old(ctx), old(needs)@),
            block,
            r,
            binary(
                *table,
                old(ctx)@.now(block),
                op,
                lhs_ty,
                result,
                lhs.meaning@,
                rhs.meaning@,
            ),
        ),
{
    let ghost before = *ctx;
    if let BinOp::Cmp = op {
        return lower_three_way_cmp(table, ctx, block, needs, result, lhs, rhs);
    }
    let divides: bool = match op {
        BinOp::Div | BinOp::Rem => true,
        _ => false,
    };
    if divides && is_128_bit_integer_value(ctx, lhs) {
        return lower_i128_divrem(ctx, block, needs, op, lhs, rhs);
    }
    let r: Result<Value, Failure> = put_plain_binary(table, ctx, block, op, lhs_ty, lhs, rhs);
    proof {
        ctx.lemma_computed(before, block);
        assert(needs@ =~= old(needs)@ + Seq::<Asked>::empty());
    }
    r
}

/// The complement of an integer; of a truth value, the other one.
pub open spec fn complement(value: Meaning) -> Result<Meaning, Failure> {
    if !(value.ty is Integer) {
        Err(Failure::NonIntegerNot)
    } else if value.ty->width == 1 {
        Ok(meaning::compared(Relation::Eq, value, meaning::constant(value.ty, 0)))
    } else if !sem::held_width(value.ty->width) {
        Err(Failure::Malformed)
    } else {
        Ok(
            meaning::computed(
                Arith::Xor,
                value,
                meaning::constant(value.ty, (sem::modulus(value.ty->width) - 1) as u128),
            ),
        )
    }
}

fn put_complement(ctx: &mut Context, block: BlockId, value: Value) -> (r: Result<Value, Failure>)
    requires
        old(ctx).wf(),
        old(ctx).has_block(block),
        old(ctx).has(value),
    ensures
        final(ctx).computed_since(*old(ctx), block),
        place::gives(*final(ctx), r, complement(value.meaning@)),
{
    let ty: TypeHandle = ctx.type_of(value);
    let width: u32 = match ty.as_integer() {
        Some((width, _)) => width,
        None => return Err(Failure::NonIntegerNot),
    };
    if width == 1 {
        let zero: Value = put_constant(ctx, block, &ty, 0);
        return Ok(put_compare(ctx, block, Relation::Eq, value, zero));
    }
    if width == 0 || width > 128 {
        return Err(Failure::Malformed);
    }
    let ones: Value = put_constant(ctx, block, &ty, low_mask(width));
    Ok(put_arith(ctx, block, Arith::Xor, value, ones))
}

/// The second word of a fat pointer.
pub open spec fn second_word(value: Meaning) -> Result<Meaning, Failure> {
    match value.ty.fields() {
        Some(fields) => if fields.len() >= 2 && meaning::has_field(value, 1) {
            Ok(meaning::field(value, 1))
        } else {
            Err(Failure::Metadata(value.ty))
        },
        None => Err(Failure::Metadata(value.ty)),
    }
}

fn put_second_word(ctx: &mut Context, block: BlockId, value: Value) -> (r: Result<Value, Failure>)
    requires
        old(ctx).wf(),
        old(ctx).has_block(block),
        old(ctx).has(value),
    ensures
        final(ctx).computed_since(*old(ctx), block),
        place::gives(*final(ctx), r, second_word(value.meaning@)),
{
    let ty: TypeHandle = ctx.type_of(value);
    match ty.struct_fields() {
        Some(fields) => {
            if fields.len() >= 2 && meaning::value_has_field(ctx, value, 1) {
                Ok(put_field(ctx, block, value, 1))
            } else {
                Err(Failure::Metadata(ty))
            }
        },
        None => Err(Failure::Metadata(ty)),
    }
}

/// A unary operation.
pub open spec fn unary(op: UnOp, value: Meaning) -> Result<Meaning, Failure> {
    match op {
        UnOp::Neg => Ok(meaning::negated(value)),
        UnOp::Not => complement(value),
        UnOp::PtrMetadata => second_word(value),
    }
}

fn put_unary(ctx: &mut Context, block: BlockId, op: UnOp, value: Value) -> (r: Result<
    Value,
    Failure,
>)
    requires
        old(ctx).wf(),
        old(ctx).has_block(block),
        old(ctx).has(value),
    ensures
        final(ctx).computed_since(*old(ctx), block),
        place::gives(*final(ctx), r, unary(op, value.meaning@)),
{
    match op {
        UnOp::Neg => Ok(put_neg(ctx, block, value)),
        UnOp::Not => put_complement(ctx, block, value),
        UnOp::PtrMetadata => put_second_word(ctx, block, value),
    }
}

/// The discriminant of what a place holds; zero for what is no enum.
pub open spec fn discriminant(scene: Scene, at: Moment, place: Place) -> Result<Meaning, Failure> {
    let table = scene.program.types;
    if table.is_enum(place.ty) {
        match scene.address(at, place) {
            Err(failure) => Err(failure),
            Ok(addr) => enums::discriminant_at(table, place.ty, at, addr),
        }
    } else {
        match convert::converted(table, table.info(place.ty).discriminant) {
            Err(failure) => Err(failure),
            Ok(ty) => if ty is Integer {
                Ok(meaning::constant(ty, 0))
            } else {
                Err(Failure::NonIntegerConstant)
            },
        }
    }
}

fn import_discriminant(site: &Site, ctx: &mut Context, block: BlockId, place: &Place) -> (r: Result<
    Value,
    Failure,
>)
    requires
        site.ready(*old(ctx), block),
        place::place_wf(site.program.types, *place),
    ensures
        final(ctx).computed_since(*old(ctx), block),
        place::gives(
            *final(ctx),
            r,
            discriminant(site.scene(), old(ctx)@.now(block), *place),
        ),
{
    let table: &TyTable = &site.program.types;
    if !table.is_enum_ty(place.ty) {
        proof {
            assert(table.ty_wf(place.ty));
        }
        let ty: TypeHandle = convert_ty(table, table.types[place.ty.0].discriminant)?;
        return match &ty {
            TypeHandle::Integer { .. } => Ok(put_constant(ctx, block, &ty, 0)),
            _ => Err(Failure::NonIntegerConstant),
        };
    }
    let addr: Value = address_of_place(site, ctx, block, place)?;
    read_enum_discriminant(table, ctx, block, place.ty, addr)
}

/// An array with its first elements set to one value.
pub open spec fn repeated(ty: TypeHandle, value: Meaning, count: nat) -> Meaning
    decreases count,
{
    if count == 0 {
        meaning::undefined(ty)
    } else {
        meaning::with_field(repeated(ty, value, (count - 1) as nat), (count - 1) as u32, value)
    }
}

/// An array of copies.
pub open spec fn repeat(table: TyTable, ty: TyId, value: Meaning, len: Option<u64>) -> Result<
    Meaning,
    Failure,
> {
    match convert::converted(table, ty) {
        Err(failure) => Err(failure),
        Ok(elem) => match len {
            None => Err(Failure::ArrayLength(ty)),
            Some(len) => if len > 0x1_0000_0000 {
                Err(Failure::TooLarge)
            } else {
                Ok(
                    repeated(
                        types::array_of(elem, len),
                        meaning::as_type(value, elem),
                        len as nat,
                    ),
                )
            },
        },
    }
}

fn put_repeat(
    table: &TyTable,
    ctx: &mut Context,
    block: BlockId,
    ty: TyId,
    value: Value,
    len: Option<u64>,
) -> (r: Result<Value, Failure>)
    requires
        table.wf(),
        table.has(ty),
        old(ctx).wf(),
        old(ctx).has_block(block),
        old(ctx).has(value),
    ensures
        final(ctx).computed_since(*old(ctx), block),
        place::gives(*final(ctx), r, repeat(*table, ty, value.meaning@, len)),
{
    let ghost before = *ctx;
    let elem: TypeHandle = convert_ty(table, ty)?;
    let count: u64 = match len {
        Some(len) => len,
        None => return Err(Failure::ArrayLength(ty)),
    };
    if count > 0x1_0000_0000 {
        return Err(Failure::TooLarge);
    }
    let part: Value = put_as_type(ctx, block, value, &elem);
    let array: TypeHandle = TypeHandle::array(elem, count);
    let mut whole: Value = put_undef(ctx, block, &array);
    let mut i: u64 = 0;
    while i < count
        invariant
            i <= count <= 0x1_0000_0000,
            before == *old(ctx),
            ctx.wf(),
            ctx.has_block(block),
            ctx.computed_since(before, block),
            ctx.has(part),
            ctx.has(whole),
            whole.meaning@ == repeated(array, part.meaning@, i as nat),
        decreases count - i,
    {
        whole = put_with_field(ctx, block, whole, i as u32, part);
        i = i + 1;
    }
    Ok(whole)
}

/// Whether the types that an assigned value names stand in the program.
pub open spec fn rvalue_wf(program: Program, rvalue: Rvalue) -> bool {
    match rvalue {
        Rvalue::Use(operand) => operand::operand_wf(program, operand),
        Rvalue::Ref(place) => place::place_wf(program.types, place),
        Rvalue::RawPtr(place) => place::place_wf(program.types, place),
        Rvalue::ThreadLocalRef(_, ty) => program.types.has(ty),
        Rvalue::BinaryOp(_, lhs, rhs, ty) => operand::operand_wf(program, lhs)
            && operand::operand_wf(program, rhs) && program.types.has(ty),
        Rvalue::Cast(_, operand, ty) => operand::operand_wf(program, operand) && program.types.has(
            ty,
        ),
        Rvalue::UnaryOp(_, operand) => operand::operand_wf(program, operand),
        Rvalue::Discriminant(place) => place::place_wf(program.types, place),
        Rvalue::Aggregate(kind, operands) => aggregate::kind_wf(program.types, kind)
            && operand::operands_wf(program, operands@),
        Rvalue::Repeat(operand, _) => operand::operand_wf(program, operand),
        Rvalue::Other => true,
    }
}

/// The address of the current thread's copy of a static.
pub open spec fn thread_local(program: Program, at: Moment, index: usize, ty: TyId) -> Result<
    Lowered,
    Lost,
> {
    match need::static_symbol(program, index) {
        Err(failure) => Err(failure.at_once()),
        Ok(symbol) => match convert::immediate(program.types, ty) {
            Err(failure) => Err(failure.after(need::asking(at, Demand::ThreadLocal(index)))),
            Ok(_) => Ok(
                need::needing(at, meaning::symbol_address(symbol), Demand::ThreadLocal(index)),
            ),
        },
    }
}

/// An operand, and what is made of its value alone.
pub open spec fn made_of(operand: Lowered, value: Result<Meaning, Failure>) -> Result<
    Lowered,
    Lost,
> {
    operand::behind(operand.needs, need::unasked(need::only(value)))
}

/// What an assigned value is.
pub open spec fn rvalue_value(scene: Scene, at: Moment, rvalue: Rvalue) -> Result<
    Lowered,
    Lost,
> {
    let table = scene.program.types;
    match rvalue {
        Rvalue::Use(operand) => need::unasked(operand::operand_value(scene, at, operand)),
        Rvalue::Ref(place) => need::unasked(need::only(scene.address(at, place))),
        Rvalue::RawPtr(place) => need::unasked(need::only(scene.address(at, place))),
        Rvalue::ThreadLocalRef(index, ty) => thread_local(scene.program, at, index, ty),
        Rvalue::BinaryOp(op, lhs, rhs, ty) => match operand::operand_pair(scene, at, lhs, rhs) {
            Err(lost) => Err(lost),
            Ok((a, b, needs)) => operand::behind(
                needs,
                need::unasked(binary(table, at, op, lhs.ty(), ty, a, b)),
            ),
        },
        Rvalue::Cast(kind, operand, ty) => cast::cast_value(scene, at, kind, operand, ty),
        Rvalue::UnaryOp(op, operand) => match operand::operand_value(scene, at, operand) {
            Err(failure) => Err(failure.at_once()),
            Ok(input) => made_of(input, unary(op, input.value)),
        },
        Rvalue::Discriminant(place) => need::unasked(need::only(discriminant(scene, at, place))),
        Rvalue::Aggregate(kind, operands) => aggregate::aggregate_value(
            scene,
            at,
            kind,
            operands@,
        ),
        Rvalue::Repeat(operand, len) => match operand::operand_value(scene, at, operand) {
            Err(failure) => Err(failure.at_once()),
            Ok(input) => made_of(input, repeat(table, operand.ty(), input.value, len)),
        },
        Rvalue::Other => Err(Failure::Rvalue.at_once()),
    }
}

fn import_thread_local(
    program: &Program,
    ctx: &mut Context,
    block: BlockId,
    needs: &mut Needs,
    index: usize,
    ty: TyId,
) -> (r: Result<Value, Failure>)
    requires
        program.types.wf(),
        program.types.has(ty),
        old(ctx).wf(),
        old(ctx).has_block(block),
    ensures
        need::lowers_past(
            (*final(ctx), final(needs)@),
            (*old(ctx), old(needs)@),
            block,
            r,
            thread_local(*program, old(ctx)@.now(block), index, ty),
        ),
{
    let ghost before = *ctx;
    let symbol: String = static_symbol_of(program, index)?;
    needs.ask(ctx, block, Need::ThreadLocal(index));
    let _ty: TypeHandle = convert_immediate_ty(&program.types, ty)?;
    let r: Value = put_address_of(ctx, block, symbol);
    proof {
        ctx.lemma_computed(before, block);
    }
    Ok(r)
}

/// Imports an assigned value.
pub fn import_rvalue(
    site: &Site,
    ctx: &mut Context,
    block: BlockId,
    needs: &mut Needs,
    rvalue: &Rvalue,
) -> (r: Result<Value, Failure>)
    requires
        site.ready(*old(ctx), block),
        cast::lists_wf(*site.program),
        rvalue_wf(*site.program, *rvalue),
    ensures
        need::lowers_past(
            (*final(ctx), final(needs)@),
            (*old(ctx), old(needs)@),
            block,
            r,
            rvalue_value(site.scene(), old(ctx)@.now(block), *rvalue),
        ),
{
    let ghost before = *ctx;
    let ghost at = ctx@.now(block);
    let ghost scene = site.scene();
    let table: &TyTable = &site.program.types;
    match rvalue {
        Rvalue::Use(operand) => {
            let r: Result<Value, Failure> = import_operand(site, ctx, block, needs, operand);
            proof {
                ctx.lemma_computed(before, block);
                operand::lemma_operand_idle(scene, at, *operand);
            }
            r
        },
        Rvalue::Ref(place) | Rvalue::RawPtr(place) => {
            let r: Result<Value, Failure> = address_of_place(site, ctx, block, place);
            proof {
                ctx.lemma_computed(before, block);
                assert(needs@ =~= old(needs)@ + Seq::<Asked>::empty());
            }
            r
        },
        Rvalue::ThreadLocalRef(index, ty) => import_thread_local(
            site.program,
            ctx,
            block,
            needs,
            *index,
            *ty,
        ),
        Rvalue::BinaryOp(op, lhs, rhs, ty) => {
            let (a, b): (Value, Value) = import_pair(site, ctx, block, needs, lhs, rhs)?;
            let ghost middle = *ctx;
            let lhs_ty: TyId = lhs.type_of();
            let r: Result<Value, Failure> = import_binary(
                table,
                ctx,
                block,
                needs,
                *op,
                lhs_ty,
                *ty,
                a,
                b,
            );
            proof {
                let first = operand::operand_pair(scene, at, *lhs, *rhs)->Ok_0.2;
                let want = binary(*table, at, *op, lhs_ty, *ty, a.meaning@, b.meaning@);
                if want is Ok {
                    ctx.lemma_computed_ran(middle, before, block, want->Ok_0.steps);
                    assert(needs@ =~= old(needs)@ + (first + want->Ok_0.needs));
                }
            }
            r
        },
        Rvalue::Cast(kind, operand, ty) => import_cast(
            site,
            ctx,
            block,
            needs,
            *kind,
            operand,
            *ty,
        ),
        Rvalue::UnaryOp(op, operand) => {
            let input: Value = import_operand(site, ctx, block, needs, operand)?;
            let r: Result<Value, Failure> = put_unary(ctx, block, *op, input);
            proof {
                ctx.lemma_computed(before, block);
                let first = operand::operand_value(scene, at, *operand)->Ok_0.needs;
                assert(first + Seq::<Asked>::empty() =~= first);
            }
            r
        },
        Rvalue::Discriminant(place) => {
            let r: Result<Value, Failure> = import_discriminant(site, ctx, block, place);
            proof {
                ctx.lemma_computed(before, block);
                assert(needs@ =~= old(needs)@ + Seq::<Asked>::empty());
            }
            r
        },
        Rvalue::Aggregate(kind, operands) => import_aggregate(
            site,
            ctx,
            block,
            needs,
            kind,
            operands,
        ),
        Rvalue::Repeat(operand, len) => {
            let input: Value = import_operand(site, ctx, block, needs, operand)?;
            let r: Result<Value, Failure> = put_repeat(
                table,
                ctx,
                block,
                operand.type_of(),
                input,
                *len,
            );
            proof {
                ctx.lemma_computed(before, block);
                let first = operand::operand_value(scene, at, *operand)->Ok_0.needs;
                assert(first + Seq::<Asked>::empty() =~= first);
            }
            r
        },
        Rvalue::Other => Err(Failure::Rvalue),
    }
}

} // verus!
