//! Values in memory as other compilers lay them out.
//!
//! Code that was compiled elsewhere writes values in the layout that the front
//! end gave their types. Such a value is read piece by piece.

use crate::convert;
use crate::convert::convert_ty;
use crate::error::Failure;
use crate::ir::{BlockId, Context, Meaning, Value};
use crate::layout;
use crate::layout::{layout_size_of_ty, nth_of, rustc_layout_size_of_ty, times};
use crate::meaning;
use crate::meaning::{put_load, put_past, put_undef, put_with_field};
use crate::place;
use crate::place::converted_field_index;
use crate::sem::Moment;
use crate::ty::{AdtKind, Layout, TyId, TyKind, TyTable};
use crate::types::TypeHandle;
use vstd::prelude::*;

verus! {

/// How a type is read from memory.
pub enum Reading {
    /// In one piece.
    Whole,
    /// Field by field.
    Fields(Seq<TyId>),
    /// Element by element.
    Elements(TyId, Option<u64>),
    Unreadable,
}

/// How a type of a kind is read from memory.
pub open spec fn reading(table: TyTable, ty: TyId) -> Reading {
    match table.kind(ty) {
        TyKind::Bool => Reading::Whole,
        TyKind::Char => Reading::Whole,
        TyKind::Int(_) => Reading::Whole,
        TyKind::Uint(_) => Reading::Whole,
        TyKind::F32 => Reading::Whole,
        TyKind::F64 => Reading::Whole,
        TyKind::OtherFloat => Reading::Whole,
        TyKind::FnPtr => Reading::Whole,
        TyKind::Ref(_) => Reading::Whole,
        TyKind::RawPtr(_) => Reading::Whole,
        TyKind::Tuple(fields) => Reading::Fields(fields@),
        TyKind::Closure(fields) => Reading::Fields(fields@),
        TyKind::Adt(kind, fields, _) => if table.is_fmt_argument(ty) {
            Reading::Whole
        } else {
            match kind {
                AdtKind::Struct => Reading::Fields(fields@),
                AdtKind::Union => Reading::Whole,
                AdtKind::Enum => Reading::Whole,
            }
        },
        TyKind::Array(elem, len) => Reading::Elements(elem, len),
        _ => Reading::Unreadable,
    }
}

/// The value of a type in memory.
pub open spec fn real_value(table: TyTable, ty: TyId, at: Moment, addr: Meaning) -> Result<
    Meaning,
    Failure,
>
    decreases ty.0, 1nat, 0nat,
{
    let inner = table.normal(ty);
    if inner.0 > ty.0 {
        Err(Failure::Malformed)
    } else {
        match reading(table, inner) {
            Reading::Unreadable => Err(Failure::RealLayout(inner)),
            Reading::Whole => match convert::converted(table, inner) {
                Err(failure) => Err(failure),
                Ok(converted) => Ok(meaning::loaded(at, addr, converted)),
            },
            Reading::Fields(fields) => match convert::converted(table, inner) {
                Err(failure) => Err(failure),
                Ok(converted) => if table.info(inner).layout is None {
                    Err(Failure::NoLayout(inner))
                } else {
                    real_fields(table, inner, fields, at, addr, converted, fields.len())
                },
            },
            Reading::Elements(elem, len) => match convert::converted(table, inner) {
                Err(failure) => Err(failure),
                Ok(converted) => match len {
                    None => Err(Failure::ArrayLength(inner)),
                    Some(len) => match layout::real_size(table, elem) {
                        Err(failure) => Err(failure),
                        Ok(stride) => real_elements(
                            table,
                            inner.0,
                            elem,
                            stride,
                            at,
                            addr,
                            converted,
                            len as nat,
                        ),
                    },
                },
            },
        }
    }
}

/// A value of a type with its first fields read from memory. Fields without a
/// size are left out.
pub open spec fn real_fields(
    table: TyTable,
    ty: TyId,
    fields: Seq<TyId>,
    at: Moment,
    addr: Meaning,
    converted: TypeHandle,
    count: nat,
) -> Result<Meaning, Failure>
    decreases ty.0, 0nat, count,
{
    if count == 0 {
        Ok(meaning::undefined(converted))
    } else {
        match real_fields(table, ty, fields, at, addr, converted, (count - 1) as nat) {
            Err(failure) => Err(failure),
            Ok(whole) => {
                let field = fields[count - 1];
                match layout::size_of(table, field) {
                    Err(failure) => Err(failure),
                    Ok(size) => if size == 0 {
                        Ok(whole)
                    } else {
                        match layout::nth(table.info(ty).layout->0.offsets@, count - 1) {
                            Err(failure) => Err(failure),
                            Ok(offset) => if field.0 >= ty.0 {
                                Err(Failure::Malformed)
                            } else {
                                put_part(
                                    whole,
                                    real_value(table, field, at, meaning::past(addr, offset)),
                                    place::field_index(table, ty, (count - 1) as usize),
                                )
                            },
                        }
                    },
                }
            },
        }
    }
}

/// An aggregate with a field replaced, where both the value and the index are
/// known.
pub open spec fn put_part(
    whole: Meaning,
    part: Result<Meaning, Failure>,
    index: Result<u32, Failure>,
) -> Result<Meaning, Failure> {
    match part {
        Err(failure) => Err(failure),
        Ok(part) => match index {
            Err(failure) => Err(failure),
            Ok(index) => Ok(meaning::with_field(whole, index, part)),
        },
    }
}

/// An array with its first elements read from memory.
pub open spec fn real_elements(
    table: TyTable,
    bound: usize,
    elem: TyId,
    stride: u64,
    at: Moment,
    addr: Meaning,
    converted: TypeHandle,
    count: nat,
) -> Result<Meaning, Failure>
    decreases bound, 0nat, count,
{
    if count == 0 {
        Ok(meaning::undefined(converted))
    } else {
        match real_elements(
            table,
            bound,
            elem,
            stride,
            at,
            addr,
            converted,
            (count - 1) as nat,
        ) {
            Err(failure) => Err(failure),
            Ok(whole) => if count - 1 > u32::MAX || (count - 1) * stride > u64::MAX {
                Err(Failure::TooLarge)
            } else if elem.0 >= bound {
                Err(Failure::Malformed)
            } else {
                put_part(
                    whole,
                    real_value(
                        table,
                        elem,
                        at,
                        meaning::past(addr, ((count - 1) * stride) as u64),
                    ),
                    Ok((count - 1) as u32),
                )
            },
        }
    }
}

/// Reads a value of a type that was laid out elsewhere.
pub fn load_value_from_real_layout(
    table: &TyTable,
    ctx: &mut Context,
    block: BlockId,
    ty: TyId,
    addr: Value,
) -> (r: Result<Value, Failure>)
    requires
        table.wf(),
        table.has(ty),
        old(ctx).wf(),
        old(ctx).has_block(block),
        old(ctx).has(addr),
    ensures
        final(ctx).computed_since(*old(ctx), block),
        place::gives(
            *final(ctx),
            r,
            real_value(*table, ty, old(ctx)@.now(block), addr.meaning@),
        ),
    decreases ty.0, 2nat,
{
    let inner: TyId = table.normalize_ty(ty);
    proof {
        assert(table.ty_wf(inner));
    }
    match &table.types[inner.0].kind {
        TyKind::Tuple(fields) => load_fields(table, ctx, block, inner, fields, addr),
        TyKind::Closure(fields) => load_fields(table, ctx, block, inner, fields, addr),
        TyKind::Adt(AdtKind::Struct, fields, _) => {
            if table.is_fmt_rt_argument_type(inner) {
                let converted: TypeHandle = convert_ty(table, inner)?;
                return Ok(put_load(ctx, block, addr, &converted));
            }
            load_fields(table, ctx, block, inner, fields, addr)
        },
        TyKind::Array(elem, len) => {
            assert(table.parts(inner)[0] == *elem);
            load_elements(table, ctx, block, inner, *elem, *len, addr)
        },
        TyKind::Bool
        | TyKind::Char
        | TyKind::Int(_)
        | TyKind::Uint(_)
        | TyKind::F32
        | TyKind::F64
        | TyKind::OtherFloat
        | TyKind::FnPtr
        | TyKind::Ref(_)
        | TyKind::RawPtr(_)
        | TyKind::Adt(_, _, _) => {
            let converted: TypeHandle = convert_ty(table, inner)?;
            Ok(put_load(ctx, block, addr, &converted))
        },
        _ => Err(Failure::RealLayout(inner)),
    }
}

proof fn lemma_fields_fail(
    table: TyTable,
    ty: TyId,
    fields: Seq<TyId>,
    at: Moment,
    addr: Meaning,
    converted: TypeHandle,
    from: nat,
    to: nat,
    failure: Failure,
)
    requires
        from <= to,
        real_fields(table, ty, fields, at, addr, converted, from) == Err::<Meaning, Failure>(
            failure,
        ),
    ensures
        real_fields(table, ty, fields, at, addr, converted, to) == Err::<Meaning, Failure>(failure),
    decreases to,
{
    if from < to {
        lemma_fields_fail(table, ty, fields, at, addr, converted, from, (to - 1) as nat, failure);
    }
}

/// Reads a field of a value that was laid out elsewhere and puts it in its
/// place.
fn load_field(
    table: &TyTable,
    ctx: &mut Context,
    block: BlockId,
    ty: TyId,
    field: TyId,
    index: usize,
    offset: u64,
    addr: Value,
    whole: Value,
) -> (r: Result<Value, Failure>)
    requires
        table.wf(),
        table.has(ty),
        field.0 < ty.0,
        old(ctx).wf(),
        old(ctx).has_block(block),
        old(ctx).has(addr),
        old(ctx).has(whole),
    ensures
        final(ctx).computed_since(*old(ctx), block),
        place::gives(
            *final(ctx),
            r,
            put_part(
                whole.meaning@,
                real_value(
                    *table,
                    field,
                    old(ctx)@.now(block),
                    meaning::past(addr.meaning@, offset),
                ),
                place::field_index(*table, ty, index),
            ),
        ),
    decreases ty.0, 0nat,
{
    let field_addr: Value = put_past(ctx, block, addr, offset);
    let value: Value = load_value_from_real_layout(table, ctx, block, field, field_addr)?;
    let place: u32 = converted_field_index(table, ty, index)?;
    Ok(put_with_field(ctx, block, whole, place, value))
}

fn load_fields(
    table: &TyTable,
    ctx: &mut Context,
    block: BlockId,
    ty: TyId,
    fields: &Vec<TyId>,
    addr: Value,
) -> (r: Result<Value, Failure>)
    requires
        table.wf(),
        table.has(ty),
        table.precede(fields@, ty),
        old(ctx).wf(),
        old(ctx).has_block(block),
        old(ctx).has(addr),
    ensures
        final(ctx).computed_since(*old(ctx), block),
        place::gives(
            *final(ctx),
            r,
            match convert::converted(*table, ty) {
                Err(failure) => Err(failure),
                Ok(converted) => if table.info(ty).layout is None {
                    Err(Failure::NoLayout(ty))
                } else {
                    real_fields(
                        *table,
                        ty,
                        fields@,
                        old(ctx)@.now(block),
                        addr.meaning@,
                        converted,
                        fields@.len(),
                    )
                },
            },
        ),
    decreases ty.0, 1nat,
{
    let ghost before = *ctx;
    let ghost at = ctx@.now(block);
    let converted: TypeHandle = convert_ty(table, ty)?;
    let layout: &Layout = match &table.types[ty.0].layout {
        Some(layout) => layout,
        None => return Err(Failure::NoLayout(ty)),
    };
    let mut whole: Value = put_undef(ctx, block, &converted);
    let mut i: usize = 0;
    while i < fields.len()
        invariant
            table.wf(),
            table.has(ty),
            table.precede(fields@, ty),
            table.info(ty).layout == Some(*layout),
            before == *old(ctx),
            at == before@.now(block),
            convert::converted(*table, ty) == Ok::<TypeHandle, Failure>(converted),
            ctx.computed_since(before, block),
            ctx.wf(),
            ctx.has_block(block),
            ctx.has(addr),
            ctx.has(whole),
            i <= fields@.len(),
            real_fields(*table, ty, fields@, at, addr.meaning@, converted, i as nat) == Ok::<
                Meaning,
                Failure,
            >(whole.meaning@),
        decreases fields@.len() - i,
    {
        let field: TyId = fields[i];
        let ghost next = (i + 1) as nat;
        let size: u64 = match layout_size_of_ty(table, field) {
            Ok(size) => size,
            Err(failure) => {
                proof {
                    lemma_fields_fail(
                        *table,
                        ty,
                        fields@,
                        at,
                        addr.meaning@,
                        converted,
                        next,
                        fields@.len(),
                        failure,
                    );
                }
                return Err(failure);
            },
        };
        if size != 0 {
            let placed: Result<Value, Failure> = match nth_of(&layout.offsets, i) {
                Ok(offset) => load_field(table, ctx, block, ty, field, i, offset, addr, whole),
                Err(failure) => Err(failure),
            };
            match placed {
                Ok(value) => {
                    whole = value;
                },
                Err(failure) => {
                    proof {
                        lemma_fields_fail(
                            *table,
                            ty,
                            fields@,
                            at,
                            addr.meaning@,
                            converted,
                            next,
                            fields@.len(),
                            failure,
                        );
                    }
                    return Err(failure);
                },
            }
        }
        i = i + 1;
    }
    Ok(whole)
}

proof fn lemma_elements_fail(
    table: TyTable,
    bound: usize,
    elem: TyId,
    stride: u64,
    at: Moment,
    addr: Meaning,
    converted: TypeHandle,
    from: nat,
    to: nat,
    failure: Failure,
)
    requires
        from <= to,
        real_elements(table, bound, elem, stride, at, addr, converted, from) == Err::<
            Meaning,
            Failure,
        >(failure),
    ensures
        real_elements(table, bound, elem, stride, at, addr, converted, to) == Err::<
            Meaning,
            Failure,
        >(failure),
    decreases to,
{
    if from < to {
        lemma_elements_fail(
            table,
            bound,
            elem,
            stride,
            at,
            addr,
            converted,
            from,
            (to - 1) as nat,
            failure,
        );
    }
}

/// Reads an element of an array that was laid out elsewhere and puts it in its
/// place.
fn load_element(
    table: &TyTable,
    ctx: &mut Context,
    block: BlockId,
    bound: usize,
    elem: TyId,
    stride: u64,
    index: u64,
    addr: Value,
    whole: Value,
) -> (r: Result<Value, Failure>)
    requires
        table.wf(),
        elem.0 < bound <= table.types@.len(),
        old(ctx).wf(),
        old(ctx).has_block(block),
        old(ctx).has(addr),
        old(ctx).has(whole),
    ensures
        final(ctx).computed_since(*old(ctx), block),
        place::gives(
            *final(ctx),
            r,
            if index > u32::MAX || index * stride > u64::MAX {
                Err(Failure::TooLarge)
            } else {
                put_part(
                    whole.meaning@,
                    real_value(
                        *table,
                        elem,
                        old(ctx)@.now(block),
                        meaning::past(addr.meaning@, (index * stride) as u64),
                    ),
                    Ok(index as u32),
                )
            },
        ),
    decreases bound, 0nat,
{
    if index > 0xffff_ffff {
        return Err(Failure::TooLarge);
    }
    let offset: u64 = times(index, stride)?;
    let elem_addr: Value = put_past(ctx, block, addr, offset);
    let value: Value = load_value_from_real_layout(table, ctx, block, elem, elem_addr)?;
    Ok(put_with_field(ctx, block, whole, index as u32, value))
}

fn load_elements(
    table: &TyTable,
    ctx: &mut Context,
    block: BlockId,
    ty: TyId,
    elem: TyId,
    len: Option<u64>,
    addr: Value,
) -> (r: Result<Value, Failure>)
    requires
        table.wf(),
        table.has(ty),
        elem.0 < ty.0,
        old(ctx).wf(),
        old(ctx).has_block(block),
        old(ctx).has(addr),
    ensures
        final(ctx).computed_since(*old(ctx), block),
        place::gives(
            *final(ctx),
            r,
            match convert::converted(*table, ty) {
                Err(failure) => Err(failure),
                Ok(converted) => match len {
                    None => Err(Failure::ArrayLength(ty)),
                    Some(len) => match layout::real_size(*table, elem) {
                        Err(failure) => Err(failure),
                        Ok(stride) => real_elements(
                            *table,
                            ty.0,
                            elem,
                            stride,
                            old(ctx)@.now(block),
                            addr.meaning@,
                            converted,
                            len as nat,
                        ),
                    },
                },
            },
        ),
    decreases ty.0, 1nat,
{
    let ghost before = *ctx;
    let ghost at = ctx@.now(block);
    let converted: TypeHandle = convert_ty(table, ty)?;
    let count: u64 = match len {
        Some(len) => len,
        None => return Err(Failure::ArrayLength(ty)),
    };
    let stride: u64 = rustc_layout_size_of_ty(table, elem)?;
    let mut whole: Value = put_undef(ctx, block, &converted);
    let mut i: u64 = 0;
    while i < count
        invariant
            table.wf(),
            table.has(ty),
            elem.0 < ty.0,
            before == *old(ctx),
            at == before@.now(block),
            len == Some(count),
            convert::converted(*table, ty) == Ok::<TypeHandle, Failure>(converted),
            layout::real_size(*table, elem) == Ok::<u64, Failure>(stride),
            ctx.computed_since(before, block),
            ctx.wf(),
            ctx.has_block(block),
            ctx.has(addr),
            ctx.has(whole),
            i <= count,
            real_elements(
                *table,
                ty.0,
                elem,
                stride,
                at,
                addr.meaning@,
                converted,
                i as nat,
            ) == Ok::<Meaning, Failure>(whole.meaning@),
        decreases count - i,
    {
        match load_element(table, ctx, block, ty.0, elem, stride, i, addr, whole) {
            Ok(value) => {
                whole = value;
            },
            Err(failure) => {
                proof {
                    lemma_elements_fail(
                        *table,
                        ty.0,
                        elem,
                        stride,
                        at,
                        addr.meaning@,
                        converted,
                        (i + 1) as nat,
                        count as nat,
                        failure,
                    );
                }
                return Err(failure);
            },
        }
        i = i + 1;
    }
    Ok(whole)
}

} // verus!
