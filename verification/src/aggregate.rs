//! Aggregates.

use crate::convert;
use crate::convert::{convert_ty, is_unit_converted_ty, llvm_ptr_ty, usize_ty};
use crate::enums;
use crate::enums::write_enum_tag;
use crate::error::Failure;
use crate::ir::{BlockId, Context, Meaning, Value};
use crate::layout;
use crate::layout::{layout_size_of_ty, variant_field_offset};
use crate::meaning;
use crate::meaning::{
    put_alloca, put_as_type, put_load, put_pair, put_past, put_size, put_store, put_undef,
    put_with_field, Step,
};
use crate::mir::{AggregateKind, Operand};
use crate::need;
use crate::need::{Asked, Effect, Lost, Lowered, Needs};
use crate::operand;
use crate::operand::{import_operand, import_pair, Scene, Site};
use crate::place;
use crate::place::{converted_field_index, normalize_bool_for_storage};
use crate::sem::Moment;
use crate::text;
use crate::ty::{AdtKind, TyId, TyKind, TyTable};
use crate::types;
use crate::types::TypeHandle;
use vstd::prelude::*;

verus! {

/// Whether the types that an aggregate names stand in the program.
pub open spec fn kind_wf(table: TyTable, kind: AggregateKind) -> bool {
    match kind {
        AggregateKind::Array(elem) => table.has(elem),
        AggregateKind::Tuple(ty) => table.has(ty),
        AggregateKind::Adt(ty, _) => table.has(ty),
        AggregateKind::Closure(ty) => table.has(ty),
        AggregateKind::RawPtr(pointee, ptr) => table.has(pointee) && table.has(ptr),
        AggregateKind::Other => true,
    }
}

/// The type of an aggregate.
pub open spec fn result_type(table: TyTable, kind: AggregateKind, operands: Seq<Operand>) -> Result<
    TypeHandle,
    Failure,
> {
    match kind {
        AggregateKind::Array(elem) => match convert::converted(table, elem) {
            Err(failure) => Err(failure),
            Ok(elem) => Ok(types::array_of(elem, operands.len() as u64)),
        },
        AggregateKind::Tuple(ty) => convert::converted(table, ty),
        AggregateKind::Adt(ty, _) => convert::converted(table, ty),
        AggregateKind::Closure(ty) => convert::converted(table, ty),
        AggregateKind::RawPtr(_, ptr) => convert::converted(table, ptr),
        AggregateKind::Other => Err(Failure::AggregateKind),
    }
}

/// The type of an aggregate.
pub fn aggregate_result_ty(table: &TyTable, kind: &AggregateKind, operands: &Vec<Operand>) -> (r:
    Result<TypeHandle, Failure>)
    requires
        table.wf(),
        kind_wf(*table, *kind),
    ensures
        r == result_type(*table, *kind, operands@),
{
    match kind {
        AggregateKind::Array(elem) => {
            let elem: TypeHandle = convert_ty(table, *elem)?;
            Ok(TypeHandle::array(elem, operands.len() as u64))
        },
        AggregateKind::Tuple(ty) => convert_ty(table, *ty),
        AggregateKind::Adt(ty, _) => convert_ty(table, *ty),
        AggregateKind::Closure(ty) => convert_ty(table, *ty),
        AggregateKind::RawPtr(_, ptr) => convert_ty(table, *ptr),
        AggregateKind::Other => Err(Failure::AggregateKind),
    }
}

/// The type of a field or element of an aggregate type.
pub open spec fn part_type(ty: TypeHandle, index: u32) -> Result<TypeHandle, Failure> {
    match ty {
        TypeHandle::Array { elem, .. } => Ok(*elem),
        _ => match ty.fields() {
            Some(fields) => if index < fields.len() {
                Ok(fields[index as int])
            } else {
                Err(Failure::AggregateField { index, ty })
            },
            None => Err(Failure::AggregateType(ty)),
        },
    }
}

/// The type of a field or element of an aggregate type.
pub fn aggregate_field_type(ty: &TypeHandle, index: u32) -> (r: Result<TypeHandle, Failure>)
    ensures
        r == part_type(*ty, index),
{
    if let TypeHandle::Array { elem, .. } = ty {
        return Ok((**elem).clone());
    }
    match ty.struct_fields() {
        Some(fields) => {
            let i: usize = index as usize;
            if i < fields.len() {
                Ok(fields[i].clone())
            } else {
                Err(Failure::AggregateField { index, ty: ty.clone() })
            }
        },
        None => Err(Failure::AggregateType(ty.clone())),
    }
}

/// A raw pointer made of its parts.
pub open spec fn raw_pointer(
    scene: Scene,
    at: Moment,
    pointee: TyId,
    ty: TypeHandle,
    operands: Seq<Operand>,
) -> Result<Lowered, Lost> {
    let table = scene.program.types;
    if operands.len() != 2 {
        Err(Failure::RawPointerOperands(operands.len() as usize).at_once())
    } else {
        match operand::operand_pair(scene, at, operands[0], operands[1]) {
            Err(lost) => Err(lost),
            Ok((data, metadata, needs)) => Ok(
                Lowered {
                    value: if table.kind(table.runtime(pointee)) is Slice {
                        meaning::pair(ty, meaning::as_type(data, types::pointer()), metadata)
                    } else {
                        data
                    },
                    needs,
                    steps: Seq::empty(),
                },
            ),
        }
    }
}

fn import_raw_pointer(
    site: &Site,
    ctx: &mut Context,
    block: BlockId,
    needs: &mut Needs,
    pointee: TyId,
    ty: &TypeHandle,
    operands: &Vec<Operand>,
) -> (r: Result<Value, Failure>)
    requires
        site.ready(*old(ctx), block),
        operand::operands_wf(*site.program, operands@),
        site.program.types.has(pointee),
    ensures
        need::lowers_past(
            (*final(ctx), final(needs)@),
            (*old(ctx), old(needs)@),
            block,
            r,
            raw_pointer(site.scene(), old(ctx)@.now(block), pointee, *ty, operands@),
        ),
{
    let ghost before = *ctx;
    if operands.len() != 2 {
        return Err(Failure::RawPointerOperands(operands.len()));
    }
    let (data, metadata): (Value, Value) = import_pair(
        site,
        ctx,
        block,
        needs,
        &operands[0],
        &operands[1],
    )?;
    let runtime: TyId = site.program.types.runtime_ty(pointee);
    let r: Value = match &site.program.types.types[runtime.0].kind {
        TyKind::Slice(_) => {
            let ptr_ty: TypeHandle = llvm_ptr_ty();
            let data: Value = put_as_type(ctx, block, data, &ptr_ty);
            put_pair(ctx, block, ty, data, metadata)
        },
        _ => data,
    };
    proof {
        ctx.lemma_computed(before, block);
    }
    Ok(r)
}

/// A union made of a field: the field itself, where it takes up memory.
pub open spec fn union_value(
    scene: Scene,
    at: Moment,
    ty: TypeHandle,
    operands: Seq<Operand>,
) -> Result<Lowered, Failure> {
    if operands.len() == 0 {
        Ok(need::plain(meaning::undefined(ty)))
    } else {
        match layout::size_of(scene.program.types, operands[0].ty()) {
            Err(failure) => Err(failure),
            Ok(size) => if size != 0 {
                operand::operand_value(scene, at, operands[0])
            } else {
                Ok(need::plain(meaning::undefined(ty)))
            },
        }
    }
}

fn import_union(
    site: &Site,
    ctx: &mut Context,
    block: BlockId,
    needs: &mut Needs,
    ty: &TypeHandle,
    operands: &Vec<Operand>,
) -> (r: Result<Value, Failure>)
    requires
        site.ready(*old(ctx), block),
        operand::operands_wf(*site.program, operands@),
    ensures
        need::lowers(
            (*final(ctx), final(needs)@),
            (*old(ctx), old(needs)@),
            block,
            r,
            union_value(site.scene(), old(ctx)@.now(block), *ty, operands@),
        ),
{
    let ghost before = *ctx;
    proof {
        assert(needs@ =~= old(needs)@ + Seq::<Asked>::empty());
    }
    if operands.len() > 0 {
        let size: u64 = layout_size_of_ty(&site.program.types, operands[0].type_of())?;
        if size != 0 {
            let r: Result<Value, Failure> = import_operand(site, ctx, block, needs, &operands[0]);
            proof {
                ctx.lemma_computed(before, block);
                operand::lemma_operand_idle(site.scene(), before@.now(block), operands@[0]);
            }
            return r;
        }
    }
    let r: Value = put_undef(ctx, block, ty);
    proof {
        ctx.lemma_computed(before, block);
    }
    Ok(r)
}

/// The name of a variant.
pub open spec fn variant_name(table: TyTable, ty: TyId, variant: u32) -> Option<Seq<char>> {
    match table.kind(ty) {
        TyKind::Adt(_, _, variants) => if variant < variants@.len() {
            Some(variants@[variant as int].name@)
        } else {
            None
        },
        _ => None,
    }
}

/// A format argument: a value and how it is formatted, or a number.
pub open spec fn format_argument(
    scene: Scene,
    at: Moment,
    ty: TypeHandle,
    name: Option<Seq<char>>,
    operands: Seq<Operand>,
) -> Result<Lowered, Lost> {
    let ptr = types::pointer();
    let size = types::unsigned(64);
    if name == Some("Placeholder"@) {
        if operands.len() < 2 {
            Err(Failure::FormatArgument.at_once())
        } else {
            match operand::operand_pair(scene, at, operands[0], operands[1]) {
                Err(lost) => Err(lost),
                Ok((value, formatter, needs)) => Ok(
                    Lowered {
                        value: meaning::pair(
                            ty,
                            meaning::as_type(value, ptr),
                            meaning::as_type(formatter, ptr),
                        ),
                        needs,
                        steps: Seq::empty(),
                    },
                ),
            }
        }
    } else if name == Some("Count"@) {
        if operands.len() < 1 {
            Err(Failure::FormatArgument.at_once())
        } else {
            match operand::operand_value(scene, at, operands[0]) {
                Err(failure) => Err(failure.at_once()),
                Ok(count) => Ok(
                    Lowered {
                        value: meaning::pair(
                            ty,
                            meaning::as_type(meaning::as_type(count.value, size), ptr),
                            meaning::as_type(meaning::constant(size, 0), ptr),
                        ),
                        ..count
                    },
                ),
            }
        }
    } else {
        Err(Failure::FormatVariant.at_once())
    }
}

fn is_variant(table: &TyTable, ty: TyId, variant: u32, name: &str) -> (r: bool)
    requires
        table.has(ty),
    ensures
        r == (variant_name(*table, ty, variant) == Some(name@)),
{
    match &table.types[ty.0].kind {
        TyKind::Adt(_, _, variants) => {
            let v: usize = variant as usize;
            if v < variants.len() {
                text::same(variants[v].name.as_str(), name)
            } else {
                false
            }
        },
        _ => false,
    }
}

fn import_format_argument(
    site: &Site,
    ctx: &mut Context,
    block: BlockId,
    needs: &mut Needs,
    adt: TyId,
    variant: u32,
    ty: &TypeHandle,
    operands: &Vec<Operand>,
) -> (r: Result<Value, Failure>)
    requires
        site.ready(*old(ctx), block),
        operand::operands_wf(*site.program, operands@),
        site.program.types.has(adt),
    ensures
        need::lowers_past(
            (*final(ctx), final(needs)@),
            (*old(ctx), old(needs)@),
            block,
            r,
            format_argument(
                site.scene(),
                old(ctx)@.now(block),
                *ty,
                variant_name(site.program.types, adt, variant),
                operands@,
            ),
        ),
{
    let ghost before = *ctx;
    proof {
        reveal_strlit("Placeholder");
        reveal_strlit("Count");
    }
    let ptr_ty: TypeHandle = llvm_ptr_ty();
    if is_variant(&site.program.types, adt, variant, "Placeholder") {
        if operands.len() < 2 {
            return Err(Failure::FormatArgument);
        }
        let (value, formatter): (Value, Value) = import_pair(
            site,
            ctx,
            block,
            needs,
            &operands[0],
            &operands[1],
        )?;
        let value: Value = put_as_type(ctx, block, value, &ptr_ty);
        let formatter: Value = put_as_type(ctx, block, formatter, &ptr_ty);
        let r: Value = put_pair(ctx, block, ty, value, formatter);
        proof {
            ctx.lemma_computed(before, block);
        }
        return Ok(r);
    }
    if is_variant(&site.program.types, adt, variant, "Count") {
        if operands.len() < 1 {
            return Err(Failure::FormatArgument);
        }
        let count: Value = import_operand(site, ctx, block, needs, &operands[0])?;
        let size: TypeHandle = usize_ty();
        let count: Value = put_as_type(ctx, block, count, &size);
        let null: Value = put_size(ctx, block, 0);
        let null: Value = put_as_type(ctx, block, null, &ptr_ty);
        let count: Value = put_as_type(ctx, block, count, &ptr_ty);
        let r: Value = put_pair(ctx, block, ty, count, null);
        proof {
            ctx.lemma_computed(before, block);
            operand::lemma_operand_idle(site.scene(), before@.now(block), operands@[0]);
        }
        return Ok(r);
    }
    Err(Failure::FormatVariant)
}

/// What writing the first fields of a variant to a slot does, after what was
/// done before.
pub open spec fn variant_fields(
    scene: Scene,
    at: Moment,
    ty: TyId,
    variant: u32,
    slot: Meaning,
    operands: Seq<Operand>,
    first: Seq<Step>,
    count: nat,
) -> Result<Effect, Lost>
    decreases count,
{
    let table = scene.program.types;
    if count == 0 {
        Ok(Effect { needs: Seq::empty(), steps: first })
    } else {
        match variant_fields(
            scene,
            at,
            ty,
            variant,
            slot,
            operands,
            first,
            (count - 1) as nat,
        ) {
            Err(lost) => Err(lost),
            Ok(before) => {
                let operand = operands[count - 1];
                match layout::size_of(table, operand.ty()) {
                    Err(failure) => Err(failure.after(before.needs)),
                    Ok(size) => if size == 0 {
                        Ok(before)
                    } else {
                        match variant_field(
                            scene,
                            meaning::later(at, before.steps.len()),
                            ty,
                            variant,
                            slot,
                            operand,
                            count - 1,
                        ) {
                            Err(lost) => Err(lost.after(before.needs)),
                            Ok(effect) => Ok(
                                Effect {
                                    needs: before.needs + effect.needs,
                                    steps: before.steps + effect.steps,
                                },
                            ),
                        }
                    },
                }
            },
        }
    }
}

/// What writing a field of a variant to a slot does.
pub open spec fn variant_field(
    scene: Scene,
    at: Moment,
    ty: TyId,
    variant: u32,
    slot: Meaning,
    operand: Operand,
    index: int,
) -> Result<Effect, Lost> {
    let table = scene.program.types;
    match layout::variant_offset(table, ty, variant, index) {
        Err(failure) => Err(failure.at_once()),
        Ok(offset) => match operand::operand_value(scene, at, operand) {
            Err(failure) => Err(failure.at_once()),
            Ok(value) => match convert::converted(table, operand.ty()) {
                Err(failure) => Err(failure.after(value.needs)),
                Ok(converted) => Ok(
                    Effect {
                        needs: value.needs,
                        steps: seq![
                            Step::Store {
                                addr: meaning::past(slot, offset),
                                value: meaning::as_type(
                                    place::as_stored(table, operand.ty(), value.value),
                                    converted,
                                ),
                            },
                        ],
                    },
                ),
            },
        },
    }
}

/// Writes a field of a variant to a slot.
fn write_variant_field(
    site: &Site,
    ctx: &mut Context,
    block: BlockId,
    needs: &mut Needs,
    ty: TyId,
    variant: u32,
    slot: Value,
    operand: &Operand,
    index: usize,
) -> (r: Result<(), Failure>)
    requires
        site.ready(*old(ctx), block),
        operand::operand_wf(*site.program, *operand),
        site.program.types.has(ty),
        old(ctx).has(slot),
    ensures
        need::does(
            (*final(ctx), final(needs)@),
            (*old(ctx), old(needs)@),
            block,
            r,
            variant_field(
                site.scene(),
                old(ctx)@.now(block),
                ty,
                variant,
                slot.meaning@,
                *operand,
                index as int,
            ),
        ),
        site.ready(*final(ctx), block),
{
    let ghost before = *ctx;
    let table: &TyTable = &site.program.types;
    let offset: u64 = variant_field_offset(table, ty, variant, index)?;
    let addr: Value = put_past(ctx, block, slot, offset);
    proof {
        site.lemma_ready(*ctx, before, block);
    }
    let value: Value = import_operand(site, ctx, block, needs, operand)?;
    let value: Value = normalize_bool_for_storage(table, ctx, block, operand.type_of(), value);
    proof {
        site.lemma_ready(*ctx, before, block);
    }
    let converted: TypeHandle = convert_ty(table, operand.type_of())?;
    let value: Value = put_as_type(ctx, block, value, &converted);
    let ghost middle = *ctx;
    put_store(ctx, block, value, addr);
    proof {
        let steps = seq![Step::Store { addr: addr.meaning@, value: value.meaning@ }];
        ctx.lemma_computed_ran(middle, before, block, steps);
        site.lemma_ready(*ctx, before, block);
    }
    Ok(())
}

proof fn lemma_fields_fail(
    scene: Scene,
    at: Moment,
    ty: TyId,
    variant: u32,
    slot: Meaning,
    operands: Seq<Operand>,
    first: Seq<Step>,
    from: nat,
    to: nat,
)
    requires
        from <= to,
        variant_fields(scene, at, ty, variant, slot, operands, first, from) is Err,
    ensures
        variant_fields(scene, at, ty, variant, slot, operands, first, to) == variant_fields(
            scene,
            at,
            ty,
            variant,
            slot,
            operands,
            first,
            from,
        ),
    decreases to,
{
    if from < to {
        lemma_fields_fail(scene, at, ty, variant, slot, operands, first, from, (to - 1) as nat);
    }
}

/// Writes the fields of a variant to a slot.
fn write_variant_fields(
    site: &Site,
    ctx: &mut Context,
    block: BlockId,
    needs: &mut Needs,
    ty: TyId,
    variant: u32,
    slot: Value,
    operands: &Vec<Operand>,
    Ghost(start): Ghost<Context>,
    Ghost(first): Ghost<Seq<Step>>,
) -> (r: Result<(), Failure>)
    requires
        site.ready(*old(ctx), block),
        start.has_block(block),
        old(ctx).ran_since(start, block, first),
        operand::operands_wf(*site.program, operands@),
        site.program.types.has(ty),
        old(ctx).has(slot),
    ensures
        need::does_past(
            (*final(ctx), final(needs)@),
            (start, old(needs)@),
            block,
            r,
            variant_fields(
                site.scene(),
                start@.now(block),
                ty,
                variant,
                slot.meaning@,
                operands@,
                first,
                operands@.len(),
            ),
        ),
        site.ready(*final(ctx), block),
        final(ctx).grew(*old(ctx)),
{
    let ghost asked = needs@;
    let ghost at = start@.now(block);
    let ghost entered = *ctx;
    let ghost scene = site.scene();
    proof {
        assert(needs@ =~= asked + Seq::<Asked>::empty());
    }
    let mut i: usize = 0;
    while i < operands.len()
        invariant
            i <= operands@.len(),
            scene == site.scene(),
            asked == old(needs)@,
            at == start@.now(block),
            start.has_block(block),
            site.ready(*ctx, block),
            operand::operands_wf(*site.program, operands@),
            site.program.types.has(ty),
            ctx.has(slot),
            entered == *old(ctx),
            ctx.grew(entered),
            variant_fields(
                scene,
                at,
                ty,
                variant,
                slot.meaning@,
                operands@,
                first,
                i as nat,
            ) matches Ok(done) && ctx.ran_since(start, block, done.steps) && needs@ == asked
                + done.needs,
        decreases operands@.len() - i,
    {
        let ghost done = variant_fields(
            scene,
            at,
            ty,
            variant,
            slot.meaning@,
            operands@,
            first,
            i as nat,
        )->Ok_0;
        let ghost next = (i + 1) as nat;
        let ghost total = operands@.len();
        let ghost middle = *ctx;
        proof {
            ctx.lemma_time(start, block, done.steps);
        }
        let size: u64 = match layout_size_of_ty(&site.program.types, operands[i].type_of()) {
            Ok(size) => size,
            Err(failure) => {
                proof {
                    lemma_fields_fail(
                        scene,
                        at,
                        ty,
                        variant,
                        slot.meaning@,
                        operands@,
                        first,
                        next,
                        total,
                    );
                }
                return Err(failure);
            },
        };
        if size != 0 {
            let placed: Result<(), Failure> = write_variant_field(
                site,
                ctx,
                block,
                needs,
                ty,
                variant,
                slot,
                &operands[i],
                i,
            );
            if let Err(failure) = placed {
                proof {
                    lemma_fields_fail(
                        scene,
                        at,
                        ty,
                        variant,
                        slot.meaning@,
                        operands@,
                        first,
                        next,
                        total,
                    );
                }
                return Err(failure);
            }
            proof {
                let effect = variant_field(
                    scene,
                    meaning::later(at, done.steps.len()),
                    ty,
                    variant,
                    slot.meaning@,
                    operands@[i as int],
                    i as int,
                )->Ok_0;
                ctx.lemma_ran(middle, start, block, done.steps, effect.steps);
                assert(needs@ =~= asked + (done.needs + effect.needs));
            }
        }
        i = i + 1;
    }
    Ok(())
}

/// A variant of an enum: its bytes, put together in memory.
pub open spec fn variant_value(
    scene: Scene,
    at: Moment,
    ty: TyId,
    variant: u32,
    blob: TypeHandle,
    operands: Seq<Operand>,
) -> Result<Lowered, Lost> {
    let slot = meaning::slot_at(at, blob);
    if convert::is_unit(blob) {
        Ok(need::plain(meaning::undefined(blob)))
    } else {
        match enums::tag_write(scene.program.types, ty, variant, slot) {
            Err(failure) => Err(failure.at_once()),
            Ok(tag) => match variant_fields(
                scene,
                at,
                ty,
                variant,
                slot,
                operands,
                seq![Step::Alloca { elem: blob }] + tag,
                operands.len(),
            ) {
                Err(lost) => Err(lost),
                Ok(effect) => Ok(
                    Lowered {
                        value: meaning::loaded(
                            meaning::later(at, effect.steps.len()),
                            slot,
                            blob,
                        ),
                        needs: effect.needs,
                        steps: effect.steps,
                    },
                ),
            },
        }
    }
}

fn import_variant(
    site: &Site,
    ctx: &mut Context,
    block: BlockId,
    needs: &mut Needs,
    ty: TyId,
    variant: u32,
    blob: &TypeHandle,
    operands: &Vec<Operand>,
) -> (r: Result<Value, Failure>)
    requires
        site.ready(*old(ctx), block),
        operand::operands_wf(*site.program, operands@),
        site.program.types.has(ty),
    ensures
        need::lowers_past(
            (*final(ctx), final(needs)@),
            (*old(ctx), old(needs)@),
            block,
            r,
            variant_value(
                site.scene(),
                old(ctx)@.now(block),
                ty,
                variant,
                *blob,
                operands@,
            ),
        ),
{
    let ghost before = *ctx;
    let ghost at = ctx@.now(block);
    if is_unit_converted_ty(blob) {
        let r: Value = put_undef(ctx, block, blob);
        proof {
            ctx.lemma_computed(before, block);
            assert(needs@ =~= old(needs)@ + Seq::<Asked>::empty());
        }
        return Ok(r);
    }
    let slot: Value = put_alloca(ctx, block, blob);
    let ghost reserved = *ctx;
    let ghost first = seq![Step::Alloca { elem: *blob }];
    proof {
        ctx.lemma_time(before, block, first);
    }
    write_enum_tag(&site.program.types, ctx, block, ty, variant, slot)?;
    let ghost tag = enums::tag_write(site.program.types, ty, variant, slot.meaning@)->Ok_0;
    proof {
        ctx.lemma_ran(reserved, before, block, first, tag);
        ctx.lemma_time(before, block, first + tag);
        site.lemma_ready(*ctx, before, block);
    }
    write_variant_fields(
        site,
        ctx,
        block,
        needs,
        ty,
        variant,
        slot,
        operands,
        Ghost(before),
        Ghost(first + tag),
    )?;
    let ghost written = *ctx;
    let ghost steps = variant_fields(
        site.scene(),
        at,
        ty,
        variant,
        slot.meaning@,
        operands@,
        first + tag,
        operands@.len(),
    )->Ok_0.steps;
    proof {
        ctx.lemma_time(before, block, steps);
    }
    let r: Value = put_load(ctx, block, slot, blob);
    proof {
        ctx.lemma_ran_computed(written, before, block, steps);
    }
    Ok(r)
}

/// Where a field of an aggregate is put.
pub open spec fn part_index(table: TyTable, ty: Option<TyId>, index: int) -> Result<u32, Failure> {
    match ty {
        Some(ty) => place::field_index(table, ty, index as usize),
        None => if index <= u32::MAX {
            Ok(index as u32)
        } else {
            Err(Failure::TooLarge)
        },
    }
}

fn index_of_part(table: &TyTable, ty: Option<TyId>, index: usize) -> (r: Result<u32, Failure>)
    requires
        table.wf(),
        ty matches Some(ty) ==> table.has(ty),
    ensures
        r == part_index(*table, ty, index as int),
{
    match ty {
        Some(ty) => converted_field_index(table, ty, index),
        None => if index <= 0xffff_ffff {
            Ok(index as u32)
        } else {
            Err(Failure::TooLarge)
        },
    }
}

/// An aggregate with its first parts filled in.
pub open spec fn filled(
    scene: Scene,
    at: Moment,
    rust_ty: Option<TyId>,
    ty: TypeHandle,
    operands: Seq<Operand>,
    count: nat,
) -> Result<Lowered, Lost>
    decreases count,
{
    if count == 0 {
        Ok(need::plain(meaning::undefined(ty)))
    } else {
        match filled(scene, at, rust_ty, ty, operands, (count - 1) as nat) {
            Err(lost) => Err(lost),
            Ok(whole) => match part_index(scene.program.types, rust_ty, count - 1) {
                Err(failure) => Err(failure.after(whole.needs)),
                Ok(index) => match operand::operand_value(scene, at, operands[count - 1]) {
                    Err(failure) => Err(failure.after(whole.needs)),
                    Ok(part) => match part_type(ty, index) {
                        Err(failure) => Err(failure.after(whole.needs + part.needs)),
                        Ok(part_ty) => Ok(
                            Lowered {
                                value: meaning::with_field(
                                    whole.value,
                                    index,
                                    meaning::as_type(part.value, part_ty),
                                ),
                                needs: whole.needs + part.needs,
                                steps: Seq::empty(),
                            },
                        ),
                    },
                },
            },
        }
    }
}

proof fn lemma_filled(
    scene: Scene,
    at: Moment,
    rust_ty: Option<TyId>,
    ty: TypeHandle,
    operands: Seq<Operand>,
    from: nat,
    to: nat,
)
    requires
        from <= to,
    ensures
        filled(scene, at, rust_ty, ty, operands, from) is Err ==> filled(
            scene,
            at,
            rust_ty,
            ty,
            operands,
            to,
        ) == filled(scene, at, rust_ty, ty, operands, from),
        filled(scene, at, rust_ty, ty, operands, to) matches Ok(whole) ==> whole.steps == Seq::<
            Step,
        >::empty(),
    decreases to,
{
    if from < to {
        lemma_filled(scene, at, rust_ty, ty, operands, from, (to - 1) as nat);
    }
}

/// Reads an operand and puts it in its place in an aggregate.
fn import_part(
    site: &Site,
    ctx: &mut Context,
    block: BlockId,
    needs: &mut Needs,
    rust_ty: Option<TyId>,
    ty: &TypeHandle,
    whole: Value,
    operand: &Operand,
    i: usize,
) -> (r: Result<Value, Failure>)
    requires
        site.ready(*old(ctx), block),
        operand::operand_wf(*site.program, *operand),
        rust_ty matches Some(ty) ==> site.program.types.has(ty),
        old(ctx).has(whole),
    ensures
        final(ctx).computed_since(*old(ctx), block),
        match part_index(site.program.types, rust_ty, i as int) {
            Err(failure) => {
                &&& r matches Err(other) && other == failure
                &&& final(needs)@ == old(needs)@
            },
            Ok(index) => match operand::operand_value(
                site.scene(),
                old(ctx)@.now(block),
                *operand,
            ) {
                Err(failure) => {
                    &&& r matches Err(other) && other == failure
                    &&& final(needs)@ == old(needs)@
                },
                Ok(part) => match part_type(*ty, index) {
                    Err(failure) => {
                        &&& r matches Err(other) && other == failure
                        &&& final(needs)@ == old(needs)@ + part.needs
                    },
                    Ok(part_ty) => {
                        &&& r matches Ok(v) && final(ctx).has(v) && v.meaning@
                            == meaning::with_field(
                            whole.meaning@,
                            index,
                            meaning::as_type(part.value, part_ty),
                        )
                        &&& final(needs)@ == old(needs)@ + part.needs
                    },
                },
            },
        },
        site.ready(*final(ctx), block),
{
    let ghost before = *ctx;
    let index: u32 = index_of_part(&site.program.types, rust_ty, i)?;
    let value: Value = import_operand(site, ctx, block, needs, operand)?;
    let part_ty: TypeHandle = aggregate_field_type(ty, index)?;
    let value: Value = put_as_type(ctx, block, value, &part_ty);
    let r: Value = put_with_field(ctx, block, whole, index, value);
    proof {
        site.lemma_ready(*ctx, before, block);
    }
    Ok(r)
}

fn import_filled(
    site: &Site,
    ctx: &mut Context,
    block: BlockId,
    needs: &mut Needs,
    rust_ty: Option<TyId>,
    ty: &TypeHandle,
    operands: &Vec<Operand>,
) -> (r: Result<Value, Failure>)
    requires
        site.ready(*old(ctx), block),
        operand::operands_wf(*site.program, operands@),
        rust_ty matches Some(ty) ==> site.program.types.has(ty),
    ensures
        need::lowers_past(
            (*final(ctx), final(needs)@),
            (*old(ctx), old(needs)@),
            block,
            r,
            filled(
                site.scene(),
                old(ctx)@.now(block),
                rust_ty,
                *ty,
                operands@,
                operands@.len(),
            ),
        ),
{
    let ghost before = *ctx;
    let ghost at = ctx@.now(block);
    let ghost asked = needs@;
    let ghost scene = site.scene();
    let mut whole: Value = put_undef(ctx, block, ty);
    proof {
        site.lemma_ready(*ctx, before, block);
        assert(needs@ =~= asked + Seq::<Asked>::empty());
    }
    let mut i: usize = 0;
    while i < operands.len()
        invariant
            i <= operands@.len(),
            before == *old(ctx),
            asked == old(needs)@,
            at == before@.now(block),
            scene == site.scene(),
            site.ready(*ctx, block),
            operand::operands_wf(*site.program, operands@),
            rust_ty matches Some(ty) ==> site.program.types.has(ty),
            ctx.computed_since(before, block),
            ctx.has(whole),
            filled(scene, at, rust_ty, *ty, operands@, i as nat) matches Ok(done)
                && whole.meaning@ == done.value && needs@ == asked + done.needs,
        decreases operands@.len() - i,
    {
        let ghost done = filled(scene, at, rust_ty, *ty, operands@, i as nat)->Ok_0;
        match import_part(
            site,
            ctx,
            block,
            needs,
            rust_ty,
            ty,
            whole,
            &operands[i],
            i,
        ) {
            Ok(value) => {
                whole = value;
            },
            Err(failure) => {
                proof {
                    lemma_filled(
                        scene,
                        at,
                        rust_ty,
                        *ty,
                        operands@,
                        (i + 1) as nat,
                        operands@.len(),
                    );
                }
                return Err(failure);
            },
        }
        proof {
            let part = operand::operand_value(scene, at, operands@[i as int])->Ok_0;
            assert(needs@ =~= asked + (done.needs + part.needs));
        }
        i = i + 1;
    }
    proof {
        lemma_filled(scene, at, rust_ty, *ty, operands@, 0, operands@.len());
        ctx.lemma_computed(before, block);
    }
    Ok(whole)
}

/// The type that the fields of an aggregate are ordered by.
pub open spec fn ordering_type(kind: AggregateKind) -> Option<TyId> {
    match kind {
        AggregateKind::Adt(ty, _) => Some(ty),
        AggregateKind::Closure(ty) => Some(ty),
        AggregateKind::Tuple(ty) => Some(ty),
        _ => None,
    }
}

/// Whether a type is nominal, of a kind.
pub open spec fn is_adt(table: TyTable, ty: TyId, kind: AdtKind) -> bool {
    table.kind(ty) matches TyKind::Adt(other, _, _) && other == kind
}

fn is_adt_of(table: &TyTable, ty: TyId, kind: AdtKind) -> (r: bool)
    requires
        table.has(ty),
    ensures
        r == is_adt(*table, ty, kind),
{
    match &table.types[ty.0].kind {
        TyKind::Adt(other, _, _) => *other == kind,
        _ => false,
    }
}

/// What an aggregate is.
pub open spec fn aggregate_value(
    scene: Scene,
    at: Moment,
    kind: AggregateKind,
    operands: Seq<Operand>,
) -> Result<Lowered, Lost> {
    let table = scene.program.types;
    match result_type(table, kind, operands) {
        Err(failure) => Err(failure.at_once()),
        Ok(ty) => match kind {
            AggregateKind::RawPtr(pointee, _) => raw_pointer(scene, at, pointee, ty, operands),
            AggregateKind::Adt(adt, variant) => if is_adt(table, adt, AdtKind::Union) {
                need::unasked(union_value(scene, at, ty, operands))
            } else if table.is_fmt_argument(adt) {
                format_argument(scene, at, ty, variant_name(table, adt, variant), operands)
            } else if is_adt(table, adt, AdtKind::Enum) {
                variant_value(scene, at, adt, variant, ty, operands)
            } else {
                filled(scene, at, Some(adt), ty, operands, operands.len())
            },
            _ => filled(scene, at, ordering_type(kind), ty, operands, operands.len()),
        },
    }
}

/// Imports an aggregate.
pub fn import_aggregate(
    site: &Site,
    ctx: &mut Context,
    block: BlockId,
    needs: &mut Needs,
    kind: &AggregateKind,
    operands: &Vec<Operand>,
) -> (r: Result<Value, Failure>)
    requires
        site.ready(*old(ctx), block),
        kind_wf(site.program.types, *kind),
        operand::operands_wf(*site.program, operands@),
    ensures
        need::lowers_past(
            (*final(ctx), final(needs)@),
            (*old(ctx), old(needs)@),
            block,
            r,
            aggregate_value(site.scene(), old(ctx)@.now(block), *kind, operands@),
        ),
{
    let table: &TyTable = &site.program.types;
    let ty: TypeHandle = aggregate_result_ty(table, kind, operands)?;
    match kind {
        AggregateKind::RawPtr(pointee, _) => import_raw_pointer(
            site,
            ctx,
            block,
            needs,
            *pointee,
            &ty,
            operands,
        ),
        AggregateKind::Adt(adt, variant) => {
            if is_adt_of(table, *adt, AdtKind::Union) {
                import_union(site, ctx, block, needs, &ty, operands)
            } else if table.is_fmt_rt_argument_type(*adt) {
                import_format_argument(site, ctx, block, needs, *adt, *variant, &ty, operands)
            } else if is_adt_of(table, *adt, AdtKind::Enum) {
                import_variant(site, ctx, block, needs, *adt, *variant, &ty, operands)
            } else {
                import_filled(site, ctx, block, needs, Some(*adt), &ty, operands)
            }
        },
        AggregateKind::Closure(closure) => import_filled(
            site,
            ctx,
            block,
            needs,
            Some(*closure),
            &ty,
            operands,
        ),
        AggregateKind::Tuple(tuple) => import_filled(
            site,
            ctx,
            block,
            needs,
            Some(*tuple),
            &ty,
            operands,
        ),
        _ => import_filled(site, ctx, block, needs, None, &ty, operands),
    }
}

} // verus!
