//! Statements.

use crate::cast;
use crate::convert::{llvm_ptr_ty, usize_ty};
use crate::enums;
use crate::enums::write_enum_tag;
use crate::error::{Failure, PlaceTy};
use crate::ir::{BlockId, Context, Meaning, Value};
use crate::layout;
use crate::layout::layout_size_of_ty;
use crate::meaning;
use crate::meaning::scale_index;
use crate::mir::{Operand, Place, Program, Rvalue, Statement};
use crate::need;
use crate::need::{call_outside, Asked, Effect, Lost, Needs};
use crate::operand;
use crate::operand::{address_of_place, import_operand, write_place, Scene, Site};
use crate::place;
use crate::place::{place_slot_opt, pointee_ty};
use crate::rvalue;
use crate::rvalue::import_rvalue;
use crate::sem::Moment;
use crate::ty::{TyId, TyTable};
use crate::types;
use crate::types::TypeHandle;
use vstd::prelude::*;

verus! {

/// Whether the types that a statement names stand in the program.
pub open spec fn statement_wf(program: Program, statement: Statement) -> bool {
    match statement {
        Statement::Assign(place, rvalue) => place::place_wf(program.types, place)
            && rvalue::rvalue_wf(program, rvalue),
        Statement::SetDiscriminant(place, _) => place::place_wf(program.types, place),
        Statement::CopyNonOverlapping { src, dst, count } => operand::operand_wf(program, src)
            && operand::operand_wf(program, dst) && operand::operand_wf(program, count),
        _ => true,
    }
}

/// Nothing.
pub open spec fn idle() -> Effect {
    Effect { needs: Seq::empty(), steps: Seq::empty() }
}

/// What an assignment does.
pub open spec fn assignment(scene: Scene, at: Moment, place: Place, value: Rvalue) -> Result<
    Effect,
    Lost,
> {
    match rvalue::rvalue_value(scene, at, value) {
        Err(lost) => Err(lost),
        Ok(lowered) => match scene.write(
            meaning::later(at, lowered.steps.len()),
            place,
            lowered.value,
        ) {
            Err(failure) => Err(failure.after(lowered.needs)),
            Ok(step) => Ok(
                Effect { needs: lowered.needs, steps: lowered.steps.push(step) },
            ),
        },
    }
}

/// Whether a place is a local without storage.
pub open spec fn is_storageless(scene: Scene, place: Place) -> Result<bool, Failure> {
    if place.projection@.len() > 0 {
        Ok(false)
    } else {
        match place::plain_slot(scene.slots, place) {
            Err(failure) => Err(failure),
            Ok(slot) => Ok(slot is None),
        }
    }
}

/// The number of bytes of as many values as lie behind a pointer of a type.
pub open spec fn byte_count(table: TyTable, ptr: TyId, number: Meaning) -> Result<Meaning, Failure> {
    match place::pointee(table, PlaceTy::Ty(ptr)) {
        Err(failure) => Err(failure),
        Ok(elem) => match layout::size_of(table, elem) {
            Err(failure) => Err(failure),
            Ok(size) => meaning::scale(number, size),
        },
    }
}

fn put_byte_count(
    table: &TyTable,
    ctx: &mut Context,
    block: BlockId,
    ptr: TyId,
    number: Value,
) -> (r: Result<Value, Failure>)
    requires
        table.wf(),
        table.has(ptr),
        old(ctx).wf(),
        old(ctx).has_block(block),
        old(ctx).has(number),
    ensures
        final(ctx).computed_since(*old(ctx), block),
        place::gives(*final(ctx), r, byte_count(*table, ptr, number.meaning@)),
{
    let elem: TyId = pointee_ty(table, PlaceTy::Ty(ptr))?;
    let size: u64 = layout_size_of_ty(table, elem)?;
    scale_index(ctx, block, number, size)
}

/// What copying memory does.
pub open spec fn copying(
    scene: Scene,
    at: Moment,
    src: Operand,
    dst: Operand,
    count: Operand,
) -> Result<Effect, Lost> {
    let table = scene.program.types;
    match operand::operand_pair(scene, at, dst, src) {
        Err(lost) => Err(lost),
        Ok((to, from, first)) => match operand::operand_value(scene, at, count) {
            Err(failure) => Err(failure.after(first)),
            Ok(number) => match byte_count(table, src.ty(), number.value) {
                Err(failure) => Err(failure.after(first + number.needs)),
                Ok(bytes) => {
                    let call = need::outside(
                        at,
                        "memcpy"@,
                        seq![types::pointer(), types::pointer(), types::unsigned(64)],
                        seq![to, from, bytes],
                        Some(types::pointer()),
                    );
                    Ok(Effect { needs: first + number.needs + call.needs, steps: call.steps })
                },
            },
        },
    }
}

/// What a statement does.
pub open spec fn statement_effect(scene: Scene, at: Moment, statement: Statement) -> Result<
    Effect,
    Lost,
> {
    match statement {
        Statement::Assign(place, value) => match is_storageless(scene, place) {
            Err(failure) => Err(failure.at_once()),
            Ok(true) => Ok(idle()),
            Ok(false) => assignment(scene, at, place, value),
        },
        Statement::Nop => Ok(idle()),
        Statement::SetDiscriminant(place, variant) => if !scene.program.types.is_enum(place.ty) {
            Ok(idle())
        } else {
            match scene.address(at, place) {
                Err(failure) => Err(failure.at_once()),
                Ok(addr) => match enums::tag_write(
                    scene.program.types,
                    place.ty,
                    variant,
                    addr,
                ) {
                    Err(failure) => Err(failure.at_once()),
                    Ok(steps) => Ok(Effect { needs: Seq::empty(), steps }),
                },
            }
        },
        Statement::Assume => Ok(idle()),
        Statement::CopyNonOverlapping { src, dst, count } => copying(scene, at, src, dst, count),
        Statement::Other => Err(Failure::Statement.at_once()),
    }
}

fn import_assignment(
    site: &Site,
    ctx: &mut Context,
    block: BlockId,
    needs: &mut Needs,
    place: &Place,
    value: &Rvalue,
) -> (r: Result<(), Failure>)
    requires
        site.ready(*old(ctx), block),
        cast::lists_wf(*site.program),
        place::place_wf(site.program.types, *place),
        rvalue::rvalue_wf(*site.program, *value),
    ensures
        need::does_past(
            (*final(ctx), final(needs)@),
            (*old(ctx), old(needs)@),
            block,
            r,
            assignment(site.scene(), old(ctx)@.now(block), *place, *value),
        ),
{
    let ghost before = *ctx;
    let ghost at = ctx@.now(block);
    let v: Value = import_rvalue(site, ctx, block, needs, value)?;
    let ghost middle = *ctx;
    let ghost lowered = rvalue::rvalue_value(site.scene(), at, *value)->Ok_0;
    proof {
        ctx.lemma_time(before, block, lowered.steps);
        site.lemma_ready(*ctx, before, block);
    }
    write_place(site, ctx, block, place, v)?;
    proof {
        let step = site.scene().write(
            meaning::later(at, lowered.steps.len()),
            *place,
            v.meaning@,
        )->Ok_0;
        ctx.lemma_ran(middle, before, block, lowered.steps, seq![step]);
        assert(lowered.steps + seq![step] =~= lowered.steps.push(step));
    }
    Ok(())
}

fn import_copying(
    site: &Site,
    ctx: &mut Context,
    block: BlockId,
    needs: &mut Needs,
    src: &Operand,
    dst: &Operand,
    count: &Operand,
) -> (r: Result<(), Failure>)
    requires
        site.ready(*old(ctx), block),
        operand::operand_wf(*site.program, *src),
        operand::operand_wf(*site.program, *dst),
        operand::operand_wf(*site.program, *count),
    ensures
        need::does(
            (*final(ctx), final(needs)@),
            (*old(ctx), old(needs)@),
            block,
            r,
            copying(site.scene(), old(ctx)@.now(block), *src, *dst, *count),
        ),
{
    let ghost before = *ctx;
    let ghost at = ctx@.now(block);
    let (to, from): (Value, Value) = operand::import_pair(site, ctx, block, needs, dst, src)?;
    let ghost first = operand::operand_pair(site.scene(), at, *dst, *src)->Ok_0.2;
    let number: Value = import_operand(site, ctx, block, needs, count)?;
    let ghost second = operand::operand_value(site.scene(), at, *count)->Ok_0.needs;
    assert(needs@ =~= old(needs)@ + (first + second));
    let bytes: Value = put_byte_count(&site.program.types, ctx, block, src.type_of(), number)?;
    let ghost middle = *ctx;
    let inputs: Vec<TypeHandle> = vec![llvm_ptr_ty(), llvm_ptr_ty(), usize_ty()];
    assert(inputs@ =~= seq![types::pointer(), types::pointer(), types::unsigned(64)]);
    let args: Vec<Value> = vec![to, from, bytes];
    assert(meaning::meanings(args@) =~= seq![to.meaning@, from.meaning@, bytes.meaning@]);
    call_outside(ctx, block, needs, "memcpy", inputs, args, Some(llvm_ptr_ty()));
    proof {
        let call = need::outside(
            at,
            "memcpy"@,
            seq![types::pointer(), types::pointer(), types::unsigned(64)],
            seq![to.meaning@, from.meaning@, bytes.meaning@],
            Some(types::pointer()),
        );
        ctx.lemma_computed_ran(middle, before, block, call.steps);
        assert(needs@ =~= old(needs)@ + (first + second + call.needs));
    }
    Ok(())
}

/// Imports a statement.
pub fn import_statement(
    site: &Site,
    ctx: &mut Context,
    block: BlockId,
    needs: &mut Needs,
    statement: &Statement,
) -> (r: Result<(), Failure>)
    requires
        site.ready(*old(ctx), block),
        cast::lists_wf(*site.program),
        statement_wf(*site.program, *statement),
    ensures
        need::does_past(
            (*final(ctx), final(needs)@),
            (*old(ctx), old(needs)@),
            block,
            r,
            statement_effect(site.scene(), old(ctx)@.now(block), *statement),
        ),
{
    let ghost before = *ctx;
    proof {
        ctx.lemma_computed(before, block);
        assert(needs@ =~= old(needs)@ + Seq::<Asked>::empty());
    }
    match statement {
        Statement::Assign(place, value) => {
            if place.projection.len() == 0 && place_slot_opt(ctx, site.state, place)?.is_none() {
                return Ok(());
            }
            import_assignment(site, ctx, block, needs, place, value)
        },
        Statement::Nop | Statement::Assume => Ok(()),
        Statement::SetDiscriminant(place, variant) => {
            if !site.program.types.is_enum_ty(place.ty) {
                return Ok(());
            }
            let addr: Value = address_of_place(site, ctx, block, place)?;
            let ghost middle = *ctx;
            write_enum_tag(&site.program.types, ctx, block, place.ty, *variant, addr)?;
            proof {
                let steps = enums::tag_write(
                    site.program.types,
                    place.ty,
                    *variant,
                    addr.meaning@,
                )->Ok_0;
                ctx.lemma_computed_ran(middle, before, block, steps);
            }
            Ok(())
        },
        Statement::CopyNonOverlapping { src, dst, count } => import_copying(
            site,
            ctx,
            block,
            needs,
            src,
            dst,
            count,
        ),
        Statement::Other => Err(Failure::Statement),
    }
}

} // verus!
