//! The beginning of a function: storage for its locals, and the arguments
//! that it was called with.

use crate::abi::{AbiView, ArgAbi, ParamAbi};
use crate::convert;
use crate::convert::convert_storage_ty;
use crate::error::Failure;
use crate::ir::{BlockId, Context, Meaning, Value};
use crate::meaning;
use crate::meaning::{put_alloca, put_as_type, put_store, put_undef, put_with_field, Step};
use crate::passing;
use crate::passing::put_arrived;
use crate::place;
use crate::place::{
    converted_field_index, local_slot_opt, normalize_bool_for_storage, FunctionImportState,
};
use crate::sem::Moment;
use crate::signature;
use crate::signature::{Param, ParamView, Parameter};
use crate::ty::{TyId, TyTable};
use crate::types::TypeHandle;
use vstd::prelude::*;

verus! {

/// The storage of the first locals, each of which has its own if it has any.
pub open spec fn storage_for(table: TyTable, locals: Seq<TyId>, at: Moment, count: nat) -> Result<
    (Seq<Option<Meaning>>, Seq<Step>),
    Failure,
>
    decreases count,
{
    if count == 0 {
        Ok((Seq::empty(), Seq::empty()))
    } else {
        match storage_for(table, locals, at, (count - 1) as nat) {
            Err(failure) => Err(failure),
            Ok((slots, steps)) => match convert::storage(table, locals[count - 1]) {
                Err(failure) => Err(failure),
                Ok(None) => Ok((slots.push(None), steps)),
                Ok(Some(elem)) => Ok(
                    (
                        slots.push(Some(meaning::slot_at(meaning::later(at, steps.len()), elem))),
                        steps.push(Step::Alloca { elem }),
                    ),
                ),
            },
        }
    }
}

proof fn lemma_storage(table: TyTable, locals: Seq<TyId>, at: Moment, from: nat, to: nat)
    requires
        from <= to,
    ensures
        storage_for(table, locals, at, from) is Err ==> storage_for(table, locals, at, to)
            == storage_for(table, locals, at, from),
        storage_for(table, locals, at, to) matches Ok((slots, _)) ==> slots.len() == to,
    decreases to,
{
    if from < to {
        lemma_storage(table, locals, at, from, (to - 1) as nat);
    } else if to > 0 {
        lemma_storage(table, locals, at, (from - 1) as nat, (to - 1) as nat);
    }
}

/// What storage means.
pub open spec fn slots_view(slots: Seq<Option<Value>>) -> Seq<Option<Meaning>> {
    slots.map_values(|slot: Option<Value>| meaning::meaning_of(slot))
}

/// Makes storage for all locals.
pub fn put_storage(table: &TyTable, ctx: &mut Context, block: BlockId, locals: &Vec<TyId>) -> (r: Result<
    Vec<Option<Value>>,
    Failure,
>)
    requires
        table.wf(),
        place::locals_wf(*table, locals@),
        old(ctx).wf(),
        old(ctx).has_block(block),
    ensures
        match storage_for(*table, locals@, old(ctx)@.now(block), locals@.len()) {
            Ok((slots, steps)) => {
                &&& r matches Ok(found) && slots_view(found@) == slots && forall|i: int|
                    0 <= i < found@.len() ==> (#[trigger] found@[i] matches Some(v)
                        ==> final(ctx).has(v))
                &&& final(ctx).ran_since(*old(ctx), block, steps)
            },
            Err(failure) => {
                &&& r matches Err(other) && other == failure
                &&& final(ctx).touched_since(*old(ctx), block)
            },
        },
{
    let ghost before = *ctx;
    let ghost at = ctx@.now(block);
    let mut slots: Vec<Option<Value>> = Vec::new();
    let mut i: usize = 0;
    proof {
        ctx.lemma_computed(before, block);
        assert(slots_view(slots@) =~= Seq::empty());
    }
    while i < locals.len()
        invariant
            i <= locals@.len(),
            table.wf(),
            place::locals_wf(*table, locals@),
            before == *old(ctx),
            before.has_block(block),
            at == before@.now(block),
            ctx.wf(),
            ctx.has_block(block),
            slots@.len() == i,
            forall|k: int|
                0 <= k < slots@.len() ==> (#[trigger] slots@[k] matches Some(v) ==> ctx.has(v)),
            storage_for(*table, locals@, at, i as nat) matches Ok((want, steps)) && slots_view(
                slots@,
            ) == want && ctx.ran_since(before, block, steps),
        decreases locals@.len() - i,
    {
        let ghost middle = *ctx;
        let ghost (want, steps) = storage_for(*table, locals@, at, i as nat)->Ok_0;
        proof {
            ctx.lemma_time(before, block, steps);
            lemma_storage(*table, locals@, at, (i + 1) as nat, locals@.len());
        }
        match convert_storage_ty(table, locals[i])? {
            None => {
                slots.push(None);
                assert(slots_view(slots@) =~= want.push(None));
            },
            Some(ty) => {
                let slot: Value = put_alloca(ctx, block, &ty);
                slots.push(Some(slot));
                proof {
                    let step = Step::Alloca { elem: ty };
                    ctx.lemma_ran(middle, before, block, steps, seq![step]);
                    assert(steps + seq![step] =~= steps.push(step));
                    assert(slots_view(slots@) =~= want.push(Some(slot.meaning@)));
                }
            },
        }
        i = i + 1;
    }
    Ok(slots)
}

/// A tuple put together from the first of its elements, each of which arrives
/// on its own, and how many arguments they took.
pub open spec fn gathered(
    table: TyTable,
    at: Moment,
    tuple: TyId,
    storage: TypeHandle,
    elements: Seq<(TypeHandle, AbiView)>,
    args: Seq<Meaning>,
    count: nat,
) -> Result<Meaning, Failure>
    decreases count,
{
    if count == 0 {
        Ok(meaning::undefined(storage))
    } else {
        match gathered(table, at, tuple, storage, elements, args, (count - 1) as nat) {
            Err(failure) => Err(failure),
            Ok(whole) => {
                let (ty, abi) = elements[count - 1];
                let taken = signature::element_inputs(elements, (count - 1) as nat).len();
                let element = passing::arrived(at, ty, abi, args.skip(taken as int));
                match place::field_index(table, tuple, (count - 1) as usize) {
                    Err(failure) => Err(failure),
                    Ok(index) => Ok(
                        meaning::with_field(whole, index, meaning::as_type(element, ty)),
                    ),
                }
            },
        }
    }
}

proof fn lemma_gathered_fail(
    table: TyTable,
    at: Moment,
    tuple: TyId,
    storage: TypeHandle,
    elements: Seq<(TypeHandle, AbiView)>,
    args: Seq<Meaning>,
    from: nat,
    to: nat,
)
    requires
        from <= to,
        gathered(table, at, tuple, storage, elements, args, from) is Err,
    ensures
        gathered(table, at, tuple, storage, elements, args, to) == gathered(
            table,
            at,
            tuple,
            storage,
            elements,
            args,
            from,
        ),
    decreases to,
{
    if from < to {
        lemma_gathered_fail(table, at, tuple, storage, elements, args, from, (to - 1) as nat);
    }
}

/// The inputs of more elements are no fewer.
proof fn lemma_more_inputs(elements: Seq<(TypeHandle, AbiView)>, from: nat, to: nat)
    requires
        from <= to,
    ensures
        signature::element_inputs(elements, from).len() <= signature::element_inputs(
            elements,
            to,
        ).len(),
    decreases to,
{
    if from < to {
        lemma_more_inputs(elements, from, (to - 1) as nat);
    }
}

fn put_gathered(
    table: &TyTable,
    ctx: &mut Context,
    entry: BlockId,
    tuple: TyId,
    storage: &TypeHandle,
    elements: &Vec<(TypeHandle, ArgAbi)>,
    index: &mut usize,
) -> (r: Result<Value, Failure>)
    requires
        table.wf(),
        table.has(tuple),
        old(ctx).wf(),
        old(ctx).has_block(entry),
        *old(index) + signature::element_inputs(
            signature::elements_view(elements@),
            elements@.len(),
        ).len() <= old(ctx)@.args[entry.0 as int].len(),
    ensures
        final(ctx).computed_since(*old(ctx), entry),
        place::gives(
            *final(ctx),
            r,
            gathered(
                *table,
                old(ctx)@.now(entry),
                tuple,
                *storage,
                signature::elements_view(elements@),
                meaning::meanings(old(ctx)@.args[entry.0 as int].skip(*old(index) as int)),
                elements@.len(),
            ),
        ),
        r is Ok ==> *final(index) == *old(index) + signature::element_inputs(
            signature::elements_view(elements@),
            elements@.len(),
        ).len(),
{
    let ghost before = *ctx;
    let ghost at = ctx@.now(entry);
    let ghost list = signature::elements_view(elements@);
    let ghost given = before@.args[entry.0 as int];
    let ghost start = *index as int;
    let ghost args = meaning::meanings(given.skip(start));
    let mut current: Value = put_undef(ctx, entry, storage);
    let mut i: usize = 0;
    while i < elements.len()
        invariant
            i <= elements@.len(),
            table.wf(),
            table.has(tuple),
            before == *old(ctx),
            before.has_block(entry),
            at == before@.now(entry),
            list == signature::elements_view(elements@),
            given == before@.args[entry.0 as int],
            start == *old(index),
            args == meaning::meanings(given.skip(start)),
            start + signature::element_inputs(list, list.len()).len() <= given.len(),
            ctx.wf(),
            ctx.computed_since(before, entry),
            ctx.has(current),
            *index == start + signature::element_inputs(list, i as nat).len(),
            gathered(*table, at, tuple, *storage, list, args, i as nat) == Ok::<Meaning, Failure>(
                current.meaning@,
            ),
        decreases elements@.len() - i,
    {
        proof {
            lemma_more_inputs(list, (i + 1) as nat, list.len());
            if gathered(*table, at, tuple, *storage, list, args, (i + 1) as nat) is Err {
                lemma_gathered_fail(
                    *table,
                    at,
                    tuple,
                    *storage,
                    list,
                    args,
                    (i + 1) as nat,
                    list.len(),
                );
            }
            let taken = signature::element_inputs(list, i as nat).len() as int;
            assert(list[i as int] == (elements@[i as int].0, elements@[i as int].1@));
            assert(meaning::meanings(given.skip(start + taken)) =~= args.skip(taken));
        }
        let element: Value = put_arrived(
            ctx,
            entry,
            entry,
            &elements[i].0,
            &elements[i].1,
            index,
        );
        let stored: Value = put_as_type(ctx, entry, element, &elements[i].0);
        let field: u32 = converted_field_index(table, tuple, i)?;
        current = put_with_field(ctx, entry, current, field, stored);
        i = i + 1;
    }
    Ok(current)
}

/// A parameter as it arrives.
pub open spec fn incoming(
    table: TyTable,
    at: Moment,
    ty: TyId,
    param: Parameter,
    args: Seq<Meaning>,
) -> Result<Meaning, Failure> {
    match param.abi {
        ParamView::Single(abi) => Ok(passing::arrived(at, param.storage, abi, args)),
        ParamView::Spread(elements) => gathered(
            table,
            at,
            ty,
            param.storage,
            elements,
            args,
            elements.len(),
        ),
    }
}

/// What storing the first parameters does, and how many arguments they took.
pub open spec fn arrivals(
    table: TyTable,
    locals: Seq<TyId>,
    slots: Seq<Option<Meaning>>,
    at: Moment,
    params: Seq<Parameter>,
    args: Seq<Meaning>,
    count: nat,
) -> Result<(nat, Seq<Step>), Failure>
    decreases count,
{
    if count == 0 {
        Ok((0, Seq::empty()))
    } else {
        match arrivals(table, locals, slots, at, params, args, (count - 1) as nat) {
            Err(failure) => Err(failure),
            Ok((taken, steps)) => {
                let param = params[count - 1];
                match place::slot_of(slots, param.local) {
                    Err(failure) => Err(failure),
                    Ok(None) => Ok((taken, steps)),
                    Ok(Some(slot)) => match place::local_ty(locals, param.local) {
                        Err(failure) => Err(failure),
                        Ok(ty) => match incoming(
                            table,
                            meaning::later(at, steps.len()),
                            ty,
                            param,
                            args.skip(taken as int),
                        ) {
                            Err(failure) => Err(failure),
                            Ok(value) => Ok(
                                (
                                    taken + param.abi.inputs().len(),
                                    steps.push(
                                        Step::Store {
                                            addr: slot,
                                            value: place::as_stored(table, ty, value),
                                        },
                                    ),
                                ),
                            ),
                        },
                    },
                }
            },
        }
    }
}

proof fn lemma_arrivals(
    table: TyTable,
    locals: Seq<TyId>,
    slots: Seq<Option<Meaning>>,
    at: Moment,
    params: Seq<Parameter>,
    args: Seq<Meaning>,
    from: nat,
    to: nat,
)
    requires
        from <= to,
    ensures
        arrivals(table, locals, slots, at, params, args, from) is Err ==> arrivals(
            table,
            locals,
            slots,
            at,
            params,
            args,
            to,
        ) == arrivals(table, locals, slots, at, params, args, from),
        signature::all_inputs(params, from).len() <= signature::all_inputs(params, to).len(),
    decreases to,
{
    if from < to {
        lemma_arrivals(table, locals, slots, at, params, args, from, (to - 1) as nat);
    }
}

fn put_incoming(
    table: &TyTable,
    ctx: &mut Context,
    entry: BlockId,
    ty: TyId,
    param: &Param,
    index: &mut usize,
) -> (r: Result<Value, Failure>)
    requires
        table.wf(),
        table.has(ty),
        old(ctx).wf(),
        old(ctx).has_block(entry),
        *old(index) + param@.abi.inputs().len() <= old(ctx)@.args[entry.0 as int].len(),
    ensures
        final(ctx).computed_since(*old(ctx), entry),
        place::gives(
            *final(ctx),
            r,
            incoming(
                *table,
                old(ctx)@.now(entry),
                ty,
                param@,
                meaning::meanings(old(ctx)@.args[entry.0 as int].skip(*old(index) as int)),
            ),
        ),
        r is Ok ==> *final(index) == *old(index) + param@.abi.inputs().len(),
{
    match &param.abi {
        ParamAbi::Single(abi) => Ok(put_arrived(ctx, entry, entry, &param.storage, abi, index)),
        ParamAbi::Spread(elements) => put_gathered(
            table,
            ctx,
            entry,
            ty,
            &param.storage,
            elements,
            index,
        ),
    }
}

/// Stores the parameters in their locals.
pub fn put_arrivals(
    table: &TyTable,
    ctx: &mut Context,
    state: &FunctionImportState,
    entry: BlockId,
    locals: &Vec<TyId>,
    params: &Vec<Param>,
) -> (r: Result<(), Failure>)
    requires
        table.wf(),
        place::locals_wf(*table, locals@),
        state.fits(*old(ctx)),
        old(ctx).wf(),
        old(ctx).has_block(entry),
        signature::all_inputs(signature::params_view(params@), params@.len()).len()
            <= old(ctx)@.args[entry.0 as int].len(),
    ensures
        match arrivals(
            *table,
            locals@,
            state.slots(),
            old(ctx)@.now(entry),
            signature::params_view(params@),
            meaning::meanings(old(ctx)@.args[entry.0 as int]),
            params@.len(),
        ) {
            Ok((_, steps)) => {
                &&& r is Ok
                &&& final(ctx).ran_since(*old(ctx), entry, steps)
            },
            Err(failure) => {
                &&& r == Err::<(), Failure>(failure)
                &&& final(ctx).touched_since(*old(ctx), entry)
            },
        },
{
    let ghost before = *ctx;
    let ghost at = ctx@.now(entry);
    let ghost list = signature::params_view(params@);
    let ghost given = before@.args[entry.0 as int];
    let ghost args = meaning::meanings(given);
    let ghost slots = state.slots();
    let mut index: usize = 0;
    let mut i: usize = 0;
    proof {
        ctx.lemma_computed(before, entry);
    }
    while i < params.len()
        invariant
            i <= params@.len(),
            table.wf(),
            place::locals_wf(*table, locals@),
            before == *old(ctx),
            before.has_block(entry),
            at == before@.now(entry),
            list == signature::params_view(params@),
            given == before@.args[entry.0 as int],
            args == meaning::meanings(given),
            slots == state.slots(),
            signature::all_inputs(list, list.len()).len() <= given.len(),
            ctx.wf(),
            ctx.has_block(entry),
            state.fits(*ctx),
            index <= signature::all_inputs(list, i as nat).len(),
            arrivals(*table, locals@, slots, at, list, args, i as nat) matches Ok((taken, steps))
                && taken == index && ctx.ran_since(before, entry, steps),
        decreases params@.len() - i,
    {
        let ghost middle = *ctx;
        let ghost (taken, steps) = arrivals(
            *table,
            locals@,
            slots,
            at,
            list,
            args,
            i as nat,
        )->Ok_0;
        proof {
            ctx.lemma_time(before, entry, steps);
            lemma_arrivals(
                *table,
                locals@,
                slots,
                at,
                list,
                args,
                (i + 1) as nat,
                params@.len(),
            );
            assert(list[i as int] == params@[i as int]@);
            assert(meaning::meanings(given.skip(index as int)) =~= args.skip(index as int));
        }
        let slot: Option<Value> = local_slot_opt(ctx, state, params[i].local)?;
        if let Some(slot) = slot {
            if params[i].local >= locals.len() {
                return Err(Failure::UnknownLocal(params[i].local));
            }
            let ty: TyId = locals[params[i].local];
            let value: Value = put_incoming(table, ctx, entry, ty, &params[i], &mut index)?;
            let stored: Value = normalize_bool_for_storage(table, ctx, entry, ty, value);
            let ghost ready = *ctx;
            put_store(ctx, entry, stored, slot);
            proof {
                let step = Step::Store { addr: slot.meaning@, value: stored.meaning@ };
                ctx.lemma_computed_ran(ready, middle, entry, seq![step]);
                ctx.lemma_ran(middle, before, entry, steps, seq![step]);
                assert(steps + seq![step] =~= steps.push(step));
            }
        }
        i = i + 1;
    }
    Ok(())
}

} // verus!
