//! Calls of intrinsics, which have no body to import.

use crate::arith;
use crate::arith::{is_128_bit_integer_value, lower_signed_saturating, lower_unsigned_saturating};
use crate::bitwise;
use crate::bitwise::{
    check_rotation, put_bits, put_lanes_compared, put_lanes_equal, put_rotated, put_splat, BitOp,
};
use crate::cast;
use crate::cast::spill;
use crate::convert;
use crate::convert::{convert_immediate_ty, convert_storage_ty, llvm_ptr_ty, usize_ty};
use crate::error::Failure;
use crate::floats;
use crate::floats::{float_math_intrinsic, float_symbol, FloatMathLowering};
use crate::foreign;
use crate::foreign::load_value_from_real_layout;
use crate::ir::{BlockId, Context, Meaning, Value};
use crate::layout;
use crate::layout::{layout_size_of_ty, rustc_layout_align_of_ty, rustc_layout_size_of_ty};
use crate::meaning;
use crate::meaning::{
    ptr_offset_const, put_alloca, put_arith, put_as_type, put_call, put_cast, put_field, put_load,
    put_offset, put_size, put_store, scale_index, value_has_field, Arith, Step,
};
use crate::mir::{BinOp, Instance, InstanceKind, Operand, Place, Program};
use crate::need;
use crate::need::{
    call_outside, instance_symbol_of, Asked, Demand, Effect, Lost, Lowered, Need, Needs, Purpose,
};
use crate::operand;
use crate::operand::{import_operand, import_operands, import_pair, write_place, Scene, Site};
use crate::passing;
use crate::passing::put_passed;
use crate::place;
use crate::place::normalize_bool_for_storage;
use crate::rvalue;
use crate::sem;
use crate::sem::{Env, Moment};
use crate::text;
use crate::text::{decimal, join, same};
use crate::ty::{TyId, TyKind, TyTable};
use crate::types;
use crate::types::{Signedness, TypeHandle};
use crate::wide;
use crate::wide::{lower_float_to_i128_sat, lower_i128_divrem};
use vstd::prelude::*;

verus! {

/// What the call of an intrinsic comes to.
pub enum Reply {
    /// The intrinsic is not known; what was needed to find out.
    Unknown(Seq<Asked>),
    /// It does something.
    Done(Effect),
    /// It has a result.
    Value(Lowered),
}

/// What the call of an intrinsic came to.
pub enum Answer {
    Unknown,
    Done,
    Value(Value),
}

/// Whether the call of an intrinsic came to what it should.
pub open spec fn replies(
    new: (Context, Seq<Asked>),
    old: (Context, Seq<Asked>),
    block: BlockId,
    r: Result<Answer, Failure>,
    want: Result<Reply, Lost>,
) -> bool {
    match want {
        Ok(Reply::Unknown(needs)) => {
            &&& r matches Ok(Answer::Unknown)
            &&& new.0.ran_since(old.0, block, Seq::empty())
            &&& new.1 == old.1 + needs
        },
        Ok(Reply::Done(effect)) => {
            &&& r matches Ok(Answer::Done)
            &&& new.0.ran_since(old.0, block, effect.steps)
            &&& new.1 == old.1 + effect.needs
        },
        Ok(Reply::Value(lowered)) => {
            &&& r matches Ok(Answer::Value(v)) && new.0.has(v) && v.meaning@ == lowered.value
            &&& new.0.ran_since(old.0, block, lowered.steps)
            &&& new.1 == old.1 + lowered.needs
        },
        Err(lost) => {
            &&& r matches Err(other) && other == lost.why
            &&& new.0.computed_since(old.0, block)
            &&& new.1 =~= old.1 + lost.needs
        },
    }
}

/// Whether the call of an intrinsic came out as it should; where it fails, some
/// steps are left behind.
pub open spec fn replies_past(
    new: (Context, Seq<Asked>),
    old: (Context, Seq<Asked>),
    block: BlockId,
    r: Result<Answer, Failure>,
    want: Result<Reply, Lost>,
    left: Seq<Step>,
) -> bool {
    match want {
        Ok(Reply::Unknown(needs)) => {
            &&& r matches Ok(Answer::Unknown)
            &&& new.0.ran_since(old.0, block, Seq::empty())
            &&& new.1 == old.1 + needs
        },
        Ok(Reply::Done(effect)) => {
            &&& r matches Ok(Answer::Done)
            &&& new.0.ran_since(old.0, block, effect.steps)
            &&& new.1 == old.1 + effect.needs
        },
        Ok(Reply::Value(lowered)) => {
            &&& r matches Ok(Answer::Value(v)) && new.0.has(v) && v.meaning@ == lowered.value
            &&& new.0.ran_since(old.0, block, lowered.steps)
            &&& new.1 == old.1 + lowered.needs
        },
        Err(lost) => {
            &&& r matches Err(other) && other == lost.why
            &&& new.0.ran_since(old.0, block, left)
            &&& new.1 =~= old.1 + lost.needs
        },
    }
}

/// Nothing to do.
pub open spec fn nothing() -> Reply {
    Reply::Done(Effect { needs: Seq::empty(), steps: Seq::empty() })
}

/// A result that is only computed, of operands that need something.
pub open spec fn result(needs: Seq<Asked>, value: Result<Meaning, Failure>) -> Result<
    Reply,
    Lost,
> {
    match value {
        Err(failure) => Err(failure.after(needs)),
        Ok(value) => Ok(Reply::Value(Lowered { value, needs, steps: Seq::empty() })),
    }
}

/// A type that an instance is applied to.
pub open spec fn type_arg(instance: Instance, index: int) -> Result<TyId, Failure> {
    if 0 <= index < instance.args@.len() {
        Ok(instance.args@[index])
    } else {
        Err(Failure::Malformed)
    }
}

/// Whether the types that an instance is applied to stand in the program.
pub open spec fn args_wf(program: Program, instance: Instance) -> bool {
    forall|i: int|
        0 <= i < instance.args@.len() ==> program.types.has(#[trigger] instance.args@[i])
}

fn type_arg_of(program: &Program, instance: &Instance, index: usize) -> (r: Result<TyId, Failure>)
    requires
        args_wf(*program, *instance),
    ensures
        r == type_arg(*instance, index as int),
        r matches Ok(ty) ==> program.types.has(ty),
{
    if index < instance.args.len() {
        Ok(instance.args[index])
    } else {
        Err(Failure::Malformed)
    }
}

/// The size of a type that an instance is applied to.
pub open spec fn arg_size(table: TyTable, instance: Instance, index: int) -> Result<u64, Failure> {
    match type_arg(instance, index) {
        Err(failure) => Err(failure),
        Ok(ty) => layout::size_of(table, ty),
    }
}

fn arg_size_of(program: &Program, instance: &Instance, index: usize) -> (r: Result<u64, Failure>)
    requires
        program.types.wf(),
        args_wf(*program, *instance),
    ensures
        r == arg_size(program.types, *instance, index as int),
{
    let ty: TyId = type_arg_of(program, instance, index)?;
    layout_size_of_ty(&program.types, ty)
}

/// A value in the type of what holds the result.
pub open spec fn for_place(table: TyTable, dest: Place, value: Meaning) -> Result<
    Meaning,
    Failure,
> {
    match convert::immediate(table, dest.ty) {
        Err(failure) => Err(failure),
        Ok(ty) => Ok(meaning::as_type(value, ty)),
    }
}

fn put_for_place(
    table: &TyTable,
    ctx: &mut Context,
    block: BlockId,
    dest: &Place,
    value: Value,
) -> (r: Result<Value, Failure>)
    requires
        table.wf(),
        table.has(dest.ty),
        old(ctx).wf(),
        old(ctx).has_block(block),
        old(ctx).has(value),
    ensures
        final(ctx).computed_since(*old(ctx), block),
        place::gives(*final(ctx), r, for_place(*table, *dest, value.meaning@)),
{
    let ty: TypeHandle = convert_immediate_ty(table, dest.ty)?;
    Ok(put_as_type(ctx, block, value, &ty))
}

/// A value that passes through unchanged.
pub open spec fn black_box(scene: Scene, at: Moment, instance: Instance, args: Seq<Operand>) -> Result<
    Reply,
    Lost,
> {
    if args.len() != 1 {
        Err(Failure::Arity(args.len() as usize).at_once())
    } else {
        match arg_size(scene.program.types, instance, 0) {
            Err(failure) => Err(failure.at_once()),
            Ok(size) => if size == 0 {
                Ok(nothing())
            } else {
                match operand::operand_value(scene, at, args[0]) {
                    Err(failure) => Err(failure.at_once()),
                    Ok(value) => Ok(Reply::Value(value)),
                }
            },
        }
    }
}

fn lower_black_box(
    site: &Site,
    ctx: &mut Context,
    block: BlockId,
    needs: &mut Needs,
    instance: &Instance,
    args: &Vec<Operand>,
) -> (r: Result<Answer, Failure>)
    requires
        site.ready(*old(ctx), block),
        args_wf(*site.program, *instance),
        operand::operands_wf(*site.program, args@),
    ensures
        replies(
            (*final(ctx), final(needs)@),
            (*old(ctx), old(needs)@),
            block,
            r,
            black_box(site.scene(), old(ctx)@.now(block), *instance, args@),
        ),
{
    let ghost before = *ctx;
    proof {
        ctx.lemma_computed(before, block);
        assert(needs@ =~= old(needs)@ + Seq::<Asked>::empty());
    }
    if args.len() != 1 {
        return Err(Failure::Arity(args.len()));
    }
    let size: u64 = arg_size_of(site.program, instance, 0)?;
    if size == 0 {
        return Ok(Answer::Done);
    }
    let value: Value = import_operand(site, ctx, block, needs, &args[0])?;
    proof {
        ctx.lemma_computed(before, block);
        operand::lemma_operand_idle(site.scene(), before@.now(block), args@[0]);
    }
    Ok(Answer::Value(value))
}

/// A read of memory that other threads may write.
pub open spec fn atomic_load(scene: Scene, at: Moment, instance: Instance, args: Seq<Operand>) -> Result<
    Reply,
    Lost,
> {
    if args.len() != 1 {
        Err(Failure::Arity(args.len() as usize).at_once())
    } else {
        match operand::operand_value(scene, at, args[0]) {
            Err(failure) => Err(failure.at_once()),
            Ok(ptr) => match type_arg(instance, 0) {
                Err(failure) => Err(failure.after(ptr.needs)),
                Ok(ty) => match convert::storage(scene.program.types, ty) {
                    Err(failure) => Err(failure.after(ptr.needs)),
                    Ok(None) => Ok(
                        Reply::Done(Effect { needs: ptr.needs, steps: Seq::empty() }),
                    ),
                    Ok(Some(ty)) => result(ptr.needs, Ok(meaning::loaded(at, ptr.value, ty))),
                },
            },
        }
    }
}

fn lower_atomic_load(
    site: &Site,
    ctx: &mut Context,
    block: BlockId,
    needs: &mut Needs,
    instance: &Instance,
    args: &Vec<Operand>,
) -> (r: Result<Answer, Failure>)
    requires
        site.ready(*old(ctx), block),
        args_wf(*site.program, *instance),
        operand::operands_wf(*site.program, args@),
    ensures
        replies(
            (*final(ctx), final(needs)@),
            (*old(ctx), old(needs)@),
            block,
            r,
            atomic_load(site.scene(), old(ctx)@.now(block), *instance, args@),
        ),
{
    let ghost before = *ctx;
    if args.len() != 1 {
        return Err(Failure::Arity(args.len()));
    }
    let ptr: Value = import_operand(site, ctx, block, needs, &args[0])?;
    let ty: TyId = type_arg_of(site.program, instance, 0)?;
    match convert_storage_ty(&site.program.types, ty)? {
        None => {
            proof {
                ctx.lemma_computed(before, block);
            }
            Ok(Answer::Done)
        },
        Some(ty) => {
            let r: Value = put_load(ctx, block, ptr, &ty);
            proof {
                ctx.lemma_computed(before, block);
            }
            Ok(Answer::Value(r))
        },
    }
}

/// A value as it is stored in memory of a type.
pub open spec fn stored_as(table: TyTable, ty: TyId, storage: TypeHandle, value: Meaning) -> Meaning {
    meaning::as_type(place::as_stored(table, ty, value), storage)
}

fn put_stored_as(
    table: &TyTable,
    ctx: &mut Context,
    block: BlockId,
    ty: TyId,
    storage: &TypeHandle,
    value: Value,
) -> (r: Value)
    requires
        table.wf(),
        table.has(ty),
        old(ctx).wf(),
        old(ctx).has_block(block),
        old(ctx).has(value),
    ensures
        final(ctx).computed_since(*old(ctx), block),
        final(ctx).has(r),
        r.meaning@ == stored_as(*table, ty, *storage, value.meaning@),
{
    let value: Value = normalize_bool_for_storage(table, ctx, block, ty, value);
    put_as_type(ctx, block, value, storage)
}

/// A write to memory that other threads may read.
pub open spec fn atomic_store(
    scene: Scene,
    at: Moment,
    instance: Instance,
    args: Seq<Operand>,
) -> Result<Reply, Lost> {
    let table = scene.program.types;
    if args.len() != 2 {
        Err(Failure::Arity(args.len() as usize).at_once())
    } else {
        match operand::operand_value(scene, at, args[0]) {
            Err(failure) => Err(failure.at_once()),
            Ok(ptr) => match type_arg(instance, 0) {
                Err(failure) => Err(failure.after(ptr.needs)),
                Ok(ty) => match convert::storage(table, ty) {
                    Err(failure) => Err(failure.after(ptr.needs)),
                    Ok(None) => Ok(
                        Reply::Done(Effect { needs: ptr.needs, steps: Seq::empty() }),
                    ),
                    Ok(Some(storage)) => match operand::operand_value(scene, at, args[1]) {
                        Err(failure) => Err(failure.after(ptr.needs)),
                        Ok(value) => Ok(
                            Reply::Done(
                                Effect {
                                    needs: ptr.needs + value.needs,
                                    steps: seq![
                                        Step::Store {
                                            addr: ptr.value,
                                            value: stored_as(table, ty, storage, value.value),
                                        },
                                    ],
                                },
                            ),
                        ),
                    },
                },
            },
        }
    }
}

fn lower_atomic_store(
    site: &Site,
    ctx: &mut Context,
    block: BlockId,
    needs: &mut Needs,
    instance: &Instance,
    args: &Vec<Operand>,
) -> (r: Result<Answer, Failure>)
    requires
        site.ready(*old(ctx), block),
        args_wf(*site.program, *instance),
        operand::operands_wf(*site.program, args@),
    ensures
        replies(
            (*final(ctx), final(needs)@),
            (*old(ctx), old(needs)@),
            block,
            r,
            atomic_store(site.scene(), old(ctx)@.now(block), *instance, args@),
        ),
{
    let ghost before = *ctx;
    let ghost at = ctx@.now(block);
    if args.len() != 2 {
        return Err(Failure::Arity(args.len()));
    }
    let ptr: Value = import_operand(site, ctx, block, needs, &args[0])?;
    let ty: TyId = type_arg_of(site.program, instance, 0)?;
    let storage: TypeHandle = match convert_storage_ty(&site.program.types, ty)? {
        Some(storage) => storage,
        None => {
            proof {
                ctx.lemma_computed(before, block);
            }
            return Ok(Answer::Done);
        },
    };
    let value: Value = import_operand(site, ctx, block, needs, &args[1])?;
    let value: Value = put_stored_as(&site.program.types, ctx, block, ty, &storage, value);
    let ghost middle = *ctx;
    put_store(ctx, block, value, ptr);
    proof {
        let a = operand::operand_value(site.scene(), at, args@[0])->Ok_0.needs;
        let b = operand::operand_value(site.scene(), at, args@[1])->Ok_0.needs;
        assert(needs@ =~= old(needs)@ + (a + b));
        let steps = seq![Step::Store { addr: ptr.meaning@, value: value.meaning@ }];
        ctx.lemma_computed_ran(middle, before, block, steps);
    }
    Ok(Answer::Done)
}

/// The function that exchanges values of a size with memory.
pub open spec fn exchange_symbol(size: u64) -> Seq<char> {
    "__aarch64_swp"@ + text::decimal_of(size as nat) + "_acq_rel"@
}

/// What exchanging a value with memory does, once operands are known.
pub open spec fn exchanged(
    at: Moment,
    symbol: Seq<char>,
    storage: TypeHandle,
    ptr: Meaning,
    value: Meaning,
) -> Result<(Meaning, Seq<Step>), Failure> {
    match passing::passed(at, value) {
        Err(failure) => Err(failure),
        Ok((first, first_steps)) => match passing::passed(
            meaning::later(at, first_steps.len()),
            ptr,
        ) {
            Err(failure) => Err(failure),
            Ok((second, second_steps)) => {
                let steps = first_steps + second_steps;
                Ok(
                    (
                        meaning::replied(meaning::later(at, steps.len()), storage),
                        steps.push(meaning::call_step(symbol, first + second, Some(storage))),
                    ),
                )
            },
        },
    }
}

/// The steps that pass a value, where it can be passed.
pub open spec fn passed_first(at: Moment, value: Meaning) -> Seq<Step> {
    match passing::passed(at, value) {
        Ok((_, steps)) => steps,
        Err(_) => Seq::empty(),
    }
}

fn put_exchange(
    ctx: &mut Context,
    block: BlockId,
    symbol: String,
    storage: &TypeHandle,
    ptr: Value,
    value: Value,
) -> (r: Result<Value, Failure>)
    requires
        old(ctx).wf(),
        old(ctx).has_block(block),
        old(ctx).has(ptr),
        old(ctx).has(value),
    ensures
        match exchanged(old(ctx)@.now(block), symbol@, *storage, ptr.meaning@, value.meaning@) {
            Ok((result, steps)) => {
                &&& r matches Ok(v) && final(ctx).has(v) && v.meaning@ == result
                &&& final(ctx).ran_since(*old(ctx), block, steps)
            },
            Err(failure) => {
                &&& r matches Err(other) && other == failure
                &&& final(ctx).ran_since(
                    *old(ctx),
                    block,
                    passed_first(old(ctx)@.now(block), value.meaning@),
                )
            },
        },
{
    let ghost before = *ctx;
    let ghost at = ctx@.now(block);
    proof {
        ctx.lemma_computed(before, block);
    }
    let mut call_args: Vec<Value> = Vec::new();
    assert(meaning::meanings(call_args@) =~= Seq::<Meaning>::empty());
    put_passed(ctx, block, value, &mut call_args)?;
    let ghost first = passing::passed(at, value.meaning@)->Ok_0;
    let ghost one = *ctx;
    proof {
        ctx.lemma_time(before, block, first.1);
        assert(meaning::meanings(call_args@) =~= first.0);
    }
    put_passed(ctx, block, ptr, &mut call_args)?;
    let ghost second = passing::passed(
        meaning::later(at, first.1.len()),
        ptr.meaning@,
    )->Ok_0;
    let ghost two = *ctx;
    proof {
        ctx.lemma_ran(one, before, block, first.1, second.1);
        ctx.lemma_time(before, block, first.1 + second.1);
    }
    match put_call(ctx, block, symbol, call_args, Some(storage.clone())) {
        Some(r) => {
            proof {
                let call = meaning::call_step(symbol@, first.0 + second.0, Some(*storage));
                ctx.lemma_ran(two, before, block, first.1 + second.1, seq![call]);
                assert((first.1 + second.1) + seq![call] =~= (first.1 + second.1).push(call));
            }
            Ok(r)
        },
        None => {
            assert(false);
            Err(Failure::Malformed)
        },
    }
}

/// An exchange of a value with memory that other threads may use.
pub open spec fn atomic_exchange(
    scene: Scene,
    at: Moment,
    instance: Instance,
    args: Seq<Operand>,
) -> Result<Reply, Lost> {
    let table = scene.program.types;
    if !scene.program.is_aarch64_linux {
        Ok(Reply::Unknown(Seq::empty()))
    } else if args.len() != 2 {
        Err(Failure::Arity(args.len() as usize).at_once())
    } else {
        match type_arg(instance, 0) {
            Err(failure) => Err(failure.at_once()),
            Ok(ty) => match convert::storage(table, ty) {
                Err(failure) => Err(failure.at_once()),
                Ok(None) => Ok(nothing()),
                Ok(Some(storage)) => match layout::size_of(table, ty) {
                    Err(failure) => Err(failure.at_once()),
                    Ok(size) => if size != 1 && size != 2 && size != 4 && size != 8 {
                        Err(Failure::AtomicSize(size).at_once())
                    } else {
                        exchange_of(scene, at, ty, storage, exchange_symbol(size), args)
                    },
                },
            },
        }
    }
}

/// An exchange by a function.
pub open spec fn exchange_of(
    scene: Scene,
    at: Moment,
    ty: TyId,
    storage: TypeHandle,
    symbol: Seq<char>,
    args: Seq<Operand>,
) -> Result<Reply, Lost> {
    let declared = need::asking(
        at,
        Demand::Declare {
            symbol,
            inputs: seq![storage, types::pointer()],
            result: Some(storage),
        },
    );
    match operand::operand_pair(scene, at, args[0], args[1]) {
        Err(lost) => Err(lost.after(declared)),
        Ok((ptr, value, needs)) => match exchanged(
            at,
            symbol,
            storage,
            ptr,
            stored_as(scene.program.types, ty, storage, value),
        ) {
            Err(failure) => Err(failure.after(declared + needs)),
            Ok((old_value, steps)) => Ok(
                Reply::Value(
                    Lowered {
                        value: old_value,
                        needs: declared + needs,
                        steps,
                    },
                ),
            ),
        },
    }
}

/// The steps that an exchange leaves behind where it fails: those that pass the
/// value.
pub open spec fn exchange_left(
    scene: Scene,
    at: Moment,
    ty: TyId,
    storage: TypeHandle,
    args: Seq<Operand>,
) -> Seq<Step> {
    match operand::operand_pair(scene, at, args[0], args[1]) {
        Err(_) => Seq::empty(),
        Ok((_, value, _)) => passed_first(
            at,
            stored_as(scene.program.types, ty, storage, value),
        ),
    }
}

fn lower_exchange_of(
    site: &Site,
    ctx: &mut Context,
    block: BlockId,
    needs: &mut Needs,
    ty: TyId,
    storage: &TypeHandle,
    size: u64,
    args: &Vec<Operand>,
) -> (r: Result<Answer, Failure>)
    requires
        site.ready(*old(ctx), block),
        operand::operands_wf(*site.program, args@),
        args@.len() == 2,
        site.program.types.has(ty),
    ensures
        replies_past(
            (*final(ctx), final(needs)@),
            (*old(ctx), old(needs)@),
            block,
            r,
            exchange_of(
                site.scene(),
                old(ctx)@.now(block),
                ty,
                *storage,
                exchange_symbol(size),
                args@,
            ),
            exchange_left(site.scene(), old(ctx)@.now(block), ty, *storage, args@),
        ),
{
    let ghost before = *ctx;
    let ghost at = ctx@.now(block);
    let number: String = decimal(size);
    let start: String = join("__aarch64_swp", number.as_str());
    let symbol: String = join(start.as_str(), "_acq_rel");
    let inputs: Vec<TypeHandle> = vec![storage.clone(), llvm_ptr_ty()];
    assert(inputs@ =~= seq![*storage, types::pointer()]);
    let copy: String = join(symbol.as_str(), "");
    proof {
        reveal_strlit("");
        assert(copy@ =~= symbol@);
    }
    needs.ask(
        ctx,
        block,
        Need::Declare { symbol: copy, inputs, result: Some(storage.clone()) },
    );
    proof {
        ctx.lemma_computed(before, block);
    }
    let (ptr, value): (Value, Value) = match import_pair(
        site,
        ctx,
        block,
        needs,
        &args[0],
        &args[1],
    ) {
        Ok(pair) => pair,
        Err(failure) => {
            proof {
                ctx.lemma_computed(before, block);
            }
            return Err(failure);
        },
    };
    let value: Value = put_stored_as(&site.program.types, ctx, block, ty, storage, value);
    let ghost middle = *ctx;
    let ghost want = exchanged(at, symbol@, *storage, ptr.meaning@, value.meaning@);
    let r: Result<Value, Failure> = put_exchange(ctx, block, symbol, storage, ptr, value);
    proof {
        if want is Ok {
            ctx.lemma_computed_ran(middle, before, block, want->Ok_0.1);
            let asked = operand::operand_pair(site.scene(), at, args@[0], args@[1])->Ok_0.2;
            let declare = need::asking(
                at,
                Demand::Declare {
                    symbol: exchange_symbol(size),
                    inputs: seq![*storage, types::pointer()],
                    result: Some(*storage),
                },
            );
            assert(needs@ =~= old(needs)@ + (declare + asked));
        } else {
            ctx.lemma_computed_ran(middle, before, block, passed_first(at, value.meaning@));
        }
    }
    match r {
        Ok(value) => Ok(Answer::Value(value)),
        Err(failure) => Err(failure),
    }
}

/// The steps that an exchange of the type of an instance leaves behind where it
/// fails.
pub open spec fn atomic_left(
    scene: Scene,
    at: Moment,
    instance: Instance,
    args: Seq<Operand>,
) -> Seq<Step> {
    let table = scene.program.types;
    match type_arg(instance, 0) {
        Ok(ty) => match (convert::storage(table, ty), layout::size_of(table, ty)) {
            (Ok(Some(storage)), Ok(size)) => if args.len() == 2 && scene.program.is_aarch64_linux
                && (size == 1 || size == 2 || size == 4 || size == 8) {
                exchange_left(scene, at, ty, storage, args)
            } else {
                Seq::empty()
            },
            _ => Seq::empty(),
        },
        Err(_) => Seq::empty(),
    }
}

fn lower_atomic_exchange(
    site: &Site,
    ctx: &mut Context,
    block: BlockId,
    needs: &mut Needs,
    instance: &Instance,
    args: &Vec<Operand>,
) -> (r: Result<Answer, Failure>)
    requires
        site.ready(*old(ctx), block),
        args_wf(*site.program, *instance),
        operand::operands_wf(*site.program, args@),
    ensures
        replies_past(
            (*final(ctx), final(needs)@),
            (*old(ctx), old(needs)@),
            block,
            r,
            atomic_exchange(site.scene(), old(ctx)@.now(block), *instance, args@),
            atomic_left(site.scene(), old(ctx)@.now(block), *instance, args@),
        ),
{
    proof {
        ctx.lemma_computed(*ctx, block);
        assert(needs@ =~= old(needs)@ + Seq::<Asked>::empty());
    }
    if !site.program.is_aarch64_linux {
        return Ok(Answer::Unknown);
    }
    if args.len() != 2 {
        return Err(Failure::Arity(args.len()));
    }
    let ty: TyId = type_arg_of(site.program, instance, 0)?;
    let storage: TypeHandle = match convert_storage_ty(&site.program.types, ty)? {
        Some(storage) => storage,
        None => return Ok(Answer::Done),
    };
    let size: u64 = layout_size_of_ty(&site.program.types, ty)?;
    if size != 1 && size != 2 && size != 4 && size != 8 {
        return Err(Failure::AtomicSize(size));
    }
    lower_exchange_of(site, ctx, block, needs, ty, &storage, size, args)
}

/// The types of a function that fills or copies memory.
pub open spec fn memory_inputs(second: TypeHandle) -> Seq<TypeHandle> {
    seq![types::pointer(), second, types::unsigned(64)]
}

/// A call of a function that fills or copies memory: where to, what, and how
/// many elements of a size.
pub open spec fn memory_call(
    at: Moment,
    needs: Seq<Asked>,
    symbol: Seq<char>,
    second: TypeHandle,
    to: Meaning,
    what: Meaning,
    count: Meaning,
    size: u64,
) -> Result<Reply, Lost> {
    match meaning::scale(count, size) {
        Err(failure) => Err(failure.after(needs)),
        Ok(bytes) => {
            let effect = need::outside(
                at,
                symbol,
                memory_inputs(second),
                seq![to, what, bytes],
                Some(types::pointer()),
            );
            Ok(Reply::Done(Effect { needs: needs + effect.needs, steps: effect.steps }))
        },
    }
}

fn put_memory_call(
    ctx: &mut Context,
    block: BlockId,
    needs: &mut Needs,
    symbol: &str,
    second: TypeHandle,
    to: Value,
    what: Value,
    count: Value,
    size: u64,
    Ghost(start): Ghost<Context>,
    Ghost(asked): Ghost<(Seq<Asked>, Seq<Asked>)>,
) -> (r: Result<Answer, Failure>)
    requires
        old(ctx).wf(),
        old(ctx).has_block(block),
        old(ctx).has(to),
        old(ctx).has(what),
        old(ctx).has(count),
        old(ctx).computed_since(start, block),
        old(needs)@ == asked.0 + asked.1,
    ensures
        replies(
            (*final(ctx), final(needs)@),
            (start, asked.0),
            block,
            r,
            memory_call(
                start@.now(block),
                asked.1,
                symbol@,
                second,
                to.meaning@,
                what.meaning@,
                count.meaning@,
                size,
            ),
        ),
{
    let ghost entered = *ctx;
    let bytes: Value = scale_index(ctx, block, count, size)?;
    let ghost middle = *ctx;
    let inputs: Vec<TypeHandle> = vec![llvm_ptr_ty(), second, usize_ty()];
    assert(inputs@ =~= memory_inputs(second));
    let args: Vec<Value> = vec![to, what, bytes];
    assert(meaning::meanings(args@) =~= seq![to.meaning@, what.meaning@, bytes.meaning@]);
    call_outside(ctx, block, needs, symbol, inputs, args, Some(llvm_ptr_ty()));
    proof {
        let effect = need::outside(
            start@.now(block),
            symbol@,
            memory_inputs(second),
            seq![to.meaning@, what.meaning@, bytes.meaning@],
            Some(types::pointer()),
        );
        ctx.lemma_computed_ran(middle, start, block, effect.steps);
        assert(needs@ =~= asked.0 + (asked.1 + effect.needs));
    }
    Ok(Answer::Done)
}

/// Memory filled with copies of a byte.
pub open spec fn write_bytes(
    scene: Scene,
    at: Moment,
    instance: Instance,
    args: Seq<Operand>,
) -> Result<Reply, Lost> {
    if args.len() != 3 {
        Err(Failure::Arity(args.len() as usize).at_once())
    } else {
        match operand::operand_values(scene, at, args, 3) {
            Err(lost) => Err(lost),
            Ok((values, needs)) => match arg_size(scene.program.types, instance, 0) {
                Err(failure) => Err(failure.after(needs)),
                Ok(size) => memory_call(
                    at,
                    needs,
                    "memset"@,
                    types::signed(32),
                    values[0],
                    meaning::as_type(values[1], types::signed(32)),
                    values[2],
                    size,
                ),
            },
        }
    }
}

fn lower_write_bytes(
    site: &Site,
    ctx: &mut Context,
    block: BlockId,
    needs: &mut Needs,
    instance: &Instance,
    args: &Vec<Operand>,
) -> (r: Result<Answer, Failure>)
    requires
        site.ready(*old(ctx), block),
        args_wf(*site.program, *instance),
        operand::operands_wf(*site.program, args@),
    ensures
        replies(
            (*final(ctx), final(needs)@),
            (*old(ctx), old(needs)@),
            block,
            r,
            write_bytes(site.scene(), old(ctx)@.now(block), *instance, args@),
        ),
{
    let ghost before = *ctx;
    let ghost first = needs@;
    if args.len() != 3 {
        return Err(Failure::Arity(args.len()));
    }
    let ghost want = operand::operand_values(site.scene(), before@.now(block), args@, 3);
    let values: Vec<Value> = import_operands(site, ctx, block, needs, args)?;
    proof {
        lemma_values_len(site.scene(), before@.now(block), args@, 3);
    }
    let size: u64 = arg_size_of(site.program, instance, 0)?;
    let byte_ty: TypeHandle = TypeHandle::integer(32, Signedness::Signed);
    assert(values[0].meaning@ == want->Ok_0.0[0]);
    assert(values[1].meaning@ == want->Ok_0.0[1]);
    assert(values[2].meaning@ == want->Ok_0.0[2]);
    let byte: Value = put_as_type(ctx, block, values[1], &byte_ty);
    put_memory_call(
        ctx,
        block,
        needs,
        "memset",
        byte_ty,
        values[0],
        byte,
        values[2],
        size,
        Ghost(before),
        Ghost((first, want->Ok_0.1)),
    )
}

/// There is a value for each operand.
pub proof fn lemma_values_len(scene: Scene, at: Moment, operands: Seq<Operand>, count: nat)
    ensures
        operand::operand_values(scene, at, operands, count) matches Ok((values, _))
            ==> values.len() == count,
    decreases count,
{
    if count > 0 {
        lemma_values_len(scene, at, operands, (count - 1) as nat);
    }
}

/// Memory copied from one place to another.
pub open spec fn copy_memory(
    scene: Scene,
    at: Moment,
    symbol: Seq<char>,
    instance: Instance,
    args: Seq<Operand>,
) -> Result<Reply, Lost> {
    if args.len() != 3 {
        Err(Failure::Arity(args.len() as usize).at_once())
    } else {
        match operand::operand_values(scene, at, args, 3) {
            Err(lost) => Err(lost),
            Ok((values, needs)) => match arg_size(scene.program.types, instance, 0) {
                Err(failure) => Err(failure.after(needs)),
                Ok(size) => memory_call(
                    at,
                    needs,
                    symbol,
                    types::pointer(),
                    values[1],
                    values[0],
                    values[2],
                    size,
                ),
            },
        }
    }
}

fn lower_copy(
    site: &Site,
    ctx: &mut Context,
    block: BlockId,
    needs: &mut Needs,
    symbol: &str,
    instance: &Instance,
    args: &Vec<Operand>,
) -> (r: Result<Answer, Failure>)
    requires
        site.ready(*old(ctx), block),
        args_wf(*site.program, *instance),
        operand::operands_wf(*site.program, args@),
    ensures
        replies(
            (*final(ctx), final(needs)@),
            (*old(ctx), old(needs)@),
            block,
            r,
            copy_memory(site.scene(), old(ctx)@.now(block), symbol@, *instance, args@),
        ),
{
    let ghost before = *ctx;
    let ghost first = needs@;
    if args.len() != 3 {
        return Err(Failure::Arity(args.len()));
    }
    let ghost want = operand::operand_values(site.scene(), before@.now(block), args@, 3);
    let values: Vec<Value> = import_operands(site, ctx, block, needs, args)?;
    proof {
        lemma_values_len(site.scene(), before@.now(block), args@, 3);
    }
    let size: u64 = arg_size_of(site.program, instance, 0)?;
    assert(values[0].meaning@ == want->Ok_0.0[0]);
    assert(values[1].meaning@ == want->Ok_0.0[1]);
    assert(values[2].meaning@ == want->Ok_0.0[2]);
    put_memory_call(
        ctx,
        block,
        needs,
        symbol,
        llvm_ptr_ty(),
        values[1],
        values[0],
        values[2],
        size,
        Ghost(before),
        Ghost((first, want->Ok_0.1)),
    )
}

/// The number of elements between two addresses.
pub open spec fn distance(lhs: Meaning, rhs: Meaning, size: u64) -> Meaning {
    let word = types::unsigned(64);
    let bytes = meaning::computed(
        Arith::Sub,
        meaning::as_type(lhs, word),
        meaning::as_type(rhs, word),
    );
    if size > 1 {
        meaning::computed(Arith::Div, bytes, meaning::constant(word, size as u128))
    } else {
        bytes
    }
}

/// The number of elements between two pointers.
pub open spec fn offset_from(
    scene: Scene,
    at: Moment,
    instance: Instance,
    args: Seq<Operand>,
    dest: Place,
) -> Result<Reply, Lost> {
    let table = scene.program.types;
    if args.len() != 2 {
        Err(Failure::Arity(args.len() as usize).at_once())
    } else {
        match operand::operand_pair(scene, at, args[0], args[1]) {
            Err(lost) => Err(lost),
            Ok((lhs, rhs, needs)) => match arg_size(table, instance, 0) {
                Err(failure) => Err(failure.after(needs)),
                Ok(size) => result(needs, for_place(table, dest, distance(lhs, rhs, size))),
            },
        }
    }
}

fn lower_offset_from(
    site: &Site,
    ctx: &mut Context,
    block: BlockId,
    needs: &mut Needs,
    instance: &Instance,
    args: &Vec<Operand>,
    dest: &Place,
) -> (r: Result<Answer, Failure>)
    requires
        site.ready(*old(ctx), block),
        args_wf(*site.program, *instance),
        operand::operands_wf(*site.program, args@),
        site.program.types.has(dest.ty),
    ensures
        replies(
            (*final(ctx), final(needs)@),
            (*old(ctx), old(needs)@),
            block,
            r,
            offset_from(site.scene(), old(ctx)@.now(block), *instance, args@, *dest),
        ),
{
    let ghost before = *ctx;
    if args.len() != 2 {
        return Err(Failure::Arity(args.len()));
    }
    let (lhs, rhs): (Value, Value) = import_pair(site, ctx, block, needs, &args[0], &args[1])?;
    let size: u64 = arg_size_of(site.program, instance, 0)?;
    let word: TypeHandle = usize_ty();
    let lhs: Value = put_as_type(ctx, block, lhs, &word);
    let rhs: Value = put_as_type(ctx, block, rhs, &word);
    let bytes: Value = put_arith(ctx, block, Arith::Sub, lhs, rhs);
    let count: Value = if size > 1 {
        let size: Value = put_size(ctx, block, size);
        put_arith(ctx, block, Arith::Div, bytes, size)
    } else {
        bytes
    };
    let r: Value = put_for_place(&site.program.types, ctx, block, dest, count)?;
    proof {
        ctx.lemma_computed(before, block);
    }
    Ok(Answer::Value(r))
}

/// An operation on the bits of an integer.
pub open spec fn bit_intrinsic(
    scene: Scene,
    at: Moment,
    op: BitOp,
    args: Seq<Operand>,
    dest: Place,
) -> Result<Reply, Lost> {
    if args.len() != 1 {
        Err(Failure::Arity(args.len() as usize).at_once())
    } else {
        match operand::operand_value(scene, at, args[0]) {
            Err(failure) => Err(failure.at_once()),
            Ok(input) => match bitwise::bits_of(op, input.value) {
                Err(failure) => Err(failure.after(input.needs)),
                Ok(value) => result(
                    input.needs,
                    for_place(scene.program.types, dest, value),
                ),
            },
        }
    }
}

fn lower_bits(
    site: &Site,
    ctx: &mut Context,
    block: BlockId,
    needs: &mut Needs,
    op: BitOp,
    args: &Vec<Operand>,
    dest: &Place,
) -> (r: Result<Answer, Failure>)
    requires
        site.ready(*old(ctx), block),
        operand::operands_wf(*site.program, args@),
        site.program.types.has(dest.ty),
    ensures
        replies(
            (*final(ctx), final(needs)@),
            (*old(ctx), old(needs)@),
            block,
            r,
            bit_intrinsic(site.scene(), old(ctx)@.now(block), op, args@, *dest),
        ),
{
    let ghost before = *ctx;
    if args.len() != 1 {
        return Err(Failure::Arity(args.len()));
    }
    let input: Value = import_operand(site, ctx, block, needs, &args[0])?;
    let value: Value = put_bits(ctx, block, op, input)?;
    let r: Value = put_for_place(&site.program.types, ctx, block, dest, value)?;
    proof {
        ctx.lemma_computed(before, block);
    }
    Ok(Answer::Value(r))
}

/// A rotation of an integer.
pub open spec fn rotate(
    scene: Scene,
    at: Moment,
    left: bool,
    args: Seq<Operand>,
    dest: Place,
) -> Result<Reply, Lost> {
    if args.len() != 2 {
        Err(Failure::Arity(args.len() as usize).at_once())
    } else {
        match operand::operand_value(scene, at, args[0]) {
            Err(failure) => Err(failure.at_once()),
            Ok(input) => match bitwise::counted_width(input.value.ty) {
                Err(failure) => Err(failure.after(input.needs)),
                Ok(_) => match operand::operand_value(scene, at, args[1]) {
                    Err(failure) => Err(failure.after(input.needs)),
                    Ok(shift) => match bitwise::rotated_value(left, input.value, shift.value) {
                        Err(failure) => Err(failure.after(input.needs + shift.needs)),
                        Ok(value) => result(
                            input.needs + shift.needs,
                            for_place(scene.program.types, dest, value),
                        ),
                    },
                },
            },
        }
    }
}

fn lower_rotate(
    site: &Site,
    ctx: &mut Context,
    block: BlockId,
    needs: &mut Needs,
    left: bool,
    args: &Vec<Operand>,
    dest: &Place,
) -> (r: Result<Answer, Failure>)
    requires
        site.ready(*old(ctx), block),
        operand::operands_wf(*site.program, args@),
        site.program.types.has(dest.ty),
    ensures
        replies(
            (*final(ctx), final(needs)@),
            (*old(ctx), old(needs)@),
            block,
            r,
            rotate(site.scene(), old(ctx)@.now(block), left, args@, *dest),
        ),
{
    let ghost before = *ctx;
    let ghost at = ctx@.now(block);
    if args.len() != 2 {
        return Err(Failure::Arity(args.len()));
    }
    let input: Value = import_operand(site, ctx, block, needs, &args[0])?;
    let _width: u32 = check_rotation(ctx, input)?;
    let shift: Value = import_operand(site, ctx, block, needs, &args[1])?;
    let value: Value = put_rotated(ctx, block, left, input, shift)?;
    let r: Value = put_for_place(&site.program.types, ctx, block, dest, value)?;
    proof {
        ctx.lemma_computed(before, block);
        let a = operand::operand_value(site.scene(), at, args@[0])->Ok_0.needs;
        let b = operand::operand_value(site.scene(), at, args@[1])->Ok_0.needs;
        assert(needs@ =~= old(needs)@ + (a + b));
    }
    Ok(Answer::Value(r))
}

/// What copying between two places and a third does.
pub open spec fn swapped(at: Moment, x: Meaning, y: Meaning, size: u64) -> Seq<Step> {
    let temp_ty = types::array_of(types::unsigned(8), size);
    let temp = meaning::slot_at(at, temp_ty);
    let bytes = meaning::constant(types::unsigned(64), size as u128);
    let ptr = Some(types::pointer());
    seq![
        Step::Alloca { elem: temp_ty },
        meaning::call_step("memcpy"@, seq![temp, x, bytes], ptr),
        meaning::call_step("memcpy"@, seq![x, y, bytes], ptr),
        meaning::call_step("memcpy"@, seq![y, temp, bytes], ptr),
    ]
}

/// Two values in memory, exchanged.
pub open spec fn swap_memory(
    scene: Scene,
    at: Moment,
    instance: Instance,
    args: Seq<Operand>,
) -> Result<Reply, Lost> {
    if args.len() != 2 {
        Err(Failure::Arity(args.len() as usize).at_once())
    } else {
        match arg_size(scene.program.types, instance, 0) {
            Err(failure) => Err(failure.at_once()),
            Ok(size) => if size == 0 {
                Ok(nothing())
            } else {
                match operand::operand_pair(scene, at, args[0], args[1]) {
                    Err(lost) => Err(lost),
                    Ok((x, y, needs)) => Ok(
                        Reply::Done(
                            Effect {
                                needs: needs + need::asking(
                                    at,
                                    Demand::Declare {
                                        symbol: "memcpy"@,
                                        inputs: memory_inputs(types::pointer()),
                                        result: Some(types::pointer()),
                                    },
                                ),
                                steps: swapped(at, x, y, size),
                            },
                        ),
                    ),
                }
            },
        }
    }
}

fn put_memcpy(ctx: &mut Context, block: BlockId, to: Value, from: Value, bytes: Value)
    requires
        old(ctx).wf(),
        old(ctx).has_block(block),
        old(ctx).has(to),
        old(ctx).has(from),
        old(ctx).has(bytes),
    ensures
        final(ctx).ran_since(
            *old(ctx),
            block,
            seq![
                meaning::call_step(
                    "memcpy"@,
                    seq![to.meaning@, from.meaning@, bytes.meaning@],
                    Some(types::pointer()),
                ),
            ],
        ),
{
    let args: Vec<Value> = vec![to, from, bytes];
    assert(meaning::meanings(args@) =~= seq![to.meaning@, from.meaning@, bytes.meaning@]);
    put_call(ctx, block, "memcpy".to_owned(), args, Some(llvm_ptr_ty()));
}

fn put_swapped(ctx: &mut Context, block: BlockId, x: Value, y: Value, size: u64)
    requires
        old(ctx).wf(),
        old(ctx).has_block(block),
        old(ctx).has(x),
        old(ctx).has(y),
    ensures
        final(ctx).ran_since(
            *old(ctx),
            block,
            swapped(old(ctx)@.now(block), x.meaning@, y.meaning@, size),
        ),
{
    let ghost before = *ctx;
    let temp_ty: TypeHandle = TypeHandle::array(
        TypeHandle::integer(8, Signedness::Unsigned),
        size,
    );
    let temp: Value = put_alloca(ctx, block, &temp_ty);
    let ghost c1 = *ctx;
    let bytes: Value = put_size(ctx, block, size);
    let ghost c2 = *ctx;
    put_memcpy(ctx, block, temp, x, bytes);
    let ghost c3 = *ctx;
    put_memcpy(ctx, block, x, y, bytes);
    let ghost c4 = *ctx;
    put_memcpy(ctx, block, y, temp, bytes);
    proof {
        let all = swapped(before@.now(block), x.meaning@, y.meaning@, size);
        let s = seq![all[0]];
        c2.lemma_ran_computed(c1, before, block, s);
        c3.lemma_ran(c2, before, block, s, seq![all[1]]);
        c4.lemma_ran(c3, before, block, s + seq![all[1]], seq![all[2]]);
        ctx.lemma_ran(c4, before, block, s + seq![all[1]] + seq![all[2]], seq![all[3]]);
        assert(s + seq![all[1]] + seq![all[2]] + seq![all[3]] =~= all);
    }
}

fn lower_swap(
    site: &Site,
    ctx: &mut Context,
    block: BlockId,
    needs: &mut Needs,
    instance: &Instance,
    args: &Vec<Operand>,
) -> (r: Result<Answer, Failure>)
    requires
        site.ready(*old(ctx), block),
        args_wf(*site.program, *instance),
        operand::operands_wf(*site.program, args@),
    ensures
        replies(
            (*final(ctx), final(needs)@),
            (*old(ctx), old(needs)@),
            block,
            r,
            swap_memory(site.scene(), old(ctx)@.now(block), *instance, args@),
        ),
{
    let ghost before = *ctx;
    let ghost at = ctx@.now(block);
    proof {
        ctx.lemma_computed(before, block);
        assert(needs@ =~= old(needs)@ + Seq::<Asked>::empty());
    }
    if args.len() != 2 {
        return Err(Failure::Arity(args.len()));
    }
    let size: u64 = arg_size_of(site.program, instance, 0)?;
    if size == 0 {
        return Ok(Answer::Done);
    }
    let (x, y): (Value, Value) = import_pair(site, ctx, block, needs, &args[0], &args[1])?;
    let inputs: Vec<TypeHandle> = vec![llvm_ptr_ty(), llvm_ptr_ty(), usize_ty()];
    assert(inputs@ =~= memory_inputs(types::pointer()));
    needs.ask(
        ctx,
        block,
        Need::Declare { symbol: "memcpy".to_owned(), inputs, result: Some(llvm_ptr_ty()) },
    );
    let ghost middle = *ctx;
    put_swapped(ctx, block, x, y, size);
    proof {
        let all = swapped(at, x.meaning@, y.meaning@, size);
        ctx.lemma_computed_ran(middle, before, block, all);
        let asked = operand::operand_pair(site.scene(), at, args@[0], args@[1])->Ok_0.2;
        assert(needs@ =~= old(needs)@ + (asked + need::asking(
            at,
            Demand::Declare {
                symbol: "memcpy"@,
                inputs: memory_inputs(types::pointer()),
                result: Some(types::pointer()),
            },
        )));
    }
    Ok(Answer::Done)
}

/// The bits of a vector of eight bytes, and what reading them does: a vector
/// that is no integer goes through memory.
pub open spec fn vector_bits(at: Moment, value: Meaning) -> (Meaning, Seq<Step>) {
    let word = types::unsigned(64);
    if value.ty is Integer {
        (meaning::as_type(value, word), Seq::empty())
    } else {
        (
            meaning::loaded(meaning::later(at, 2), meaning::slot_at(at, word), word),
            cast::spilled(at, word, value),
        )
    }
}

/// The bits of a vector of eight bytes.
pub fn simd_value_bits(ctx: &mut Context, block: BlockId, value: Value) -> (r: Value)
    requires
        old(ctx).wf(),
        old(ctx).has_block(block),
        old(ctx).has(value),
    ensures
        final(ctx).ran_since(
            *old(ctx),
            block,
            vector_bits(old(ctx)@.now(block), value.meaning@).1,
        ),
        final(ctx).has(r),
        r.meaning@ == vector_bits(old(ctx)@.now(block), value.meaning@).0,
        r.ty() == types::unsigned(64),
{
    let ghost before = *ctx;
    let word: TypeHandle = TypeHandle::integer(64, Signedness::Unsigned);
    let ty: TypeHandle = ctx.type_of(value);
    if let TypeHandle::Integer { .. } = ty {
        let r: Value = put_as_type(ctx, block, value, &word);
        proof {
            ctx.lemma_computed(before, block);
        }
        return r;
    }
    let slot: Value = spill(ctx, block, &word, value);
    let ghost middle = *ctx;
    let r: Value = put_load(ctx, block, slot, &word);
    proof {
        ctx.lemma_ran_computed(
            middle,
            before,
            block,
            cast::spilled(before@.now(block), word, value.meaning@),
        );
    }
    r
}

/// Bits seen as a vector of the type of what holds the result.
pub open spec fn as_vector(table: TyTable, at: Moment, dest: Place, bits: Meaning) -> Result<
    (Meaning, Seq<Step>),
    Failure,
> {
    let word = types::unsigned(64);
    match foreign::real_value(
        table,
        dest.ty,
        meaning::later(at, 2),
        meaning::slot_at(at, word),
    ) {
        Err(failure) => Err(failure),
        Ok(value) => Ok((value, cast::spilled(at, word, bits))),
    }
}

fn put_as_vector(
    table: &TyTable,
    ctx: &mut Context,
    block: BlockId,
    dest: &Place,
    bits: Value,
) -> (r: Result<Value, Failure>)
    requires
        table.wf(),
        table.has(dest.ty),
        old(ctx).wf(),
        old(ctx).has_block(block),
        old(ctx).has(bits),
    ensures
        match as_vector(*table, old(ctx)@.now(block), *dest, bits.meaning@) {
            Ok((value, steps)) => {
                &&& r matches Ok(v) && final(ctx).has(v) && v.meaning@ == value
                &&& final(ctx).ran_since(*old(ctx), block, steps)
            },
            Err(failure) => {
                &&& r matches Err(other) && other == failure
                &&& final(ctx).ran_since(
                    *old(ctx),
                    block,
                    cast::spilled(old(ctx)@.now(block), types::unsigned(64), bits.meaning@),
                )
            },
        },
{
    let ghost before = *ctx;
    let word: TypeHandle = TypeHandle::integer(64, Signedness::Unsigned);
    let slot: Value = spill(ctx, block, &word, bits);
    let ghost middle = *ctx;
    let r: Result<Value, Failure> = load_value_from_real_layout(table, ctx, block, dest.ty, slot);
    proof {
        ctx.lemma_ran_computed(
            middle,
            before,
            block,
            cast::spilled(before@.now(block), word, bits.meaning@),
        );
    }
    r
}

/// Whether a type that an instance is applied to is a vector of eight bytes.
pub open spec fn vector_size(table: TyTable, instance: Instance) -> Result<(), Failure> {
    match arg_size(table, instance, 0) {
        Err(failure) => Err(failure),
        Ok(size) => if size == 8 {
            Ok(())
        } else {
            Err(Failure::VectorSize(size))
        },
    }
}

fn require_8_byte_vector(program: &Program, instance: &Instance) -> (r: Result<(), Failure>)
    requires
        program.types.wf(),
        args_wf(*program, *instance),
    ensures
        r == vector_size(program.types, *instance),
{
    let size: u64 = arg_size_of(program, instance, 0)?;
    if size == 8 {
        Ok(())
    } else {
        Err(Failure::VectorSize(size))
    }
}

/// A vector result of bits that were computed after some steps.
pub open spec fn vector_result(
    table: TyTable,
    at: Moment,
    needs: Seq<Asked>,
    steps: Seq<Step>,
    dest: Place,
    bits: Meaning,
) -> Result<Reply, Lost> {
    match as_vector(table, meaning::later(at, steps.len()), dest, bits) {
        Err(failure) => Err(failure.after(needs)),
        Ok((value, more)) => Ok(Reply::Value(Lowered { value, needs, steps: steps + more })),
    }
}

/// A vector of copies of a byte.
pub open spec fn simd_splat(
    scene: Scene,
    at: Moment,
    instance: Instance,
    args: Seq<Operand>,
    dest: Place,
) -> Result<Reply, Lost> {
    let table = scene.program.types;
    if args.len() != 1 {
        Err(Failure::Arity(args.len() as usize).at_once())
    } else {
        match vector_size(table, instance) {
            Err(failure) => Err(failure.at_once()),
            Ok(_) => match operand::operand_value(scene, at, args[0]) {
                Err(failure) => Err(failure.at_once()),
                Ok(lane) => match bitwise::splat(lane.value) {
                    Err(failure) => Err(failure.after(lane.needs)),
                    Ok(bits) => vector_result(table, at, lane.needs, Seq::empty(), dest, bits),
                },
            },
        }
    }
}

/// The steps that copying a byte leaves behind where it fails.
pub open spec fn splat_left(
    scene: Scene,
    at: Moment,
    instance: Instance,
    args: Seq<Operand>,
) -> Seq<Step> {
    if args.len() != 1 || vector_size(scene.program.types, instance) is Err {
        Seq::empty()
    } else {
        match operand::operand_value(scene, at, args[0]) {
            Err(_) => Seq::empty(),
            Ok(lane) => match bitwise::splat(lane.value) {
                Err(_) => Seq::empty(),
                Ok(bits) => cast::spilled(at, types::unsigned(64), bits),
            },
        }
    }
}

fn lower_simd_splat(
    site: &Site,
    ctx: &mut Context,
    block: BlockId,
    needs: &mut Needs,
    instance: &Instance,
    args: &Vec<Operand>,
    dest: &Place,
) -> (r: Result<Answer, Failure>)
    requires
        site.ready(*old(ctx), block),
        args_wf(*site.program, *instance),
        operand::operands_wf(*site.program, args@),
        site.program.types.has(dest.ty),
    ensures
        replies_past(
            (*final(ctx), final(needs)@),
            (*old(ctx), old(needs)@),
            block,
            r,
            simd_splat(site.scene(), old(ctx)@.now(block), *instance, args@, *dest),
            splat_left(site.scene(), old(ctx)@.now(block), *instance, args@),
        ),
{
    let ghost before = *ctx;
    let ghost at = ctx@.now(block);
    proof {
        ctx.lemma_computed(before, block);
    }
    if args.len() != 1 {
        return Err(Failure::Arity(args.len()));
    }
    require_8_byte_vector(site.program, instance)?;
    let lane: Value = match import_operand(site, ctx, block, needs, &args[0]) {
        Ok(lane) => lane,
        Err(failure) => {
            proof {
                ctx.lemma_computed(before, block);
            }
            return Err(failure);
        },
    };
    let splat: Result<Value, Failure> = put_splat(ctx, block, lane);
    proof {
        ctx.lemma_computed(before, block);
    }
    let bits: Value = splat?;
    let ghost middle = *ctx;
    let r: Result<Value, Failure> = put_as_vector(
        &site.program.types,
        ctx,
        block,
        dest,
        bits,
    );
    proof {
        assert(meaning::later(at, 0) == at);
        let steps = cast::spilled(at, types::unsigned(64), bits.meaning@);
        ctx.lemma_computed_ran(middle, before, block, steps);
        assert(Seq::<Step>::empty() + steps =~= steps);
    }
    Ok(Answer::Value(r?))
}

/// The operations on two vectors.
#[derive(Clone, Copy, PartialEq, Eq, Debug, Structural)]
pub enum VectorOp {
    Or,
    Eq,
    Lt,
    Ge,
}

/// What an operation makes of the bits of two vectors.
pub open spec fn vector_op(op: VectorOp, lhs: Meaning, rhs: Meaning) -> Meaning {
    match op {
        VectorOp::Or => meaning::computed(Arith::Or, lhs, rhs),
        VectorOp::Eq => bitwise::lanes_equal(lhs, rhs),
        VectorOp::Lt => bitwise::lanes_compared(true, lhs, rhs),
        VectorOp::Ge => bitwise::lanes_compared(false, lhs, rhs),
    }
}

fn put_vector_op(ctx: &mut Context, block: BlockId, op: VectorOp, lhs: Value, rhs: Value) -> (r: Value)
    requires
        old(ctx).wf(),
        old(ctx).has_block(block),
        old(ctx).has(lhs),
        old(ctx).has(rhs),
        lhs.ty() == types::unsigned(64),
        rhs.ty() == types::unsigned(64),
    ensures
        final(ctx).computed_since(*old(ctx), block),
        final(ctx).has(r),
        r.meaning@ == vector_op(op, lhs.meaning@, rhs.meaning@),
{
    match op {
        VectorOp::Or => put_arith(ctx, block, Arith::Or, lhs, rhs),
        VectorOp::Eq => put_lanes_equal(ctx, block, lhs, rhs),
        VectorOp::Lt => put_lanes_compared(ctx, block, true, lhs, rhs),
        VectorOp::Ge => put_lanes_compared(ctx, block, false, lhs, rhs),
    }
}

/// An operation on two vectors.
pub open spec fn simd_binary(
    scene: Scene,
    at: Moment,
    op: VectorOp,
    instance: Instance,
    args: Seq<Operand>,
    dest: Place,
) -> Result<Reply, Lost> {
    let table = scene.program.types;
    if args.len() != 2 {
        Err(Failure::Arity(args.len() as usize).at_once())
    } else {
        match vector_size(table, instance) {
            Err(failure) => Err(failure.at_once()),
            Ok(_) => match operand::operand_pair(scene, at, args[0], args[1]) {
                Err(lost) => Err(lost),
                Ok((lhs, rhs, needs)) => {
                    let (a, first) = vector_bits(at, lhs);
                    let (b, second) = vector_bits(meaning::later(at, first.len()), rhs);
                    vector_result(table, at, needs, first + second, dest, vector_op(op, a, b))
                },
            },
        }
    }
}

/// The steps that an operation on two vectors leaves behind where it fails.
pub open spec fn binary_left(
    scene: Scene,
    at: Moment,
    op: VectorOp,
    instance: Instance,
    args: Seq<Operand>,
) -> Seq<Step> {
    if args.len() != 2 || vector_size(scene.program.types, instance) is Err {
        Seq::empty()
    } else {
        match operand::operand_pair(scene, at, args[0], args[1]) {
            Err(_) => Seq::empty(),
            Ok((lhs, rhs, _)) => {
                let (a, first) = vector_bits(at, lhs);
                let (b, second) = vector_bits(meaning::later(at, first.len()), rhs);
                first + second + cast::spilled(
                    meaning::later(at, (first + second).len()),
                    types::unsigned(64),
                    vector_op(op, a, b),
                )
            },
        }
    }
}

fn lower_simd_binary(
    site: &Site,
    ctx: &mut Context,
    block: BlockId,
    needs: &mut Needs,
    op: VectorOp,
    instance: &Instance,
    args: &Vec<Operand>,
    dest: &Place,
) -> (r: Result<Answer, Failure>)
    requires
        site.ready(*old(ctx), block),
        args_wf(*site.program, *instance),
        operand::operands_wf(*site.program, args@),
        site.program.types.has(dest.ty),
    ensures
        replies_past(
            (*final(ctx), final(needs)@),
            (*old(ctx), old(needs)@),
            block,
            r,
            simd_binary(site.scene(), old(ctx)@.now(block), op, *instance, args@, *dest),
            binary_left(site.scene(), old(ctx)@.now(block), op, *instance, args@),
        ),
{
    let ghost before = *ctx;
    let ghost at = ctx@.now(block);
    proof {
        ctx.lemma_computed(before, block);
    }
    if args.len() != 2 {
        return Err(Failure::Arity(args.len()));
    }
    require_8_byte_vector(site.program, instance)?;
    let (lhs, rhs): (Value, Value) = match import_pair(
        site,
        ctx,
        block,
        needs,
        &args[0],
        &args[1],
    ) {
        Ok(pair) => pair,
        Err(failure) => {
            proof {
                ctx.lemma_computed(before, block);
            }
            return Err(failure);
        },
    };
    let ghost c0 = *ctx;
    let a: Value = simd_value_bits(ctx, block, lhs);
    let ghost first = vector_bits(at, lhs.meaning@).1;
    let ghost c1 = *ctx;
    proof {
        c1.lemma_computed_ran(c0, before, block, first);
        c1.lemma_time(before, block, first);
    }
    let b: Value = simd_value_bits(ctx, block, rhs);
    let ghost second = vector_bits(meaning::later(at, first.len()), rhs.meaning@).1;
    let ghost c2 = *ctx;
    proof {
        c2.lemma_ran(c1, before, block, first, second);
        c2.lemma_time(before, block, first + second);
    }
    let bits: Value = put_vector_op(ctx, block, op, a, b);
    let ghost c3 = *ctx;
    let r: Result<Value, Failure> = put_as_vector(
        &site.program.types,
        ctx,
        block,
        dest,
        bits,
    );
    proof {
        let steps = cast::spilled(
            meaning::later(at, (first + second).len()),
            types::unsigned(64),
            bits.meaning@,
        );
        c3.lemma_ran_computed(c2, before, block, first + second);
        ctx.lemma_ran(c3, before, block, first + second, steps);
    }
    Ok(Answer::Value(r?))
}

/// The only lane of a vector.
pub open spec fn simd_extract(
    scene: Scene,
    at: Moment,
    instance: Instance,
    args: Seq<Operand>,
    dest: Place,
) -> Result<Reply, Lost> {
    let table = scene.program.types;
    if args.len() != 2 {
        Err(Failure::Arity(args.len() as usize).at_once())
    } else {
        match vector_size(table, instance) {
            Err(failure) => Err(failure.at_once()),
            Ok(_) => match arg_size(table, instance, 1) {
                Err(failure) => Err(failure.at_once()),
                Ok(size) => if size != 8 {
                    Err(Failure::LaneSize(size).at_once())
                } else {
                    match operand::operand_value(scene, at, args[0]) {
                        Err(failure) => Err(failure.at_once()),
                        Ok(vector) => {
                            let (bits, steps) = vector_bits(at, vector.value);
                            match for_place(table, dest, bits) {
                                Err(failure) => Err(failure.after(vector.needs)),
                                Ok(value) => Ok(
                                    Reply::Value(
                                        Lowered { value, needs: vector.needs, steps },
                                    ),
                                ),
                            }
                        },
                    }
                },
            },
        }
    }
}

/// The steps that reading a lane leaves behind where it fails.
pub open spec fn extract_left(
    scene: Scene,
    at: Moment,
    instance: Instance,
    args: Seq<Operand>,
) -> Seq<Step> {
    let table = scene.program.types;
    if args.len() != 2 || vector_size(table, instance) is Err || arg_size(table, instance, 1)
        != Ok::<u64, Failure>(8) {
        Seq::empty()
    } else {
        match operand::operand_value(scene, at, args[0]) {
            Err(_) => Seq::empty(),
            Ok(vector) => vector_bits(at, vector.value).1,
        }
    }
}

fn lower_simd_extract(
    site: &Site,
    ctx: &mut Context,
    block: BlockId,
    needs: &mut Needs,
    instance: &Instance,
    args: &Vec<Operand>,
    dest: &Place,
) -> (r: Result<Answer, Failure>)
    requires
        site.ready(*old(ctx), block),
        args_wf(*site.program, *instance),
        operand::operands_wf(*site.program, args@),
        site.program.types.has(dest.ty),
    ensures
        replies_past(
            (*final(ctx), final(needs)@),
            (*old(ctx), old(needs)@),
            block,
            r,
            simd_extract(site.scene(), old(ctx)@.now(block), *instance, args@, *dest),
            extract_left(site.scene(), old(ctx)@.now(block), *instance, args@),
        ),
{
    let ghost before = *ctx;
    let ghost at = ctx@.now(block);
    proof {
        ctx.lemma_computed(before, block);
    }
    if args.len() != 2 {
        return Err(Failure::Arity(args.len()));
    }
    require_8_byte_vector(site.program, instance)?;
    let size: u64 = arg_size_of(site.program, instance, 1)?;
    if size != 8 {
        return Err(Failure::LaneSize(size));
    }
    let vector: Value = match import_operand(site, ctx, block, needs, &args[0]) {
        Ok(vector) => vector,
        Err(failure) => {
            proof {
                ctx.lemma_computed(before, block);
            }
            return Err(failure);
        },
    };
    let ghost c0 = *ctx;
    let bits: Value = simd_value_bits(ctx, block, vector);
    let ghost c1 = *ctx;
    let ghost steps = vector_bits(at, vector.meaning@).1;
    proof {
        c1.lemma_computed_ran(c0, before, block, steps);
        c1.lemma_time(before, block, steps);
    }
    let r: Result<Value, Failure> = put_for_place(&site.program.types, ctx, block, dest, bits);
    proof {
        ctx.lemma_ran_computed(c1, before, block, steps);
    }
    Ok(Answer::Value(r?))
}

/// Whether two types are one on which arithmetic saturates.
pub open spec fn saturates(a: TypeHandle, b: TypeHandle) -> bool {
    a is Integer && a == b && sem::held_width(a->width) && (a->signedness == Signedness::Signed
        ==> a->width > 1)
}

/// A sum or difference, or the nearest integer that fits.
pub open spec fn saturated(is_add: bool, lhs: Meaning, rhs: Meaning) -> Result<Meaning, Failure> {
    let (w, s) = (lhs.ty->width, lhs.ty->signedness);
    if !(lhs.ty is Integer) {
        Err(Failure::NonIntegerSaturating)
    } else if !saturates(lhs.ty, rhs.ty) {
        Err(Failure::Malformed)
    } else {
        Ok(
            meaning::integer(
                lhs.ty,
                |env: Env|
                    {
                        let a = sem::as_int(w, s, lhs.bits(env));
                        let b = sem::as_int(w, s, rhs.bits(env));
                        sem::wrap(
                            w,
                            arith::saturated(
                                w,
                                s,
                                if is_add {
                                    a + b
                                } else {
                                    a - b
                                },
                            ),
                        )
                    },
            ),
        )
    }
}

fn put_saturated(ctx: &mut Context, block: BlockId, is_add: bool, lhs: Value, rhs: Value) -> (r: Result<
    Value,
    Failure,
>)
    requires
        old(ctx).wf(),
        old(ctx).has_block(block),
        old(ctx).has(lhs),
        old(ctx).has(rhs),
    ensures
        final(ctx).computed_since(*old(ctx), block),
        place::gives(*final(ctx), r, saturated(is_add, lhs.meaning@, rhs.meaning@)),
{
    let ty: TypeHandle = ctx.type_of(lhs);
    let (width, signedness): (u32, Signedness) = match ty.as_integer() {
        Some(shape) => shape,
        None => return Err(Failure::NonIntegerSaturating),
    };
    let signed: bool = match signedness {
        Signedness::Signed => true,
        _ => false,
    };
    if width == 0 || width > 128 || (signed && width == 1) || !ctx.type_of(rhs).same(&ty) {
        return Err(Failure::Malformed);
    }
    let r: Value = if signed {
        lower_signed_saturating(ctx, block, is_add, lhs, rhs)?
    } else {
        lower_unsigned_saturating(ctx, block, is_add, lhs, rhs)
    };
    proof {
        let want = saturated(is_add, lhs.meaning@, rhs.meaning@)->Ok_0;
        assert forall|env: Env| #[trigger] r.den(env) == (want.den)(env) by {
            ctx.value_in_range(r, env);
            assert(r.bits(env) == arith::saturated_bits(is_add, lhs, rhs, env));
            assert(lhs.bits(env) == lhs.meaning@.bits(env));
            assert(rhs.bits(env) == rhs.meaning@.bits(env));
        }
        meaning::lemma_means(r, want);
    }
    Ok(r)
}

/// A saturating sum or difference.
pub open spec fn saturating(scene: Scene, at: Moment, is_add: bool, args: Seq<Operand>) -> Result<
    Reply,
    Lost,
> {
    if args.len() != 2 {
        Err(Failure::Arity(args.len() as usize).at_once())
    } else {
        match operand::operand_pair(scene, at, args[0], args[1]) {
            Err(lost) => Err(lost),
            Ok((lhs, rhs, needs)) => result(needs, saturated(is_add, lhs, rhs)),
        }
    }
}

fn lower_saturating(
    site: &Site,
    ctx: &mut Context,
    block: BlockId,
    needs: &mut Needs,
    is_add: bool,
    args: &Vec<Operand>,
) -> (r: Result<Answer, Failure>)
    requires
        site.ready(*old(ctx), block),
        operand::operands_wf(*site.program, args@),
    ensures
        replies(
            (*final(ctx), final(needs)@),
            (*old(ctx), old(needs)@),
            block,
            r,
            saturating(site.scene(), old(ctx)@.now(block), is_add, args@),
        ),
{
    let ghost before = *ctx;
    if args.len() != 2 {
        return Err(Failure::Arity(args.len()));
    }
    let (lhs, rhs): (Value, Value) = import_pair(site, ctx, block, needs, &args[0], &args[1])?;
    let r: Value = put_saturated(ctx, block, is_add, lhs, rhs)?;
    proof {
        ctx.lemma_computed(before, block);
    }
    Ok(Answer::Value(r))
}

/// A construct as the answer to a call, behind what was needed before.
pub open spec fn replied(needs: Seq<Asked>, lowered: Result<Lowered, Failure>) -> Result<
    Reply,
    Lost,
> {
    match operand::behind(needs, need::unasked(lowered)) {
        Err(lost) => Err(lost),
        Ok(lowered) => Ok(Reply::Value(lowered)),
    }
}

/// A division that leaves no rest.
pub open spec fn exact_div(scene: Scene, at: Moment, args: Seq<Operand>) -> Result<Reply, Lost> {
    if args.len() != 2 {
        Err(Failure::Arity(args.len() as usize).at_once())
    } else {
        match operand::operand_pair(scene, at, args[0], args[1]) {
            Err(lost) => Err(lost),
            Ok((lhs, rhs, needs)) => if rvalue::is_wide_division(BinOp::Div, lhs.ty) {
                replied(needs, wide::divided(at, BinOp::Div, lhs, rhs))
            } else {
                result(needs, Ok(meaning::computed(Arith::Div, lhs, rhs)))
            },
        }
    }
}

fn lower_exact_div(
    site: &Site,
    ctx: &mut Context,
    block: BlockId,
    needs: &mut Needs,
    args: &Vec<Operand>,
) -> (r: Result<Answer, Failure>)
    requires
        site.ready(*old(ctx), block),
        operand::operands_wf(*site.program, args@),
    ensures
        replies(
            (*final(ctx), final(needs)@),
            (*old(ctx), old(needs)@),
            block,
            r,
            exact_div(site.scene(), old(ctx)@.now(block), args@),
        ),
{
    let ghost before = *ctx;
    let ghost at = ctx@.now(block);
    if args.len() != 2 {
        return Err(Failure::Arity(args.len()));
    }
    let (lhs, rhs): (Value, Value) = import_pair(site, ctx, block, needs, &args[0], &args[1])?;
    if is_128_bit_integer_value(ctx, lhs) {
        let ghost middle = *ctx;
        let r: Value = lower_i128_divrem(ctx, block, needs, BinOp::Div, lhs, rhs)?;
        proof {
            let asked = operand::operand_pair(site.scene(), at, args@[0], args@[1])->Ok_0.2;
            let want = wide::divided(at, BinOp::Div, lhs.meaning@, rhs.meaning@)->Ok_0;
            ctx.lemma_computed_ran(middle, before, block, want.steps);
            assert(needs@ =~= old(needs)@ + (asked + want.needs));
        }
        return Ok(Answer::Value(r));
    }
    let r: Value = put_arith(ctx, block, Arith::Div, lhs, rhs);
    proof {
        ctx.lemma_computed(before, block);
    }
    Ok(Answer::Value(r))
}

/// A float as an integer of a type.
pub open spec fn float_as(at: Moment, input: Meaning, ty: TypeHandle) -> Result<Lowered, Failure> {
    if wide::is_wide(ty) {
        wide::truncated(at, input, ty)
    } else {
        Ok(need::plain(meaning::cast(input, ty)))
    }
}

fn put_float_as(
    ctx: &mut Context,
    block: BlockId,
    needs: &mut Needs,
    input: Value,
    ty: &TypeHandle,
) -> (r: Result<Value, Failure>)
    requires
        old(ctx).wf(),
        old(ctx).has_block(block),
        old(ctx).has(input),
    ensures
        need::lowers(
            (*final(ctx), final(needs)@),
            (*old(ctx), old(needs)@),
            block,
            r,
            float_as(old(ctx)@.now(block), input.meaning@, *ty),
        ),
        r is Err ==> *final(ctx) == *old(ctx),
{
    let ghost before = *ctx;
    match ty {
        TypeHandle::Integer { width: 128, .. } => {
            lower_float_to_i128_sat(ctx, block, needs, input, ty)
        },
        _ => {
            let r: Value = put_cast(ctx, block, input, ty);
            proof {
                ctx.lemma_computed(before, block);
                assert(needs@ =~= old(needs)@ + Seq::<Asked>::empty());
            }
            Ok(r)
        },
    }
}

/// A float that is known to fit, as an integer.
pub open spec fn float_to_int(scene: Scene, at: Moment, args: Seq<Operand>, dest: Place) -> Result<
    Reply,
    Lost,
> {
    if args.len() != 1 {
        Err(Failure::Arity(args.len() as usize).at_once())
    } else {
        match operand::operand_value(scene, at, args[0]) {
            Err(failure) => Err(failure.at_once()),
            Ok(input) => match convert::immediate(scene.program.types, dest.ty) {
                Err(failure) => Err(failure.after(input.needs)),
                Ok(ty) => replied(input.needs, float_as(at, input.value, ty)),
            },
        }
    }
}

fn lower_float_to_int(
    site: &Site,
    ctx: &mut Context,
    block: BlockId,
    needs: &mut Needs,
    args: &Vec<Operand>,
    dest: &Place,
) -> (r: Result<Answer, Failure>)
    requires
        site.ready(*old(ctx), block),
        operand::operands_wf(*site.program, args@),
        site.program.types.has(dest.ty),
    ensures
        replies(
            (*final(ctx), final(needs)@),
            (*old(ctx), old(needs)@),
            block,
            r,
            float_to_int(site.scene(), old(ctx)@.now(block), args@, *dest),
        ),
{
    let ghost before = *ctx;
    let ghost at = ctx@.now(block);
    if args.len() != 1 {
        return Err(Failure::Arity(args.len()));
    }
    let input: Value = import_operand(site, ctx, block, needs, &args[0])?;
    let ty: TypeHandle = convert_immediate_ty(&site.program.types, dest.ty)?;
    let ghost middle = *ctx;
    let r: Value = put_float_as(ctx, block, needs, input, &ty)?;
    proof {
        let asked = operand::operand_value(site.scene(), at, args@[0])->Ok_0.needs;
        let want = float_as(at, input.meaning@, ty)->Ok_0;
        ctx.lemma_computed_ran(middle, before, block, want.steps);
        assert(needs@ =~= old(needs)@ + (asked + want.needs));
    }
    Ok(Answer::Value(r))
}

/// The type that an instance is applied to, with associated types resolved.
pub open spec fn normal_arg(table: TyTable, instance: Instance) -> Result<TyId, Failure> {
    match type_arg(instance, 0) {
        Err(failure) => Err(failure),
        Ok(ty) => Ok(table.normal(ty)),
    }
}

fn normal_arg_of(program: &Program, instance: &Instance) -> (r: Result<TyId, Failure>)
    requires
        program.types.wf(),
        args_wf(*program, *instance),
    ensures
        r == normal_arg(program.types, *instance),
        r matches Ok(ty) ==> program.types.has(ty),
{
    let ty: TyId = type_arg_of(program, instance, 0)?;
    Ok(program.types.normalize_ty(ty))
}

/// An address some elements after another.
pub open spec fn offset_elements(
    table: TyTable,
    instance: Instance,
    ptr: Meaning,
    count: Meaning,
) -> Result<Meaning, Failure> {
    match normal_arg(table, instance) {
        Err(failure) => Err(failure),
        Ok(elem) => match layout::real_size(table, elem) {
            Err(failure) => Err(failure),
            Ok(size) => match meaning::scale(count, size) {
                Err(failure) => Err(failure),
                Ok(bytes) => Ok(meaning::moved(ptr, bytes)),
            },
        },
    }
}

/// A pointer moved by a number of elements.
pub open spec fn arith_offset(
    scene: Scene,
    at: Moment,
    instance: Instance,
    args: Seq<Operand>,
) -> Result<Reply, Lost> {
    if args.len() != 2 {
        Err(Failure::Arity(args.len() as usize).at_once())
    } else {
        match operand::operand_pair(scene, at, args[0], args[1]) {
            Err(lost) => Err(lost),
            Ok((ptr, count, needs)) => result(
                needs,
                offset_elements(scene.program.types, instance, ptr, count),
            ),
        }
    }
}

fn lower_arith_offset(
    site: &Site,
    ctx: &mut Context,
    block: BlockId,
    needs: &mut Needs,
    instance: &Instance,
    args: &Vec<Operand>,
) -> (r: Result<Answer, Failure>)
    requires
        site.ready(*old(ctx), block),
        args_wf(*site.program, *instance),
        operand::operands_wf(*site.program, args@),
    ensures
        replies(
            (*final(ctx), final(needs)@),
            (*old(ctx), old(needs)@),
            block,
            r,
            arith_offset(site.scene(), old(ctx)@.now(block), *instance, args@),
        ),
{
    let ghost before = *ctx;
    if args.len() != 2 {
        return Err(Failure::Arity(args.len()));
    }
    let (ptr, count): (Value, Value) = import_pair(site, ctx, block, needs, &args[0], &args[1])?;
    let elem: TyId = normal_arg_of(site.program, instance)?;
    let size: u64 = rustc_layout_size_of_ty(&site.program.types, elem)?;
    let bytes: Value = scale_index(ctx, block, count, size)?;
    let r: Value = put_offset(ctx, block, ptr, bytes);
    proof {
        ctx.lemma_computed(before, block);
    }
    Ok(Answer::Value(r))
}

/// A size or alignment, as the layout of a type gives it.
pub open spec fn layout_fact(table: TyTable, of_size: bool, ty: TyId) -> Result<u64, Failure> {
    if of_size {
        layout::real_size(table, ty)
    } else {
        layout::real_align(table, ty)
    }
}

fn layout_fact_of(table: &TyTable, of_size: bool, ty: TyId) -> (r: Result<u64, Failure>)
    requires
        table.wf(),
        table.has(ty),
    ensures
        r == layout_fact(*table, of_size, ty),
{
    if of_size {
        rustc_layout_size_of_ty(table, ty)
    } else {
        rustc_layout_align_of_ty(table, ty)
    }
}

/// The size or alignment of what a fat pointer points to.
pub open spec fn measured(
    table: TyTable,
    at: Moment,
    of_size: bool,
    kind: TyKind,
    fat: Meaning,
) -> Result<Meaning, Failure> {
    let word = types::unsigned(64);
    if !meaning::has_field(fat, 1) {
        Err(Failure::Metadata(fat.ty))
    } else {
        match kind {
            TyKind::Slice(inner) => match layout_fact(table, of_size, inner) {
                Err(failure) => Err(failure),
                Ok(bytes) => if of_size {
                    meaning::scale(meaning::field(fat, 1), bytes)
                } else {
                    Ok(meaning::constant(word, bytes as u128))
                },
            },
            _ => Ok(
                meaning::loaded(
                    at,
                    meaning::moved(
                        meaning::field(fat, 1),
                        meaning::constant(
                            word,
                            if of_size {
                                8
                            } else {
                                16
                            },
                        ),
                    ),
                    word,
                ),
            ),
        }
    }
}

/// The size or alignment of what a pointer points to.
pub open spec fn measure(
    scene: Scene,
    at: Moment,
    of_size: bool,
    instance: Instance,
    args: Seq<Operand>,
) -> Result<Reply, Lost> {
    let table = scene.program.types;
    if args.len() != 1 {
        Err(Failure::Arity(args.len() as usize).at_once())
    } else {
        match normal_arg(table, instance) {
            Err(failure) => Err(failure.at_once()),
            Ok(elem) => {
                let kind = table.kind(table.runtime(elem));
                if kind is Dynamic || kind is Slice {
                    match operand::operand_value(scene, at, args[0]) {
                        Err(failure) => Err(failure.at_once()),
                        Ok(fat) => result(
                            fat.needs,
                            measured(table, at, of_size, kind, fat.value),
                        ),
                    }
                } else {
                    match layout_fact(table, of_size, elem) {
                        Err(failure) => Err(failure.at_once()),
                        Ok(bytes) => result(
                            Seq::empty(),
                            Ok(meaning::constant(types::unsigned(64), bytes as u128)),
                        ),
                    }
                }
            },
        }
    }
}

fn put_measured(
    table: &TyTable,
    ctx: &mut Context,
    block: BlockId,
    of_size: bool,
    ty: TyId,
    fat: Value,
) -> (r: Result<Value, Failure>)
    requires
        table.wf(),
        table.has(ty),
        old(ctx).wf(),
        old(ctx).has_block(block),
        old(ctx).has(fat),
    ensures
        final(ctx).computed_since(*old(ctx), block),
        place::gives(
            *final(ctx),
            r,
            measured(
                *table,
                old(ctx)@.now(block),
                of_size,
                table.kind(ty),
                fat.meaning@,
            ),
        ),
{
    if !value_has_field(ctx, fat, 1) {
        return Err(Failure::Metadata(ctx.type_of(fat)));
    }
    proof {
        assert(table.ty_wf(ty));
    }
    match &table.types[ty.0].kind {
        TyKind::Slice(inner) => {
            assert(table.parts(ty)[0] == *inner);
            let bytes: u64 = layout_fact_of(table, of_size, *inner)?;
            if of_size {
                let len: Value = put_field(ctx, block, fat, 1);
                scale_index(ctx, block, len, bytes)
            } else {
                Ok(put_size(ctx, block, bytes))
            }
        },
        _ => {
            let methods: Value = put_field(ctx, block, fat, 1);
            let offset: u64 = if of_size {
                8
            } else {
                16
            };
            let addr: Value = ptr_offset_const(ctx, block, methods, offset);
            let word: TypeHandle = usize_ty();
            Ok(put_load(ctx, block, addr, &word))
        },
    }
}

fn lower_measure(
    site: &Site,
    ctx: &mut Context,
    block: BlockId,
    needs: &mut Needs,
    of_size: bool,
    instance: &Instance,
    args: &Vec<Operand>,
) -> (r: Result<Answer, Failure>)
    requires
        site.ready(*old(ctx), block),
        args_wf(*site.program, *instance),
        operand::operands_wf(*site.program, args@),
    ensures
        replies(
            (*final(ctx), final(needs)@),
            (*old(ctx), old(needs)@),
            block,
            r,
            measure(site.scene(), old(ctx)@.now(block), of_size, *instance, args@),
        ),
{
    let ghost before = *ctx;
    let table: &TyTable = &site.program.types;
    if args.len() != 1 {
        return Err(Failure::Arity(args.len()));
    }
    let elem: TyId = normal_arg_of(site.program, instance)?;
    let runtime: TyId = table.runtime_ty(elem);
    let is_fat: bool = match &table.types[runtime.0].kind {
        TyKind::Dynamic(_) | TyKind::Slice(_) => true,
        _ => false,
    };
    let r: Value = if is_fat {
        let fat: Value = import_operand(site, ctx, block, needs, &args[0])?;
        put_measured(table, ctx, block, of_size, runtime, fat)?
    } else {
        let bytes: u64 = layout_fact_of(table, of_size, elem)?;
        assert(needs@ =~= old(needs)@ + Seq::<Asked>::empty());
        put_size(ctx, block, bytes)
    };
    proof {
        ctx.lemma_computed(before, block);
    }
    Ok(Answer::Value(r))
}

/// The instance that drops values of a type, and its symbol.
pub open spec fn dropper(program: Program, ty: TyId) -> Result<(usize, Seq<char>), Failure> {
    match program.types.info(ty).drop_glue {
        Some(index) => if index < program.instances@.len() {
            Ok((index, need::instance_symbol(program.instances@[index as int])))
        } else {
            Err(Failure::Malformed)
        },
        None => Err(Failure::Malformed),
    }
}

/// The instance that drops values of a type, and its symbol.
pub fn dropper_of(program: &Program, ty: TyId) -> (r: Result<(usize, String), Failure>)
    requires
        program.types.has(ty),
    ensures
        match dropper(*program, ty) {
            Ok((index, symbol)) => r matches Ok((found, s)) && found == index && s@ == symbol,
            Err(failure) => r matches Err(other) && other == failure,
        },
{
    match program.types.types[ty.0].drop_glue {
        Some(index) => {
            if index < program.instances.len() {
                Ok((index, instance_symbol_of(&program.instances[index])))
            } else {
                Err(Failure::Malformed)
            }
        },
        None => Err(Failure::Malformed),
    }
}

/// What calling a function on an address does.
pub open spec fn call_on(at: Moment, symbol: Seq<char>, addr: Meaning) -> Result<
    Seq<Step>,
    Failure,
> {
    match passing::passed(at, addr) {
        Err(failure) => Err(failure),
        Ok((args, steps)) => Ok(steps.push(meaning::call_step(symbol, args, None))),
    }
}

/// Calls a function on an address.
pub fn put_call_on(ctx: &mut Context, block: BlockId, symbol: String, addr: Value) -> (r: Result<
    (),
    Failure,
>)
    requires
        old(ctx).wf(),
        old(ctx).has_block(block),
        old(ctx).has(addr),
    ensures
        match call_on(old(ctx)@.now(block), symbol@, addr.meaning@) {
            Ok(steps) => r is Ok && final(ctx).ran_since(*old(ctx), block, steps),
            Err(failure) => r == Err::<(), Failure>(failure) && *final(ctx) == *old(ctx),
        },
{
    let ghost before = *ctx;
    let mut call_args: Vec<Value> = Vec::new();
    assert(meaning::meanings(call_args@) =~= Seq::<Meaning>::empty());
    put_passed(ctx, block, addr, &mut call_args)?;
    let ghost middle = *ctx;
    let ghost first = passing::passed(before@.now(block), addr.meaning@)->Ok_0;
    proof {
        ctx.lemma_time(before, block, first.1);
        assert(meaning::meanings(call_args@) =~= first.0);
    }
    put_call(ctx, block, symbol, call_args, None);
    proof {
        let call = meaning::call_step(symbol@, first.0, None);
        ctx.lemma_ran(middle, before, block, first.1, seq![call]);
        assert(first.1 + seq![call] =~= first.1.push(call));
    }
    Ok(())
}

/// The dropping of a value in place.
pub open spec fn drop_in_place(
    scene: Scene,
    at: Moment,
    instance: Instance,
    args: Seq<Operand>,
) -> Result<Reply, Lost> {
    let program = scene.program;
    match type_arg(instance, 0) {
        Err(failure) => Err(failure.at_once()),
        Ok(ty) => if !program.types.info(ty).needs_drop {
            Ok(nothing())
        } else if args.len() != 1 {
            Err(Failure::Arity(args.len() as usize).at_once())
        } else {
            match dropper(program, ty) {
                Err(failure) => Err(failure.at_once()),
                Ok((index, symbol)) => {
                    let glue = need::asking(at, Demand::Function(index, Purpose::Drop(ty)));
                    match operand::operand_value(scene, at, args[0]) {
                        Err(failure) => Err(failure.after(glue)),
                        Ok(addr) => match call_on(at, symbol, addr.value) {
                            Err(failure) => Err(failure.after(glue + addr.needs)),
                            Ok(steps) => Ok(
                                Reply::Done(Effect { needs: glue + addr.needs, steps }),
                            ),
                        },
                    }
                },
            }
        },
    }
}

fn lower_drop(
    site: &Site,
    ctx: &mut Context,
    block: BlockId,
    needs: &mut Needs,
    instance: &Instance,
    args: &Vec<Operand>,
) -> (r: Result<Answer, Failure>)
    requires
        site.ready(*old(ctx), block),
        args_wf(*site.program, *instance),
        operand::operands_wf(*site.program, args@),
    ensures
        replies(
            (*final(ctx), final(needs)@),
            (*old(ctx), old(needs)@),
            block,
            r,
            drop_in_place(site.scene(), old(ctx)@.now(block), *instance, args@),
        ),
{
    let ghost before = *ctx;
    let ghost at = ctx@.now(block);
    proof {
        ctx.lemma_computed(before, block);
        assert(needs@ =~= old(needs)@ + Seq::<Asked>::empty());
    }
    let ty: TyId = type_arg_of(site.program, instance, 0)?;
    if !site.program.types.types[ty.0].needs_drop {
        return Ok(Answer::Done);
    }
    if args.len() != 1 {
        return Err(Failure::Arity(args.len()));
    }
    let (index, symbol): (usize, String) = dropper_of(site.program, ty)?;
    needs.ask(ctx, block, Need::Function(index, Purpose::Drop(ty)));
    let addr: Value = import_operand(site, ctx, block, needs, &args[0])?;
    let ghost middle = *ctx;
    put_call_on(ctx, block, symbol, addr)?;
    proof {
        let steps = call_on(at, symbol@, addr.meaning@)->Ok_0;
        ctx.lemma_computed_ran(middle, before, block, steps);
        let asked = operand::operand_value(site.scene(), at, args@[0])->Ok_0.needs;
        assert(needs@ =~= old(needs)@ + (need::asking(
            at,
            Demand::Function(index, Purpose::Drop(ty)),
        ) + asked));
    }
    Ok(Answer::Done)
}

/// The types of meanings.
pub open spec fn types_of(values: Seq<Meaning>) -> Seq<TypeHandle> {
    values.map_values(|m: Meaning| m.ty)
}

/// The types of values.
pub fn value_types(ctx: &Context, values: &Vec<Value>) -> (r: Vec<TypeHandle>)
    requires
        ctx.wf(),
        forall|i: int| 0 <= i < values@.len() ==> ctx.has(#[trigger] values@[i]),
    ensures
        r@ == types_of(meaning::meanings(values@)),
{
    let mut list: Vec<TypeHandle> = Vec::new();
    let mut i: usize = 0;
    while i < values.len()
        invariant
            i <= values@.len(),
            ctx.wf(),
            forall|k: int| 0 <= k < values@.len() ==> ctx.has(#[trigger] values@[k]),
            list@.len() == i,
            forall|k: int| 0 <= k < i ==> #[trigger] list@[k] == values@[k].ty(),
        decreases values@.len() - i,
    {
        list.push(ctx.type_of(values[i]));
        i = i + 1;
    }
    assert(list@ =~= types_of(meaning::meanings(values@)));
    list
}

/// A function on floats.
pub open spec fn float_call(scene: Scene, at: Moment, name: Seq<char>, args: Seq<Operand>) -> Result<
    Reply,
    Lost,
> {
    match floats::float_math(name) {
        None => Ok(Reply::Unknown(Seq::empty())),
        Some(math) => if args.len() == 0 {
            Err(Failure::Arity(0).at_once())
        } else {
            match operand::operand_values(scene, at, args, args.len()) {
                Err(lost) => Err(lost),
                Ok((values, needs)) => {
                    let ty = values[0].ty;
                    if !ty.is_float() {
                        Ok(Reply::Unknown(needs))
                    } else {
                        replied(
                            needs,
                            Ok(
                                wide::outside_value(
                                    at,
                                    floats::symbol_for(math, ty is Fp32),
                                    types_of(values),
                                    values,
                                    ty,
                                ),
                            ),
                        )
                    }
                },
            }
        },
    }
}

/// Calls a function on floats.
pub fn lower_float_math_intrinsic(
    site: &Site,
    ctx: &mut Context,
    block: BlockId,
    needs: &mut Needs,
    name: &str,
    args: &Vec<Operand>,
) -> (r: Result<Answer, Failure>)
    requires
        site.ready(*old(ctx), block),
        operand::operands_wf(*site.program, args@),
    ensures
        replies(
            (*final(ctx), final(needs)@),
            (*old(ctx), old(needs)@),
            block,
            r,
            float_call(site.scene(), old(ctx)@.now(block), name@, args@),
        ),
{
    let ghost before = *ctx;
    let ghost at = ctx@.now(block);
    proof {
        ctx.lemma_computed(before, block);
        assert(needs@ =~= old(needs)@ + Seq::<Asked>::empty());
    }
    let lowering: FloatMathLowering = match float_math_intrinsic(name) {
        Some(lowering) => lowering,
        None => return Ok(Answer::Unknown),
    };
    if args.len() == 0 {
        return Err(Failure::Arity(0));
    }
    let ghost want = operand::operand_values(site.scene(), at, args@, args@.len());
    let values: Vec<Value> = import_operands(site, ctx, block, needs, args)?;
    let ghost middle = *ctx;
    let ghost asked = needs@;
    proof {
        lemma_values_len(site.scene(), at, args@, args@.len());
        ctx.lemma_computed(before, block);
        assert(values@[0].meaning@ == want->Ok_0.0[0]);
    }
    let ty: TypeHandle = ctx.type_of(values[0]);
    let is_f32: bool = match &ty {
        TypeHandle::Fp32 => true,
        TypeHandle::Fp64 => false,
        _ => return Ok(Answer::Unknown),
    };
    let symbol: String = float_symbol(&lowering, is_f32);
    let inputs: Vec<TypeHandle> = value_types(ctx, &values);
    let r: Option<Value> = call_outside(
        ctx,
        block,
        needs,
        symbol.as_str(),
        inputs,
        values,
        Some(ty),
    );
    proof {
        let effect = need::outside(
            at,
            symbol@,
            types_of(want->Ok_0.0),
            want->Ok_0.0,
            Some(ty),
        );
        ctx.lemma_computed_ran(middle, before, block, effect.steps);
        assert(needs@ =~= old(needs)@ + (want->Ok_0.1 + effect.needs));
    }
    match r {
        Some(value) => Ok(Answer::Value(value)),
        None => {
            assert(false);
            Err(Failure::Malformed)
        },
    }
}

/// The intrinsics that are told apart by name.
#[derive(Clone, Copy, PartialEq, Eq, Debug, Structural)]
pub enum Known {
    /// A hint.
    ColdPath,
    BlackBox,
    AtomicLoad,
    AtomicStore,
    AtomicExchange,
    WriteBytes,
    OffsetFrom,
    Bits(BitOp),
    /// A rotation, up or down.
    Rotate(bool),
    /// A copy, of memory that may overlap or may not.
    Copy(bool),
    Swap,
    SimdSplat,
    Simd(VectorOp),
    SimdExtract,
    /// A saturating sum or difference.
    Saturating(bool),
    ExactDiv,
    FloatToInt,
    ArithOffset,
    /// A size or an alignment.
    Measure(bool),
    Drop,
    /// A function on floats, or nothing that is known.
    Other,
}

/// Which intrinsic a name stands for.
#[verifier::opaque]
pub open spec fn known(name: Seq<char>) -> Known {
    if name == "cold_path"@ {
        Known::ColdPath
    } else if name == "black_box"@ {
        Known::BlackBox
    } else if name == "atomic_load"@ {
        Known::AtomicLoad
    } else if name == "atomic_store"@ {
        Known::AtomicStore
    } else if name == "atomic_xchg"@ {
        Known::AtomicExchange
    } else if name == "write_bytes"@ {
        Known::WriteBytes
    } else if name == "ptr_offset_from_unsigned"@ {
        Known::OffsetFrom
    } else if name == "ptr_offset_from"@ {
        Known::OffsetFrom
    } else if name == "ctpop"@ {
        Known::Bits(BitOp::Ones)
    } else if name == "cttz"@ {
        Known::Bits(BitOp::TrailingZeros)
    } else if name == "cttz_nonzero"@ {
        Known::Bits(BitOp::TrailingZeros)
    } else if name == "ctlz"@ {
        Known::Bits(BitOp::LeadingZeros)
    } else if name == "ctlz_nonzero"@ {
        Known::Bits(BitOp::LeadingZeros)
    } else if name == "bswap"@ {
        Known::Bits(BitOp::SwapBytes)
    } else if name == "bitreverse"@ {
        Known::Bits(BitOp::ReverseBits)
    } else if name == "rotate_left"@ {
        Known::Rotate(true)
    } else if name == "rotate_right"@ {
        Known::Rotate(false)
    } else if name == "copy"@ {
        Known::Copy(true)
    } else if name == "copy_nonoverlapping"@ {
        Known::Copy(false)
    } else if name == "typed_swap_nonoverlapping"@ {
        Known::Swap
    } else if name == "simd_splat"@ {
        Known::SimdSplat
    } else if name == "simd_or"@ {
        Known::Simd(VectorOp::Or)
    } else if name == "simd_extract"@ {
        Known::SimdExtract
    } else if name == "simd_extract_dyn"@ {
        Known::SimdExtract
    } else if name == "simd_eq"@ {
        Known::Simd(VectorOp::Eq)
    } else if name == "simd_lt"@ {
        Known::Simd(VectorOp::Lt)
    } else if name == "simd_ge"@ {
        Known::Simd(VectorOp::Ge)
    } else if name == "saturating_add"@ {
        Known::Saturating(true)
    } else if name == "saturating_sub"@ {
        Known::Saturating(false)
    } else if name == "exact_div"@ {
        Known::ExactDiv
    } else if name == "float_to_int_unchecked"@ {
        Known::FloatToInt
    } else if name == "arith_offset"@ {
        Known::ArithOffset
    } else if name == "size_of_val"@ {
        Known::Measure(true)
    } else if name == "align_of_val"@ {
        Known::Measure(false)
    } else if name == "drop_glue"@ {
        Known::Drop
    } else {
        Known::Other
    }
}

/// Which intrinsic a name stands for.
pub fn known_of(name: &str) -> (r: Known)
    ensures
        r == known(name@),
{
    proof {
        reveal(known);
    }
    if same(name, "cold_path") {
        Known::ColdPath
    } else if same(name, "black_box") {
        Known::BlackBox
    } else if same(name, "atomic_load") {
        Known::AtomicLoad
    } else if same(name, "atomic_store") {
        Known::AtomicStore
    } else if same(name, "atomic_xchg") {
        Known::AtomicExchange
    } else if same(name, "write_bytes") {
        Known::WriteBytes
    } else if same(name, "ptr_offset_from_unsigned") {
        Known::OffsetFrom
    } else if same(name, "ptr_offset_from") {
        Known::OffsetFrom
    } else if same(name, "ctpop") {
        Known::Bits(BitOp::Ones)
    } else if same(name, "cttz") {
        Known::Bits(BitOp::TrailingZeros)
    } else if same(name, "cttz_nonzero") {
        Known::Bits(BitOp::TrailingZeros)
    } else if same(name, "ctlz") {
        Known::Bits(BitOp::LeadingZeros)
    } else if same(name, "ctlz_nonzero") {
        Known::Bits(BitOp::LeadingZeros)
    } else if same(name, "bswap") {
        Known::Bits(BitOp::SwapBytes)
    } else if same(name, "bitreverse") {
        Known::Bits(BitOp::ReverseBits)
    } else if same(name, "rotate_left") {
        Known::Rotate(true)
    } else if same(name, "rotate_right") {
        Known::Rotate(false)
    } else if same(name, "copy") {
        Known::Copy(true)
    } else if same(name, "copy_nonoverlapping") {
        Known::Copy(false)
    } else if same(name, "typed_swap_nonoverlapping") {
        Known::Swap
    } else if same(name, "simd_splat") {
        Known::SimdSplat
    } else if same(name, "simd_or") {
        Known::Simd(VectorOp::Or)
    } else if same(name, "simd_extract") {
        Known::SimdExtract
    } else if same(name, "simd_extract_dyn") {
        Known::SimdExtract
    } else if same(name, "simd_eq") {
        Known::Simd(VectorOp::Eq)
    } else if same(name, "simd_lt") {
        Known::Simd(VectorOp::Lt)
    } else if same(name, "simd_ge") {
        Known::Simd(VectorOp::Ge)
    } else if same(name, "saturating_add") {
        Known::Saturating(true)
    } else if same(name, "saturating_sub") {
        Known::Saturating(false)
    } else if same(name, "exact_div") {
        Known::ExactDiv
    } else if same(name, "float_to_int_unchecked") {
        Known::FloatToInt
    } else if same(name, "arith_offset") {
        Known::ArithOffset
    } else if same(name, "size_of_val") {
        Known::Measure(true)
    } else if same(name, "align_of_val") {
        Known::Measure(false)
    } else if same(name, "drop_glue") {
        Known::Drop
    } else {
        Known::Other
    }
}

/// The name of the intrinsic that an instance is.
pub open spec fn intrinsic_name(instance: Instance) -> Option<Seq<char>> {
    match instance.kind {
        InstanceKind::Intrinsic => Some(instance.name@),
        InstanceKind::DropGlue(_) => Some("drop_glue"@),
        _ => None,
    }
}

/// What the call of an intrinsic comes to.
#[verifier::opaque]
pub open spec fn reply(
    scene: Scene,
    at: Moment,
    name: Seq<char>,
    instance: Instance,
    args: Seq<Operand>,
    dest: Place,
) -> Result<Reply, Lost> {
    match known(name) {
        Known::ColdPath => Ok(nothing()),
        Known::BlackBox => black_box(scene, at, instance, args),
        Known::AtomicLoad => atomic_load(scene, at, instance, args),
        Known::AtomicStore => atomic_store(scene, at, instance, args),
        Known::AtomicExchange => atomic_exchange(scene, at, instance, args),
        Known::WriteBytes => write_bytes(scene, at, instance, args),
        Known::OffsetFrom => offset_from(scene, at, instance, args, dest),
        Known::Bits(op) => bit_intrinsic(scene, at, op, args, dest),
        Known::Rotate(left) => rotate(scene, at, left, args, dest),
        Known::Copy(overlapping) => copy_memory(
            scene,
            at,
            if overlapping {
                "memmove"@
            } else {
                "memcpy"@
            },
            instance,
            args,
        ),
        Known::Swap => swap_memory(scene, at, instance, args),
        Known::SimdSplat => simd_splat(scene, at, instance, args, dest),
        Known::Simd(op) => simd_binary(scene, at, op, instance, args, dest),
        Known::SimdExtract => simd_extract(scene, at, instance, args, dest),
        Known::Saturating(is_add) => saturating(scene, at, is_add, args),
        Known::ExactDiv => exact_div(scene, at, args),
        Known::FloatToInt => float_to_int(scene, at, args, dest),
        Known::ArithOffset => arith_offset(scene, at, instance, args),
        Known::Measure(of_size) => measure(scene, at, of_size, instance, args),
        Known::Drop => drop_in_place(scene, at, instance, args),
        Known::Other => float_call(scene, at, name, args),
    }
}

/// The steps that the call of an intrinsic leaves behind where it fails: most
/// check all that they need before they do anything.
pub open spec fn left_by(
    scene: Scene,
    at: Moment,
    name: Seq<char>,
    instance: Instance,
    args: Seq<Operand>,
) -> Seq<Step> {
    match known(name) {
        Known::AtomicExchange => atomic_left(scene, at, instance, args),
        Known::SimdSplat => splat_left(scene, at, instance, args),
        Known::Simd(op) => binary_left(scene, at, op, instance, args),
        Known::SimdExtract => extract_left(scene, at, instance, args),
        _ => Seq::empty(),
    }
}

fn answer(
    site: &Site,
    ctx: &mut Context,
    block: BlockId,
    needs: &mut Needs,
    name: &str,
    instance: &Instance,
    args: &Vec<Operand>,
    dest: &Place,
) -> (r: Result<Answer, Failure>)
    requires
        site.ready(*old(ctx), block),
        args_wf(*site.program, *instance),
        operand::operands_wf(*site.program, args@),
        site.program.types.has(dest.ty),
    ensures
        replies_past(
            (*final(ctx), final(needs)@),
            (*old(ctx), old(needs)@),
            block,
            r,
            reply(site.scene(), old(ctx)@.now(block), name@, *instance, args@, *dest),
            left_by(site.scene(), old(ctx)@.now(block), name@, *instance, args@),
        ),
{
    proof {
        reveal(reply);
    }
    let ghost before = *ctx;
    let r: Result<Answer, Failure> = match known_of(name) {
        Known::ColdPath => {
            proof {
                ctx.lemma_computed(*ctx, block);
                assert(needs@ =~= old(needs)@ + Seq::<Asked>::empty());
            }
            Ok(Answer::Done)
        },
        Known::BlackBox => lower_black_box(site, ctx, block, needs, instance, args),
        Known::AtomicLoad => lower_atomic_load(site, ctx, block, needs, instance, args),
        Known::AtomicStore => lower_atomic_store(site, ctx, block, needs, instance, args),
        Known::AtomicExchange => lower_atomic_exchange(site, ctx, block, needs, instance, args),
        Known::WriteBytes => lower_write_bytes(site, ctx, block, needs, instance, args),
        Known::OffsetFrom => lower_offset_from(site, ctx, block, needs, instance, args, dest),
        Known::Bits(op) => lower_bits(site, ctx, block, needs, op, args, dest),
        Known::Rotate(left) => lower_rotate(site, ctx, block, needs, left, args, dest),
        Known::Copy(true) => lower_copy(site, ctx, block, needs, "memmove", instance, args),
        Known::Copy(false) => lower_copy(site, ctx, block, needs, "memcpy", instance, args),
        Known::Swap => lower_swap(site, ctx, block, needs, instance, args),
        Known::SimdSplat => lower_simd_splat(site, ctx, block, needs, instance, args, dest),
        Known::Simd(op) => lower_simd_binary(site, ctx, block, needs, op, instance, args, dest),
        Known::SimdExtract => lower_simd_extract(site, ctx, block, needs, instance, args, dest),
        Known::Saturating(is_add) => lower_saturating(site, ctx, block, needs, is_add, args),
        Known::ExactDiv => lower_exact_div(site, ctx, block, needs, args),
        Known::FloatToInt => lower_float_to_int(site, ctx, block, needs, args, dest),
        Known::ArithOffset => lower_arith_offset(site, ctx, block, needs, instance, args),
        Known::Measure(of_size) => lower_measure(
            site,
            ctx,
            block,
            needs,
            of_size,
            instance,
            args,
        ),
        Known::Drop => lower_drop(site, ctx, block, needs, instance, args),
        Known::Other => lower_float_math_intrinsic(site, ctx, block, needs, name, args),
    };
    proof {
        if ctx.computed_since(before, block) {
            ctx.lemma_computed(before, block);
        }
    }
    r
}

/// The call of an instance that may be an intrinsic: whether it is one, and
/// what it does then.
pub open spec fn known_call(
    scene: Scene,
    at: Moment,
    instance: Instance,
    args: Seq<Operand>,
    dest: Place,
) -> Result<(bool, Effect), Lost> {
    match intrinsic_name(instance) {
        None => Ok((false, Effect { needs: Seq::empty(), steps: Seq::empty() })),
        Some(name) => match reply(scene, at, name, instance, args, dest) {
            Err(lost) => Err(lost),
            Ok(Reply::Unknown(needs)) => Ok((false, Effect { needs, steps: Seq::empty() })),
            Ok(Reply::Done(effect)) => Ok((true, effect)),
            Ok(Reply::Value(lowered)) => match scene.write(
                meaning::later(at, lowered.steps.len()),
                dest,
                lowered.value,
            ) {
                Err(failure) => Err(failure.after(lowered.needs)),
                Ok(step) => Ok(
                    (true, Effect { needs: lowered.needs, steps: lowered.steps.push(step) }),
                ),
            },
        },
    }
}

/// The steps that the call of an instance leaves behind where it fails: those
/// of the intrinsic, where only its result cannot be written.
pub open spec fn known_left(
    scene: Scene,
    at: Moment,
    instance: Instance,
    args: Seq<Operand>,
    dest: Place,
) -> Seq<Step> {
    match intrinsic_name(instance) {
        None => Seq::empty(),
        Some(name) => match reply(scene, at, name, instance, args, dest) {
            Ok(Reply::Value(lowered)) => lowered.steps,
            _ => left_by(scene, at, name, instance, args),
        },
    }
}

/// Calls an instance where it is an intrinsic that is known.
pub fn lower_known_intrinsic_call(
    site: &Site,
    ctx: &mut Context,
    block: BlockId,
    needs: &mut Needs,
    instance: &Instance,
    args: &Vec<Operand>,
    dest: &Place,
) -> (r: Result<bool, Failure>)
    requires
        site.ready(*old(ctx), block),
        args_wf(*site.program, *instance),
        operand::operands_wf(*site.program, args@),
        place::place_wf(site.program.types, *dest),
    ensures
        match known_call(site.scene(), old(ctx)@.now(block), *instance, args@, *dest) {
            Ok((handled, effect)) => {
                &&& r == Ok::<bool, Failure>(handled)
                &&& final(ctx).ran_since(*old(ctx), block, effect.steps)
                &&& final(needs)@ == old(needs)@ + effect.needs
            },
            Err(lost) => {
                &&& r == Err::<bool, Failure>(lost.why)
                &&& final(ctx).ran_since(
                    *old(ctx),
                    block,
                    known_left(site.scene(), old(ctx)@.now(block), *instance, args@, *dest),
                )
                &&& final(needs)@ == old(needs)@ + lost.needs
            },
        },
{
    let ghost before = *ctx;
    let ghost at = ctx@.now(block);
    let reply_made: Result<Answer, Failure> = match instance.kind {
        InstanceKind::Intrinsic => answer(
            site,
            ctx,
            block,
            needs,
            instance.name.as_str(),
            instance,
            args,
            dest,
        ),
        InstanceKind::DropGlue(_) => answer(
            site,
            ctx,
            block,
            needs,
            "drop_glue",
            instance,
            args,
            dest,
        ),
        _ => {
            proof {
                ctx.lemma_computed(before, block);
                assert(needs@ =~= old(needs)@ + Seq::<Asked>::empty());
            }
            return Ok(false);
        },
    };
    match reply_made {
        Err(failure) => Err(failure),
        Ok(Answer::Unknown) => Ok(false),
        Ok(Answer::Done) => Ok(true),
        Ok(Answer::Value(value)) => {
            let ghost middle = *ctx;
            let ghost lowered = reply(
                site.scene(),
                at,
                intrinsic_name(*instance)->0,
                *instance,
                args@,
                *dest,
            )->Ok_0->Value_0;
            proof {
                ctx.lemma_time(before, block, lowered.steps);
                site.lemma_ready(*ctx, before, block);
            }
            let written: Result<(), Failure> = write_place(site, ctx, block, dest, value);
            proof {
                if written is Err {
                    ctx.lemma_ran_computed(middle, before, block, lowered.steps);
                }
            }
            written?;
            proof {
                let step = site.scene().write(
                    meaning::later(at, lowered.steps.len()),
                    *dest,
                    value.meaning@,
                )->Ok_0;
                ctx.lemma_ran(middle, before, block, lowered.steps, seq![step]);
                assert(lowered.steps + seq![step] =~= lowered.steps.push(step));
            }
            Ok(true)
        },
    }
}

} // verus!
