//! Functions that are made up: those that forward to functions of other
//! objects, and the entry point.

use crate::abi;
use crate::abi::ArgAbi;
use crate::convert;
use crate::convert::{convert_immediate_ty, convert_return_ty};
use crate::error::Failure;
use crate::function;
use crate::globals;
use crate::globals::declare_external_function;
use crate::ir;
use crate::ir::{BlockId, Context, Inst, Meaning, RegionId, Value, World};
use crate::meaning;
use crate::meaning::{copy_args, put_call, put_constant, put_return, Step};
use crate::mir::{Instance, Program, Signature};
use crate::need;
use crate::need::{instance_symbol_of, thunk_symbol_of};
use crate::ox;
use crate::ox::FuncOp;
use crate::passing;
use crate::sem::Moment;
use crate::signature::append_inputs;
use crate::ty::{TyId, TyTable};
use crate::types;
use crate::types::{Signedness, TypeHandle, TypeList};
use vstd::prelude::*;

verus! {

/// The types of the arguments that pass the first inputs of a signature.
pub open spec fn passed_inputs(table: TyTable, inputs: Seq<TyId>, count: nat) -> Result<
    Seq<TypeHandle>,
    Failure,
>
    decreases count,
{
    if count == 0 {
        Ok(Seq::empty())
    } else {
        match passed_inputs(table, inputs, (count - 1) as nat) {
            Err(failure) => Err(failure),
            Ok(list) => match convert::immediate(table, inputs[count - 1]) {
                Err(failure) => Err(failure),
                Ok(ty) => match abi::arg_abi(ty) {
                    Err(failure) => Err(failure),
                    Ok(abi) => Ok(list + abi.inputs()),
                },
            },
        }
    }
}

proof fn lemma_inputs_fail(table: TyTable, inputs: Seq<TyId>, from: nat, to: nat)
    requires
        from <= to,
        passed_inputs(table, inputs, from) is Err,
    ensures
        passed_inputs(table, inputs, to) == passed_inputs(table, inputs, from),
    decreases to,
{
    if from < to {
        lemma_inputs_fail(table, inputs, from, (to - 1) as nat);
    }
}

/// The types of the arguments and of the result of a function.
pub open spec fn passed_signature(table: TyTable, sig: Signature) -> Result<
    (Seq<TypeHandle>, Option<TypeHandle>),
    Failure,
> {
    match passed_inputs(table, sig.inputs@, sig.inputs@.len()) {
        Err(failure) => Err(failure),
        Ok(inputs) => match convert::returned(table, sig.output) {
            Err(failure) => Err(failure),
            Ok(result) => Ok((inputs, result)),
        },
    }
}

/// Whether the types of a signature stand in a table.
pub open spec fn signature_wf(table: TyTable, sig: Signature) -> bool {
    &&& table.has(sig.output)
    &&& forall|i: int| 0 <= i < sig.inputs@.len() ==> table.has(#[trigger] sig.inputs@[i])
}

fn passed_signature_of(table: &TyTable, sig: &Signature) -> (r: Result<
    (Vec<TypeHandle>, Option<TypeHandle>),
    Failure,
>)
    requires
        table.wf(),
        signature_wf(*table, *sig),
    ensures
        match passed_signature(*table, *sig) {
            Ok((inputs, result)) => r matches Ok((found, handed_back)) && found@ == inputs
                && handed_back == result,
            Err(failure) => r matches Err(other) && other == failure,
        },
{
    let mut inputs: Vec<TypeHandle> = Vec::new();
    let mut i: usize = 0;
    assert(inputs@ =~= Seq::<TypeHandle>::empty());
    while i < sig.inputs.len()
        invariant
            i <= sig.inputs@.len(),
            table.wf(),
            signature_wf(*table, *sig),
            passed_inputs(*table, sig.inputs@, i as nat) == Ok::<Seq<TypeHandle>, Failure>(
                inputs@,
            ),
        decreases sig.inputs@.len() - i,
    {
        proof {
            if passed_inputs(*table, sig.inputs@, (i + 1) as nat) is Err {
                lemma_inputs_fail(*table, sig.inputs@, (i + 1) as nat, sig.inputs@.len());
            }
        }
        let ty: TypeHandle = convert_immediate_ty(table, sig.inputs[i])?;
        let abi: ArgAbi = abi::arg_abi_for_ty(&ty)?;
        append_inputs(&abi, &mut inputs);
        i = i + 1;
    }
    let result: Option<TypeHandle> = convert_return_ty(table, sig.output)?;
    Ok((inputs, result))
}

/// Starts a function of one block that has no instructions yet.
fn start_function(ctx: &mut Context, module: BlockId, symbol: String, ty: TypeHandle) -> (r: BlockId)
    requires
        old(ctx).wf(),
        old(ctx).has_block(module),
    ensures
        final(ctx).grew(*old(ctx)),
        final(ctx).dialects == old(ctx).dialects,
        final(ctx)@.has_function(old(ctx)@, module, symbol@, ty, 1),
        r.0 == old(ctx)@.effects.len(),
        final(ctx).has_block(r),
        final(ctx).steps(r) == Seq::<Step>::empty(),
        meaning::meanings(final(ctx)@.args[r.0 as int]) == passing::arguments(
            r,
            ox::function_inputs(ty),
        ),
{
    let ghost before = *ctx;
    let ghost name = symbol@;
    let ghost fn_ty = ty;
    proof {
        before.lemma_sizes();
    }
    let func: FuncOp = FuncOp::new(ctx, symbol, ty);
    let ghost args = ctx@.args.last();
    let entry: BlockId = func.get_entry_block();
    ctx.insert_at_back(func.get_operation(), module);
    proof {
        let made = ctx@;
        assert(made.args + Seq::new(0, |k: int| Seq::<Value>::empty()) =~= made.args);
        assert(made.has_grown(made, RegionId(before@.regions.len() as usize), 0));
        function::lemma_has_function(made, made, before@, module, name, fn_ty, args, 0);
        assert(ctx@.effects[entry.0 as int] =~= Seq::<Inst>::empty());
        assert(ctx.steps(entry) =~= Seq::<Step>::empty());
        passing::lemma_arguments(*ctx, entry, ox::function_inputs(fn_ty));
    }
    entry
}

/// What a function does that only forwards to another.
pub open spec fn forwarding(
    first: nat,
    symbol: Seq<char>,
    inputs: Seq<TypeHandle>,
    result: Option<TypeHandle>,
) -> Seq<Step> {
    seq![
        meaning::call_step(
            symbol,
            passing::arguments(BlockId(first as usize), inputs),
            result,
        ),
        meaning::return_step(
            meaning::reply_of(Moment { block: first as int, time: 0 }, result),
        ),
    ]
}

/// The world in which a function is declared that another forwards to.
pub open spec fn with_declaration(
    world: World,
    module: BlockId,
    symbol: Seq<char>,
    inputs: Seq<TypeHandle>,
    result: Option<TypeHandle>,
) -> World {
    if ir::has_llvm_function(world.effects[module.0 as int], symbol) {
        world
    } else {
        world.then_in(module, globals::declaration(symbol, inputs, result))
    }
}

/// Makes a function that forwards all its arguments to an instance of another
/// object, which is declared. Its address can be taken like that of any
/// function here. Nothing happens where the signature has no counterpart.
pub fn define_thunk(program: &Program, ctx: &mut Context, module: BlockId, instance: &Instance) -> (r:
    Result<(), Failure>)
    requires
        program.types.wf(),
        signature_wf(program.types, instance.signature),
        old(ctx).wf(),
        old(ctx).has_block(module),
    ensures
        match passed_signature(program.types, instance.signature) {
            Ok((inputs, result)) => {
                let declared = with_declaration(
                    old(ctx)@,
                    module,
                    need::instance_symbol(*instance),
                    inputs,
                    result,
                );
                &&& r is Ok
                &&& final(ctx).grew(*old(ctx))
                &&& final(ctx).dialects == old(ctx).dialects
                &&& final(ctx)@.has_function(
                    declared,
                    module,
                    need::thunk_symbol(*instance),
                    types::function_of(inputs, result),
                    1,
                )
                &&& meaning::steps_of(final(ctx)@.effects[old(ctx)@.effects.len() as int])
                    == forwarding(
                    old(ctx)@.effects.len(),
                    need::instance_symbol(*instance),
                    inputs,
                    result,
                )
            },
            Err(failure) => {
                &&& r == Err::<(), Failure>(failure)
                &&& *final(ctx) == *old(ctx)
            },
        },
{
    let ghost before = *ctx;
    let (inputs, result): (Vec<TypeHandle>, Option<TypeHandle>) = passed_signature_of(
        &program.types,
        &instance.signature,
    )?;
    let ghost list = inputs@;
    let symbol: String = instance_symbol_of(instance);
    declare_external_function(ctx, module, symbol.clone(), &inputs, &result);
    let ghost declared = *ctx;
    let results: Vec<TypeHandle> = match &result {
        Some(ty) => {
            let one: Vec<TypeHandle> = vec![ty.clone()];
            assert(one@ =~= seq![*ty]);
            one
        },
        None => {
            let none: Vec<TypeHandle> = Vec::new();
            assert(none@ =~= Seq::<TypeHandle>::empty());
            none
        },
    };
    let ty: TypeHandle = TypeHandle::function(&inputs, &results);
    let ghost fn_ty = ty;
    proof {
        TypeList::seq_of(list);
        assert(fn_ty == types::function_of(list, result));
    }
    let entry: BlockId = start_function(ctx, module, thunk_symbol_of(instance), ty);
    let ghost started = *ctx;
    let args: Vec<Value> = copy_args(ctx, entry);
    let reply: Option<Value> = put_call(ctx, entry, symbol, args, result);
    let ghost called = *ctx;
    let ghost call = meaning::call_step(
        need::instance_symbol(*instance),
        passing::arguments(entry, list),
        result,
    );
    proof {
        assert(started.steps(entry).len() == started@.time(entry));
        called.lemma_time(started, entry, seq![call]);
    }
    put_return(ctx, entry, reply);
    proof {
        let last = meaning::return_step(meaning::meaning_of(reply));
        ctx.lemma_left(called, started, entry, seq![call], seq![last]);
        assert(Seq::<Step>::empty() + (seq![call] + seq![last]) =~= forwarding(
            before@.effects.len(),
            need::instance_symbol(*instance),
            list,
            result,
        ));
        lemma_same_function(
            ctx@,
            started@,
            declared@,
            module,
            need::thunk_symbol(*instance),
            fn_ty,
        );
    }
    Ok(())
}

/// A function that gets instructions stays one.
proof fn lemma_same_function(
    new: World,
    started: World,
    old: World,
    module: BlockId,
    symbol: Seq<char>,
    ty: TypeHandle,
)
    requires
        module.0 < old.effects.len(),
        started.has_function(old, module, symbol, ty, 1),
        new.args == started.args,
        new.labels == started.labels,
        new.regions == started.regions,
        new.effects.len() == started.effects.len(),
        forall|b: int|
            0 <= b < started.effects.len() && b != old.effects.len() ==> #[trigger] new.effects[b]
                == started.effects[b],
    ensures
        new.has_function(old, module, symbol, ty, 1),
{
    assert(new.effects[module.0 as int] == started.effects[module.0 as int]);
    assert forall|b: int| 0 <= b < old.effects.len() && b != module.0 implies #[trigger] new.effects[b]
        == old.effects[b] by {
        assert(new.effects[b] == started.effects[b]);
    }
}

/// The type of the entry point.
pub open spec fn entry_type() -> TypeHandle {
    types::function_of(Seq::empty(), Some(types::signed(32)))
}

/// What the entry point does: it calls the function that the program starts
/// in, and hands back zero.
pub open spec fn entry_steps(rust_main: Seq<char>) -> Seq<Step> {
    seq![
        meaning::call_step(rust_main, Seq::empty(), None),
        meaning::return_step(Some(meaning::constant(types::signed(32), 0))),
    ]
}

/// Makes the entry point.
pub fn import_entry_wrapper(ctx: &mut Context, module: BlockId, rust_main: String)
    requires
        old(ctx).wf(),
        old(ctx).has_block(module),
    ensures
        final(ctx).grew(*old(ctx)),
        final(ctx).dialects == old(ctx).dialects,
        final(ctx)@.has_function(old(ctx)@, module, "main"@, entry_type(), 1),
        meaning::steps_of(final(ctx)@.effects[old(ctx)@.effects.len() as int]) == entry_steps(
            rust_main@,
        ),
{
    let ghost before = *ctx;
    let ghost name = rust_main@;
    let int_ty: TypeHandle = TypeHandle::Integer { width: 32, signedness: Signedness::Signed };
    let inputs: Vec<TypeHandle> = Vec::new();
    let results: Vec<TypeHandle> = vec![int_ty.clone()];
    assert(results@ =~= seq![int_ty]);
    assert(inputs@ =~= Seq::<TypeHandle>::empty());
    let ty: TypeHandle = TypeHandle::function(&inputs, &results);
    let entry: BlockId = start_function(ctx, module, "main".to_owned(), ty);
    let ghost started = *ctx;
    let none: Vec<Value> = Vec::new();
    assert(meaning::meanings(none@) =~= Seq::<Meaning>::empty());
    put_call(ctx, entry, rust_main, none, None);
    let ghost called = *ctx;
    let ghost call = meaning::call_step(name, Seq::empty(), None);
    proof {
        called.lemma_time(started, entry, seq![call]);
    }
    let zero: Value = put_constant(ctx, entry, &int_ty, 0);
    let ghost computed = *ctx;
    put_return(ctx, entry, Some(zero));
    proof {
        let last = meaning::return_step(Some(zero.meaning@));
        ctx.lemma_computed_left(computed, called, entry, seq![last]);
        ctx.lemma_left(called, started, entry, seq![call], seq![last]);
        assert(Seq::<Step>::empty() + (seq![call] + seq![last]) =~= entry_steps(name));
        lemma_same_function(ctx@, started@, before@, module, "main"@, ty);
    }
}

} // verus!
