//! How values are passed to functions and arrive there.

use crate::abi;
use crate::abi::{lower_abi_call_arg, reassemble_abi_arg, AbiView, ArgAbi};
use crate::cast;
use crate::error::Failure;
use crate::ir::{BlockId, Context, Inst, Meaning, Value};
use crate::meaning;
use crate::meaning::Step;
use crate::sem;
use crate::sem::{Env, Moment};
use crate::types;
use crate::types::TypeHandle;
use vstd::prelude::*;

verus! {

/// A scalar part of a value.
pub open spec fn leaf(value: Meaning, place: (Seq<u32>, TypeHandle)) -> Meaning {
    Meaning {
        ty: place.1,
        den: |env: Env| sem::shaped(place.1, sem::part_at((value.den)(env), place.0)),
    }
}

/// The arguments that pass a value, and what passing it does.
pub open spec fn passed(at: Moment, value: Meaning) -> Result<(Seq<Meaning>, Seq<Step>), Failure> {
    match abi::arg_abi(value.ty) {
        Err(failure) => Err(failure),
        Ok(AbiView::Indirect) => Ok(
            (seq![meaning::slot_at(at, value.ty)], cast::spilled(at, value.ty, value)),
        ),
        Ok(AbiView::Leaves(leaves)) => Ok(
            (
                if (AbiView::Leaves(leaves)).is_whole() {
                    seq![value]
                } else {
                    leaves.map_values(|place: (Seq<u32>, TypeHandle)| leaf(value, place))
                },
                Seq::empty(),
            ),
        ),
    }
}

/// Appends the arguments that pass a value.
pub fn put_passed(ctx: &mut Context, block: BlockId, value: Value, out: &mut Vec<Value>) -> (r: Result<
    (),
    Failure,
>)
    requires
        old(ctx).wf(),
        old(ctx).has_block(block),
        old(ctx).has(value),
        forall|i: int| 0 <= i < old(out)@.len() ==> old(ctx).has(#[trigger] old(out)@[i]),
    ensures
        forall|i: int| 0 <= i < final(out)@.len() ==> final(ctx).has(#[trigger] final(out)@[i]),
        match passed(old(ctx)@.now(block), value.meaning@) {
            Ok((args, steps)) => {
                &&& r is Ok
                &&& meaning::meanings(final(out)@) == meaning::meanings(old(out)@) + args
                &&& final(ctx).ran_since(*old(ctx), block, steps)
            },
            Err(failure) => {
                &&& r == Err::<(), Failure>(failure)
                &&& *final(ctx) == *old(ctx)
            },
        },
{
    let ghost before = *ctx;
    let ghost at = ctx@.now(block);
    let r: Result<(), Failure> = lower_abi_call_arg(ctx, block, value, out);
    proof {
        match abi::arg_abi(value.ty()) {
            Err(_) => {},
            Ok(AbiView::Indirect) => {
                let slot = out@.last();
                meaning::lemma_means(slot, meaning::slot_at(at, value.ty()));
                let reserve = Inst::Alloca { elem: value.ty() };
                let copy = Inst::Store { addr: slot, value };
                let steps = cast::spilled(at, value.ty(), value.meaning@);
                let b = block.0 as int;
                assert(ctx@.effects[b] =~= before@.effects[b].push(reserve).push(copy));
                assert(ctx.steps(block) =~= before.steps(block) + steps);
                reveal(meaning::is_straight);
                assert(ctx.ran_since(before, block, steps));
                assert(meaning::meanings(out@) =~= meaning::meanings(old(out)@) + seq![
                    slot.meaning@,
                ]);
            },
            Ok(AbiView::Leaves(leaves)) => {
                let parts = out@.skip(old(out)@.len() as int);
                let args = leaves.map_values(
                    |place: (Seq<u32>, TypeHandle)| leaf(value.meaning@, place),
                );
                ctx.lemma_computed(before, block);
                if (AbiView::Leaves(leaves)).is_whole() {
                    assert(meaning::meanings(out@) =~= meaning::meanings(old(out)@) + seq![
                        value.meaning@,
                    ]);
                } else {
                    assert forall|k: int| 0 <= k < args.len() implies meaning::meanings(parts)[k]
                        == #[trigger] args[k] by {
                        meaning::lemma_means(parts[k], args[k]);
                    }
                    assert(out@ =~= old(out)@ + parts);
                    assert(meaning::meanings(out@) =~= meaning::meanings(old(out)@) + args);
                }
            },
        }
    }
    r
}

/// What a run hands to a block.
pub open spec fn argument(block: BlockId, index: int, ty: TypeHandle) -> Meaning {
    Meaning { ty, den: |env: Env| sem::shaped(ty, (env.argument)(block.0 as int, index)) }
}

/// The arguments of a block of given types.
pub open spec fn arguments(block: BlockId, inputs: Seq<TypeHandle>) -> Seq<Meaning> {
    Seq::new(inputs.len(), |i: int| argument(block, i, inputs[i]))
}

/// The arguments of a block mean what a run hands to it.
pub proof fn lemma_arguments(ctx: Context, block: BlockId, inputs: Seq<TypeHandle>)
    requires
        ctx.wf(),
        ctx.has_block(block),
        ctx@.args[block.0 as int].len() == inputs.len(),
        forall|i: int|
            0 <= i < inputs.len() ==> (#[trigger] ctx@.args[block.0 as int][i]).ty() == inputs[i],
    ensures
        meaning::meanings(ctx@.args[block.0 as int]) == arguments(block, inputs),
{
    let args = ctx@.args[block.0 as int];
    assert forall|i: int| 0 <= i < inputs.len() implies meaning::meanings(args)[i]
        == #[trigger] arguments(block, inputs)[i] by {
        let want = argument(block, i, inputs[i]);
        assert forall|env: Env| #[trigger] args[i].den(env) == (want.den)(env) by {
            ctx.lemma_argument(block, i, env);
        }
        meaning::lemma_means(args[i], want);
    }
    assert(meaning::meanings(args) =~= arguments(block, inputs));
}

/// A value put together from the arguments that pass it.
pub open spec fn arrived(at: Moment, ty: TypeHandle, abi: AbiView, args: Seq<Meaning>) -> Meaning {
    match abi {
        AbiView::Indirect => meaning::loaded(at, args[0], ty),
        AbiView::Leaves(leaves) => if abi.is_whole() {
            args[0]
        } else {
            Meaning {
                ty,
                den: |env: Env|
                    abi::rebuilt(
                        ty,
                        leaves,
                        args.map_values(|m: Meaning| (m.den)(env)),
                        leaves.len(),
                    ),
            }
        },
    }
}

/// Puts a value together from the arguments of a block from a position on.
pub fn put_arrived(
    ctx: &mut Context,
    entry: BlockId,
    block: BlockId,
    ty: &TypeHandle,
    abi: &ArgAbi,
    index: &mut usize,
) -> (r: Value)
    requires
        old(ctx).wf(),
        old(ctx).has_block(entry),
        old(ctx).has_block(block),
        *old(index) + abi@.inputs().len() <= old(ctx)@.args[entry.0 as int].len(),
    ensures
        final(ctx).computed_since(*old(ctx), block),
        final(ctx).has(r),
        *final(index) == *old(index) + abi@.inputs().len(),
        r.meaning@ == arrived(
            old(ctx)@.now(block),
            *ty,
            abi@,
            meaning::meanings(old(ctx)@.args[entry.0 as int].skip(*old(index) as int)),
        ),
{
    let ghost before = *ctx;
    let ghost at = ctx@.now(block);
    let r: Value = reassemble_abi_arg(ctx, entry, block, ty, abi, index);
    proof {
        let args = before@.args[entry.0 as int].skip(*old(index) as int);
        let list = meaning::meanings(args);
        let want = arrived(at, *ty, abi@, list);
        match abi@ {
            AbiView::Indirect => {
                assert(list[0] == args[0].meaning@);
                meaning::lemma_means(r, want);
            },
            AbiView::Leaves(leaves) => {
                if abi@.is_whole() {
                    assert(abi@.inputs().len() == 1);
                    assert(list[0] == args[0].meaning@);
                } else {
                    assert forall|env: Env| #[trigger] r.den(env) == (want.den)(env) by {
                        assert(list.map_values(|m: Meaning| (m.den)(env)) =~= args.map_values(
                            |v: Value| v.den(env),
                        ));
                    }
                    meaning::lemma_means(r, want);
                }
            },
        }
    }
    r
}

/// A call hands over what the callee declares: as many arguments as a
/// signature lists for the type of the value, each of the type listed there,
/// where a typed address stands for a pointer.
pub proof fn law_arguments_match_signature(at: Moment, value: Meaning)
    requires
        abi::arg_abi(value.ty) is Ok,
    ensures
        passed(at, value) is Ok,
        ({
            let args = passed(at, value)->Ok_0.0;
            let inputs = abi::arg_abi(value.ty)->Ok_0.inputs();
            &&& args.len() == inputs.len()
            &&& forall|k: int|
                0 <= k < args.len() ==> {
                    ||| (#[trigger] args[k]).ty == inputs[k]
                    ||| inputs[k] == types::pointer() && args[k].ty.is_ptr()
                }
        }),
{
    if abi::arg_abi(value.ty)->Ok_0.is_whole() {
        abi::lemma_whole(value.ty);
    }
}

/// A value arrives as it was: what the callee puts together from the arguments
/// is what the caller took apart, and what it loads from an address is what the
/// caller stored there, where memory still holds that. The value takes one
/// argument where its address is passed, one for each scalar part otherwise,
/// and none where it has no size.
pub proof fn law_value_arrives(ctx: Context, from: Moment, to: Moment, value: Value, env: Env)
    requires
        ctx.wf(),
        ctx.has(value),
        sem::narrow(value.ty()),
        abi::arg_abi(value.ty()) is Ok,
        forall|k: int|
            0 <= k < passed(from, value.meaning@)->Ok_0.1.len() ==> meaning::keeps(
                env,
                #[trigger] passed(from, value.meaning@)->Ok_0.1[k],
                to,
            ),
    ensures
        ({
            let view = abi::arg_abi(value.ty())->Ok_0;
            let args = passed(from, value.meaning@)->Ok_0.0;
            let arrival = arrived(to, value.ty(), view, args);
            &&& arrival.ty == value.ty()
            &&& (arrival.den)(env) == value.den(env)
            &&& args.len() == view.inputs().len()
            &&& view is Indirect ==> args.len() == 1
            &&& view matches AbiView::Leaves(leaves) ==> args.len() == leaves.len()
            &&& abi::ty_size(value.ty()) == Ok::<u64, Failure>(0) ==> args.len() == 0
        }),
{
    let m = value.meaning@;
    let view = abi::arg_abi(m.ty)->Ok_0;
    let leaves = view->Leaves_0;
    let args = passed(from, m)->Ok_0.0;
    let whole = (m.den)(env);
    ctx.value_fixed(value, env);
    if view is Indirect {
        let steps = passed(from, m)->Ok_0.1;
        assert(meaning::keeps(env, steps[1], to));
        meaning::law_loaded_back(env, args[0], m, to);
    } else if !view.is_whole() {
        let parts = args.map_values(|m: Meaning| (m.den)(env));
        if abi::ty_size(m.ty) == Ok::<u64, Failure>(0) {
            abi::lemma_sizeless(&m.ty, whole);
        } else {
            abi::lemma_leaf_parts(m.ty, whole);
            assert(parts =~= abi::parts_at(leaves, whole));
            abi::law_flatten_round_trip(m.ty, whole);
        }
    }
}

} // verus!
