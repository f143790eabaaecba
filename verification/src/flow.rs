//! Where control goes, and what goes with it: the laws of the ends of blocks, of
//! calls and of parameters.

use crate::abi;
use crate::call;
use crate::callee;
use crate::convert;
use crate::error::Failure;
use crate::ir::{BlockId, Meaning};
use crate::meaning;
use crate::meaning::Step;
use crate::mir::{Body, Operand, Place, Terminator};
use crate::need;
use crate::numbers;
use crate::numbers::operand_of;
use crate::operand;
use crate::operand::Scene;
use crate::passing;
use crate::place;
use crate::prologue;
use crate::sem;
use crate::sem::{Env, Moment, Relation};
use crate::signature;
use crate::signature::{ParamView, Parameter};
use crate::terminator;
use crate::terminator::Ending;
use crate::ty::{TyId, TyTable};
use crate::types;
use crate::types::TypeHandle;
use vstd::prelude::*;

verus! {

/// The block that a step goes on to in a run, where it is a branch.
pub open spec fn taken(step: Step, env: Env) -> BlockId {
    match step {
        Step::Branch { conditional, operands, successors } => if !conditional || operands[0].bits(
            env,
        ) != 0 {
            successors[0]
        } else {
            successors[1]
        },
        _ => arbitrary(),
    }
}

/// The block that a run gets to from the end of one of some blocks: a branch to
/// the next of them goes on there.
pub open spec fn landing(tests: Seq<Seq<Step>>, fresh: nat, env: Env, k: nat) -> BlockId
    decreases tests.len() - k,
{
    let next = taken(tests[k as int].last(), env);
    if k + 1 < tests.len() && next == BlockId((fresh + k) as usize) {
        landing(tests, fresh, env, k + 1)
    } else {
        next
    }
}

/// The steps of a block that ends, and those of the blocks that are made for its
/// end.
pub open spec fn tests_of(ending: Ending) -> Seq<Seq<Step>> {
    seq![ending.steps] + ending.blocks
}

/// Whether the blocks of a body are numbered below those that are made for it.
pub open spec fn are_older(scene: Scene, fresh: nat) -> bool {
    forall|i: int| 0 <= i < scene.blocks.len() ==> (#[trigger] scene.blocks[i]).0 < fresh
}

/// A switch goes to the target of the first case that is the value, and where no
/// case is, to the target for all others.
pub proof fn law_switch(
    scene: Scene,
    at: Moment,
    fresh: nat,
    discr: Operand,
    cases: Vec<(u128, usize)>,
    otherwise: usize,
    env: Env,
)
    requires
        operand::operand_value(scene, at, discr) is Ok,
        numbers::is_number(operand_of(scene, at, discr), env),
        are_older(scene, fresh),
        fresh + cases@.len() <= usize::MAX,
        forall|i: int|
            0 <= i < cases@.len() ==> (#[trigger] cases@[i]).0 < sem::modulus(
                operand_of(scene, at, discr).ty->width,
            ),
        terminator::terminator_ending(
            scene,
            at,
            fresh,
            Terminator::SwitchInt { discr, cases, otherwise },
        ) is Ok,
    ensures
        ({
            let v = operand_of(scene, at, discr).bits(env);
            let ending = terminator::terminator_ending(
                scene,
                at,
                fresh,
                Terminator::SwitchInt { discr, cases, otherwise },
            )->Ok_0;
            let there = landing(tests_of(ending), fresh, env, 0);
            &&& forall|i: int|
                0 <= i < cases@.len() && (#[trigger] cases@[i]).0 == v && (forall|j: int|
                    0 <= j < i ==> (#[trigger] cases@[j]).0 != v) ==> there
                    == scene.blocks[cases@[i].1 as int]
            &&& (forall|i: int| 0 <= i < cases@.len() ==> (#[trigger] cases@[i]).0 != v) ==> there
                == scene.blocks[otherwise as int]
        }),
{
    let value = operand_of(scene, at, discr);
    let ending = terminator::terminator_ending(
        scene,
        at,
        fresh,
        Terminator::SwitchInt { discr, cases, otherwise },
    )->Ok_0;
    let list = cases@;
    if list.len() > 0 {
        let steps = terminator::case_branches(
            scene,
            value,
            list,
            otherwise,
            fresh,
            list.len(),
        )->Ok_0;
        lemma_branches(scene, value, list, otherwise, fresh, list.len());
        let tests = tests_of(ending);
        assert(tests.len() == list.len());
        assert forall|k: int| 0 <= k < list.len() implies #[trigger] tests[k] == seq![steps[k]] by {
            if k > 0 {
                assert(tests[k] == ending.blocks[k - 1]);
            }
        }
        lemma_landing(scene, value, list, otherwise, fresh, tests, steps, 0, env);
    }
}

/// The branches of a switch, one by one.
proof fn lemma_branches(
    scene: Scene,
    value: Meaning,
    cases: Seq<(u128, usize)>,
    otherwise: usize,
    fresh: nat,
    count: nat,
)
    requires
        terminator::case_branches(scene, value, cases, otherwise, fresh, count) is Ok,
    ensures
        ({
            let steps = terminator::case_branches(
                scene,
                value,
                cases,
                otherwise,
                fresh,
                count,
            )->Ok_0;
            &&& steps.len() == count
            &&& forall|k: int|
                0 <= k < count ==> Ok::<Step, Failure>(#[trigger] steps[k])
                    == terminator::case_branch(scene, value, cases, otherwise, fresh, k)
        }),
    decreases count,
{
    if count > 0 {
        lemma_branches(scene, value, cases, otherwise, fresh, (count - 1) as nat);
    }
}

proof fn lemma_landing(
    scene: Scene,
    value: Meaning,
    cases: Seq<(u128, usize)>,
    otherwise: usize,
    fresh: nat,
    tests: Seq<Seq<Step>>,
    steps: Seq<Step>,
    k: nat,
    env: Env,
)
    requires
        k < cases.len(),
        numbers::is_number(value, env),
        are_older(scene, fresh),
        fresh + cases.len() <= usize::MAX,
        forall|i: int|
            0 <= i < cases.len() ==> (#[trigger] cases[i]).0 < sem::modulus(value.ty->width),
        tests.len() == cases.len(),
        steps.len() == cases.len(),
        forall|i: int| 0 <= i < cases.len() ==> #[trigger] tests[i] == seq![steps[i]],
        forall|i: int|
            0 <= i < cases.len() ==> Ok::<Step, Failure>(#[trigger] steps[i])
                == terminator::case_branch(scene, value, cases, otherwise, fresh, i),
    ensures
        ({
            let v = value.bits(env);
            let there = landing(tests, fresh, env, k);
            &&& forall|i: int|
                k <= i < cases.len() && (#[trigger] cases[i]).0 == v && (forall|j: int|
                    k <= j < i ==> (#[trigger] cases[j]).0 != v) ==> there
                    == scene.blocks[cases[i].1 as int]
            &&& (forall|i: int| k <= i < cases.len() ==> (#[trigger] cases[i]).0 != v) ==> there
                == scene.blocks[otherwise as int]
        }),
    decreases cases.len() - k,
{
    let v = value.bits(env);
    let case = cases[k as int];
    assert(tests[k as int].last() == steps[k as int]);
    let constant = meaning::constant(value.ty, case.0);
    assert(constant.bits(env) == case.0);
    let condition = meaning::compared(Relation::Eq, value, constant);
    sem::lemma_wrap_small(1, 0);
    sem::lemma_wrap_small(1, 1);
    assert(condition.bits(env) == if v == case.0 {
        1u128
    } else {
        0u128
    });
    let target = place::block_of(scene.blocks, case.1)->Ok_0;
    assert(scene.blocks[case.1 as int] == target);
    if v == case.0 {
        assert(taken(steps[k as int], env) == target);
        assert(target.0 < fresh);
    } else {
        if k + 1 < cases.len() {
            assert(taken(steps[k as int], env) == BlockId((fresh + k) as usize));
            lemma_landing(scene, value, cases, otherwise, fresh, tests, steps, k + 1, env);
        }
    }
}

/// An end that goes to a block does nothing but go there; what never comes back
/// goes nowhere.
pub proof fn law_goto(scene: Scene, at: Moment, fresh: nat, target: usize)
    requires
        target < scene.blocks.len(),
    ensures
        ({
            let go = terminator::terminator_ending(scene, at, fresh, Terminator::Goto(target));
            let check = terminator::terminator_ending(scene, at, fresh, Terminator::Assert(target));
            &&& go matches Ok(ending) && ending.steps.len() == 1 && ending.blocks.len() == 0
                && ending.steps[0] is Branch && (forall|env: Env| #[trigger]
                taken(ending.steps[0], env) == scene.blocks[target as int])
            &&& check matches Ok(ending) && ending == go->Ok_0
        }),
{
}

/// What is never reached ends in nothing.
pub proof fn law_unreachable(scene: Scene, at: Moment, fresh: nat)
    ensures
        terminator::terminator_ending(scene, at, fresh, Terminator::Unreachable) matches Ok(ending)
            && ending.steps == seq![Step::Unreachable] && ending.blocks.len() == 0,
        terminator::terminator_ending(scene, at, fresh, Terminator::UnwindResume) matches Ok(ending)
            && ending.steps == seq![Step::Unreachable] && ending.blocks.len() == 0,
{
    assert(Seq::<Step>::empty().push(Step::Unreachable) =~= seq![Step::Unreachable]);
}

/// A function hands back what its first local holds, and nothing where that
/// takes no storage.
pub proof fn law_return(scene: Scene, at: Moment, fresh: nat)
    requires
        terminator::terminator_ending(scene, at, fresh, Terminator::Return) is Ok,
    ensures
        ({
            let ending = terminator::terminator_ending(scene, at, fresh, Terminator::Return)->Ok_0;
            let table = scene.program.types;
            let held = place::local_value(table, scene.locals, scene.slots, at, 0);
            &&& scene.locals.len() > 0
            &&& ending.blocks.len() == 0
            &&& ending.steps.len() == 1
            &&& ending.steps[0] matches Step::Return { operands, .. } && if convert::is_storageless(
                table,
                scene.locals[0],
            ) {
                operands.len() == 0
            } else {
                operands.len() == 1 && held == Ok::<Meaning, Failure>(operands[0])
            }
        }),
{
}

/// Dropping a place calls the function that drops values of its type on the
/// address of the place, and goes on to the target; a place that needs no
/// dropping is left alone.
pub proof fn law_drop(
    scene: Scene,
    at: Moment,
    fresh: nat,
    place: Place,
    target: usize,
    glue: usize,
    addr: Meaning,
)
    requires
        target < scene.blocks.len(),
        scene.program.types.info(place.ty).needs_drop ==> {
            &&& scene.program.types.info(place.ty).drop_glue == Some(glue)
            &&& glue < scene.program.instances@.len()
            &&& scene.address(at, place) == Ok::<Meaning, Failure>(addr)
            &&& addr.ty.is_ptr()
        },
    ensures
        ({
            let r = terminator::terminator_ending(
                scene,
                at,
                fresh,
                Terminator::Drop { place, target },
            );
            let last = meaning::jump(scene.blocks[target as int]);
            r matches Ok(ending) && ending.blocks.len() == 0
                && if scene.program.types.info(place.ty).needs_drop {
                let symbol = need::instance_symbol(
                    scene.program.instances@[glue as int],
                );
                &&& ending.steps.len() == 2
                &&& ending.steps[0] is Call
                &&& ending.steps[0]->Call_callee == symbol
                &&& ending.steps[0]->Call_args == seq![addr]
                &&& ending.steps[1] == last
            } else {
                ending.steps == seq![last]
            }
        }),
{
    let last = meaning::jump(scene.blocks[target as int]);
    assert(Seq::<Step>::empty().push(last) =~= seq![last]);
    if scene.program.types.info(place.ty).needs_drop {
        lemma_scalar_passed(at, addr);
    }
}

/// A value that fits a register is passed as it is.
proof fn lemma_scalar_passed(at: Moment, value: Meaning)
    requires
        is_register(value.ty),
    ensures
        passing::passed(at, value) == Ok::<(Seq<Meaning>, Seq<Step>), Failure>(
            (seq![value], Seq::empty()),
        ),
{
    let leaves = abi::leaves_of(value.ty, Seq::empty())->Ok_0;
    assert(leaves =~= seq![(Seq::<u32>::empty(), value.ty)]);
}

/// Whether values of a type fit a register, and take up memory.
pub open spec fn is_register(ty: TypeHandle) -> bool {
    ty is Integer && ty->width > 0 && ty->width <= 128 || ty.is_float() || ty.is_ptr()
}

/// A call hands over its operands, each as it is and in their order, where they
/// all fit registers.
proof fn lemma_handed(scene: Scene, at: Moment, args: Seq<Operand>, count: nat)
    requires
        count <= args.len(),
        forall|i: int| 0 <= i < count ==> is_plain(scene, at, #[trigger] args[i]),
    ensures
        call::handed(scene, at, false, false, args, count) matches Ok(given) && given.steps.len()
            == 0 && given.args == Seq::new(count, |i: int| operand_of(scene, at, args[i])),
    decreases count,
{
    if count == 0 {
        assert(call::handed(scene, at, false, false, args, 0)->Ok_0.args =~= Seq::new(
            0,
            |i: int| operand_of(scene, at, args[i]),
        ));
    } else {
        let last = (count - 1) as nat;
        lemma_handed(scene, at, args, last);
        let before = call::handed(scene, at, false, false, args, last)->Ok_0;
        reveal(call::handed_one);
        assert(is_plain(scene, at, args[last as int]));
        assert(meaning::later(at, 0) == at);
        lemma_scalar_passed(at, operand_of(scene, at, args[last as int]));
        let given = call::handed(scene, at, false, false, args, count)->Ok_0;
        assert(given.args =~= Seq::new(count, |i: int| operand_of(scene, at, args[i])));
    }
}

/// Whether an operand is known and fits a register.
pub open spec fn is_plain(scene: Scene, at: Moment, operand: Operand) -> bool {
    operand::operand_value(scene, at, operand) is Ok && is_register(
        operand_of(scene, at, operand).ty,
    )
}

/// Whether a call is one of a function by its symbol, with its operands as they
/// are.
pub open spec fn is_direct(scene: Scene, func: Operand) -> bool {
    &&& callee::called_item(scene.program, func) is Some
    &&& call::table_slot(scene.program, func) is None
    &&& !call::takes_apart(scene.program, func)
}

/// A call of a function by its symbol calls that symbol, with its operands in
/// their order where all fit registers. Of a function of this crate it stores
/// what is handed back in the slot of the destination.
pub proof fn law_direct_call(
    scene: Scene,
    at: Moment,
    func: Operand,
    args: Seq<Operand>,
    dest: Place,
)
    requires
        is_direct(scene, func),
        forall|i: int| 0 <= i < args.len() ==> is_plain(scene, at, #[trigger] args[i]),
        call::general_call(scene, at, func, args, dest) is Ok,
    ensures
        ({
            let steps = call::general_call(scene, at, func, args, dest)->Ok_0.steps;
            let values = Seq::new(args.len(), |i: int| operand_of(scene, at, args[i]));
            let slot = place::plain_slot(scene.slots, dest);
            &&& steps.len() > 0
            &&& steps[0] matches Step::Call { callee, args: given, .. } && given == values
                && callee::called_symbol(scene.program, func) == Ok::<Seq<char>, Failure>(callee)
            &&& slot is Ok && slot->Ok_0 is Some && !callee::is_upstream(scene.program, func)
                && steps[0]->Call_result is Some ==> {
                let reply = meaning::replied(at, steps[0]->Call_result->0);
                &&& steps.len() == 2
                &&& steps[1] == (Step::Store {
                    addr: slot->Ok_0->0,
                    value: place::as_stored(
                        scene.program.types,
                        scene.locals[dest.local as int],
                        reply,
                    ),
                })
            }
        }),
{
    reveal(call::general_call);
    reveal(call::dispatched);
    reveal(call::received);
    lemma_handed(scene, at, args, args.len());
    assert(meaning::later(at, 0) == at);
    let given = call::handed(scene, at, false, false, args, args.len())->Ok_0;
    assert(given.steps =~= Seq::<Step>::empty());
}

/// The parameters of a function are the locals after the first, in their order.
pub proof fn law_parameters(table: TyTable, body: Body, count: nat)
    requires
        signature::parameters(table, body, count) is Ok,
    ensures
        ({
            let params = signature::parameters(table, body, count)->Ok_0;
            &&& params.len() == count
            &&& forall|i: int| 0 <= i < count ==> (#[trigger] params[i]).local == i + 1
        }),
    decreases count,
{
    if count > 0 {
        law_parameters(table, body, (count - 1) as nat);
    }
}

/// Each argument of a function is stored, in its stored form, in the slot of the
/// local that it is, where all fit registers.
pub proof fn law_arguments_are_stored(
    table: TyTable,
    locals: Seq<TyId>,
    slots: Seq<Option<Meaning>>,
    at: Moment,
    params: Seq<Parameter>,
    args: Seq<Meaning>,
    count: nat,
)
    requires
        count <= params.len(),
        count <= args.len(),
        forall|i: int|
            0 <= i < count ==> {
                &&& (#[trigger] params[i]).local < slots.len()
                &&& params[i].local < locals.len()
                &&& slots[params[i].local as int] is Some
                &&& params[i].abi matches ParamView::Single(abi) && abi.is_whole()
            },
    ensures
        prologue::arrivals(table, locals, slots, at, params, args, count) matches Ok((taken, steps))
            && taken == count && steps.len() == count && forall|i: int|
            0 <= i < count ==> #[trigger] steps[i] == (Step::Store {
                addr: slots[params[i].local as int]->0,
                value: place::as_stored(table, locals[params[i].local as int], args[i]),
            }),
    decreases count,
{
    if count > 0 {
        let last = (count - 1) as nat;
        law_arguments_are_stored(table, locals, slots, at, params, args, last);
        let param = params[last as int];
        let before = prologue::arrivals(table, locals, slots, at, params, args, last)->Ok_0;
        assert(param.local < slots.len());
        assert(args.skip(last as int)[0] == args[last as int]);
        let abi = param.abi->Single_0;
        assert(abi.inputs().len() == 1);
        let after = prologue::arrivals(table, locals, slots, at, params, args, count)->Ok_0;
        assert forall|i: int| 0 <= i < count implies #[trigger] after.1[i] == (Step::Store {
            addr: slots[params[i].local as int]->0,
            value: place::as_stored(table, locals[params[i].local as int], args[i]),
        }) by {
            if i < last {
                assert(after.1[i] == before.1[i]);
            }
        }
    }
}

} // verus!
