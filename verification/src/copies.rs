//! What becomes of the bytes in memory: the laws of copying and filling.
//!
//! Memory is a byte at each address. The C functions that copy and fill have
//! their C meaning; every other step leaves memory to itself.

use crate::builtins;
use crate::builtins::is_intrinsic;
use crate::error::{Failure, PlaceTy};
use crate::intrinsics;
use crate::ir::Meaning;
use crate::layout;
use crate::meaning;
use crate::meaning::Step;
use crate::mir::{Instance, Operand, Place, Statement};
use crate::numbers;
use crate::numbers::operand_of;
use crate::operand;
use crate::operand::Scene;
use crate::place;
use crate::sem;
use crate::sem::{Env, Moment};
use crate::statement;
use crate::ty::TyId;
use crate::types;
use vstd::prelude::*;

verus! {

/// Memory after a number of bytes were copied from one address to another.
pub open spec fn copied(memory: spec_fn(int) -> u8, to: int, from: int, count: int) -> spec_fn(
    int,
) -> u8 {
    |a: int|
        if to <= a < to + count {
            memory(from + (a - to))
        } else {
            memory(a)
        }
}

/// Memory after a number of bytes were set.
pub open spec fn filled(memory: spec_fn(int) -> u8, to: int, byte: u8, count: int) -> spec_fn(
    int,
) -> u8 {
    |a: int|
        if to <= a < to + count {
            byte
        } else {
            memory(a)
        }
}

/// Memory after a call of a C function: those that copy take where to, where
/// from and how many bytes, and the one that fills takes where, the byte and how
/// many.
#[verifier::opaque]
pub open spec fn called(callee: Seq<char>, args: Seq<u128>, memory: spec_fn(int) -> u8) -> spec_fn(
    int,
) -> u8 {
    if args.len() != 3 {
        memory
    } else if callee == "memcpy"@ || callee == "memmove"@ {
        copied(memory, args[0] as int, args[1] as int, args[2] as int)
    } else if callee == "memset"@ {
        filled(memory, args[0] as int, (args[1] % 256) as u8, args[2] as int)
    } else {
        memory
    }
}

/// Memory after a step.
pub open spec fn stepped(step: Step, env: Env, memory: spec_fn(int) -> u8) -> spec_fn(int) -> u8 {
    match step {
        Step::Call { callee, args, .. } => called(
            callee,
            args.map_values(|m: Meaning| m.bits(env)),
            memory,
        ),
        _ => memory,
    }
}

/// Memory after steps.
#[verifier::opaque]
pub open spec fn ran(steps: Seq<Step>, env: Env, memory: spec_fn(int) -> u8) -> spec_fn(int) -> u8
    decreases steps.len(),
{
    if steps.len() == 0 {
        memory
    } else {
        stepped(steps.last(), env, ran(steps.drop_last(), env, memory))
    }
}

/// What a call of a function that copies does.
proof fn lemma_copies(
    callee: Seq<char>,
    to: Meaning,
    from: Meaning,
    count: Meaning,
    result: Option<types::TypeHandle>,
    env: Env,
    memory: spec_fn(int) -> u8,
)
    requires
        callee == "memcpy"@ || callee == "memmove"@,
    ensures
        stepped(meaning::call_step(callee, seq![to, from, count], result), env, memory) == copied(
            memory,
            to.bits(env) as int,
            from.bits(env) as int,
            count.bits(env) as int,
        ),
{
    reveal(called);
    let args = seq![to, from, count].map_values(|m: Meaning| m.bits(env));
    assert(args.len() == 3);
    assert(args[0] == to.bits(env) && args[1] == from.bits(env) && args[2] == count.bits(env));
}

proof fn lemma_fills(
    to: Meaning,
    byte: Meaning,
    count: Meaning,
    result: Option<types::TypeHandle>,
    env: Env,
    memory: spec_fn(int) -> u8,
)
    ensures
        stepped(meaning::call_step("memset"@, seq![to, byte, count], result), env, memory)
            == filled(
            memory,
            to.bits(env) as int,
            (byte.bits(env) % 256) as u8,
            count.bits(env) as int,
        ),
{
    reveal(called);
    reveal_strlit("memset");
    reveal_strlit("memcpy");
    reveal_strlit("memmove");
    assert("memset"@[3] != "memcpy"@[3]);
    let args = seq![to, byte, count].map_values(|m: Meaning| m.bits(env));
    assert(args.len() == 3);
    assert(args[0] == to.bits(env) && args[1] == byte.bits(env) && args[2] == count.bits(env));
}

/// One step leaves memory as it says.
proof fn lemma_one(step: Step, env: Env, memory: spec_fn(int) -> u8)
    ensures
        ran(seq![step], env, memory) == stepped(step, env, memory),
{
    assert(seq![step].drop_last() =~= Seq::<Step>::empty());
    reveal_with_fuel(ran, 3);
}

/// How many bytes as many elements take, where there are so many addresses.
proof fn lemma_bytes(count: Meaning, size: u64, env: Env)
    requires
        numbers::is_number(count, env),
        count.ty == types::unsigned(64),
        count.bits(env) * size < sem::modulus(64),
    ensures
        meaning::scale(count, size) is Ok,
        meaning::scale(count, size)->Ok_0.bits(env) == count.bits(env) * size,
{
    numbers::lemma_scaled(count, size, env);
    let a = count.bits(env) * size;
    let r = meaning::scaled(count, size).bits(env) as int;
    let m = sem::modulus(64);
    assert(a >= 0) by (nonlinear_arith)
        requires
            a == count.bits(env) * size,
    ;
    vstd::arithmetic::div_mod::lemma_mod_equivalence(r, a, m);
    vstd::arithmetic::div_mod::lemma_small_mod(r as nat, m as nat);
    vstd::arithmetic::div_mod::lemma_small_mod(a as nat, m as nat);
}

/// Whether memory holds at one place what it held at another, and what it held
/// anywhere else.
pub open spec fn is_copy(
    after: spec_fn(int) -> u8,
    before: spec_fn(int) -> u8,
    to: int,
    from: int,
    count: int,
) -> bool {
    &&& forall|k: int| 0 <= k < count ==> #[trigger] after(to + k) == before(from + k)
    &&& forall|a: int| !(to <= a < to + count) ==> #[trigger] after(a) == before(a)
}

/// After a statement that copies, the bytes of as many elements behind the
/// destination are those that were behind the source, and every other byte is
/// what it was; so are those behind the source, where the two lie apart.
pub proof fn law_copy_statement(
    scene: Scene,
    at: Moment,
    src: Operand,
    dst: Operand,
    count: Operand,
    elem: TyId,
    size: u64,
    env: Env,
    memory: spec_fn(int) -> u8,
)
    requires
        numbers::both_known(scene, at, src, dst),
        operand::operand_value(scene, at, count) is Ok,
        place::pointee(scene.program.types, PlaceTy::Ty(src.ty())) == Ok::<TyId, Failure>(elem),
        layout::size_of(scene.program.types, elem) == Ok::<u64, Failure>(size),
        numbers::is_number(operand_of(scene, at, count), env),
        operand_of(scene, at, count).ty == types::unsigned(64),
        operand_of(scene, at, count).bits(env) * size < sem::modulus(64),
    ensures
        ({
            let from = operand_of(scene, at, src).bits(env) as int;
            let to = operand_of(scene, at, dst).bits(env) as int;
            let bytes = operand_of(scene, at, count).bits(env) * size;
            let r = statement::statement_effect(
                scene,
                at,
                Statement::CopyNonOverlapping { src, dst, count },
            );
            &&& r is Ok
            &&& is_copy(ran(r->Ok_0.steps, env, memory), memory, to, from, bytes)
            &&& from + bytes <= to || to + bytes <= from ==> forall|k: int|
                0 <= k < bytes ==> #[trigger] ran(r->Ok_0.steps, env, memory)(from + k) == memory(
                    from + k,
                )
        }),
{
    let from = operand_of(scene, at, src);
    let to = operand_of(scene, at, dst);
    let number = operand_of(scene, at, count);
    lemma_bytes(number, size, env);
    let bytes = meaning::scale(number, size)->Ok_0;
    let r = statement::statement_effect(
        scene,
        at,
        Statement::CopyNonOverlapping { src, dst, count },
    )->Ok_0;
    let step = meaning::call_step("memcpy"@, seq![to, from, bytes], Some(types::pointer()));
    assert(r.steps =~= seq![step]);
    lemma_one(step, env, memory);
    lemma_copies("memcpy"@, to, from, bytes, Some(types::pointer()), env, memory);
}

/// What three operands are.
proof fn lemma_three(scene: Scene, at: Moment, args: Seq<Operand>)
    requires
        args.len() == 3,
        forall|i: int| 0 <= i < 3 ==> operand::operand_value(scene, at, #[trigger] args[i]) is Ok,
    ensures
        operand::operand_values(scene, at, args, 3) matches Ok((values, _)) && values == seq![
            operand_of(scene, at, args[0]),
            operand_of(scene, at, args[1]),
            operand_of(scene, at, args[2]),
        ],
{
    reveal_with_fuel(operand::operand_values, 4);
    assert(operand::operand_value(scene, at, args[0]) is Ok);
    assert(operand::operand_value(scene, at, args[1]) is Ok);
    assert(operand::operand_value(scene, at, args[2]) is Ok);
    assert(operand::operand_values(scene, at, args, 3)->Ok_0.0 =~= seq![
        operand_of(scene, at, args[0]),
        operand_of(scene, at, args[1]),
        operand_of(scene, at, args[2]),
    ]);
}

/// Whether the operands of an intrinsic on memory are known, and its count is a
/// number of elements that addresses can count.
pub open spec fn counts(
    scene: Scene,
    at: Moment,
    instance: Instance,
    args: Seq<Operand>,
    size: u64,
    env: Env,
) -> bool {
    &&& args.len() == 3
    &&& forall|i: int| 0 <= i < 3 ==> operand::operand_value(scene, at, #[trigger] args[i]) is Ok
    &&& intrinsics::arg_size(scene.program.types, instance, 0) == Ok::<u64, Failure>(size)
    &&& numbers::is_number(operand_of(scene, at, args[2]), env)
    &&& operand_of(scene, at, args[2]).ty == types::unsigned(64)
    &&& operand_of(scene, at, args[2]).bits(env) * size < sem::modulus(64)
}

/// What the intrinsics on memory do, step by step.
proof fn lemma_copy_steps(
    scene: Scene,
    at: Moment,
    instance: Instance,
    args: Seq<Operand>,
    dest: Place,
    size: u64,
    bytes: Meaning,
)
    requires
        is_intrinsic(instance, "copy"@) || is_intrinsic(instance, "copy_nonoverlapping"@),
        args.len() == 3,
        operand::operand_values(scene, at, args, 3) matches Ok((values, _)) && values == seq![
            operand_of(scene, at, args[0]),
            operand_of(scene, at, args[1]),
            operand_of(scene, at, args[2]),
        ],
        intrinsics::arg_size(scene.program.types, instance, 0) == Ok::<u64, Failure>(size),
        meaning::scale(operand_of(scene, at, args[2]), size) == Ok::<Meaning, Failure>(bytes),
    ensures
        intrinsics::known_call(scene, at, instance, args, dest) matches Ok((is_known, effect))
            && is_known && effect.steps == seq![
            meaning::call_step(
                if instance.name@ == "copy"@ {
                    "memmove"@
                } else {
                    "memcpy"@
                },
                seq![operand_of(scene, at, args[1]), operand_of(scene, at, args[0]), bytes],
                Some(types::pointer()),
            ),
        ],
{
    builtins::lemma_names();
    reveal(intrinsics::reply);
    assert("copy"@ != "copy_nonoverlapping"@) by {
        reveal_strlit("copy");
        reveal_strlit("copy_nonoverlapping");
    }
}

proof fn lemma_fill_steps(
    scene: Scene,
    at: Moment,
    instance: Instance,
    args: Seq<Operand>,
    dest: Place,
    size: u64,
    bytes: Meaning,
)
    requires
        is_intrinsic(instance, "write_bytes"@),
        args.len() == 3,
        operand::operand_values(scene, at, args, 3) matches Ok((values, _)) && values == seq![
            operand_of(scene, at, args[0]),
            operand_of(scene, at, args[1]),
            operand_of(scene, at, args[2]),
        ],
        intrinsics::arg_size(scene.program.types, instance, 0) == Ok::<u64, Failure>(size),
        meaning::scale(operand_of(scene, at, args[2]), size) == Ok::<Meaning, Failure>(bytes),
    ensures
        intrinsics::known_call(scene, at, instance, args, dest) matches Ok((is_known, effect))
            && is_known && effect.steps == seq![
            meaning::call_step(
                "memset"@,
                seq![
                    operand_of(scene, at, args[0]),
                    meaning::as_type(operand_of(scene, at, args[1]), types::signed(32)),
                    bytes,
                ],
                Some(types::pointer()),
            ),
        ],
{
    builtins::lemma_names();
    reveal(intrinsics::reply);
}

proof fn lemma_swap_steps(
    scene: Scene,
    at: Moment,
    instance: Instance,
    args: Seq<Operand>,
    dest: Place,
    size: u64,
)
    requires
        is_intrinsic(instance, "typed_swap_nonoverlapping"@),
        args.len() == 2,
        numbers::both_known(scene, at, args[0], args[1]),
        intrinsics::arg_size(scene.program.types, instance, 0) == Ok::<u64, Failure>(size),
        size > 0,
    ensures
        ({
            let (x, y) = (operand_of(scene, at, args[0]), operand_of(scene, at, args[1]));
            let kind = types::array_of(types::unsigned(8), size);
            let temp = meaning::slot_at(at, kind);
            let bytes = meaning::constant(types::unsigned(64), size as u128);
            let ptr = Some(types::pointer());
            intrinsics::known_call(scene, at, instance, args, dest) matches Ok((is_known, effect))
                && is_known && effect.steps == seq![
                Step::Alloca { elem: kind },
                meaning::call_step("memcpy"@, seq![temp, x, bytes], ptr),
                meaning::call_step("memcpy"@, seq![x, y, bytes], ptr),
                meaning::call_step("memcpy"@, seq![y, temp, bytes], ptr),
            ]
        }),
{
    builtins::lemma_names();
    reveal(intrinsics::reply);
}

/// After an intrinsic that copies, from its first operand to its second, the
/// bytes of as many elements behind the second are those that were behind the
/// first, and every other byte is what it was.
pub proof fn law_copy_intrinsics(
    scene: Scene,
    at: Moment,
    instance: Instance,
    args: Seq<Operand>,
    dest: Place,
    size: u64,
    env: Env,
    memory: spec_fn(int) -> u8,
)
    requires
        is_intrinsic(instance, "copy"@) || is_intrinsic(instance, "copy_nonoverlapping"@),
        counts(scene, at, instance, args, size, env),
    ensures
        ({
            let from = operand_of(scene, at, args[0]).bits(env) as int;
            let to = operand_of(scene, at, args[1]).bits(env) as int;
            let bytes = operand_of(scene, at, args[2]).bits(env) * size;
            intrinsics::known_call(scene, at, instance, args, dest) matches Ok((is_known, effect))
                && is_known && is_copy(ran(effect.steps, env, memory), memory, to, from, bytes)
        }),
{
    lemma_three(scene, at, args);
    let number = operand_of(scene, at, args[2]);
    lemma_bytes(number, size, env);
    let bytes = meaning::scale(number, size)->Ok_0;
    let (to, from) = (operand_of(scene, at, args[1]), operand_of(scene, at, args[0]));
    let callee = if instance.name@ == "copy"@ {
        "memmove"@
    } else {
        "memcpy"@
    };
    let effect = intrinsics::known_call(scene, at, instance, args, dest)->Ok_0.1;
    let step = meaning::call_step(callee, seq![to, from, bytes], Some(types::pointer()));
    lemma_copy_steps(scene, at, instance, args, dest, size, bytes);
    lemma_one(step, env, memory);
    lemma_copies(callee, to, from, bytes, Some(types::pointer()), env, memory);
}

/// A copy between places that may overlap is one that allows it.
pub proof fn law_overlapping_copy(
    scene: Scene,
    at: Moment,
    instance: Instance,
    args: Seq<Operand>,
    dest: Place,
    size: u64,
    env: Env,
)
    requires
        is_intrinsic(instance, "copy"@),
        counts(scene, at, instance, args, size, env),
    ensures
        intrinsics::known_call(scene, at, instance, args, dest) matches Ok((is_known, effect))
                && is_known && effect.steps.len() == 1 && effect.steps[0] is Call && effect.steps[0]->Call_callee
            == "memmove"@,
{
    lemma_three(scene, at, args);
    let number = operand_of(scene, at, args[2]);
    lemma_bytes(number, size, env);
    lemma_copy_steps(
        scene,
        at,
        instance,
        args,
        dest,
        size,
        meaning::scale(number, size)->Ok_0,
    );
}

/// After an intrinsic that fills, the bytes of as many elements behind its first
/// operand are its second, and every other byte is what it was.
pub proof fn law_fill_intrinsic(
    scene: Scene,
    at: Moment,
    instance: Instance,
    args: Seq<Operand>,
    dest: Place,
    size: u64,
    env: Env,
    memory: spec_fn(int) -> u8,
)
    requires
        is_intrinsic(instance, "write_bytes"@),
        counts(scene, at, instance, args, size, env),
        numbers::is_number(operand_of(scene, at, args[1]), env),
        operand_of(scene, at, args[1]).ty == types::unsigned(8),
    ensures
        ({
            let byte = operand_of(scene, at, args[1]).bits(env);
            let to = operand_of(scene, at, args[0]).bits(env) as int;
            let bytes = operand_of(scene, at, args[2]).bits(env) * size;
            &&& intrinsics::known_call(scene, at, instance, args, dest) matches Ok((is_known, effect))
                && is_known && (forall|k: int|
                0 <= k < bytes ==> #[trigger] ran(effect.steps, env, memory)(to + k) == byte)
                && (forall|a: int|
                !(to <= a < to + bytes) ==> #[trigger] ran(effect.steps, env, memory)(a) == memory(
                    a,
                ))
        }),
{
    lemma_three(scene, at, args);
    let number = operand_of(scene, at, args[2]);
    lemma_bytes(number, size, env);
    let bytes = meaning::scale(number, size)->Ok_0;
    let to = operand_of(scene, at, args[0]);
    let byte = meaning::as_type(operand_of(scene, at, args[1]), types::signed(32));
    sem::lemma_wrap_small(32, operand_of(scene, at, args[1]).bits(env) as int);
    let effect = intrinsics::known_call(scene, at, instance, args, dest)->Ok_0.1;
    let step = meaning::call_step("memset"@, seq![to, byte, bytes], Some(types::pointer()));
    lemma_fill_steps(scene, at, instance, args, dest, size, bytes);
    lemma_one(step, env, memory);
    lemma_fills(to, byte, bytes, Some(types::pointer()), env, memory);
}

/// Whether memory holds at each of two places what it held at the other.
pub open spec fn is_swap(
    after: spec_fn(int) -> u8,
    before: spec_fn(int) -> u8,
    x: int,
    y: int,
    count: int,
) -> bool {
    &&& forall|k: int| 0 <= k < count ==> #[trigger] after(x + k) == before(y + k)
    &&& forall|k: int| 0 <= k < count ==> #[trigger] after(y + k) == before(x + k)
}

/// After an intrinsic that swaps, the bytes behind each of its operands are
/// those that were behind the other, where the two and the slot in between lie
/// apart.
pub proof fn law_swap_intrinsic(
    scene: Scene,
    at: Moment,
    instance: Instance,
    args: Seq<Operand>,
    dest: Place,
    size: u64,
    env: Env,
    memory: spec_fn(int) -> u8,
)
    requires
        is_intrinsic(instance, "typed_swap_nonoverlapping"@),
        args.len() == 2,
        numbers::both_known(scene, at, args[0], args[1]),
        intrinsics::arg_size(scene.program.types, instance, 0) == Ok::<u64, Failure>(size),
        size > 0,
        ({
            let x = operand_of(scene, at, args[0]).bits(env) as int;
            let y = operand_of(scene, at, args[1]).bits(env) as int;
            let slot = meaning::slot_at(at, types::pointer()).bits(env) as int;
            &&& x + size <= y || y + size <= x
            &&& slot + size <= x || x + size <= slot
            &&& slot + size <= y || y + size <= slot
        }),
    ensures
        ({
            let x = operand_of(scene, at, args[0]).bits(env) as int;
            let y = operand_of(scene, at, args[1]).bits(env) as int;
            &&& intrinsics::known_call(scene, at, instance, args, dest) matches Ok((is_known, effect))
                && is_known && is_swap(ran(effect.steps, env, memory), memory, x, y, size as int)
        }),
{
    let (x, y) = (operand_of(scene, at, args[0]), operand_of(scene, at, args[1]));
    let kind = types::array_of(types::unsigned(8), size);
    let temp = meaning::slot_at(at, kind);
    let bytes = meaning::constant(types::unsigned(64), size as u128);
    lemma_swap_steps(scene, at, instance, args, dest, size);
    assert(bytes.bits(env) == size);
    lemma_swaps(Step::Alloca { elem: kind }, x, y, temp, bytes, env, memory);
}

/// Three copies through a slot swap two places.
proof fn lemma_swaps(
    alloca: Step,
    x: Meaning,
    y: Meaning,
    temp: Meaning,
    bytes: Meaning,
    env: Env,
    memory: spec_fn(int) -> u8,
)
    requires
        alloca is Alloca,
        ({
            let (a, b) = (x.bits(env) as int, y.bits(env) as int);
            let t = temp.bits(env) as int;
            let size = bytes.bits(env);
            &&& a + size <= b || b + size <= a
            &&& t + size <= a || a + size <= t
            &&& t + size <= b || b + size <= t
        }),
    ensures
        ({
            let (a, b) = (x.bits(env) as int, y.bits(env) as int);
            let ptr = Some(types::pointer());
            let steps = seq![
                alloca,
                meaning::call_step("memcpy"@, seq![temp, x, bytes], ptr),
                meaning::call_step("memcpy"@, seq![x, y, bytes], ptr),
                meaning::call_step("memcpy"@, seq![y, temp, bytes], ptr),
            ];
            is_swap(ran(steps, env, memory), memory, a, b, bytes.bits(env) as int)
        }),
{
    let ptr = Some(types::pointer());
    let first = meaning::call_step("memcpy"@, seq![temp, x, bytes], ptr);
    let second = meaning::call_step("memcpy"@, seq![x, y, bytes], ptr);
    let third = meaning::call_step("memcpy"@, seq![y, temp, bytes], ptr);
    let steps = seq![alloca, first, second, third];
    lemma_one(alloca, env, memory);
    let m1 = stepped(first, env, memory);
    let m2 = stepped(second, env, m1);
    let m3 = stepped(third, env, m2);
    reveal(ran);
    assert(seq![alloca, first].drop_last() =~= seq![alloca]);
    assert(seq![alloca, first, second].drop_last() =~= seq![alloca, first]);
    assert(steps.drop_last() =~= seq![alloca, first, second]);
    assert(ran(seq![alloca, first], env, memory) == m1);
    assert(ran(seq![alloca, first, second], env, memory) == m2);
    assert(ran(steps, env, memory) == m3);
    lemma_copies("memcpy"@, temp, x, bytes, ptr, env, memory);
    lemma_copies("memcpy"@, x, y, bytes, ptr, env, m1);
    lemma_copies("memcpy"@, y, temp, bytes, ptr, env, m2);
    let (a, b) = (x.bits(env) as int, y.bits(env) as int);
    let t = temp.bits(env) as int;
    assert(m1 == copied(memory, t, a, bytes.bits(env) as int));
    assert(m2 == copied(m1, a, b, bytes.bits(env) as int));
    assert(m3 == copied(m2, b, t, bytes.bits(env) as int));
    assert forall|k: int| 0 <= k < bytes.bits(env) implies #[trigger] m3(b + k) == memory(a + k) by {
        assert(m3(b + k) == m2(t + k));
        assert(m2(t + k) == m1(t + k));
        assert(m1(t + k) == memory(a + k));
    }
    assert forall|k: int| 0 <= k < bytes.bits(env) implies #[trigger] m3(a + k) == memory(b + k) by {
        assert(m3(a + k) == m2(a + k));
        assert(m2(a + k) == m1(b + k));
        assert(m1(b + k) == memory(b + k));
    }
}

} // verus!
