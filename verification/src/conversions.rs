//! What casts make of values, and what the functions of the runtime library
//! stand for.

use crate::cast;
use crate::convert;
use crate::error::Failure;
use crate::ir::Meaning;
use crate::meaning;
use crate::meaning::Step;
use crate::mir::{BinOp, CastKind, Operand, Rvalue};
use crate::need::{Lost, Lowered};
use crate::numbers;
use crate::operand;
use crate::operand::Scene;
use crate::parts;
use crate::rvalue;
use crate::sem;
use crate::sem::{Env, FloatOp, MirCastKind, Moment, Relation, Sem};
use crate::ty::{TyId, TyKind};
use crate::types;
use crate::types::{Signedness, TypeHandle};
use crate::wide;
use vstd::prelude::*;

verus! {

/// What a cast of an operand gives.
pub open spec fn cast_result(
    scene: Scene,
    at: Moment,
    kind: CastKind,
    operand: Operand,
    dst: TyId,
) -> Result<Lowered, Lost> {
    rvalue::rvalue_value(scene, at, Rvalue::Cast(kind, operand, dst))
}

/// The type of what a cast gives.
pub open spec fn target(scene: Scene, dst: TyId) -> TypeHandle {
    convert::immediate(scene.program.types, dst)->Ok_0
}

/// Whether an operand is known and the type that it is cast to has a
/// counterpart.
pub open spec fn can_cast(scene: Scene, at: Moment, operand: Operand, dst: TyId) -> bool {
    operand::operand_value(scene, at, operand) is Ok && convert::immediate(
        scene.program.types,
        dst,
    ) is Ok
}

/// Whether one of two types is a float, and the other an integer of 128 bits:
/// a function converts between those.
pub open spec fn by_function(scene: Scene, src: TyId, dst: TyId) -> bool {
    let table = scene.program.types;
    cast::is_wide(table, src) && cast::is_float(table, dst) || cast::is_float(table, src)
        && cast::is_wide(table, dst)
}

/// A cast of an integer or an address to an integer or an address keeps the
/// number, modulo the number of patterns of the target: a number that fits the
/// target stays what it is.
pub proof fn law_numbers_cast(
    scene: Scene,
    at: Moment,
    operand: Operand,
    dst: TyId,
    env: Env,
)
    requires
        can_cast(scene, at, operand, dst),
        !by_function(scene, operand.ty(), dst),
        ({
            let from = numbers::operand_of(scene, at, operand);
            from.ty is Integer || from.ty.is_ptr()
        }),
        target(scene, dst) is Integer && sem::held_width(target(scene, dst)->width) || target(
            scene,
            dst,
        ).is_ptr(),
    ensures
        ({
            let from = numbers::operand_of(scene, at, operand);
            let to = target(scene, dst);
            let r = cast_result(scene, at, CastKind::Other, operand, dst);
            let x = if from.ty is Integer {
                numbers::number(from, env)
            } else {
                from.bits(env) as int
            };
            &&& numbers::is_pattern(
                r,
                to,
                env,
                if to is Integer {
                    x % sem::modulus(to->width)
                } else {
                    x % sem::modulus(64)
                },
            )
            &&& to is Integer && is_within(to, x) ==> numbers::number(r->Ok_0.value, env) == x
        }),
{
    let from = numbers::operand_of(scene, at, operand);
    let to = target(scene, dst);
    let x = sem::int_value(from.ty, (from.den)(env));
    let w = sem::bit_width(to);
    sem::lemma_wrap_range(w, x);
    sem::lemma_wrap_idem(w, x);
    if to is Integer {
        numbers::lemma_fits(w, to->signedness, x);
        sem::lemma_even(w);
    }
}

/// Whether an integer lies between the least and the greatest of an integer
/// type.
pub open spec fn is_within(ty: TypeHandle, x: int) -> bool {
    let m = sem::modulus(ty->width);
    if ty->signedness == Signedness::Signed {
        -(m / 2) <= x < m / 2
    } else {
        0 <= x < m
    }
}

/// A cast between floats, or between a float and an integer, is one conversion
/// from the type of the operand straight to the target.
pub proof fn law_floats_cast(
    scene: Scene,
    at: Moment,
    operand: Operand,
    dst: TyId,
    env: Env,
)
    requires
        can_cast(scene, at, operand, dst),
        !by_function(scene, operand.ty(), dst),
        ({
            let from = numbers::operand_of(scene, at, operand).ty;
            let to = target(scene, dst);
            from.is_float() && (to.is_float() || to is Integer) || from is Integer && to.is_float()
        }),
    ensures
        ({
            let from = numbers::operand_of(scene, at, operand);
            let to = target(scene, dst);
            numbers::is_one_float_op(
                cast_result(scene, at, CastKind::Other, operand, dst),
                FloatOp::Convert(
                    if from.ty is Integer {
                        MirCastKind::IntToFloat
                    } else if to is Integer {
                        MirCastKind::FloatToInt
                    } else {
                        MirCastKind::FloatToFloat
                    },
                ),
                from.ty,
                to,
                seq![(from.den)(env)],
                env,
            )
        }),
{
}

/// Whether the conversions of a run from floats to integers cut off what is
/// behind the point: `whole` tells what is before it.
pub open spec fn truncates(env: Env, whole: spec_fn(TypeHandle, Sem) -> int) -> bool {
    forall|from: TypeHandle, to: TypeHandle, a: Sem|
        from.is_float() && to is Integer && is_within(to, whole(from, a)) ==> #[trigger] (
        env.float)(FloatOp::Convert(MirCastKind::FloatToInt), from, to, seq![a]) == Sem::Bits(
            sem::wrap(to->width, whole(from, a)),
        )
}

/// A cast of a float to an integer type gives the float without what is behind
/// the point, wherever that is a number of the type.
pub proof fn law_floats_truncate(
    scene: Scene,
    at: Moment,
    operand: Operand,
    dst: TyId,
    env: Env,
    whole: spec_fn(TypeHandle, Sem) -> int,
)
    requires
        can_cast(scene, at, operand, dst),
        !by_function(scene, operand.ty(), dst),
        numbers::operand_of(scene, at, operand).ty.is_float(),
        target(scene, dst) is Integer,
        sem::held_width(target(scene, dst)->width),
        truncates(env, whole),
        ({
            let from = numbers::operand_of(scene, at, operand);
            is_within(target(scene, dst), whole(from.ty, (from.den)(env)))
        }),
    ensures
        ({
            let from = numbers::operand_of(scene, at, operand);
            let r = cast_result(scene, at, CastKind::Other, operand, dst);
            &&& r matches Ok(lowered) && lowered.value.ty == target(scene, dst)
            &&& numbers::number(r->Ok_0.value, env) == whole(from.ty, (from.den)(env))
        }),
{
    let from = numbers::operand_of(scene, at, operand);
    let to = target(scene, dst);
    let x = whole(from.ty, (from.den)(env));
    law_floats_cast(scene, at, operand, dst, env);
    sem::lemma_wrap_idem(to->width, x);
    numbers::lemma_fits(to->width, to->signedness, x);
    sem::lemma_even(to->width);
}

/// What a function of the runtime library hands back: those that divide
/// integers of 128 bits, and those that convert between them and floats.
#[verifier::opaque]
pub open spec fn runtime(callee: Seq<char>, args: Seq<Sem>, env: Env) -> Sem {
    let (i, u) = (types::signed(128), types::unsigned(128));
    let signed = |k: int| sem::as_signed(128, sem::bits_of(args[k]));
    let plain = |k: int| sem::bits_of(args[k]) as int;
    let convert = |kind: MirCastKind, from: TypeHandle, to: TypeHandle|
        (env.float)(FloatOp::Convert(kind), from, to, seq![args[0]]);
    if callee == "__divti3"@ {
        Sem::Bits(sem::wrap(128, sem::quotient(signed(0), signed(1))))
    } else if callee == "__udivti3"@ {
        Sem::Bits(sem::wrap(128, plain(0) / plain(1)))
    } else if callee == "__modti3"@ {
        Sem::Bits(
            sem::wrap(128, signed(0) - signed(1) * sem::quotient(signed(0), signed(1))),
        )
    } else if callee == "__umodti3"@ {
        Sem::Bits(sem::wrap(128, plain(0) % plain(1)))
    } else if callee == "__floattisf"@ {
        convert(MirCastKind::IntToFloat, i, TypeHandle::Fp32)
    } else if callee == "__floattidf"@ {
        convert(MirCastKind::IntToFloat, i, TypeHandle::Fp64)
    } else if callee == "__floatuntisf"@ {
        convert(MirCastKind::IntToFloat, u, TypeHandle::Fp32)
    } else if callee == "__floatuntidf"@ {
        convert(MirCastKind::IntToFloat, u, TypeHandle::Fp64)
    } else if callee == "__fixsfti"@ {
        convert(MirCastKind::FloatToInt, TypeHandle::Fp32, i)
    } else if callee == "__fixdfti"@ {
        convert(MirCastKind::FloatToInt, TypeHandle::Fp64, i)
    } else if callee == "__fixunssfti"@ {
        convert(MirCastKind::FloatToInt, TypeHandle::Fp32, u)
    } else if callee == "__fixunsdfti"@ {
        convert(MirCastKind::FloatToInt, TypeHandle::Fp64, u)
    } else {
        Sem::Undef
    }
}

/// Whether a call is answered as the runtime library answers it.
pub open spec fn is_answered(step: Step, at: Moment, env: Env) -> bool {
    step matches Step::Call { callee, args, .. } && (env.reply)(at) == runtime(
        callee,
        args.map_values(|m: Meaning| (m.den)(env)),
        env,
    )
}

/// The names of the functions of the runtime library differ.
proof fn lemma_runtime_names()
    ensures
        "__divti3"@ != "__udivti3"@,
        "__divti3"@ != "__modti3"@,
        "__divti3"@ != "__umodti3"@,
        "__udivti3"@ != "__modti3"@,
        "__udivti3"@ != "__umodti3"@,
        "__modti3"@ != "__umodti3"@,
{
    reveal_strlit("__divti3");
    reveal_strlit("__udivti3");
    reveal_strlit("__modti3");
    reveal_strlit("__umodti3");
    assert("__divti3"@[2] != "__modti3"@[2]);
    assert("__udivti3"@[3] != "__umodti3"@[3]);
}

/// What the functions hand back that divide.
proof fn lemma_runtime_divides(signed: bool, a: Sem, b: Sem, env: Env)
    ensures
        ({
            let s = if signed {
                Signedness::Signed
            } else {
                Signedness::Unsigned
            };
            let x = sem::as_int(128, s, sem::bits_of(a));
            let y = sem::as_int(128, s, sem::bits_of(b));
            let q = sem::quotient(x, y);
            &&& y != 0 ==> runtime(wide::division(BinOp::Div, signed), seq![a, b], env)
                == Sem::Bits(sem::wrap(128, q))
            &&& y != 0 ==> runtime(wide::division(BinOp::Rem, signed), seq![a, b], env)
                == Sem::Bits(sem::wrap(128, x - y * q))
        }),
{
    reveal(runtime);
    lemma_runtime_names();
    if !signed && sem::bits_of(b) != 0 {
        vstd::arithmetic::div_mod::lemma_fundamental_div_mod(
            sem::bits_of(a) as int,
            sem::bits_of(b) as int,
        );
    }
}

/// Division of integers of 128 bits is one call.
proof fn lemma_wide_call(scene: Scene, at: Moment, op: BinOp, lhs: Operand, rhs: Operand, ty: TyId)
    requires
        numbers::both_known(scene, at, lhs, rhs),
        op == BinOp::Div || op == BinOp::Rem,
        numbers::operand_of(scene, at, lhs).ty is Integer,
        numbers::operand_of(scene, at, lhs).ty->width == 128,
    ensures
        ({
            let (a, b) = (numbers::operand_of(scene, at, lhs), numbers::operand_of(scene, at, rhs));
            numbers::result_of(scene, at, op, lhs, rhs, ty) matches Ok(lowered) && lowered.value
                == meaning::replied(at, a.ty) && lowered.steps == seq![
                meaning::call_step(
                    wide::division(op, wide::is_signed(a.ty)),
                    seq![a, b],
                    Some(a.ty),
                ),
            ]
        }),
{
}

/// Whether an operand is an integer of 128 bits.
pub open spec fn is_wide_operand(scene: Scene, at: Moment, operand: Operand) -> bool {
    let ty = numbers::operand_of(scene, at, operand).ty;
    ty == types::signed(128) || ty == types::unsigned(128)
}

proof fn lemma_answered_quotient(a: Meaning, b: Meaning, at: Moment, env: Env)
    requires
        a.ty == types::signed(128) || a.ty == types::unsigned(128),
        b.ty == a.ty,
        numbers::number(b, env) != 0,
        is_answered(
            meaning::call_step(
                wide::division(BinOp::Div, wide::is_signed(a.ty)),
                seq![a, b],
                Some(a.ty),
            ),
            at,
            env,
        ),
    ensures
        ({
            let (x, y) = (numbers::number(a, env), numbers::number(b, env));
            exists|q: int| #[trigger]
                numbers::rounds_to_zero(x, y, q) && meaning::replied(at, a.ty).bits(env) == q
                    % sem::modulus(128)
        }),
{
    let (x, y) = (numbers::number(a, env), numbers::number(b, env));
    let q = sem::quotient(x, y);
    lemma_runtime_divides(wide::is_signed(a.ty), (a.den)(env), (b.den)(env), env);
    assert(seq![a, b].map_values(|m: Meaning| (m.den)(env)) =~= seq![(a.den)(env), (b.den)(env)]);
    numbers::lemma_quotient(x, y);
    sem::lemma_wrap_idem(128, q);
    sem::lemma_wrap_range(128, q);
    assert(numbers::rounds_to_zero(x, y, q));
}

/// A quotient of integers of 128 bits is a call of the runtime library; answered
/// as it answers, it is rounded toward zero.
pub proof fn law_wide_quotient(
    scene: Scene,
    at: Moment,
    lhs: Operand,
    rhs: Operand,
    ty: TyId,
    env: Env,
)
    requires
        numbers::both_known(scene, at, lhs, rhs),
        is_wide_operand(scene, at, lhs),
        numbers::operand_of(scene, at, rhs).ty == numbers::operand_of(scene, at, lhs).ty,
        numbers::number(numbers::operand_of(scene, at, rhs), env) != 0,
        numbers::result_of(scene, at, BinOp::Div, lhs, rhs, ty) matches Ok(lowered) ==> is_answered(
            lowered.steps[0],
            at,
            env,
        ),
    ensures
        ({
            let x = numbers::number(numbers::operand_of(scene, at, lhs), env);
            let y = numbers::number(numbers::operand_of(scene, at, rhs), env);
            let r = numbers::result_of(scene, at, BinOp::Div, lhs, rhs, ty);
            &&& r matches Ok(lowered) && lowered.steps.len() == 1 && lowered.value.ty
                == numbers::operand_of(scene, at, lhs).ty
            &&& exists|q: int| #[trigger]
                numbers::rounds_to_zero(x, y, q) && r->Ok_0.value.bits(env) == q % sem::modulus(
                    128,
                )
        }),
{
    let (a, b) = (numbers::operand_of(scene, at, lhs), numbers::operand_of(scene, at, rhs));
    lemma_wide_call(scene, at, BinOp::Div, lhs, rhs, ty);
    lemma_answered_quotient(a, b, at, env);
}

proof fn lemma_answered_remainder(a: Meaning, b: Meaning, at: Moment, env: Env)
    requires
        a.ty == types::signed(128) || a.ty == types::unsigned(128),
        b.ty == a.ty,
        numbers::number(b, env) != 0,
        is_answered(
            meaning::call_step(
                wide::division(BinOp::Rem, wide::is_signed(a.ty)),
                seq![a, b],
                Some(a.ty),
            ),
            at,
            env,
        ),
    ensures
        ({
            let (x, y) = (numbers::number(a, env), numbers::number(b, env));
            exists|q: int| #[trigger]
                numbers::rounds_to_zero(x, y, q) && meaning::replied(at, a.ty).bits(env) == (x - y * q)
                    % sem::modulus(128)
        }),
{
    let (x, y) = (numbers::number(a, env), numbers::number(b, env));
    let q = sem::quotient(x, y);
    lemma_runtime_divides(wide::is_signed(a.ty), (a.den)(env), (b.den)(env), env);
    assert(seq![a, b].map_values(|m: Meaning| (m.den)(env)) =~= seq![(a.den)(env), (b.den)(env)]);
    numbers::lemma_quotient(x, y);
    sem::lemma_wrap_idem(128, x - y * q);
    sem::lemma_wrap_range(128, x - y * q);
    assert(numbers::rounds_to_zero(x, y, q));
}

/// A remainder of integers of 128 bits is a call of the runtime library;
/// answered as it answers, it is what division toward zero leaves.
pub proof fn law_wide_remainder(
    scene: Scene,
    at: Moment,
    lhs: Operand,
    rhs: Operand,
    ty: TyId,
    env: Env,
)
    requires
        numbers::both_known(scene, at, lhs, rhs),
        is_wide_operand(scene, at, lhs),
        numbers::operand_of(scene, at, rhs).ty == numbers::operand_of(scene, at, lhs).ty,
        numbers::number(numbers::operand_of(scene, at, rhs), env) != 0,
        numbers::result_of(scene, at, BinOp::Rem, lhs, rhs, ty) matches Ok(lowered) ==> is_answered(
            lowered.steps[0],
            at,
            env,
        ),
    ensures
        ({
            let x = numbers::number(numbers::operand_of(scene, at, lhs), env);
            let y = numbers::number(numbers::operand_of(scene, at, rhs), env);
            let r = numbers::result_of(scene, at, BinOp::Rem, lhs, rhs, ty);
            &&& r matches Ok(lowered) && lowered.steps.len() == 1 && lowered.value.ty
                == numbers::operand_of(scene, at, lhs).ty
            &&& exists|q: int| #[trigger]
                numbers::rounds_to_zero(x, y, q) && r->Ok_0.value.bits(env) == (x - y * q)
                    % sem::modulus(128)
        }),
{
    let (a, b) = (numbers::operand_of(scene, at, lhs), numbers::operand_of(scene, at, rhs));
    lemma_wide_call(scene, at, BinOp::Rem, lhs, rhs, ty);
    lemma_answered_remainder(a, b, at, env);
}

/// The names of the functions differ that convert.
proof fn lemma_converter_names()
    ensures
        runtime_differs("__floattisf"@),
        runtime_differs("__floattidf"@),
        runtime_differs("__floatuntisf"@),
        runtime_differs("__floatuntidf"@),
        runtime_differs("__fixsfti"@),
        runtime_differs("__fixdfti"@),
        runtime_differs("__fixunssfti"@),
        runtime_differs("__fixunsdfti"@),
        "__floattisf"@ != "__floattidf"@,
        "__floattisf"@ != "__floatuntisf"@,
        "__floattisf"@ != "__floatuntidf"@,
        "__floattidf"@ != "__floatuntisf"@,
        "__floattidf"@ != "__floatuntidf"@,
        "__floatuntisf"@ != "__floatuntidf"@,
        "__fixsfti"@ != "__fixdfti"@,
        "__fixsfti"@ != "__fixunssfti"@,
        "__fixsfti"@ != "__fixunsdfti"@,
        "__fixdfti"@ != "__fixunssfti"@,
        "__fixdfti"@ != "__fixunsdfti"@,
        "__fixunssfti"@ != "__fixunsdfti"@,
        "__floattisf"@[3] != "__fixsfti"@[3],
        "__floattidf"@[3] != "__fixsfti"@[3],
        forall|name: Seq<char>|
            name == "__fixsfti"@ || name == "__fixdfti"@ || name == "__fixunssfti"@ || name
                == "__fixunsdfti"@ ==> #[trigger] name[3] == 'i',
        "__floattisf"@[3] == 'l',
        "__floattidf"@[3] == 'l',
        "__floatuntisf"@[3] == 'l',
        "__floatuntidf"@[3] == 'l',
{
    reveal_strlit("__divti3");
    reveal_strlit("__udivti3");
    reveal_strlit("__modti3");
    reveal_strlit("__umodti3");
    reveal_strlit("__floattisf");
    reveal_strlit("__floattidf");
    reveal_strlit("__floatuntisf");
    reveal_strlit("__floatuntidf");
    reveal_strlit("__fixsfti");
    reveal_strlit("__fixdfti");
    reveal_strlit("__fixunssfti");
    reveal_strlit("__fixunsdfti");
    assert("__divti3"@[2] == 'd' && "__udivti3"@[2] == 'u' && "__modti3"@[2] == 'm'
        && "__umodti3"@[2] == 'u');
    assert("__floattisf"@[2] == 'f' && "__floattidf"@[2] == 'f' && "__floatuntisf"@[2] == 'f'
        && "__floatuntidf"@[2] == 'f' && "__fixsfti"@[2] == 'f' && "__fixdfti"@[2] == 'f'
        && "__fixunssfti"@[2] == 'f' && "__fixunsdfti"@[2] == 'f');
    assert("__floattisf"@[9] != "__floattidf"@[9]);
    assert("__floatuntisf"@[11] != "__floatuntidf"@[11]);
    assert("__fixsfti"@[5] != "__fixdfti"@[5]);
    assert("__fixunssfti"@[8] != "__fixunsdfti"@[8]);
}

/// What the functions hand back that convert.
proof fn lemma_runtime_converts(signed: bool, is_short: bool, a: Sem, env: Env)
    ensures
        ({
            let i = if signed {
                types::signed(128)
            } else {
                types::unsigned(128)
            };
            let f = if is_short {
                TypeHandle::Fp32
            } else {
                TypeHandle::Fp64
            };
            &&& runtime(wide::int_to_float(signed, is_short), seq![a], env) == (env.float)(
                FloatOp::Convert(MirCastKind::IntToFloat),
                i,
                f,
                seq![a],
            )
            &&& runtime(wide::float_to_int(signed, is_short), seq![a], env) == (env.float)(
                FloatOp::Convert(MirCastKind::FloatToInt),
                f,
                i,
                seq![a],
            )
        }),
{
    reveal(runtime);
    lemma_converter_names();
}

/// Whether a name is none of a function that divides.
spec fn runtime_differs(name: Seq<char>) -> bool {
    name != "__divti3"@ && name != "__udivti3"@ && name != "__modti3"@ && name != "__umodti3"@
}

/// An integer of 128 bits becomes a float by a call of the runtime library;
/// answered as it answers, by one conversion straight to the target.
pub proof fn law_wide_to_float(
    scene: Scene,
    at: Moment,
    operand: Operand,
    dst: TyId,
    env: Env,
)
    requires
        can_cast(scene, at, operand, dst),
        cast::is_wide(scene.program.types, operand.ty()),
        cast::is_float(scene.program.types, dst),
        target(scene, dst).is_float(),
        is_wide_operand(scene, at, operand),
        cast_result(scene, at, CastKind::Other, operand, dst) matches Ok(lowered) ==> is_answered(
            lowered.steps[0],
            at,
            env,
        ),
    ensures
        ({
            let from = numbers::operand_of(scene, at, operand);
            let to = target(scene, dst);
            let r = cast_result(scene, at, CastKind::Other, operand, dst);
            &&& r matches Ok(lowered) && lowered.steps.len() == 1 && lowered.value.ty == to
            &&& (r->Ok_0.value.den)(env) == sem::shaped(
                to,
                (env.float)(
                    FloatOp::Convert(MirCastKind::IntToFloat),
                    from.ty,
                    to,
                    seq![(from.den)(env)],
                ),
            )
        }),
{
    let from = numbers::operand_of(scene, at, operand);
    let to = target(scene, dst);
    lemma_runtime_converts(wide::is_signed(from.ty), to is Fp32, (from.den)(env), env);
    let r = cast_result(scene, at, CastKind::Other, operand, dst)->Ok_0;
    let callee = wide::int_to_float(wide::is_signed(from.ty), to is Fp32);
    assert(r.steps[0] == meaning::call_step(callee, seq![from], Some(to)));
    assert(seq![from].map_values(|m: Meaning| (m.den)(env)) =~= seq![(from.den)(env)]);
    assert(r.value == meaning::replied(at, to));
}

/// Whether a float relates to a constant as a run compares them.
pub open spec fn relates(env: Env, ty: TypeHandle, relation: Relation, a: Sem, b: Sem) -> bool {
    sem::bits_of(
        sem::shaped(
            types::signless(1),
            (env.float)(FloatOp::Compare(relation), ty, types::signless(1), seq![a, b]),
        ),
    ) == 1
}

/// A float becomes an integer of 128 bits by a call of the runtime library;
/// answered as it answers, by one conversion straight to the target, where the
/// float is a number between the bounds of the target. What is no number
/// becomes zero, what is above the bounds the greatest integer, and what is
/// below them the least.
pub proof fn law_float_to_wide(
    scene: Scene,
    at: Moment,
    operand: Operand,
    dst: TyId,
    env: Env,
)
    requires
        can_cast(scene, at, operand, dst),
        cast::is_float(scene.program.types, operand.ty()),
        cast::is_wide(scene.program.types, dst),
        numbers::operand_of(scene, at, operand).ty.is_float(),
        target(scene, dst) == types::signed(128) || target(scene, dst) == types::unsigned(128),
        !(cast::is_wide(scene.program.types, operand.ty()) && cast::is_float(
            scene.program.types,
            dst,
        )),
        cast_result(scene, at, CastKind::Other, operand, dst) matches Ok(lowered) ==> is_answered(
            lowered.steps[0],
            at,
            env,
        ),
    ensures
        ({
            let from = numbers::operand_of(scene, at, operand);
            let a = (from.den)(env);
            let to = target(scene, dst);
            let r = cast_result(scene, at, CastKind::Other, operand, dst);
            let is_short = from.ty is Fp32;
            let half = sem::modulus(128) / 2;
            let straight = sem::shaped(
                to,
                (env.float)(FloatOp::Convert(MirCastKind::FloatToInt), from.ty, to, seq![a]),
            );
            let value = numbers::number(r->Ok_0.value, env);
            &&& r matches Ok(lowered) && lowered.steps.len() == 1 && lowered.value.ty == to
            &&& (r->Ok_0.value.den)(env) is Bits
            &&& to == types::signed(128) ==> {
                let up = Sem::Bits(
                    if is_short {
                        0x7f00_0000
                    } else {
                        0x47e0_0000_0000_0000
                    },
                );
                let down = Sem::Bits(
                    if is_short {
                        0xff00_0000
                    } else {
                        0xc7e0_0000_0000_0000
                    },
                );
                let above = relates(env, from.ty, Relation::Ge, a, up);
                let below = relates(env, from.ty, Relation::Lt, a, down);
                let number = relates(env, from.ty, Relation::Eq, a, a);
                &&& !number ==> value == 0
                &&& number && !above && !below ==> (r->Ok_0.value.den)(env) == straight
                &&& number && above && !below ==> value == half - 1
                &&& number && below && !above ==> value == -half
            }
            &&& to == types::unsigned(128) ==> {
                let up = Sem::Bits(
                    if is_short {
                        0x7f80_0000
                    } else {
                        0x47f0_0000_0000_0000
                    },
                );
                let down = Sem::Bits(
                    if is_short {
                        0xbf80_0000
                    } else {
                        0xbff0_0000_0000_0000
                    },
                );
                let above = relates(env, from.ty, Relation::Ge, a, up);
                let within = relates(env, from.ty, Relation::Gt, a, down);
                &&& !within ==> value == 0
                &&& within && !above ==> (r->Ok_0.value.den)(env) == straight
                &&& within && above ==> value == 2 * half - 1
            }
        }),
{
    let from = numbers::operand_of(scene, at, operand);
    let to = target(scene, dst);
    let signed = to == types::signed(128);
    let r = cast_result(scene, at, CastKind::Other, operand, dst)->Ok_0;
    let callee = wide::float_to_int(signed, from.ty is Fp32);
    assert(r.steps[0] == meaning::call_step(callee, seq![from], Some(to)));
    lemma_answered_clamp(from, at, to, env);
    let given = meaning::replied(at, to).bits(env);
    assert((r.value.den)(env) == Sem::Bits(wide::clamped(from, given, signed, env)));
}

/// What is made of the answer of a function that makes integers of floats.
proof fn lemma_answered_clamp(from: Meaning, at: Moment, to: TypeHandle, env: Env)
    requires
        from.ty.is_float(),
        to == types::signed(128) || to == types::unsigned(128),
        is_answered(
            meaning::call_step(
                wide::float_to_int(to == types::signed(128), from.ty is Fp32),
                seq![from],
                Some(to),
            ),
            at,
            env,
        ),
    ensures
        ({
            let signed = to == types::signed(128);
            let given = meaning::replied(at, to).bits(env);
            let a = (from.den)(env);
            &&& Sem::Bits(given) == sem::shaped(
                to,
                (env.float)(FloatOp::Convert(MirCastKind::FloatToInt), from.ty, to, seq![a]),
            )
            &&& forall|relation: Relation| #[trigger]
                wide::relates(
                    relation,
                    from,
                    wide::upper_bits(signed, from.ty is Fp32),
                    env,
                ) == relates(
                    env,
                    from.ty,
                    relation,
                    a,
                    Sem::Bits(wide::upper_bits(signed, from.ty is Fp32)),
                )
            &&& forall|relation: Relation| #[trigger]
                wide::relates(
                    relation,
                    from,
                    wide::lower_bits(signed, from.ty is Fp32),
                    env,
                ) == relates(
                    env,
                    from.ty,
                    relation,
                    a,
                    Sem::Bits(wide::lower_bits(signed, from.ty is Fp32)),
                )
        }),
{
    let signed = to == types::signed(128);
    let a = (from.den)(env);
    lemma_runtime_converts(signed, from.ty is Fp32, a, env);
    assert(seq![from].map_values(|m: Meaning| (m.den)(env)) =~= seq![a]);
    lemma_relates(from, wide::upper_bits(signed, from.ty is Fp32), env);
    lemma_relates(from, wide::lower_bits(signed, from.ty is Fp32), env);
}

/// How a float relates to a constant.
proof fn lemma_relates(input: Meaning, bits: u128, env: Env)
    requires
        input.ty.is_float(),
        input.ty is Fp32 ==> bits < 0x1_0000_0000,
        bits < 0x1_0000_0000_0000_0000,
    ensures
        forall|relation: Relation| #[trigger]
            wide::relates(relation, input, bits, env) == relates(
                env,
                input.ty,
                relation,
                (input.den)(env),
                Sem::Bits(bits),
            ),
{
    sem::lemma_wrap_small(
        if input.ty is Fp32 {
            32
        } else {
            64
        },
        bits as int,
    );
    assert((meaning::scalar(input.ty, bits).den)(env) == Sem::Bits(bits));
}

/// A pointer to an array that becomes one to a slice is the address with the
/// length of the array behind it.
pub proof fn law_unsize_array(
    scene: Scene,
    at: Moment,
    operand: Operand,
    dst: TyId,
    tails: (TyId, TyId),
    inner: (TyId, TyId),
    len: u64,
    env: Env,
)
    requires
        ({
            let program = scene.program;
            let table = program.types;
            &&& cast::pointees(table, operand.ty(), dst) == Some(inner)
            &&& cast::tails_for(
                program,
                table.runtime(inner.0),
                table.runtime(inner.1),
                program.tails@.len(),
            ) == Some(tails)
            &&& table.kind(table.runtime(tails.0)) matches TyKind::Array(_, count) && count == Some(
                len,
            )
            &&& table.kind(table.runtime(tails.1)) is Slice
            &&& table.info(table.runtime(operand.ty())).boxed is None
            &&& convert::converted(table, dst) == Ok::<TypeHandle, Failure>(
                convert::sized_pointer(),
            )
        }),
        operand::operand_value(scene, at, operand) is Ok,
        numbers::operand_of(scene, at, operand).ty.is_ptr(),
        (numbers::operand_of(scene, at, operand).den)(env) is Bits,
        numbers::operand_of(scene, at, operand).bits(env) < sem::modulus(64),
    ensures
        ({
            let addr = numbers::operand_of(scene, at, operand).bits(env);
            let r = cast_result(scene, at, CastKind::Unsize, operand, dst);
            &&& r matches Ok(lowered) && lowered.steps.len() == 0 && lowered.value.ty
                == convert::sized_pointer()
            &&& sem::part((r->Ok_0.value.den)(env), 0) == Sem::Bits(addr)
            &&& sem::part((r->Ok_0.value.den)(env), 1) == Sem::Bits(len as u128)
        }),
{
    let from = numbers::operand_of(scene, at, operand);
    let length = meaning::constant(types::unsigned(64), len as u128);
    sem::lemma_wrap_small(64, from.bits(env) as int);
    sem::lemma_wrap_small(64, len as int);
    parts::lemma_pair_parts(
        convert::sized_pointer(),
        types::pointer(),
        types::unsigned(64),
        meaning::as_type(from, types::pointer()),
        length,
        env,
    );
}

/// A transmute between types that have one form keeps the value, and one between
/// integers of one width keeps the bits.
pub proof fn law_transmute(scene: Scene, at: Moment, operand: Operand, dst: TyId, env: Env)
    requires
        can_cast(scene, at, operand, dst),
        !scene.program.types.is_enum(operand.ty()),
        !scene.program.types.is_enum(dst),
    ensures
        ({
            let from = numbers::operand_of(scene, at, operand);
            let to = target(scene, dst);
            let r = cast_result(scene, at, CastKind::Transmute, operand, dst);
            &&& from.ty == to ==> (r matches Ok(lowered) && lowered.steps.len() == 0
                && lowered.value == from)
            &&& numbers::is_number(from, env) && (from.den)(env) is Bits && to is Integer
                && to->width == from.ty->width ==> numbers::is_pattern(
                r,
                to,
                env,
                from.bits(env) as int,
            )
        }),
{
    let from = numbers::operand_of(scene, at, operand);
    let to = target(scene, dst);
    if numbers::is_number(from, env) && to is Integer && to->width == from.ty->width {
        sem::lemma_wrap_as_int(to->width, from.ty->signedness, from.bits(env));
        sem::lemma_wrap_small(to->width, from.bits(env) as int);
    }
}

} // verus!
