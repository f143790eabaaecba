//! What becomes of numbers: the laws of arithmetic, comparisons and casts.
//!
//! The laws say of an assigned value what number it is, by the numbers that its
//! operands are, in every run.

use crate::arith;
use crate::convert;
use crate::emit;
use crate::error::{Failure, PlaceTy};
use crate::ir::Meaning;
use crate::layout;
use crate::meaning;
use crate::meaning::Step;
use crate::mir::{BinOp, Operand, Rvalue, UnOp};
use crate::need::{Lost, Lowered};
use crate::operand;
use crate::operand::Scene;
use crate::ox;
use crate::place;
use crate::rvalue;
use crate::sem;
use crate::sem::{BinKind, Env, FloatOp, Moment, Relation, Sem};
use crate::ty::TyId;
use crate::types;
use crate::types::{Signedness, TypeHandle};
use vstd::arithmetic::power2::pow2;
use vstd::prelude::*;

verus! {

/// The value that an operand is, where there is one.
pub open spec fn operand_of(scene: Scene, at: Moment, operand: Operand) -> Meaning {
    operand::operand_value(scene, at, operand)->Ok_0.value
}

/// Whether both operands are known.
pub open spec fn both_known(scene: Scene, at: Moment, lhs: Operand, rhs: Operand) -> bool {
    operand::operand_value(scene, at, lhs) is Ok && operand::operand_value(scene, at, rhs) is Ok
}

/// Whether a value is an integer of a width that a pattern can hold.
pub open spec fn is_number(value: Meaning, env: Env) -> bool {
    &&& value.ty is Integer
    &&& sem::held_width(value.ty->width)
    &&& value.bits(env) < sem::modulus(value.ty->width)
}

/// The integer that a value is.
pub open spec fn number(value: Meaning, env: Env) -> int {
    sem::as_int(value.ty->width, value.ty->signedness, value.bits(env))
}

/// What a binary operation on two operands gives.
pub open spec fn result_of(
    scene: Scene,
    at: Moment,
    op: BinOp,
    lhs: Operand,
    rhs: Operand,
    ty: TyId,
) -> Result<Lowered, Lost> {
    rvalue::rvalue_value(scene, at, Rvalue::BinaryOp(op, lhs, rhs, ty))
}

/// Whether a construct is a truth value that is only computed.
pub open spec fn tells(r: Result<Lowered, Lost>, env: Env, truth: bool) -> bool {
    &&& r matches Ok(lowered) && lowered.steps.len() == 0 && lowered.value.ty == types::signless(1)
    &&& (r->Ok_0.value.den)(env) == if truth {
        Sem::Bits(1)
    } else {
        Sem::Bits(0)
    }
}

/// A comparison of integers of one type tells how the integers compare: by
/// their values under the signedness of the type.
pub proof fn law_integers_compare(
    scene: Scene,
    at: Moment,
    lhs: Operand,
    rhs: Operand,
    ty: TyId,
    env: Env,
)
    requires
        both_known(scene, at, lhs, rhs),
        is_number(operand_of(scene, at, lhs), env),
        is_number(operand_of(scene, at, rhs), env),
        operand_of(scene, at, rhs).ty == operand_of(scene, at, lhs).ty,
    ensures
        ({
            let (a, b) = (operand_of(scene, at, lhs), operand_of(scene, at, rhs));
            let (x, y) = (number(a, env), number(b, env));
            let same = a.bits(env) == b.bits(env);
            &&& tells(result_of(scene, at, BinOp::Eq, lhs, rhs, ty), env, same)
            &&& tells(result_of(scene, at, BinOp::Ne, lhs, rhs, ty), env, !same)
            &&& tells(result_of(scene, at, BinOp::Lt, lhs, rhs, ty), env, x < y)
            &&& tells(result_of(scene, at, BinOp::Le, lhs, rhs, ty), env, x <= y)
            &&& tells(result_of(scene, at, BinOp::Gt, lhs, rhs, ty), env, x > y)
            &&& tells(result_of(scene, at, BinOp::Ge, lhs, rhs, ty), env, x >= y)
        }),
{
    sem::lemma_wrap_small(1, 0);
    sem::lemma_wrap_small(1, 1);
}

/// A comparison that an address takes part in compares addresses, which have no
/// sign.
pub proof fn law_addresses_compare(
    scene: Scene,
    at: Moment,
    lhs: Operand,
    rhs: Operand,
    ty: TyId,
    env: Env,
)
    requires
        both_known(scene, at, lhs, rhs),
        operand_of(scene, at, lhs).ty.is_ptr() || operand_of(scene, at, rhs).ty.is_ptr(),
    ensures
        ({
            let x = operand_of(scene, at, lhs).bits(env);
            let y = operand_of(scene, at, rhs).bits(env);
            &&& tells(result_of(scene, at, BinOp::Eq, lhs, rhs, ty), env, x == y)
            &&& tells(result_of(scene, at, BinOp::Ne, lhs, rhs, ty), env, x != y)
            &&& tells(result_of(scene, at, BinOp::Lt, lhs, rhs, ty), env, x < y)
            &&& tells(result_of(scene, at, BinOp::Le, lhs, rhs, ty), env, x <= y)
            &&& tells(result_of(scene, at, BinOp::Gt, lhs, rhs, ty), env, x > y)
            &&& tells(result_of(scene, at, BinOp::Ge, lhs, rhs, ty), env, x >= y)
        }),
{
    sem::lemma_wrap_small(1, 0);
    sem::lemma_wrap_small(1, 1);
}

/// Whether a construct is, in a run, what one operation on floats makes of some
/// values.
pub open spec fn is_one_float_op(
    r: Result<Lowered, Lost>,
    op: FloatOp,
    from: TypeHandle,
    to: TypeHandle,
    args: Seq<Sem>,
    env: Env,
) -> bool {
    &&& r matches Ok(lowered) && lowered.steps.len() == 0 && lowered.value.ty == to
    &&& (r->Ok_0.value.den)(env) == sem::shaped(to, (env.float)(op, from, to, args))
}

/// Arithmetic on two floats, and a comparison of them, is one operation on
/// both, in their order.
pub proof fn law_float_operations(
    scene: Scene,
    at: Moment,
    lhs: Operand,
    rhs: Operand,
    ty: TyId,
    env: Env,
)
    requires
        both_known(scene, at, lhs, rhs),
        operand_of(scene, at, lhs).ty.is_float(),
        operand_of(scene, at, rhs).ty == operand_of(scene, at, lhs).ty,
    ensures
        ({
            let (a, b) = (operand_of(scene, at, lhs), operand_of(scene, at, rhs));
            let args = seq![(a.den)(env), (b.den)(env)];
            let (f, t) = (a.ty, types::signless(1));
            let of = |op: BinOp| result_of(scene, at, op, lhs, rhs, ty);
            &&& is_one_float_op(of(BinOp::Add), FloatOp::Bin(BinKind::Add), f, f, args, env)
            &&& is_one_float_op(of(BinOp::Sub), FloatOp::Bin(BinKind::Sub), f, f, args, env)
            &&& is_one_float_op(of(BinOp::Mul), FloatOp::Bin(BinKind::Mul), f, f, args, env)
            &&& is_one_float_op(of(BinOp::Div), FloatOp::Bin(BinKind::Div), f, f, args, env)
            &&& is_one_float_op(of(BinOp::Rem), FloatOp::Bin(BinKind::Rem), f, f, args, env)
            &&& is_one_float_op(of(BinOp::Eq), FloatOp::Compare(Relation::Eq), f, t, args, env)
            &&& is_one_float_op(of(BinOp::Ne), FloatOp::Compare(Relation::Ne), f, t, args, env)
            &&& is_one_float_op(of(BinOp::Lt), FloatOp::Compare(Relation::Lt), f, t, args, env)
            &&& is_one_float_op(of(BinOp::Le), FloatOp::Compare(Relation::Le), f, t, args, env)
            &&& is_one_float_op(of(BinOp::Gt), FloatOp::Compare(Relation::Gt), f, t, args, env)
            &&& is_one_float_op(of(BinOp::Ge), FloatOp::Compare(Relation::Ge), f, t, args, env)
        }),
{
}

/// Whether a construct is an integer of a type, which is only computed, with a
/// pattern in a run.
pub open spec fn is_pattern(
    r: Result<Lowered, Lost>,
    ty: TypeHandle,
    env: Env,
    pattern: int,
) -> bool {
    &&& r matches Ok(lowered) && lowered.steps.len() == 0 && lowered.value.ty == ty
    &&& (r->Ok_0.value.den)(env) is Bits
    &&& r->Ok_0.value.bits(env) == pattern
}

/// Sums, differences and products of integers are the true ones, modulo the
/// number of patterns of the type; bitwise operations go bit by bit.
pub proof fn law_integer_arithmetic(
    scene: Scene,
    at: Moment,
    lhs: Operand,
    rhs: Operand,
    ty: TyId,
    env: Env,
)
    requires
        both_known(scene, at, lhs, rhs),
        is_number(operand_of(scene, at, lhs), env),
        is_number(operand_of(scene, at, rhs), env),
        operand_of(scene, at, rhs).ty == operand_of(scene, at, lhs).ty,
    ensures
        ({
            let kind = operand_of(scene, at, lhs).ty;
            let a = operand_of(scene, at, lhs).bits(env);
            let b = operand_of(scene, at, rhs).bits(env);
            let m = sem::modulus(kind->width);
            let of = |op: BinOp| result_of(scene, at, op, lhs, rhs, ty);
            &&& is_pattern(of(BinOp::Add), kind, env, (a + b) % m)
            &&& is_pattern(of(BinOp::AddUnchecked), kind, env, (a + b) % m)
            &&& is_pattern(of(BinOp::Sub), kind, env, (a - b) % m)
            &&& is_pattern(of(BinOp::SubUnchecked), kind, env, (a - b) % m)
            &&& is_pattern(of(BinOp::Mul), kind, env, (a * b) % m)
            &&& is_pattern(of(BinOp::MulUnchecked), kind, env, (a * b) % m)
            &&& is_pattern(of(BinOp::BitAnd), kind, env, (a & b) as int)
            &&& is_pattern(of(BinOp::BitOr), kind, env, (a | b) as int)
            &&& is_pattern(of(BinOp::BitXor), kind, env, (a ^ b) as int)
        }),
{
    broadcast use sem::lemma_wrap_range;

    let kind = operand_of(scene, at, lhs).ty;
    let w = kind->width;
    let a = operand_of(scene, at, lhs).bits(env);
    let b = operand_of(scene, at, rhs).bits(env);
    sem::lemma_wrap_idem(w, a + b);
    sem::lemma_wrap_idem(w, a - b);
    sem::lemma_wrap_idem(w, a * b);
    lemma_bitwise_small(w, a, b);
    sem::lemma_wrap_small(w, (a & b) as int);
    sem::lemma_wrap_small(w, (a | b) as int);
    sem::lemma_wrap_small(w, (a ^ b) as int);
}

/// Bitwise operations stay within a width.
proof fn lemma_bitwise_small(width: u32, a: u128, b: u128)
    requires
        sem::held_width(width),
        a < sem::modulus(width),
        b < sem::modulus(width),
    ensures
        (a & b) < sem::modulus(width),
        (a | b) < sem::modulus(width),
        (a ^ b) < sem::modulus(width),
{
    sem::lemma_ones(width);
    let shift = (128 - width) as u128;
    let max = u128::MAX >> shift;
    assert((a & b) <= max && (a | b) <= max && (a ^ b) <= max) by (bit_vector)
        requires
            a <= max,
            b <= max,
            max == u128::MAX >> shift,
            shift < 128,
    ;
}

/// A shift up multiplies by a power of two, modulo the number of patterns of
/// the type; a shift down divides by one, and rounds down.
pub proof fn law_integer_shifts(
    scene: Scene,
    at: Moment,
    lhs: Operand,
    rhs: Operand,
    ty: TyId,
    env: Env,
)
    requires
        both_known(scene, at, lhs, rhs),
        is_number(operand_of(scene, at, lhs), env),
        operand_of(scene, at, rhs).ty is Integer,
        operand_of(scene, at, rhs).bits(env) < operand_of(scene, at, lhs).ty->width,
    ensures
        ({
            let kind = operand_of(scene, at, lhs).ty;
            let a = operand_of(scene, at, lhs).bits(env);
            let x = number(operand_of(scene, at, lhs), env);
            let places = operand_of(scene, at, rhs).bits(env);
            let m = sem::modulus(kind->width);
            let p = pow2(places as nat) as int;
            let of = |op: BinOp| result_of(scene, at, op, lhs, rhs, ty);
            &&& is_pattern(of(BinOp::Shl), kind, env, (a * p) % m)
            &&& is_pattern(of(BinOp::ShlUnchecked), kind, env, (a * p) % m)
            &&& is_pattern(of(BinOp::Shr), kind, env, (x / p) % m)
            &&& is_pattern(of(BinOp::ShrUnchecked), kind, env, (x / p) % m)
        }),
{
    broadcast use sem::lemma_wrap_range;

    let kind = operand_of(scene, at, lhs).ty;
    let w = kind->width;
    let a = operand_of(scene, at, lhs).bits(env);
    let x = number(operand_of(scene, at, lhs), env);
    let k = operand_of(scene, at, rhs).bits(env);
    let p = pow2(k as nat) as int;
    lemma_shift_up(w, a, k);
    sem::lemma_wrap_idem(w, (a << k) as int);
    sem::lemma_wrap_idem(w, x / p);
    vstd::bits::lemma_u128_shr_is_div(a, k);
    vstd::arithmetic::power2::lemma_pow2_pos(k as nat);
    if kind->signedness != Signedness::Signed {
        vstd::arithmetic::div_mod::lemma_div_is_ordered_by_denominator(a as int, 1, p);
        vstd::arithmetic::div_mod::lemma_div_basics(a as int);
        vstd::arithmetic::div_mod::lemma_div_pos_is_pos(a as int, p);
        sem::lemma_wrap_small(w, a as int / p);
    }
}

/// A shift of a pattern multiplies it, modulo the number of patterns.
proof fn lemma_shift_up(width: u32, a: u128, k: u128)
    requires
        sem::held_width(width),
        k < width,
    ensures
        sem::wrap(width, (a << k) as int) == (a * pow2(k as nat)) % sem::modulus(width),
    decreases k,
{
    broadcast use sem::lemma_wrap_range;

    let m = sem::modulus(width);
    sem::lemma_modulus(width);
    sem::lemma_modulus(128);
    sem::lemma_modulus_bound(width);
    vstd::arithmetic::power2::lemma2_to64();
    let less = if k == 0 {
        0u128
    } else {
        (k - 1) as u128
    };
    let z = a << less;
    let top = 0x8000_0000_0000_0000_0000_0000_0000_0000u128;
    assert(if k == 0 {
        a << k == a
    } else if z < top {
        a << k == 2 * z
    } else {
        a << k == 2 * (z - top)
    }) by (bit_vector)
        requires
            k < 128,
            k == 0 || less == k - 1,
            z == a << less,
            top == 0x8000_0000_0000_0000_0000_0000_0000_0000u128,
    ;
    if k > 0 {
        lemma_shift_up(width, a, less);
        vstd::arithmetic::power2::lemma_pow2_unfold(k as nat);
        let p = pow2(less as nat) as int;
        assert(a * pow2(k as nat) == 2 * (a * p)) by (nonlinear_arith)
            requires
                pow2(k as nat) == 2 * p,
        ;
        vstd::arithmetic::div_mod::lemma_mul_mod_noop_right(2, z as int, m);
        vstd::arithmetic::div_mod::lemma_mul_mod_noop_right(2, a * p, m);
        vstd::arithmetic::power2::lemma_pow2_adds(width as nat, (128 - width) as nat);
        let q = pow2((128 - width) as nat) as int;
        let up = (a << k) as int;
        if z >= top {
            vstd::arithmetic::div_mod::lemma_mod_multiples_vanish(q, up, m);
            assert(2 * z == m * q + up);
        }
        assert((2 * z) % m == up % m);
        assert(z as int % m == (a * p) % m);
        assert((2 * (z as int % m)) % m == (2 * z) % m);
        assert((2 * ((a * p) % m)) % m == (2 * (a * p)) % m);
    } else {
        assert(a * pow2(0) == a);
    }
}

/// Division of integers rounds toward zero, and the remainder is what is left:
/// smaller than the divisor, and of the sign of the dividend.
pub proof fn law_integer_division(
    scene: Scene,
    at: Moment,
    lhs: Operand,
    rhs: Operand,
    ty: TyId,
    env: Env,
)
    requires
        both_known(scene, at, lhs, rhs),
        is_number(operand_of(scene, at, lhs), env),
        is_number(operand_of(scene, at, rhs), env),
        operand_of(scene, at, rhs).ty == operand_of(scene, at, lhs).ty,
        operand_of(scene, at, lhs).ty->width < 128,
        number(operand_of(scene, at, rhs), env) != 0,
    ensures
        ({
            let kind = operand_of(scene, at, lhs).ty;
            let x = number(operand_of(scene, at, lhs), env);
            let y = number(operand_of(scene, at, rhs), env);
            let m = sem::modulus(kind->width);
            let of = |op: BinOp| result_of(scene, at, op, lhs, rhs, ty);
            exists|q: int| #[trigger]
                is_pattern(of(BinOp::Div), kind, env, q % m) && is_pattern(
                    of(BinOp::Rem),
                    kind,
                    env,
                    (x - y * q) % m,
                ) && rounds_to_zero(x, y, q)
        }),
{
    broadcast use sem::lemma_wrap_range;

    let kind = operand_of(scene, at, lhs).ty;
    let w = kind->width;
    let x = number(operand_of(scene, at, lhs), env);
    let y = number(operand_of(scene, at, rhs), env);
    let q = sem::quotient(x, y);
    lemma_quotient(x, y);
    sem::lemma_wrap_idem(w, q);
    sem::lemma_wrap_idem(w, x - y * q);
    let of = |op: BinOp| result_of(scene, at, op, lhs, rhs, ty);
    assert(is_pattern(of(BinOp::Div), kind, env, q % sem::modulus(w)));
}

/// Whether a number is a quotient of two others, rounded toward zero.
pub open spec fn rounds_to_zero(x: int, y: int, q: int) -> bool {
    let rest = x - y * q;
    let size = if y < 0 {
        -y
    } else {
        y
    };
    if x >= 0 {
        0 <= rest < size
    } else {
        -size < rest <= 0
    }
}

pub proof fn lemma_quotient(x: int, y: int)
    requires
        y != 0,
    ensures
        rounds_to_zero(x, y, sem::quotient(x, y)),
{
    let n = if x >= 0 {
        x
    } else {
        -x
    };
    assert(n == y * (n / y) + n % y && 0 <= n % y < if y < 0 {
        -y
    } else {
        y
    }) by (nonlinear_arith)
        requires
            y != 0,
    ;
    assert(y * -(n / y) == -(y * (n / y))) by (nonlinear_arith);
}

/// Whether a construct is a pair of an integer and a flag, which is only
/// computed: the integer is the true one modulo the number of patterns of the
/// type, and the flag is clear exactly where it is the true one itself.
pub open spec fn is_checked_result(
    r: Result<Lowered, Lost>,
    ty: TypeHandle,
    env: Env,
    true_result: int,
) -> bool {
    &&& r matches Ok(lowered) && lowered.steps.len() == 0 && lowered.value.ty == types::pair_of(
        ty,
        types::signless(8),
    )
    &&& (r->Ok_0.value.den)(env) matches Sem::Agg(parts) && parts.len() == 2 && parts[0] is Bits
        && parts[1] is Bits && {
        let bits = sem::bits_of(parts[0]);
        let given = sem::as_int(ty->width, ty->signedness, bits);
        &&& bits == true_result % sem::modulus(ty->width)
        &&& parts[1] == if given == true_result {
            Sem::Bits(0)
        } else {
            Sem::Bits(1)
        }
    }
}

/// Checked arithmetic gives the true result modulo the number of patterns of
/// the type, and says whether that is the true result.
pub proof fn law_checked_arithmetic(
    scene: Scene,
    at: Moment,
    lhs: Operand,
    rhs: Operand,
    ty: TyId,
    env: Env,
)
    requires
        both_known(scene, at, lhs, rhs),
        is_number(operand_of(scene, at, lhs), env),
        is_number(operand_of(scene, at, rhs), env),
        operand_of(scene, at, rhs).ty == operand_of(scene, at, lhs).ty,
    ensures
        ({
            let kind = operand_of(scene, at, lhs).ty;
            let x = number(operand_of(scene, at, lhs), env);
            let y = number(operand_of(scene, at, rhs), env);
            let of = |op: BinOp| result_of(scene, at, op, lhs, rhs, ty);
            &&& is_checked_result(of(BinOp::AddWithOverflow), kind, env, x + y)
            &&& is_checked_result(of(BinOp::SubWithOverflow), kind, env, x - y)
            &&& kind->width <= 64 || kind->width == 128 ==> is_checked_result(
                of(BinOp::MulWithOverflow),
                kind,
                env,
                x * y,
            )
        }),
{
    let kind = operand_of(scene, at, lhs).ty;
    lemma_checked(scene, at, BinOp::AddWithOverflow, lhs, rhs, ty, env);
    lemma_checked(scene, at, BinOp::SubWithOverflow, lhs, rhs, ty, env);
    if kind->width <= 64 || kind->width == 128 {
        lemma_checked(scene, at, BinOp::MulWithOverflow, lhs, rhs, ty, env);
    }
}

proof fn lemma_checked(
    scene: Scene,
    at: Moment,
    op: BinOp,
    lhs: Operand,
    rhs: Operand,
    ty: TyId,
    env: Env,
)
    requires
        both_known(scene, at, lhs, rhs),
        is_number(operand_of(scene, at, lhs), env),
        is_number(operand_of(scene, at, rhs), env),
        operand_of(scene, at, rhs).ty == operand_of(scene, at, lhs).ty,
        arith::is_checked_op(op),
        op == BinOp::MulWithOverflow ==> arith::mul_width(operand_of(scene, at, lhs).ty->width),
    ensures
        is_checked_result(
            result_of(scene, at, op, lhs, rhs, ty),
            operand_of(scene, at, lhs).ty,
            env,
            arith::exact(
                op,
                number(operand_of(scene, at, lhs), env),
                number(operand_of(scene, at, rhs), env),
            ),
        ),
{
    let (a, b) = (operand_of(scene, at, lhs), operand_of(scene, at, rhs));
    let want = arith::exact(op, number(a, env), number(b, env));
    lemma_fits(a.ty->width, a.ty->signedness, want);
    let r = rvalue::checked_pair(op, a, b);
    assert(rvalue::plain_binary(scene.program.types, op, lhs.ty(), a, b) == r);
    assert((r->Ok_0.den)(env) == arith::checked(
        op,
        a.ty->width,
        a.ty->signedness,
        a.bits(env),
        b.bits(env),
    ));
}

/// An integer fits a type exactly where its pattern stands for it.
pub proof fn lemma_fits(width: u32, signedness: Signedness, value: int)
    requires
        sem::held_width(width),
    ensures
        arith::fits(width, signedness, value) <==> sem::as_int(
            width,
            signedness,
            sem::wrap(width, value),
        ) == value,
        sem::wrap(width, value) == value % sem::modulus(width),
{
    broadcast use sem::lemma_wrap_range;

    let m = sem::modulus(width);
    sem::lemma_even(width);
    sem::lemma_modulus_bound(width);
    vstd::arithmetic::div_mod::lemma_fundamental_div_mod(value, m);
    vstd::arithmetic::div_mod::lemma_mod_bound(value, m);
    if arith::fits(width, signedness, value) {
        if value >= 0 {
            vstd::arithmetic::div_mod::lemma_small_mod(value as nat, m as nat);
        } else {
            vstd::arithmetic::div_mod::lemma_fundamental_div_mod_converse(value, m, -1, value + m);
        }
    }
}

/// The negative of an integer and the integer add up to nothing, modulo the
/// number of patterns of the type; its complement has the other bits.
pub proof fn law_unary(scene: Scene, at: Moment, operand: Operand, env: Env)
    requires
        operand::operand_value(scene, at, operand) is Ok,
        is_number(operand_of(scene, at, operand), env),
    ensures
        ({
            let value = operand_of(scene, at, operand);
            let a = value.bits(env);
            let m = sem::modulus(value.ty->width);
            let of = |op: UnOp| rvalue::rvalue_value(scene, at, Rvalue::UnaryOp(op, operand));
            &&& is_pattern(of(UnOp::Neg), value.ty, env, (-a) % m)
            &&& value.ty->width > 1 ==> is_pattern(of(UnOp::Not), value.ty, env, m - 1 - a)
            &&& value.ty->width == 1 ==> is_pattern(
                of(UnOp::Not),
                types::signless(1),
                env,
                1 - a,
            )
        }),
{
    broadcast use sem::lemma_wrap_range;

    let value = operand_of(scene, at, operand);
    let w = value.ty->width;
    let a = value.bits(env);
    sem::lemma_wrap_idem(w, -a);
    sem::lemma_wrap_small(1, 0);
    sem::lemma_wrap_small(1, 1);
    sem::lemma_modulus_bound(w);
    let m = sem::modulus(w);
    let ones = (m - 1) as u128;
    assert(a ^ ones == ones - a) by {
        sem::lemma_ones(w);
        let shift = (128 - w) as u128;
        assert(a ^ ones == ones - a) by (bit_vector)
            requires
                a <= ones,
                ones == u128::MAX >> shift,
                shift < 128,
        ;
    }
    sem::lemma_wrap_small(w, ones - a);
}

/// The negative of a float is one operation on it.
pub proof fn law_float_negation(scene: Scene, at: Moment, operand: Operand, env: Env)
    requires
        operand::operand_value(scene, at, operand) is Ok,
        operand_of(scene, at, operand).ty.is_float(),
    ensures
        ({
            let value = operand_of(scene, at, operand);
            is_one_float_op(
                rvalue::rvalue_value(scene, at, Rvalue::UnaryOp(UnOp::Neg, operand)),
                FloatOp::Neg,
                value.ty,
                value.ty,
                seq![(value.den)(env)],
                env,
            )
        }),
{
}

/// A pointer moved by a number of elements is that many element sizes away.
pub proof fn law_pointer_offset(
    scene: Scene,
    at: Moment,
    lhs: Operand,
    rhs: Operand,
    ty: TyId,
    env: Env,
)
    requires
        both_known(scene, at, lhs, rhs),
        operand_of(scene, at, lhs).ty.is_ptr(),
        is_number(operand_of(scene, at, rhs), env),
        operand_of(scene, at, rhs).ty->width == 64,
        (operand_of(scene, at, lhs).den)(env) is Bits,
        place::pointee(scene.program.types, PlaceTy::Ty(lhs.ty())) is Ok,
        layout::size_of(
            scene.program.types,
            place::pointee(scene.program.types, PlaceTy::Ty(lhs.ty()))->Ok_0,
        ) is Ok,
    ensures
        ({
            let table = scene.program.types;
            let elem = place::pointee(table, PlaceTy::Ty(lhs.ty()))->Ok_0;
            let size = layout::size_of(table, elem)->Ok_0;
            let from = operand_of(scene, at, lhs).bits(env);
            let count = number(operand_of(scene, at, rhs), env);
            is_pattern(
                result_of(scene, at, BinOp::Offset, lhs, rhs, ty),
                types::pointer(),
                env,
                (from + count * size) % sem::modulus(64),
            )
        }),
{
    let table = scene.program.types;
    let elem = place::pointee(table, PlaceTy::Ty(lhs.ty()))->Ok_0;
    let size = layout::size_of(table, elem)->Ok_0;
    let from = operand_of(scene, at, lhs).bits(env);
    lemma_scaled(operand_of(scene, at, rhs), size, env);
    lemma_moved(
        operand_of(scene, at, lhs),
        meaning::scaled(operand_of(scene, at, rhs), size),
        number(operand_of(scene, at, rhs), env) * size,
        env,
    );
}

/// A number of elements in bytes, modulo the addresses that there are.
pub proof fn lemma_scaled(index: Meaning, size: u64, env: Env)
    requires
        is_number(index, env),
        index.ty->width == 64,
    ensures
        meaning::scale(index, size) == Ok::<Meaning, Failure>(meaning::scaled(index, size)),
        meaning::scaled(index, size).ty == index.ty,
        is_number(meaning::scaled(index, size), env),
        (number(meaning::scaled(index, size), env) - number(index, env) * size) % sem::modulus(64)
            == 0,
{
    broadcast use sem::lemma_wrap_range;

    let m = sem::modulus(64);
    let a = index.bits(env);
    let n = number(index, env);
    let r = meaning::scaled(index, size);
    if size == 1 {
        vstd::arithmetic::div_mod::lemma_small_mod(0, m as nat);
    } else {
        sem::lemma_wrap_idem(64, a * size);
        let bits = r.bits(env);
        assert(bits == (a * size) % m);
        vstd::arithmetic::div_mod::lemma_fundamental_div_mod(a * size, m);
        let k = (a * size) / m;
        let back = if number(r, env) < 0 {
            1int
        } else {
            0
        };
        let over = if n < 0 {
            1int
        } else {
            0
        };
        assert(number(r, env) - n * size == m * (over * size - k - back)) by (nonlinear_arith)
            requires
                number(r, env) == bits - m * back,
                n == a - m * over,
                a * size == m * k + bits,
        ;
        vstd::arithmetic::div_mod::lemma_mod_multiples_basic(over * size - k - back, m);
        assert(m * (over * size - k - back) == (over * size - k - back) * m) by (nonlinear_arith);
    }
}

/// An address that many bytes further, modulo the addresses that there are.
pub proof fn lemma_moved(base: Meaning, bytes: Meaning, distance: int, env: Env)
    requires
        (base.den)(env) is Bits,
        bytes.ty is Integer,
        (number(bytes, env) - distance) % sem::modulus(64) == 0,
    ensures
        meaning::moved(base, bytes).ty == types::pointer(),
        (meaning::moved(base, bytes).den)(env) is Bits,
        meaning::moved(base, bytes).bits(env) == (base.bits(env) + distance) % sem::modulus(64),
{
    let m = sem::modulus(64);
    let x = base.bits(env) + number(bytes, env);
    let y = base.bits(env) + distance;
    vstd::arithmetic::div_mod::lemma_mod_equivalence(x, y, m);
    sem::lemma_wrap_range(64, x);
}

/// The metadata of a fat pointer is its second word.
pub proof fn law_pointer_metadata(scene: Scene, at: Moment, operand: Operand, env: Env)
    requires
        operand::operand_value(scene, at, operand) is Ok,
        operand_of(scene, at, operand).ty matches ty && ty.fields() matches Some(fields)
            && fields.len() >= 2,
        ({
            let value = operand_of(scene, at, operand);
            sem::shaped(value.ty, (value.den)(env)) == (value.den)(env)
        }),
    ensures
        ({
            let value = operand_of(scene, at, operand);
            let r = rvalue::rvalue_value(scene, at, Rvalue::UnaryOp(UnOp::PtrMetadata, operand));
            &&& r matches Ok(lowered) && lowered.steps.len() == 0 && lowered.value.ty
                == value.ty.fields()->0[1]
            &&& sem::narrow(value.ty.fields()->0[1]) ==> (r->Ok_0.value.den)(env) == sem::part(
                (value.den)(env),
                1,
            )
        }),
{
    let value = operand_of(scene, at, operand);
    let fields = value.ty.fields()->0;
    assert(emit::field_type(value.ty, 1) == Some(fields[1])) by {
        reveal_with_fuel(ox::type_at, 2);
        assert(seq![1u32].skip(1) =~= Seq::<u32>::empty());
    }
    match value.ty {
        TypeHandle::Struct { body: types::StructBody::Fields(list), .. } => {
            sem::lemma_shaped_list(&list, (value.den)(env), 0);
            assert(sem::shaped_list(*list, (value.den)(env), 0)[1] == sem::shaped(
                list.seq()[1],
                sem::part((value.den)(env), 0int + 1),
            ));
            if sem::narrow(fields[1]) {
                sem::lemma_shaped_idem(&fields[1], sem::part((value.den)(env), 1));
            }
        },
        _ => {},
    }
}

/// A three-way comparison stores minus one, nought or one in the slot of an
/// ordering, as the first integer is less than, equal to or greater than the
/// second, and is what is read from there.
pub proof fn law_three_way(
    scene: Scene,
    at: Moment,
    lhs: Operand,
    rhs: Operand,
    ty: TyId,
    blob: TypeHandle,
    env: Env,
)
    requires
        both_known(scene, at, lhs, rhs),
        is_number(operand_of(scene, at, lhs), env),
        is_number(operand_of(scene, at, rhs), env),
        operand_of(scene, at, rhs).ty == operand_of(scene, at, lhs).ty,
        convert::converted(scene.program.types, ty) == Ok::<TypeHandle, Failure>(blob),
    ensures
        ({
            let x = number(operand_of(scene, at, lhs), env);
            let y = number(operand_of(scene, at, rhs), env);
            let slot = meaning::slot_at(at, blob);
            let r = result_of(scene, at, BinOp::Cmp, lhs, rhs, ty);
            &&& r matches Ok(lowered) && lowered.steps.len() == 2 && lowered.value
                == meaning::loaded(meaning::later(at, 2), slot, blob)
            &&& r->Ok_0.steps[1] matches Step::Store { addr, value } && addr == slot
                && value.ty->width == 8 && value.bits(env) == if x < y {
                255u128
            } else if x == y {
                0u128
            } else {
                1u128
            }
        }),
{
    let (a, b) = (operand_of(scene, at, lhs), operand_of(scene, at, rhs));
    rvalue::law_order_tag(a, b, env);
    assert((-1int) % 256 == 255) by (nonlinear_arith);
    sem::lemma_wrap_small(8, 0);
    sem::lemma_wrap_small(8, 1);
}

} // verus!
