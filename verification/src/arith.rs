//! Arithmetic that no single operation performs: products of which only the
//! high half matters, overflow checks, saturation and three-way comparison.
use crate::emit;
use crate::emit::{
    cast_value_to_type, emit_add, emit_and, emit_constant, emit_ge, emit_gt, emit_insert_field,
    emit_lshr, emit_lt, emit_mul, emit_ne, emit_or, emit_shr, emit_sub, emit_undef, emit_unsigned,
    emit_xor,
};
use crate::error::Failure;
use crate::ir::{BlockId, Context, Value};
use crate::mir::BinOp;
use crate::sem;
use crate::sem::{Env, Sem};
use crate::types;
use crate::types::{Signedness, TypeHandle};
use vstd::prelude::*;

verus! {

/// Masks and shifts of 128-bit patterns by half their width are remainders
/// and quotients.
pub proof fn lemma_halves(x: u128)
    ensures
        x & 0xffff_ffff_ffff_ffff == x % 0x1_0000_0000_0000_0000,
        x >> 64u128 == x / 0x1_0000_0000_0000_0000,
        x & 0xffff_ffff_ffff_ffff < 0x1_0000_0000_0000_0000,
        x >> 64u128 < 0x1_0000_0000_0000_0000,
{
    assert(x & 0xffff_ffff_ffff_ffff == x % 0x1_0000_0000_0000_0000 && x >> 64u128 == x
        / 0x1_0000_0000_0000_0000) by (bit_vector);
}

/// A product of factors below `n` stays below `n * n`.
proof fn lemma_small_product(x: int, y: int)
    requires
        0 <= x < 0x1_0000_0000_0000_0000,
        0 <= y < 0x1_0000_0000_0000_0000,
    ensures
        0 <= x * y <= 0xffff_ffff_ffff_ffff * 0xffff_ffff_ffff_ffff,
{
    assert(0 <= x * y <= 0xffff_ffff_ffff_ffff * 0xffff_ffff_ffff_ffff) by (nonlinear_arith)
        requires
            0 <= x <= 0xffff_ffff_ffff_ffff,
            0 <= y <= 0xffff_ffff_ffff_ffff,
    ;
}

proof fn lemma_expand(x1: int, x0: int, y1: int, y0: int, n: int)
    ensures
        (x1 * n + x0) * (y1 * n + y0) == (x1 * y1) * (n * n) + (x1 * y0 + x0 * y1) * n + x0 * y0,
{
    broadcast use vstd::arithmetic::mul::group_mul_is_commutative_and_distributive;

    vstd::arithmetic::mul::lemma_mul_is_associative(x1, n, y1 * n);
    vstd::arithmetic::mul::lemma_mul_is_associative(x1, y1, n * n);
    vstd::arithmetic::mul::lemma_mul_is_associative(y1, n, n);
    vstd::arithmetic::mul::lemma_mul_is_associative(n, y1, n);
    vstd::arithmetic::mul::lemma_mul_is_associative(x1, n, y0);
    vstd::arithmetic::mul::lemma_mul_is_associative(x1, y0, n);
    vstd::arithmetic::mul::lemma_mul_is_associative(x0, y1, n);
}

/// The steps of a product of two 128-bit numbers from the products of their
/// halves lead to its high half.
proof fn lemma_high_product(
    a: u128,
    b: u128,
    a_lo: u128,
    a_hi: u128,
    b_lo: u128,
    b_hi: u128,
    lo_lo: u128,
    cross_a: u128,
    cross_b: u128,
    hi_hi: u128,
    half_sum: u128,
    mid: u128,
    high: u128,
)
    requires
        a_lo == a % 0x1_0000_0000_0000_0000,
        a_hi == a / 0x1_0000_0000_0000_0000,
        b_lo == b % 0x1_0000_0000_0000_0000,
        b_hi == b / 0x1_0000_0000_0000_0000,
        lo_lo == sem::wrap(128, a_lo * b_lo),
        cross_a == sem::wrap(128, a_hi * b_lo),
        cross_b == sem::wrap(128, a_lo * b_hi),
        hi_hi == sem::wrap(128, a_hi * b_hi),
        half_sum == sem::wrap(
            128,
            cross_a % 0x1_0000_0000_0000_0000 + cross_b % 0x1_0000_0000_0000_0000,
        ),
        mid == sem::wrap(128, half_sum + lo_lo / 0x1_0000_0000_0000_0000),
        high == sem::wrap(
            128,
            sem::wrap(
                128,
                sem::wrap(128, hi_hi + cross_a / 0x1_0000_0000_0000_0000) + cross_b
                    / 0x1_0000_0000_0000_0000,
            ) + mid / 0x1_0000_0000_0000_0000,
        ),
    ensures
        high == (a * b) / sem::modulus(128),
{
    let n = 0x1_0000_0000_0000_0000int;
    let m = sem::modulus(128);
    lemma_small_product(a_lo as int, b_lo as int);
    lemma_small_product(a_hi as int, b_lo as int);
    lemma_small_product(a_lo as int, b_hi as int);
    lemma_small_product(a_hi as int, b_hi as int);
    lemma_expand(a_hi as int, a_lo as int, b_hi as int, b_lo as int, n);
    sem::lemma_wrap_small(128, a_lo * b_lo);
    sem::lemma_wrap_small(128, a_hi * b_lo);
    sem::lemma_wrap_small(128, a_lo * b_hi);
    sem::lemma_wrap_small(128, a_hi * b_hi);
    let (caq, car) = (cross_a as int / n, cross_a as int % n);
    let (cbq, cbr) = (cross_b as int / n, cross_b as int % n);
    let (llq, llr) = (lo_lo as int / n, lo_lo as int % n);
    sem::lemma_wrap_small(128, car + cbr);
    sem::lemma_wrap_small(128, car + cbr + llq);
    let (mq, mr) = (mid as int / n, mid as int % n);
    let h = hi_hi + caq + cbq + mq;
    let low = mr * n + llr;
    assert(a * b == h * m + low) by {
        assert(a == a_hi * n + a_lo);
        assert(b == b_hi * n + b_lo);
        assert(cross_a == caq * n + car);
        assert(cross_b == cbq * n + cbr);
        assert(lo_lo == llq * n + llr);
        assert(car + cbr + llq == mq * n + mr);
        lemma_regroup(hi_hi as int, caq, car, cbq, cbr, llq, llr, mq, mr);
    }
    assert(0 <= low < m);
    vstd::arithmetic::div_mod::lemma_fundamental_div_mod_converse(a * b, m, h, low);
    assert(a * b < m * m) by (nonlinear_arith)
        requires
            0 <= a < m,
            0 <= b < m,
    ;
    assert(h < m) by (nonlinear_arith)
        requires
            a * b == h * m + low,
            0 <= low,
            a * b < m * m,
            m > 0,
    ;
    sem::lemma_wrap_small(128, hi_hi + caq);
    sem::lemma_wrap_small(128, hi_hi + caq + cbq);
    sem::lemma_wrap_small(128, h);
}

proof fn lemma_regroup(
    hh: int,
    caq: int,
    car: int,
    cbq: int,
    cbr: int,
    llq: int,
    llr: int,
    mq: int,
    mr: int,
)
    requires
        car + cbr + llq == mq * 0x1_0000_0000_0000_0000int + mr,
    ensures
        ({
            let n = 0x1_0000_0000_0000_0000int;
            let m = sem::modulus(128);
            hh * (n * n) + (caq * n + car + (cbq * n + cbr)) * n + (llq * n + llr) == (hh + caq
                + cbq + mq) * m + (mr * n + llr)
        }),
{
}

/// The high 128 bits of the exact 256-bit product of two unsigned 128-bit
/// values, from the products of their 64-bit halves.
pub fn emit_umulh128(ctx: &mut Context, insert_block: BlockId, lhs: Value, rhs: Value) -> (r: Value)
    requires
        old(ctx).wf(),
        old(ctx).has_block(insert_block),
        old(ctx).has(lhs),
        old(ctx).has(rhs),
    ensures
        final(ctx).computed_since(*old(ctx), insert_block),
        final(ctx).has(r),
        r.ty() == lhs.ty(),
        lhs.ty() is Integer && lhs.ty()->width == 128 && rhs.ty() == lhs.ty()
            ==> forall|env: Env| #[trigger]
            r.bits(env) == (lhs.bits(env) * rhs.bits(env)) / sem::modulus(128),
{
    let mask = emit_unsigned(ctx, insert_block, 128, 0xffff_ffff_ffff_ffff);
    let sixty_four = emit_unsigned(ctx, insert_block, 128, 64);

    let a_lo = emit_and(ctx, insert_block, lhs, mask);
    let a_hi = emit_lshr(ctx, insert_block, lhs, sixty_four);
    let b_lo = emit_and(ctx, insert_block, rhs, mask);
    let b_hi = emit_lshr(ctx, insert_block, rhs, sixty_four);

    let lo_lo = emit_mul(ctx, insert_block, a_lo, b_lo);
    let cross_a = emit_mul(ctx, insert_block, a_hi, b_lo);
    let cross_b = emit_mul(ctx, insert_block, a_lo, b_hi);
    let hi_hi = emit_mul(ctx, insert_block, a_hi, b_hi);

    // The carry out of bit 127 of the full product: a sum of three values
    // below 2^64, exact in 128 bits.
    let cross_a_lo = emit_and(ctx, insert_block, cross_a, mask);
    let cross_b_lo = emit_and(ctx, insert_block, cross_b, mask);
    let lo_lo_hi = emit_lshr(ctx, insert_block, lo_lo, sixty_four);
    let half_sum = emit_add(ctx, insert_block, cross_a_lo, cross_b_lo);
    let mid_sum = emit_add(ctx, insert_block, half_sum, lo_lo_hi);
    let carry = emit_lshr(ctx, insert_block, mid_sum, sixty_four);

    // No intermediate sum wraps: the true high half is below 2^128.
    let cross_a_hi = emit_lshr(ctx, insert_block, cross_a, sixty_four);
    let cross_b_hi = emit_lshr(ctx, insert_block, cross_b, sixty_four);
    let high_1 = emit_add(ctx, insert_block, hi_hi, cross_a_hi);
    let high_2 = emit_add(ctx, insert_block, high_1, cross_b_hi);
    let high = emit_add(ctx, insert_block, high_2, carry);
    proof {
        if lhs.ty() is Integer && lhs.ty()->width == 128 && rhs.ty() == lhs.ty() {
            assert forall|env: Env| #[trigger] high.bits(env) == (lhs.bits(env) * rhs.bits(env))
                / sem::modulus(128) by {
                assert(mask.bits(env) == 0xffff_ffff_ffff_ffff);
                assert(sixty_four.bits(env) == 64);
                lemma_halves(lhs.bits(env));
                lemma_halves(rhs.bits(env));
                lemma_halves(lo_lo.bits(env));
                lemma_halves(cross_a.bits(env));
                lemma_halves(cross_b.bits(env));
                lemma_halves(mid_sum.bits(env));
                assert(carry.bits(env) == mid_sum.bits(env) / 0x1_0000_0000_0000_0000);
                assert(high_2.bits(env) == high_2.bits(env));
                assert(high_1.bits(env) == high_1.bits(env));
                lemma_high_product(
                    lhs.bits(env),
                    rhs.bits(env),
                    a_lo.bits(env),
                    a_hi.bits(env),
                    b_lo.bits(env),
                    b_hi.bits(env),
                    lo_lo.bits(env),
                    cross_a.bits(env),
                    cross_b.bits(env),
                    hi_hi.bits(env),
                    half_sum.bits(env),
                    mid_sum.bits(env),
                    high.bits(env),
                );
            }
        }
    }
    high
}

/// `0 - (value >> 127)`: all ones where the top bit of an unsigned 128-bit
/// value is set, else zero.
pub fn emit_sign_mask128(ctx: &mut Context, insert_block: BlockId, value: Value) -> (r: Value)
    requires
        old(ctx).wf(),
        old(ctx).has_block(insert_block),
        old(ctx).has(value),
        value.ty() == types::unsigned(128),
    ensures
        final(ctx).computed_since(*old(ctx), insert_block),
        final(ctx).has(r),
        r.ty() == types::unsigned(128),
        forall|env: Env| #[trigger]
            r.bits(env) == (if sem::as_signed(128, value.bits(env)) < 0 {
                u128::MAX
            } else {
                0
            }),
{
    let shift = emit_unsigned(ctx, insert_block, 128, 127);
    let sign_bit = emit_lshr(ctx, insert_block, value, shift);
    let zero = emit_unsigned(ctx, insert_block, 128, 0);
    let r = emit_sub(ctx, insert_block, zero, sign_bit);
    assert forall|env: Env| #[trigger]
        r.bits(env) == (if sem::as_signed(128, value.bits(env)) < 0 {
            u128::MAX
        } else {
            0
        }) by {
        let x = value.bits(env);
        assert(shift.bits(env) == 127);
        assert(zero.bits(env) == 0);
        assert(x >> 127u128 == if x >= 0x8000_0000_0000_0000_0000_0000_0000_0000 {
            1u128
        } else {
            0u128
        }) by (bit_vector);
        assert(sign_bit.bits(env) == x >> 127u128);
    }
    r
}

/// The type of a truth value in a register.
pub fn bool_immediate_ty() -> (r: TypeHandle)
    ensures
        r == types::signless(1),
{
    TypeHandle::integer(1, Signedness::Signless)
}

/// The type of a truth value in memory.
pub fn bool_storage_ty() -> (r: TypeHandle)
    ensures
        r == types::signless(8),
{
    TypeHandle::integer(8, Signedness::Signless)
}

/// Whether a value is an integer that is not signed.
pub fn is_unsigned_integer_value(ctx: &Context, value: Value) -> (r: bool)
    requires
        ctx.wf(),
        ctx.has(value),
    ensures
        r == (value.ty() is Integer && value.ty()->signedness != Signedness::Signed),
{
    match ctx.type_of(value).as_integer() {
        Some((_, signedness)) => signedness != Signedness::Signed,
        None => false,
    }
}

/// Whether a value is an integer of 128 bits.
pub fn is_128_bit_integer_value(ctx: &Context, value: Value) -> (r: bool)
    requires
        ctx.wf(),
        ctx.has(value),
    ensures
        r == (value.ty() is Integer && value.ty()->width == 128),
{
    match ctx.type_of(value).as_integer() {
        Some((width, _)) => width == 128,
        None => false,
    }
}

/// Packs a wrapped result and its overflow flag into a pair of the value and a
/// byte.
pub fn pack_overflow_result(
    ctx: &mut Context,
    insert_block: BlockId,
    wrapped_value: Value,
    overflow_value: Value,
) -> (r: Value)
    requires
        old(ctx).wf(),
        old(ctx).has_block(insert_block),
        old(ctx).has(wrapped_value),
        old(ctx).has(overflow_value),
    ensures
        final(ctx).computed_since(*old(ctx), insert_block),
        final(ctx).has(r),
        r.ty() == types::pair_of(wrapped_value.ty(), types::signless(8)),
        sem::narrow(wrapped_value.ty()) && overflow_value.ty() == types::signless(1)
            ==> forall|env: Env| #[trigger]
            r.den(env) == Sem::Agg(
                seq![wrapped_value.den(env), Sem::Bits(overflow_value.bits(env))],
            ),
{
    let overflow_ty = bool_storage_ty();
    let flag = cast_value_to_type(ctx, insert_block, overflow_value, &overflow_ty);
    let result_ty = TypeHandle::pair(ctx.type_of(wrapped_value), overflow_ty);
    let undef = emit_undef(ctx, insert_block, &result_ty);
    let with_value = emit_insert_field(ctx, insert_block, wrapped_value, undef, 0);
    let r = emit_insert_field(ctx, insert_block, flag, with_value, 1);
    proof {
        if sem::narrow(wrapped_value.ty()) && overflow_value.ty() == types::signless(1) {
            assert forall|env: Env| #[trigger]
                r.den(env) == Sem::Agg(
                    seq![wrapped_value.den(env), Sem::Bits(overflow_value.bits(env))],
                ) by {
                lemma_pair_built(*ctx, result_ty, wrapped_value, flag, undef, with_value, r, env);
                ctx.value_in_range(overflow_value, env);
                ctx.value_in_range(flag, env);
                assert(flag.bits(env) == overflow_value.bits(env));
            }
        }
    }
    r
}

/// A pair that was built field by field holds both fields.
proof fn lemma_pair_built(
    ctx: Context,
    ty: TypeHandle,
    first: Value,
    second: Value,
    undef: Value,
    half: Value,
    whole: Value,
    env: Env,
)
    requires
        ctx.wf(),
        ctx.has(first),
        ctx.has(second),
        sem::narrow(first.ty()),
        sem::narrow(second.ty()),
        ty == types::pair_of(first.ty(), second.ty()),
        undef.den(env) == sem::shaped(ty, Sem::Undef),
        half.den(env) == sem::shaped(
            ty,
            sem::with_part(undef.den(env), seq![0u32], first.den(env)),
        ),
        whole.den(env) == sem::shaped(
            ty,
            sem::with_part(half.den(env), seq![1u32], second.den(env)),
        ),
    ensures
        whole.den(env) == Sem::Agg(seq![first.den(env), second.den(env)]),
{
    sem::lemma_pair(first.ty(), second.ty());
    ctx.value_fixed(first, env);
    ctx.value_fixed(second, env);
    sem::lemma_shaped_idem(&ty, Sem::Undef);
    sem::lemma_insert_field(&ty, undef.den(env), 0, first.den(env));
    sem::lemma_shaped_idem(&ty, sem::with_part(undef.den(env), seq![0u32], first.den(env)));
    sem::lemma_insert_field(&ty, half.den(env), 1, second.den(env));
    assert(whole.den(env)->Agg_0 =~= seq![first.den(env), second.den(env)]);
}

/// The integer that a checked operation would give without a bound.
pub open spec fn exact(op: BinOp, a: int, b: int) -> int {
    match op {
        BinOp::AddWithOverflow => a + b,
        BinOp::SubWithOverflow => a - b,
        _ => a * b,
    }
}

/// Whether an integer fits a width and signedness.
pub open spec fn fits(width: u32, signedness: Signedness, value: int) -> bool {
    if signedness == Signedness::Signed {
        -sem::modulus(width) <= 2 * value < sem::modulus(width)
    } else {
        0 <= value < sem::modulus(width)
    }
}

/// What a checked operation means: the wrapped result, and whether it differs
/// from the true one.
pub open spec fn checked(
    op: BinOp,
    width: u32,
    signedness: Signedness,
    a: u128,
    b: u128,
) -> Sem {
    let true_result = exact(
        op,
        sem::as_int(width, signedness, a),
        sem::as_int(width, signedness, b),
    );
    Sem::Agg(
        seq![
            Sem::Bits(sem::wrap(width, true_result)),
            Sem::Bits(sem::bit(!fits(width, signedness, true_result))),
        ],
    )
}

/// Whether an operation is one of the three checked ones.
pub open spec fn is_checked_op(op: BinOp) -> bool {
    op == BinOp::AddWithOverflow || op == BinOp::SubWithOverflow || op == BinOp::MulWithOverflow
}

/// Whether a value is what a checked operation on two others means.
pub open spec fn is_checked(op: BinOp, lhs: Value, rhs: Value, r: Value) -> bool {
    &&& r.ty() == types::pair_of(lhs.ty(), types::signless(8))
    &&& lhs.ty() == rhs.ty() && sem::held_width(lhs.ty()->width) ==> forall|env: Env| #[trigger]
        r.den(env) == checked(
            op,
            lhs.ty()->width,
            lhs.ty()->signedness,
            lhs.bits(env),
            rhs.bits(env),
        )
}

/// A width that a checked multiplication can double or split.
pub open spec fn mul_width(width: u32) -> bool {
    width <= 64 || width == 128
}

/// The largest bit pattern of a width.
pub fn low_mask(width: u32) -> (r: u128)
    requires
        1 <= width <= 128,
    ensures
        r == sem::modulus(width) - 1,
{
    let shift: u32 = 128 - width;
    proof {
        sem::lemma_ones(width);
    }
    u128::MAX >> shift
}

proof fn lemma_double_width(width: u32)
    requires
        1 <= width <= 64,
    ensures
        sem::modulus((2 * width) as u32) == sem::modulus(width) * sem::modulus(width),
        sem::modulus(width) >= 2,
{
    sem::lemma_modulus(width);
    sem::lemma_modulus((2 * width) as u32);
    vstd::arithmetic::power2::lemma_pow2_adds(width as nat, width as nat);
    vstd::arithmetic::power2::lemma_pow2_adds(1, (width - 1) as nat);
    vstd::arithmetic::power2::lemma_pow2_pos((width - 1) as nat);
    vstd::arithmetic::power2::lemma2_to64();
}

/// Checked multiplication of integers that are not signed: at double width
/// where there is one, else by the high half of the product.
pub fn lower_unsigned_mul_overflow(
    ctx: &mut Context,
    insert_block: BlockId,
    lhs: Value,
    rhs: Value,
) -> (r: Result<Value, Failure>)
    requires
        old(ctx).wf(),
        old(ctx).has_block(insert_block),
        old(ctx).has(lhs),
        old(ctx).has(rhs),
        lhs.ty() is Integer ==> lhs.ty()->width > 0,
    ensures
        final(ctx).computed_since(*old(ctx), insert_block),
        match r {
            Ok(v) => {
                &&& lhs.ty() is Integer && mul_width(lhs.ty()->width)
                &&& final(ctx).has(v)
                &&& lhs.ty()->signedness != Signedness::Signed ==> is_checked(
                    BinOp::MulWithOverflow,
                    lhs,
                    rhs,
                    v,
                )
            },
            Err(Failure::NonIntegerMul) => !(lhs.ty() is Integer) && *final(ctx) == *old(ctx),
            Err(Failure::WideMul { width }) => {
                &&& *final(ctx) == *old(ctx)
                &&& lhs.ty() is Integer
                &&& !mul_width(width)
                &&& width == lhs.ty()->width
            },
            Err(_) => false,
        },
{
    let ty = ctx.type_of(lhs);
    let width: u32 = match ty.as_integer() {
        Some((width, _)) => width,
        None => {
            return Err(Failure::NonIntegerMul);
        },
    };
    if width == 128 {
        let wrapped = emit_mul(ctx, insert_block, lhs, rhs);
        let high = emit_umulh128(ctx, insert_block, lhs, rhs);
        let zero = emit_unsigned(ctx, insert_block, 128, 0);
        let overflow = emit_ne(ctx, insert_block, high, zero);
        let r = pack_overflow_result(ctx, insert_block, wrapped, overflow);
        proof {
            let sign = lhs.ty()->signedness;
            if lhs.ty() == rhs.ty() && sign != Signedness::Signed {
                assert forall|env: Env| #[trigger]
                    r.den(env) == checked(
                        BinOp::MulWithOverflow,
                        128,
                        sign,
                        lhs.bits(env),
                        rhs.bits(env),
                    ) by {
                    let product = lhs.bits(env) * rhs.bits(env);
                    let m = sem::modulus(128);
                    assert(zero.bits(env) == 0);
                    assert(high.bits(env) == product / m);
                    assert(product >= 0) by (nonlinear_arith)
                        requires
                            product == lhs.bits(env) * rhs.bits(env),
                    ;
                    assert(product / m == 0 <==> product < m);
                    ctx.value_in_range(wrapped, env);
                    assert(r.den(env)->Agg_0 =~= checked(
                        BinOp::MulWithOverflow,
                        128,
                        sign,
                        lhs.bits(env),
                        rhs.bits(env),
                    )->Agg_0);
                }
            }
        }
        return Ok(r);
    }
    if width > 64 {
        return Err(Failure::WideMul { width });
    }
    let wide_ty = TypeHandle::integer(width * 2, Signedness::Unsigned);
    let wide_lhs = cast_value_to_type(ctx, insert_block, lhs, &wide_ty);
    let wide_rhs = cast_value_to_type(ctx, insert_block, rhs, &wide_ty);
    let wide_value = emit_mul(ctx, insert_block, wide_lhs, wide_rhs);
    let wrapped_value = cast_value_to_type(ctx, insert_block, wide_value, &ty);
    let narrow_max = emit_unsigned(ctx, insert_block, width * 2, low_mask(width));
    let overflow = emit_gt(ctx, insert_block, wide_value, narrow_max);
    let r = pack_overflow_result(ctx, insert_block, wrapped_value, overflow);
    proof {
        if lhs.ty() == rhs.ty() && lhs.ty()->signedness != Signedness::Signed {
            assert forall|env: Env| #[trigger]
                r.den(env) == checked(
                    BinOp::MulWithOverflow,
                    width,
                    lhs.ty()->signedness,
                    lhs.bits(env),
                    rhs.bits(env),
                ) by {
                let (a, b) = (lhs.bits(env) as int, rhs.bits(env) as int);
                let m = sem::modulus(width);
                ctx.value_in_range(lhs, env);
                ctx.value_in_range(rhs, env);
                lemma_double_width(width);
                assert(0 <= a * b < m * m) by (nonlinear_arith)
                    requires
                        0 <= a < m,
                        0 <= b < m,
                ;
                assert(m <= m * m) by (nonlinear_arith)
                    requires
                        m >= 2,
                ;
                sem::lemma_wrap_small((width * 2) as u32, a);
                sem::lemma_wrap_small((width * 2) as u32, b);
                sem::lemma_wrap_small((width * 2) as u32, a * b);
                sem::lemma_wrap_small((width * 2) as u32, m - 1);
                assert(wide_value.bits(env) == a * b);
                assert(narrow_max.bits(env) == m - 1);
                ctx.value_in_range(wrapped_value, env);
                assert(r.den(env)->Agg_0 =~= checked(
                    BinOp::MulWithOverflow,
                    width,
                    lhs.ty()->signedness,
                    lhs.bits(env),
                    rhs.bits(env),
                )->Agg_0);
            }
        }
    }
    Ok(r)
}

proof fn lemma_as_signed_range(width: u32, bits: u128)
    requires
        1 <= width <= 128,
        bits < sem::modulus(width),
    ensures
        fits(width, Signedness::Signed, sem::as_signed(width, bits)),
        sem::wrap(width, sem::as_signed(width, bits)) == bits,
{
    sem::lemma_wrap_as_int(width, Signedness::Signed, bits);
}

/// A pattern stands for the integer that it was made from exactly where that
/// integer fits.
proof fn lemma_signed_round_trip(width: u32, value: int)
    requires
        1 <= width <= 128,
    ensures
        sem::as_signed(width, sem::wrap(width, value)) == value <==> fits(
            width,
            Signedness::Signed,
            value,
        ),
{
    let m = sem::modulus(width);
    sem::lemma_modulus_bound(width);
    sem::lemma_wrap_range(width, value);
    let bits = sem::wrap(width, value);
    lemma_as_signed_range(width, bits);
    if fits(width, Signedness::Signed, value) {
        if value >= 0 {
            sem::lemma_wrap_small(width, value);
        } else {
            sem::lemma_wrap_small(width, value + m);
            vstd::arithmetic::div_mod::lemma_mod_add_multiples_vanish(value, m);
        }
    }
}

/// Checked multiplication of signed integers of at most 64 bits: at double
/// width, and back.
pub fn lower_signed_mul_overflow(
    ctx: &mut Context,
    insert_block: BlockId,
    lhs: Value,
    rhs: Value,
) -> (r: Result<Value, Failure>)
    requires
        old(ctx).wf(),
        old(ctx).has_block(insert_block),
        old(ctx).has(lhs),
        old(ctx).has(rhs),
        lhs.ty() is Integer ==> lhs.ty()->width > 0,
    ensures
        final(ctx).computed_since(*old(ctx), insert_block),
        match r {
            Ok(v) => {
                &&& lhs.ty() is Integer && mul_width(lhs.ty()->width)
                &&& final(ctx).has(v)
                &&& lhs.ty()->signedness == Signedness::Signed ==> is_checked(
                    BinOp::MulWithOverflow,
                    lhs,
                    rhs,
                    v,
                )
            },
            Err(Failure::NonIntegerMul) => !(lhs.ty() is Integer) && *final(ctx) == *old(ctx),
            Err(Failure::WideMul { width }) => {
                &&& *final(ctx) == *old(ctx)
                &&& lhs.ty() is Integer
                &&& !mul_width(width)
                &&& width == lhs.ty()->width
            },
            Err(_) => false,
        },
{
    let ty = ctx.type_of(lhs);
    let width: u32 = match ty.as_integer() {
        Some((width, _)) => width,
        None => {
            return Err(Failure::NonIntegerMul);
        },
    };
    if width == 128 {
        return Ok(lower_signed_mul_overflow_128(ctx, insert_block, lhs, rhs));
    }
    if width > 64 {
        return Err(Failure::WideMul { width });
    }
    let wide_ty = TypeHandle::integer(width * 2, Signedness::Signed);
    let wide_lhs = cast_value_to_type(ctx, insert_block, lhs, &wide_ty);
    let wide_rhs = cast_value_to_type(ctx, insert_block, rhs, &wide_ty);
    let wide_value = emit_mul(ctx, insert_block, wide_lhs, wide_rhs);
    let wrapped_value = cast_value_to_type(ctx, insert_block, wide_value, &ty);
    let widened_back = cast_value_to_type(ctx, insert_block, wrapped_value, &wide_ty);
    let overflow = emit_ne(ctx, insert_block, wide_value, widened_back);
    let r = pack_overflow_result(ctx, insert_block, wrapped_value, overflow);
    proof {
        if lhs.ty() == rhs.ty() && lhs.ty()->signedness == Signedness::Signed {
            let w2 = (width * 2) as u32;
            assert forall|env: Env| #[trigger]
                r.den(env) == checked(
                    BinOp::MulWithOverflow,
                    width,
                    Signedness::Signed,
                    lhs.bits(env),
                    rhs.bits(env),
                ) by {
                ctx.value_in_range(lhs, env);
                ctx.value_in_range(rhs, env);
                ctx.value_in_range(wide_value, env);
                ctx.value_in_range(wrapped_value, env);
                ctx.value_in_range(widened_back, env);
                lemma_signed_wide_product(
                    width,
                    lhs.bits(env),
                    rhs.bits(env),
                    wide_lhs.bits(env),
                    wide_rhs.bits(env),
                    wide_value.bits(env),
                    wrapped_value.bits(env),
                    widened_back.bits(env),
                );
                assert(sem::int_value(wide_value.ty(), wide_value.den(env)) == sem::as_signed(
                    w2,
                    wide_value.bits(env),
                ));
                assert(r.den(env)->Agg_0 =~= checked(
                    BinOp::MulWithOverflow,
                    width,
                    Signedness::Signed,
                    lhs.bits(env),
                    rhs.bits(env),
                )->Agg_0);
            }
        }
    }
    Ok(r)
}

proof fn lemma_signed_wide_product(
    width: u32,
    a: u128,
    b: u128,
    wide_a: u128,
    wide_b: u128,
    product: u128,
    wrapped: u128,
    back: u128,
)
    requires
        1 <= width <= 64,
        a < sem::modulus(width),
        b < sem::modulus(width),
        wide_a == sem::wrap((2 * width) as u32, sem::as_signed(width, a)),
        wide_b == sem::wrap((2 * width) as u32, sem::as_signed(width, b)),
        product == sem::wrap((2 * width) as u32, wide_a * wide_b),
        wrapped == sem::wrap(width, sem::as_signed((2 * width) as u32, product)),
        back == sem::wrap((2 * width) as u32, sem::as_signed(width, wrapped)),
    ensures
        sem::as_signed((2 * width) as u32, product) == sem::as_signed(width, a) * sem::as_signed(
            width,
            b,
        ),
        sem::as_signed((2 * width) as u32, product) != sem::as_signed((2 * width) as u32, back)
            <==> !fits(
            width,
            Signedness::Signed,
            sem::as_signed(width, a) * sem::as_signed(width, b),
        ),
{
    let w2 = (2 * width) as u32;
    let (m, mm) = (sem::modulus(width), sem::modulus(w2));
    let (x, y) = (sem::as_signed(width, a), sem::as_signed(width, b));
    lemma_double_width(width);
    lemma_as_signed_range(width, a);
    lemma_as_signed_range(width, b);
    assert(-(m * m) <= 4 * (x * y) <= m * m) by (nonlinear_arith)
        requires
            -m <= 2 * x <= m,
            -m <= 2 * y <= m,
    ;
    assert(m * m >= 4) by (nonlinear_arith)
        requires
            m >= 2,
    ;
    // The product of the wide patterns is congruent to the true product.
    vstd::arithmetic::div_mod::lemma_mul_mod_noop(x, y, mm);
    sem::lemma_wrap_range(w2, x);
    sem::lemma_wrap_range(w2, y);
    assert(product == sem::wrap(w2, x * y));
    lemma_signed_round_trip(w2, x * y);
    assert(sem::as_signed(w2, product) == x * y);
    sem::lemma_wrap_range(width, x * y);
    lemma_as_signed_range(width, wrapped);
    let s = sem::as_signed(width, wrapped);
    assert(m <= mm) by (nonlinear_arith)
        requires
            mm == m * m,
            m >= 2,
    ;
    lemma_signed_round_trip(w2, s);
    lemma_signed_round_trip(width, x * y);
}

/// Checked multiplication of signed 128-bit integers. The high half of the
/// exact product follows from the unsigned one, which is `b` too large where
/// `a` is negative and `a` too large where `b` is.
pub fn lower_signed_mul_overflow_128(
    ctx: &mut Context,
    insert_block: BlockId,
    lhs: Value,
    rhs: Value,
) -> (r: Value)
    requires
        old(ctx).wf(),
        old(ctx).has_block(insert_block),
        old(ctx).has(lhs),
        old(ctx).has(rhs),
        lhs.ty() is Integer,
        lhs.ty()->width == 128,
    ensures
        final(ctx).computed_since(*old(ctx), insert_block),
        final(ctx).has(r),
        lhs.ty()->signedness == Signedness::Signed ==> is_checked(
            BinOp::MulWithOverflow,
            lhs,
            rhs,
            r,
        ),
{
    let u128_ty = TypeHandle::integer(128, Signedness::Unsigned);
    let lhs_bits = cast_value_to_type(ctx, insert_block, lhs, &u128_ty);
    let rhs_bits = cast_value_to_type(ctx, insert_block, rhs, &u128_ty);
    let wrapped = emit_mul(ctx, insert_block, lhs, rhs);

    let unsigned_high = emit_umulh128(ctx, insert_block, lhs_bits, rhs_bits);
    let lhs_mask = emit_sign_mask128(ctx, insert_block, lhs_bits);
    let rhs_mask = emit_sign_mask128(ctx, insert_block, rhs_bits);
    let lhs_fix = emit_and(ctx, insert_block, lhs_mask, rhs_bits);
    let rhs_fix = emit_and(ctx, insert_block, rhs_mask, lhs_bits);
    let half_fixed = emit_sub(ctx, insert_block, unsigned_high, lhs_fix);
    let signed_high = emit_sub(ctx, insert_block, half_fixed, rhs_fix);

    // The sign extension of the wrapped low half: all ones iff it is negative.
    let wrapped_bits = cast_value_to_type(ctx, insert_block, wrapped, &u128_ty);
    let expected_high = emit_sign_mask128(ctx, insert_block, wrapped_bits);
    let overflow = emit_ne(ctx, insert_block, signed_high, expected_high);
    let r = pack_overflow_result(ctx, insert_block, wrapped, overflow);
    proof {
        if lhs.ty()->signedness == Signedness::Signed && rhs.ty() == lhs.ty() {
            assert forall|env: Env| #[trigger]
                r.den(env) == checked(
                    BinOp::MulWithOverflow,
                    128,
                    Signedness::Signed,
                    lhs.bits(env),
                    rhs.bits(env),
                ) by {
                let (a, b) = (lhs.bits(env), rhs.bits(env));
                lemma_as_signed_range(128, a);
                lemma_as_signed_range(128, b);
                assert(lhs_bits.bits(env) == a);
                assert(rhs_bits.bits(env) == b);
                ctx.value_in_range(wrapped, env);
                lemma_as_signed_range(128, wrapped.bits(env));
                assert(wrapped_bits.bits(env) == wrapped.bits(env));
                lemma_masks(128, a);
                lemma_masks(128, b);
                assert(half_fixed.bits(env) == half_fixed.bits(env));
                lemma_signed_high(
                    a,
                    b,
                    wrapped.bits(env),
                    unsigned_high.bits(env),
                    lhs_fix.bits(env),
                    rhs_fix.bits(env),
                    signed_high.bits(env),
                );
                assert(expected_high.bits(env) == (if sem::as_signed(128, wrapped.bits(env)) < 0 {
                    u128::MAX
                } else {
                    0
                }));
                assert(overflow.bits(env) == sem::bit(
                    signed_high.bits(env) != expected_high.bits(env),
                ));
                assert(r.den(env)->Agg_0 =~= checked(
                    BinOp::MulWithOverflow,
                    128,
                    Signedness::Signed,
                    lhs.bits(env),
                    rhs.bits(env),
                )->Agg_0);
            }
        }
    }
    r
}

proof fn lemma_expand_sub(a: int, b: int, p: int, q: int)
    ensures
        (a - p) * (b - q) == a * b - a * q - p * b + p * q,
{
    broadcast use vstd::arithmetic::mul::group_mul_is_commutative_and_distributive;

}

/// The signed product of two 128-bit numbers overflows exactly where its
/// high half is not the sign extension of its low half.
proof fn lemma_signed_high(
    a: u128,
    b: u128,
    wrapped: u128,
    unsigned_high: u128,
    lhs_fix: u128,
    rhs_fix: u128,
    signed_high: u128,
)
    requires
        wrapped == sem::wrap(128, a * b),
        unsigned_high == (a * b) / sem::modulus(128),
        lhs_fix == if sem::as_signed(128, a) < 0 { b } else { 0 },
        rhs_fix == if sem::as_signed(128, b) < 0 { a } else { 0 },
        signed_high == sem::wrap(128, sem::wrap(128, unsigned_high - lhs_fix) - rhs_fix),
    ensures
        wrapped == sem::wrap(128, sem::as_signed(128, a) * sem::as_signed(128, b)),
        signed_high != (if sem::as_signed(128, wrapped) < 0 {
            u128::MAX
        } else {
            0
        }) <==> !fits(
            128,
            Signedness::Signed,
            sem::as_signed(128, a) * sem::as_signed(128, b),
        ),
{
    let m = sem::modulus(128);
    let (x, y) = (sem::as_signed(128, a), sem::as_signed(128, b));
    let k = if x < 0 && y < 0 { m } else { 0int };
    assert(x * y == a * b - (lhs_fix + rhs_fix) * m + k * m) by {
        lemma_expand_sub(a as int, b as int, m, m);
        lemma_expand_sub(a as int, b as int, m, 0);
        lemma_expand_sub(a as int, b as int, 0, m);
    }
    let low = (a * b) % m;
    let h = unsigned_high - lhs_fix - rhs_fix + k;
    assert(a * b == unsigned_high * m + low);
    assert(x * y == h * m + low);
    assert(0 <= low < m);
    vstd::arithmetic::div_mod::lemma_fundamental_div_mod_converse(x * y, m, h, low);
    assert(wrapped == low);
    // h is congruent to signed_high and lies in the signed range.
    lemma_as_signed_range(128, a);
    lemma_as_signed_range(128, b);
    assert(-(m * m) <= 4 * (x * y) <= m * m) by (nonlinear_arith)
        requires
            -m <= 2 * x <= m,
            -m <= 2 * y <= m,
    ;
    assert(-m <= 2 * h < m) by (nonlinear_arith)
        requires
            x * y == h * m + low,
            0 <= low < m,
            -(m * m) <= 4 * (x * y) <= m * m,
            m > 4,
    ;
    assert(signed_high == sem::wrap(128, h)) by {
        let u = unsigned_high - lhs_fix;
        vstd::arithmetic::div_mod::lemma_sub_mod_noop(u, rhs_fix as int, m);
        vstd::arithmetic::div_mod::lemma_mod_twice(u, m);
        assert(((u % m) - rhs_fix) % m == (u - rhs_fix) % m) by {
            vstd::arithmetic::div_mod::lemma_sub_mod_noop(u % m, rhs_fix as int, m);
        }
        vstd::arithmetic::div_mod::lemma_mod_add_multiples_vanish(u - rhs_fix, m);
    }
    lemma_signed_round_trip(128, h);
    lemma_signed_round_trip(128, x * y);
    sem::lemma_wrap_small(128, 0);
    sem::lemma_wrap_small(128, m - 1);
    vstd::arithmetic::div_mod::lemma_mod_add_multiples_vanish(-1, m);
    // It fits exactly where h is 0 or -1 and matches the sign of the low half.
    let s = sem::as_signed(128, wrapped);
    if s < 0 {
        assert(fits(128, Signedness::Signed, x * y) <==> h == -1) by (nonlinear_arith)
            requires
                x * y == h * m + low,
                0 <= low < m,
                2 * low >= m,
                m > 4,
                fits(128, Signedness::Signed, x * y) == (-m <= 2 * (x * y) < m),
        ;
    } else {
        assert(fits(128, Signedness::Signed, x * y) <==> h == 0) by (nonlinear_arith)
            requires
                x * y == h * m + low,
                0 <= low < m,
                2 * low < m,
                m > 4,
                fits(128, Signedness::Signed, x * y) == (-m <= 2 * (x * y) < m),
        ;
    }
}

/// Checked addition, subtraction and multiplication of integers that are not
/// signed: a sum wraps exactly where it is below a summand.
pub fn lower_unsigned_overflow_binary(
    ctx: &mut Context,
    insert_block: BlockId,
    op: BinOp,
    lhs: Value,
    rhs: Value,
) -> (r: Result<Value, Failure>)
    requires
        old(ctx).wf(),
        old(ctx).has_block(insert_block),
        old(ctx).has(lhs),
        old(ctx).has(rhs),
        lhs.ty() is Integer,
        lhs.ty()->signedness != Signedness::Signed,
        lhs.ty()->width > 0,
    ensures
        final(ctx).computed_since(*old(ctx), insert_block),
        match r {
            Ok(v) => {
                &&& is_checked_op(op)
                &&& op == BinOp::MulWithOverflow ==> mul_width(lhs.ty()->width)
                &&& final(ctx).has(v)
                &&& is_checked(op, lhs, rhs, v)
            },
            Err(Failure::OverflowOp(other)) => {
                &&& *final(ctx) == *old(ctx)
                &&& other == op && !is_checked_op(op)
            },
            Err(Failure::WideMul { width }) => {
                &&& *final(ctx) == *old(ctx)
                &&& op == BinOp::MulWithOverflow
                &&& width == lhs.ty()->width
                &&& !mul_width(width)
            },
            Err(_) => false,
        },
{
    if op == BinOp::MulWithOverflow {
        return lower_unsigned_mul_overflow(ctx, insert_block, lhs, rhs);
    }
    let wrapped_value = match op {
        BinOp::AddWithOverflow => emit_add(ctx, insert_block, lhs, rhs),
        BinOp::SubWithOverflow => emit_sub(ctx, insert_block, lhs, rhs),
        other => {
            return Err(Failure::OverflowOp(other));
        },
    };
    let overflow_value = if op == BinOp::AddWithOverflow {
        emit_lt(ctx, insert_block, wrapped_value, lhs)
    } else {
        emit_lt(ctx, insert_block, lhs, rhs)
    };
    let r = pack_overflow_result(ctx, insert_block, wrapped_value, overflow_value);
    proof {
        let width = lhs.ty()->width;
        if lhs.ty() == rhs.ty() && sem::held_width(width) {
            assert forall|env: Env| #[trigger]
                r.den(env) == checked(
                    op,
                    width,
                    lhs.ty()->signedness,
                    lhs.bits(env),
                    rhs.bits(env),
                ) by {
                let (a, b, m) = (lhs.bits(env), rhs.bits(env), sem::modulus(width));
                ctx.value_in_range(lhs, env);
                ctx.value_in_range(rhs, env);
                ctx.value_in_range(wrapped_value, env);
                if op == BinOp::AddWithOverflow {
                    if a + b < m {
                        sem::lemma_wrap_small(width, a + b);
                    } else {
                        sem::lemma_wrap_small(width, a + b - m);
                        vstd::arithmetic::div_mod::lemma_mod_add_multiples_vanish(a + b - m, m);
                    }
                }
                assert(r.den(env)->Agg_0 =~= checked(
                    op,
                    width,
                    lhs.ty()->signedness,
                    lhs.bits(env),
                    rhs.bits(env),
                )->Agg_0);
            }
        }
    }
    Ok(r)
}

/// The sign of a bitwise combination of two patterns.
proof fn lemma_sign_bits(width: u32, a: u128, b: u128)
    requires
        sem::held_width(width),
        a < sem::modulus(width),
        b < sem::modulus(width),
    ensures
        a ^ b < sem::modulus(width),
        a & b < sem::modulus(width),
        sem::as_signed(width, a ^ b) < 0 <==> (sem::as_signed(width, a) < 0) != (sem::as_signed(
            width,
            b,
        ) < 0),
        sem::as_signed(width, a & b) < 0 <==> sem::as_signed(width, a) < 0 && sem::as_signed(
            width,
            b,
        ) < 0,
{
    sem::lemma_ones(width);
    sem::lemma_modulus(width);
    vstd::arithmetic::power2::lemma_pow2_unfold(width as nat);
    let max = (sem::modulus(width) - 1) as u128;
    let top = (sem::modulus(width) / 2) as u128;
    let shift = (128 - width) as u128;
    assert(sign_rule(a, b, max, top)) by (bit_vector)
        requires
            shift < 128,
            max == 0xffff_ffff_ffff_ffff_ffff_ffff_ffff_ffffu128 >> shift,
            top == max - max / 2,
    ;
}

/// How the top bit of patterns up to `max` behaves.
spec fn sign_rule(a: u128, b: u128, max: u128, top: u128) -> bool {
    a <= max && b <= max ==> {
        &&& (a ^ b) <= max && (a & b) <= max
        &&& ((a ^ b) >= top) == ((a >= top) != (b >= top))
        &&& ((a & b) >= top) == (a >= top && b >= top)
    }
}

/// Signed addition overflows exactly where the result differs in sign from
/// both summands; subtraction where the operands differ in sign and the result
/// differs from the first.
proof fn lemma_signed_overflow(width: u32, is_add: bool, a: u128, b: u128, wrapped: u128)
    requires
        sem::held_width(width),
        a < sem::modulus(width),
        b < sem::modulus(width),
        wrapped == sem::wrap(width, if is_add { a + b } else { a - b }),
    ensures
        ({
            let (x, y) = (sem::as_signed(width, a), sem::as_signed(width, b));
            let t = if is_add { x + y } else { x - y };
            &&& wrapped < sem::modulus(width)
            &&& wrapped == sem::wrap(width, t)
            &&& !fits(width, Signedness::Signed, t) <==> if is_add {
                sem::as_signed(width, (wrapped ^ a) & (wrapped ^ b)) < 0
            } else {
                sem::as_signed(width, (a ^ b) & (a ^ wrapped)) < 0
            }
        }),
{
    let m = sem::modulus(width);
    sem::lemma_modulus_bound(width);
    let (x, y) = (sem::as_signed(width, a), sem::as_signed(width, b));
    let t = if is_add { x + y } else { x - y };
    let u = if is_add { a + b } else { a - b };
    sem::lemma_wrap_range(width, u);
    assert(wrapped == sem::wrap(width, t)) by {
        vstd::arithmetic::div_mod::lemma_mod_add_multiples_vanish(t, m);
        vstd::arithmetic::div_mod::lemma_mod_add_multiples_vanish(t + m, m);
        vstd::arithmetic::div_mod::lemma_mod_add_multiples_vanish(u, m);
        assert(u == t || u == t + m || u == t + m + m || u == t - m);
    }
    lemma_signed_round_trip(width, t);
    lemma_as_signed_range(width, wrapped);
    lemma_as_signed_range(width, a);
    lemma_as_signed_range(width, b);
    lemma_sign_bits(width, wrapped, a);
    lemma_sign_bits(width, wrapped, b);
    lemma_sign_bits(width, a, b);
    lemma_sign_bits(width, a, wrapped);
    lemma_sign_bits(width, wrapped ^ a, wrapped ^ b);
    lemma_sign_bits(width, a ^ b, a ^ wrapped);
    let s = sem::as_signed(width, wrapped);
    // The wrapped result differs from the true one by a multiple of the modulus.
    assert(s == t || s == t + m || s == t - m) by {
        if t >= 0 {
            if 2 * t < m {
            } else {
                sem::lemma_wrap_small(width, t);
            }
        } else {
            if -m <= 2 * t {
            } else {
                vstd::arithmetic::div_mod::lemma_mod_add_multiples_vanish(t, m);
                if t + m >= 0 {
                    sem::lemma_wrap_small(width, t + m);
                }
            }
        }
    }
}

/// Checked addition, subtraction and multiplication of signed integers.
pub fn lower_signed_overflow_binary(
    ctx: &mut Context,
    insert_block: BlockId,
    op: BinOp,
    lhs: Value,
    rhs: Value,
) -> (r: Result<Value, Failure>)
    requires
        old(ctx).wf(),
        old(ctx).has_block(insert_block),
        old(ctx).has(lhs),
        old(ctx).has(rhs),
        lhs.ty() is Integer ==> lhs.ty()->width > 0,
    ensures
        final(ctx).computed_since(*old(ctx), insert_block),
        match r {
            Ok(v) => {
                &&& lhs.ty() is Integer && lhs.ty()->signedness == Signedness::Signed
                &&& is_checked_op(op)
                &&& op == BinOp::MulWithOverflow ==> mul_width(lhs.ty()->width)
                &&& final(ctx).has(v)
                &&& is_checked(op, lhs, rhs, v)
            },
            Err(Failure::NonIntegerOverflowOp(other)) => {
                &&& *final(ctx) == *old(ctx)
                &&& other == op
                &&& !(lhs.ty() is Integer && lhs.ty()->signedness == Signedness::Signed)
            },
            Err(Failure::OverflowOp(other)) => {
                &&& *final(ctx) == *old(ctx)
                &&& other == op && !is_checked_op(op)
                &&& lhs.ty() is Integer && lhs.ty()->signedness == Signedness::Signed
            },
            Err(Failure::WideMul { width }) => {
                &&& *final(ctx) == *old(ctx)
                &&& op == BinOp::MulWithOverflow
                &&& lhs.ty() is Integer && lhs.ty()->signedness == Signedness::Signed
                &&& width == lhs.ty()->width
                &&& !mul_width(width)
            },
            Err(_) => false,
        },
{
    let ty = ctx.type_of(lhs);
    let is_signed = match ty.as_integer() {
        Some((_, signedness)) => signedness == Signedness::Signed,
        None => false,
    };
    if !is_signed {
        return Err(Failure::NonIntegerOverflowOp(op));
    }
    if op == BinOp::MulWithOverflow {
        return lower_signed_mul_overflow(ctx, insert_block, lhs, rhs);
    }
    let wrapped = match op {
        BinOp::AddWithOverflow => emit_add(ctx, insert_block, lhs, rhs),
        BinOp::SubWithOverflow => emit_sub(ctx, insert_block, lhs, rhs),
        other => {
            return Err(Failure::OverflowOp(other));
        },
    };
    let is_add = op == BinOp::AddWithOverflow;
    let sign = emit_overflow_sign(ctx, insert_block, is_add, lhs, rhs, wrapped);
    match emit_constant(ctx, insert_block, &ty, 0) {
        Ok(zero) => {
            let overflow = emit_lt(ctx, insert_block, sign, zero);
            let r = pack_overflow_result(ctx, insert_block, wrapped, overflow);
            proof {
                let width = lhs.ty()->width;
                if lhs.ty() == rhs.ty() && sem::held_width(width) {
                    assert forall|env: Env| #[trigger]
                        r.den(env) == checked(
                            op,
                            width,
                            Signedness::Signed,
                            lhs.bits(env),
                            rhs.bits(env),
                        ) by {
                        ctx.value_in_range(lhs, env);
                        ctx.value_in_range(rhs, env);
                        ctx.value_in_range(wrapped, env);
                        lemma_signed_overflow(
                            width,
                            is_add,
                            lhs.bits(env),
                            rhs.bits(env),
                            wrapped.bits(env),
                        );
                        assert(zero.bits(env) == 0);
                        let t = sem::int_value(sign.ty(), sign.den(env));
                        assert(t == sem::as_signed(width, sign.bits(env)));
                        assert(sem::int_value(sign.ty(), zero.den(env)) == 0);
                        assert(overflow.bits(env) == sem::bit(t < 0));
                        assert(wrapped.den(env) == Sem::Bits(wrapped.bits(env)));
                        assert(r.den(env)->Agg_0 =~= checked(
                            op,
                            width,
                            Signedness::Signed,
                            lhs.bits(env),
                            rhs.bits(env),
                        )->Agg_0);
                    }
                }
            }
            Ok(r)
        },
        Err(failure) => Err(failure),
    }
}

/// A value whose sign says whether a signed sum or difference overflowed.
fn emit_overflow_sign(
    ctx: &mut Context,
    insert_block: BlockId,
    is_add: bool,
    lhs: Value,
    rhs: Value,
    wrapped: Value,
) -> (r: Value)
    requires
        old(ctx).wf(),
        old(ctx).has_block(insert_block),
        old(ctx).has(lhs),
        old(ctx).has(rhs),
        old(ctx).has(wrapped),
        wrapped.ty() == lhs.ty(),
    ensures
        final(ctx).computed_since(*old(ctx), insert_block),
        final(ctx).has(r),
        r.ty() == lhs.ty(),
        emit::same_int(lhs.ty(), rhs.ty()) ==> forall|env: Env| #[trigger]
            r.bits(env) == if is_add {
                (wrapped.bits(env) ^ lhs.bits(env)) & (wrapped.bits(env) ^ rhs.bits(env))
            } else {
                (lhs.bits(env) ^ rhs.bits(env)) & (lhs.bits(env) ^ wrapped.bits(env))
            },
{
    let a = if is_add {
        emit_xor(ctx, insert_block, wrapped, lhs)
    } else {
        emit_xor(ctx, insert_block, lhs, rhs)
    };
    let b = if is_add {
        emit_xor(ctx, insert_block, wrapped, rhs)
    } else {
        emit_xor(ctx, insert_block, lhs, wrapped)
    };
    let r = emit_and(ctx, insert_block, a, b);
    proof {
        if emit::same_int(lhs.ty(), rhs.ty()) {
            assert forall|env: Env| #[trigger]
                r.bits(env) == (if is_add {
                    (wrapped.bits(env) ^ lhs.bits(env)) & (wrapped.bits(env) ^ rhs.bits(env))
                } else {
                    (lhs.bits(env) ^ rhs.bits(env)) & (lhs.bits(env) ^ wrapped.bits(env))
                }) by {
                assert(a.bits(env) == a.bits(env) && b.bits(env) == b.bits(env));
            }
        }
    }
    r
}

/// Checked addition, subtraction and multiplication.
pub fn lower_overflow_binary(
    ctx: &mut Context,
    insert_block: BlockId,
    op: BinOp,
    lhs: Value,
    rhs: Value,
) -> (r: Result<Value, Failure>)
    requires
        old(ctx).wf(),
        old(ctx).has_block(insert_block),
        old(ctx).has(lhs),
        old(ctx).has(rhs),
        lhs.ty() is Integer ==> lhs.ty()->width > 0,
    ensures
        final(ctx).computed_since(*old(ctx), insert_block),
        match r {
            Ok(v) => {
                &&& lhs.ty() is Integer
                &&& is_checked_op(op)
                &&& op == BinOp::MulWithOverflow ==> mul_width(lhs.ty()->width)
                &&& final(ctx).has(v)
                &&& is_checked(op, lhs, rhs, v)
            },
            Err(Failure::NonIntegerOverflowOp(other)) => {
                &&& *final(ctx) == *old(ctx)
                &&& other == op
                &&& !(lhs.ty() is Integer)
            },
            Err(Failure::OverflowOp(other)) => {
                &&& *final(ctx) == *old(ctx)
                &&& other == op && !is_checked_op(op)
                &&& lhs.ty() is Integer
            },
            Err(Failure::WideMul { width }) => {
                &&& *final(ctx) == *old(ctx)
                &&& op == BinOp::MulWithOverflow
                &&& lhs.ty() is Integer
                &&& width == lhs.ty()->width
                &&& !mul_width(width)
            },
            Err(_) => false,
        },
{
    if is_unsigned_integer_value(ctx, lhs) {
        lower_unsigned_overflow_binary(ctx, insert_block, op, lhs, rhs)
    } else {
        lower_signed_overflow_binary(ctx, insert_block, op, lhs, rhs)
    }
}

/// Combining patterns with all ones and with zero.
pub proof fn lemma_masks(width: u32, x: u128)
    requires
        sem::held_width(width),
        x < sem::modulus(width),
    ensures
        ({
            let ones = (sem::modulus(width) - 1) as u128;
            &&& x & ones == x
            &&& ones & x == x
            &&& x & 0 == 0
            &&& 0 & x == 0
            &&& x | 0 == x
            &&& 0 | x == x
            &&& x | ones == ones
            &&& 0 ^ ones == ones
            &&& ones ^ ones == 0
            &&& 0 ^ x == x
        }),
{
    sem::lemma_ones(width);
    let ones = (sem::modulus(width) - 1) as u128;
    let shift = (128 - width) as u128;
    assert({
        &&& x & ones == x
        &&& ones & x == x
        &&& x & 0 == 0
        &&& 0 & x == 0
        &&& x | 0 == x
        &&& 0 | x == x
        &&& x | ones == ones
        &&& 0 ^ ones == ones
        &&& ones ^ ones == 0
        &&& 0 ^ x == x
    }) by (bit_vector)
        requires
            shift < 128,
            ones == 0xffff_ffff_ffff_ffff_ffff_ffff_ffff_ffffu128 >> shift,
            x <= ones,
    ;
}

/// The largest pattern with the sign bit flipped is the smallest.
proof fn lemma_flip_sign(width: u32)
    requires
        sem::held_width(width),
        width > 1,
    ensures
        ({
            let ones = (sem::modulus(width) - 1) as u128;
            let max = (sem::modulus(width) / 2 - 1) as u128;
            ones ^ max == sem::modulus(width) / 2
        }),
{
    sem::lemma_ones(width);
    sem::lemma_modulus(width);
    vstd::arithmetic::power2::lemma_pow2_unfold(width as nat);
    let ones = (sem::modulus(width) - 1) as u128;
    let max = (sem::modulus(width) / 2 - 1) as u128;
    let shift = (128 - width) as u128;
    assert(ones ^ max == ones - max) by (bit_vector)
        requires
            shift < 128,
            ones == 0xffff_ffff_ffff_ffff_ffff_ffff_ffff_ffffu128 >> shift,
            max == ones / 2,
    ;
}

/// Shifting a pattern right by all but one bit spreads its sign.
proof fn lemma_spread_sign(width: u32, x: u128)
    requires
        sem::held_width(width),
        x < sem::modulus(width),
    ensures
        sem::wrap(
            width,
            sem::as_signed(width, x) / (vstd::arithmetic::power2::pow2((width - 1) as nat) as int),
        ) == if sem::as_signed(width, x) < 0 {
            (sem::modulus(width) - 1) as u128
        } else {
            0
        },
{
    let m = sem::modulus(width);
    let p = vstd::arithmetic::power2::pow2((width - 1) as nat) as int;
    sem::lemma_modulus(width);
    vstd::arithmetic::power2::lemma_pow2_unfold(width as nat);
    assert(m == 2 * p);
    let s = sem::as_signed(width, x);
    if s < 0 {
        vstd::arithmetic::div_mod::lemma_fundamental_div_mod_converse(s, p, -1, s + p);
        vstd::arithmetic::div_mod::lemma_mod_add_multiples_vanish(-1, m);
        sem::lemma_wrap_small(width, m - 1);
    } else {
        vstd::arithmetic::div_mod::lemma_fundamental_div_mod_converse(s, p, 0, s);
        sem::lemma_wrap_small(width, 0);
    }
}

/// The nearest integer that fits a width and signedness.
pub open spec fn saturated(width: u32, signedness: Signedness, value: int) -> int {
    let m = sem::modulus(width);
    if signedness == Signedness::Signed {
        if 2 * value < -m {
            -(m / 2)
        } else if 2 * value >= m {
            m / 2 - 1
        } else {
            value
        }
    } else if value < 0 {
        0
    } else if value >= m {
        m - 1
    } else {
        value
    }
}

/// What a saturating sum or difference of two integer values is.
pub open spec fn saturated_bits(is_add: bool, lhs: Value, rhs: Value, env: Env) -> u128 {
    let (w, s) = (lhs.ty()->width, lhs.ty()->signedness);
    let a = sem::as_int(w, s, lhs.bits(env));
    let b = sem::as_int(w, s, rhs.bits(env));
    sem::wrap(
        w,
        saturated(
            w,
            s,
            if is_add {
                a + b
            } else {
                a - b
            },
        ),
    )
}

/// A saturating sum or difference of signed integers, without a branch: the
/// sign that tells an overflow, spread over all bits, selects the bound on
/// `lhs`'s side.
pub fn lower_signed_saturating(
    ctx: &mut Context,
    insert_block: BlockId,
    is_add: bool,
    lhs: Value,
    rhs: Value,
) -> (r: Result<Value, Failure>)
    requires
        old(ctx).wf(),
        old(ctx).has_block(insert_block),
        old(ctx).has(lhs),
        old(ctx).has(rhs),
        lhs.ty() is Integer ==> 0 < lhs.ty()->width <= 128,
    ensures
        final(ctx).computed_since(*old(ctx), insert_block),
        match r {
            Ok(v) => {
                &&& lhs.ty() is Integer
                &&& final(ctx).has(v)
                &&& v.ty() == lhs.ty()
                &&& lhs.ty() == rhs.ty() && lhs.ty()->signedness == Signedness::Signed
                    && sem::held_width(lhs.ty()->width) && lhs.ty()->width > 1
                    ==> forall|env: Env| #[trigger]
                    v.bits(env) == saturated_bits(is_add, lhs, rhs, env)
            },
            Err(failure) => {
                &&& failure == Failure::NonIntegerSaturating
                &&& !(lhs.ty() is Integer)
            },
        },
{
    let int_ty = ctx.type_of(lhs);
    let (width, signedness): (u32, Signedness) = match int_ty.as_integer() {
        Some(shape) => shape,
        None => {
            return Err(Failure::NonIntegerSaturating);
        },
    };
    let wrapped = if is_add {
        emit_add(ctx, insert_block, lhs, rhs)
    } else {
        emit_sub(ctx, insert_block, lhs, rhs)
    };
    let sign = emit_overflow_sign(ctx, insert_block, is_add, lhs, rhs, wrapped);
    let top_bit = emit_typed(ctx, insert_block, width, signedness, (width - 1) as u128);
    let overflow_mask = emit_shr(ctx, insert_block, sign, top_bit);
    let lhs_sign = emit_shr(ctx, insert_block, lhs, top_bit);
    let max_bits: u128 = low_mask(width) / 2;
    let max = emit_typed(ctx, insert_block, width, signedness, max_bits);
    let bound = emit_xor(ctx, insert_block, lhs_sign, max);
    let ones = emit_typed(ctx, insert_block, width, signedness, low_mask(width));
    let keep_mask = emit_xor(ctx, insert_block, overflow_mask, ones);
    let kept = emit_and(ctx, insert_block, wrapped, keep_mask);
    let selected = emit_and(ctx, insert_block, bound, overflow_mask);
    let r = emit_or(ctx, insert_block, kept, selected);
    proof {
        if lhs.ty() == rhs.ty() && signedness == Signedness::Signed && sem::held_width(width)
            && width > 1 {
            assert forall|env: Env| #[trigger] r.bits(env) == saturated_bits(
                is_add,
                lhs,
                rhs,
                env,
            ) by {
                ctx.value_in_range(lhs, env);
                ctx.value_in_range(rhs, env);
                sem::lemma_even(width);
                sem::lemma_wrap_small(width, width - 1);
                sem::lemma_wrap_small(width, max_bits as int);
                sem::lemma_wrap_small(width, sem::modulus(width) - 1);
                assert(top_bit.bits(env) == width - 1);
                assert(overflow_mask.bits(env) == overflow_mask.bits(env));
                assert(lhs_sign.bits(env) == lhs_sign.bits(env));
                ctx.value_in_range(sign, env);
                lemma_spread_sign(width, sign.bits(env));
                lemma_spread_sign(width, lhs.bits(env));
                sem::lemma_wrap_idem(
                    width,
                    sem::as_signed(width, sign.bits(env)) / (vstd::arithmetic::power2::pow2(
                        (width - 1) as nat,
                    ) as int),
                );
                sem::lemma_wrap_idem(
                    width,
                    sem::as_signed(width, lhs.bits(env)) / (vstd::arithmetic::power2::pow2(
                        (width - 1) as nat,
                    ) as int),
                );
                lemma_saturate(
                    width,
                    is_add,
                    lhs.bits(env),
                    rhs.bits(env),
                    wrapped.bits(env),
                    overflow_mask.bits(env),
                    lhs_sign.bits(env),
                    bound.bits(env),
                    keep_mask.bits(env),
                    kept.bits(env),
                    selected.bits(env),
                );
            }
        }
    }
    Ok(r)
}

proof fn lemma_saturate(
    width: u32,
    is_add: bool,
    a: u128,
    b: u128,
    wrapped: u128,
    overflow_mask: u128,
    lhs_sign: u128,
    bound: u128,
    keep_mask: u128,
    kept: u128,
    selected: u128,
)
    requires
        sem::held_width(width),
        width > 1,
        a < sem::modulus(width),
        b < sem::modulus(width),
        wrapped == sem::wrap(width, if is_add { a + b } else { a - b }),
        ({
            let sign = if is_add {
                (wrapped ^ a) & (wrapped ^ b)
            } else {
                (a ^ b) & (a ^ wrapped)
            };
            let ones = (sem::modulus(width) - 1) as u128;
            let max = (sem::modulus(width) / 2 - 1) as u128;
            &&& overflow_mask == if sem::as_signed(width, sign) < 0 { ones } else { 0 }
            &&& lhs_sign == if sem::as_signed(width, a) < 0 { ones } else { 0 }
            &&& bound == lhs_sign ^ max
            &&& keep_mask == overflow_mask ^ ones
            &&& kept == wrapped & keep_mask
            &&& selected == bound & overflow_mask
        }),
    ensures
        kept | selected == sem::wrap(
            width,
            saturated(
                width,
                Signedness::Signed,
                if is_add {
                    sem::as_signed(width, a) + sem::as_signed(width, b)
                } else {
                    sem::as_signed(width, a) - sem::as_signed(width, b)
                },
            ),
        ),
{
    let m = sem::modulus(width);
    let max = (m / 2 - 1) as u128;
    let t = if is_add {
        sem::as_signed(width, a) + sem::as_signed(width, b)
    } else {
        sem::as_signed(width, a) - sem::as_signed(width, b)
    };
    lemma_signed_overflow(width, is_add, a, b, wrapped);
    lemma_as_signed_range(width, a);
    lemma_as_signed_range(width, b);
    sem::lemma_even(width);
    lemma_flip_sign(width);
    lemma_masks(width, max);
    lemma_masks(width, wrapped);
    lemma_masks(width, (m / 2) as u128);
    sem::lemma_wrap_small(width, m / 2 - 1);
    sem::lemma_wrap_small(width, m / 2);
    vstd::arithmetic::div_mod::lemma_mod_add_multiples_vanish(-(m / 2), m);
}

/// An integer constant of a width and signedness.
pub fn emit_typed(
    ctx: &mut Context,
    insert_block: BlockId,
    width: u32,
    signedness: Signedness,
    bits: u128,
) -> (r: Value)
    requires
        old(ctx).wf(),
        old(ctx).has_block(insert_block),
    ensures
        final(ctx).computed_since(*old(ctx), insert_block),
        final(ctx).has(r),
        r.ty() == (TypeHandle::Integer { width, signedness }),
        forall|env: Env| #[trigger] r.bits(env) == emit::constant_bits(width, bits),
{
    let ty = TypeHandle::integer(width, signedness);
    match emit_constant(ctx, insert_block, &ty, bits) {
        Ok(v) => v,
        Err(_) => {
            proof {
                assert(false);
            }
            emit_unsigned(ctx, insert_block, width, bits)
        },
    }
}

/// A saturating sum or difference of integers that are not signed, without a
/// branch: a mask from the carry or borrow forces all ones or zero.
pub fn lower_unsigned_saturating(
    ctx: &mut Context,
    insert_block: BlockId,
    is_add: bool,
    lhs: Value,
    rhs: Value,
) -> (r: Value)
    requires
        old(ctx).wf(),
        old(ctx).has_block(insert_block),
        old(ctx).has(lhs),
        old(ctx).has(rhs),
        lhs.ty() is Integer,
        lhs.ty()->width <= 128,
    ensures
        final(ctx).computed_since(*old(ctx), insert_block),
        final(ctx).has(r),
        r.ty() == lhs.ty(),
        lhs.ty() == rhs.ty() && lhs.ty()->signedness != Signedness::Signed && sem::held_width(
            lhs.ty()->width,
        ) ==> forall|env: Env| #[trigger]
            r.bits(env) == saturated_bits(is_add, lhs, rhs, env),
{
    let int_ty = ctx.type_of(lhs);
    let (width, signedness): (u32, Signedness) = match int_ty.as_integer() {
        Some(shape) => shape,
        None => (0, Signedness::Signless),
    };
    let ghost m = sem::modulus(width);
    if is_add {
        let sum = emit_add(ctx, insert_block, lhs, rhs);
        let carry = emit_lt(ctx, insert_block, sum, lhs);
        let overflow = cast_value_to_type(ctx, insert_block, carry, &int_ty);
        let zero = emit_typed(ctx, insert_block, width, signedness, 0);
        let mask = emit_sub(ctx, insert_block, zero, overflow);
        let r = emit_or(ctx, insert_block, sum, mask);
        proof {
            if lhs.ty() == rhs.ty() && signedness != Signedness::Signed && sem::held_width(width) {
                assert forall|env: Env| #[trigger] r.bits(env) == saturated_bits(
                    is_add,
                    lhs,
                    rhs,
                    env,
                ) by {
                    let (a, b) = (lhs.bits(env), rhs.bits(env));
                    ctx.value_in_range(lhs, env);
                    ctx.value_in_range(rhs, env);
                    ctx.value_in_range(sum, env);
                    sem::lemma_even(width);
                    sem::lemma_wrap_small(width, 0);
                    sem::lemma_wrap_small(width, 1);
                    sem::lemma_wrap_small(width, m - 1);
                    assert(zero.bits(env) == 0);
                    assert(overflow.bits(env) == carry.bits(env));
                    lemma_masks(width, sum.bits(env));
                    vstd::arithmetic::div_mod::lemma_mod_add_multiples_vanish(-1, m);
                    if a + b < m {
                        sem::lemma_wrap_small(width, a + b);
                    } else {
                        sem::lemma_wrap_small(width, a + b - m);
                        vstd::arithmetic::div_mod::lemma_mod_add_multiples_vanish(a + b - m, m);
                    }
                }
            }
        }
        r
    } else {
        let diff = emit_sub(ctx, insert_block, lhs, rhs);
        let no_borrow = emit_ge(ctx, insert_block, lhs, rhs);
        let keep = cast_value_to_type(ctx, insert_block, no_borrow, &int_ty);
        let zero = emit_typed(ctx, insert_block, width, signedness, 0);
        let mask = emit_sub(ctx, insert_block, zero, keep);
        let r = emit_and(ctx, insert_block, diff, mask);
        proof {
            if lhs.ty() == rhs.ty() && signedness != Signedness::Signed && sem::held_width(width) {
                assert forall|env: Env| #[trigger] r.bits(env) == saturated_bits(
                    is_add,
                    lhs,
                    rhs,
                    env,
                ) by {
                    let (a, b) = (lhs.bits(env), rhs.bits(env));
                    ctx.value_in_range(lhs, env);
                    ctx.value_in_range(rhs, env);
                    ctx.value_in_range(diff, env);
                    sem::lemma_even(width);
                    sem::lemma_wrap_small(width, 0);
                    sem::lemma_wrap_small(width, 1);
                    sem::lemma_wrap_small(width, m - 1);
                    assert(zero.bits(env) == 0);
                    assert(keep.bits(env) == no_borrow.bits(env));
                    lemma_masks(width, diff.bits(env));
                    vstd::arithmetic::div_mod::lemma_mod_add_multiples_vanish(-1, m);
                    if a >= b {
                        sem::lemma_wrap_small(width, a - b);
                    }
                }
            }
        }
        r
    }
}

} // verus!
