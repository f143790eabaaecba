//! Vectors of eight byte lanes, computed on the 64-bit pattern they fill.
use crate::arith;
use crate::bits;
use crate::emit;
use crate::emit::{
    cast_value_to_type, emit_add, emit_and, emit_ge, emit_lshr, emit_lt, emit_mul, emit_or,
    emit_shl, emit_sub, emit_unsigned, emit_xor,
};
use crate::ir::{BlockId, Context, Value};
use crate::sem;
use crate::sem::Env;
use crate::types;
use crate::types::{Signedness, TypeHandle};
use vstd::prelude::*;

verus! {

/// One lane of a vector.
pub open spec fn lane(x: u128, i: int) -> u128 {
    bits::byte_at(x, i as u128)
}

/// A lane that is all set or all clear.
pub open spec fn fill(set: bool) -> u128 {
    if set {
        0xff
    } else {
        0
    }
}

/// Whether a pattern is a vector whose lanes are all set or all clear, as a
/// test of each lane says.
pub open spec fn is_lane_mask(r: u128, test: spec_fn(int) -> bool) -> bool {
    &&& r < sem::modulus(64)
    &&& forall|i: int| 0 <= i < 8 ==> #[trigger] lane(r, i) == fill(test(i))
}

proof fn lemma_splat(b: u128, r: u128)
    requires
        b < 0x100,
        r == sem::wrap(64, b * 0x0101_0101_0101_0101),
    ensures
        forall|i: int| 0 <= i < 8 ==> #[trigger] lane(r, i) == b,
{
    let w = b as u64;
    let p = (w * 0x0101_0101_0101_0101) as u64;
    assert(w * 0x0101_0101_0101_0101 < 0x1_0000_0000_0000_0000);
    assert({
        &&& p & 0xff == w
        &&& (p >> 8u64) & 0xff == w
        &&& (p >> 16u64) & 0xff == w
        &&& (p >> 24u64) & 0xff == w
        &&& (p >> 32u64) & 0xff == w
        &&& (p >> 40u64) & 0xff == w
        &&& (p >> 48u64) & 0xff == w
        &&& (p >> 56u64) & 0xff == w
        &&& p >> 0u64 == p
    }) by (bit_vector)
        requires
            w < 0x100,
            p == (w * 0x0101_0101_0101_0101) as u64,
    ;
    assert forall|i: int| 0 <= i < 8 implies #[trigger] lane(r, i) == b by {
        assert(i == 0 || i == 1 || i == 2 || i == 3 || i == 4 || i == 5 || i == 6 || i == 7);
    }
}

/// A vector with the low byte of an unsigned 64-bit value in every lane.
pub fn emit_splat(ctx: &mut Context, insert_block: BlockId, byte: Value) -> (r: Value)
    requires
        old(ctx).wf(),
        old(ctx).has_block(insert_block),
        old(ctx).has(byte),
        byte.ty() == types::unsigned(64),
    ensures
        final(ctx).computed_since(*old(ctx), insert_block),
        final(ctx).has(r),
        r.ty() == types::unsigned(64),
        forall|env: Env, i: int|
            0 <= i < 8 ==> #[trigger] lane(r.bits(env), i) == lane(byte.bits(env), 0),
{
    let byte_mask = emit_unsigned(ctx, insert_block, 64, 0xff);
    let one_lane = emit_and(ctx, insert_block, byte, byte_mask);
    let spread = emit_unsigned(ctx, insert_block, 64, 0x0101_0101_0101_0101);
    let r = emit_mul(ctx, insert_block, one_lane, spread);
    assert forall|env: Env, i: int| 0 <= i < 8 implies #[trigger] lane(r.bits(env), i) == lane(
        byte.bits(env),
        0,
    ) by {
        let x = byte.bits(env);
        assert(byte_mask.bits(env) == 0xff);
        assert(spread.bits(env) == 0x0101_0101_0101_0101);
        bits::lemma_byte_small(x, 0);
        assert(x >> 0u128 == x) by (bit_vector);
        assert(one_lane.bits(env) == lane(x, 0));
        lemma_splat(one_lane.bits(env), r.bits(env));
    }
    r
}

/// Whether two vectors agree in a lane.
pub open spec fn lane_equals(a: u128, b: u128, i: int) -> bool {
    lane(a, i) == lane(b, i)
}

spec fn equal_rule(a: u64, b: u64, m: u64, s: u64) -> bool {
    (m >> s) & 0xff == if (a >> s) & 0xff == (b >> s) & 0xff {
        0xffu64
    } else {
        0
    }
}

proof fn lemma_equal_mask(a: u64, b: u64, sum: u64, m0: u64, m1: u64, m2: u64, m3: u64)
    requires
        sum == ((a ^ b) & 0x7f7f_7f7f_7f7f_7f7f) + 0x7f7f_7f7f_7f7f_7f7f,
        m0 == ((sum | (a ^ b)) ^ 0xffff_ffff_ffff_ffff) & 0x8080_8080_8080_8080,
        m1 == m0 | (m0 >> 1u64),
        m2 == m1 | (m1 >> 2u64),
        m3 == m2 | (m2 >> 4u64),
    ensures
        equal_rule(a, b, m3, 0),
        equal_rule(a, b, m3, 8),
        equal_rule(a, b, m3, 16),
        equal_rule(a, b, m3, 24),
        equal_rule(a, b, m3, 32),
        equal_rule(a, b, m3, 40),
        equal_rule(a, b, m3, 48),
        equal_rule(a, b, m3, 56),
{
    assert({
        &&& equal_rule(a, b, m3, 0)
        &&& equal_rule(a, b, m3, 8)
        &&& equal_rule(a, b, m3, 16)
        &&& equal_rule(a, b, m3, 24)
        &&& equal_rule(a, b, m3, 32)
        &&& equal_rule(a, b, m3, 40)
        &&& equal_rule(a, b, m3, 48)
        &&& equal_rule(a, b, m3, 56)
    }) by (bit_vector)
        requires
            sum == ((a ^ b) & 0x7f7f_7f7f_7f7f_7f7f) + 0x7f7f_7f7f_7f7f_7f7f,
            m0 == ((sum | (a ^ b)) ^ 0xffff_ffff_ffff_ffff) & 0x8080_8080_8080_8080,
            m1 == m0 | (m0 >> 1u64),
            m2 == m1 | (m1 >> 2u64),
            m3 == m2 | (m2 >> 4u64),
    ;
}

/// A mask of the lanes in which two vectors agree. A lane of their difference
/// `t` is zero where neither its top bit nor that of its other bits plus `0x7f`
/// is set, so `!(((t & 0x7f..) + 0x7f..) | t) & 0x80..` marks the equal lanes;
/// the marks are spread over their lanes. No lane carries into the next.
pub fn emit_lanes_equal(ctx: &mut Context, insert_block: BlockId, lhs: Value, rhs: Value) -> (r:
    Value)
    requires
        old(ctx).wf(),
        old(ctx).has_block(insert_block),
        old(ctx).has(lhs),
        old(ctx).has(rhs),
        lhs.ty() == types::unsigned(64),
        rhs.ty() == types::unsigned(64),
    ensures
        final(ctx).computed_since(*old(ctx), insert_block),
        final(ctx).has(r),
        r.ty() == types::unsigned(64),
        forall|env: Env|
            is_lane_mask(
                #[trigger] r.bits(env),
                |i: int| lane_equals(lhs.bits(env), rhs.bits(env), i),
            ),
{
    let t = emit_xor(ctx, insert_block, lhs, rhs);
    let low_bits = emit_unsigned(ctx, insert_block, 64, 0x7f7f_7f7f_7f7f_7f7f);
    let low = emit_and(ctx, insert_block, t, low_bits);
    let sum = emit_add(ctx, insert_block, low, low_bits);
    let any = emit_or(ctx, insert_block, sum, t);
    let all_ones = emit_unsigned(ctx, insert_block, 64, 0xffff_ffff_ffff_ffff);
    let none = emit_xor(ctx, insert_block, any, all_ones);
    let high_bits = emit_unsigned(ctx, insert_block, 64, 0x8080_8080_8080_8080);
    let m0 = emit_and(ctx, insert_block, none, high_bits);
    let m1 = bits::emit_smear(ctx, insert_block, m0, 1);
    let m2 = bits::emit_smear(ctx, insert_block, m1, 2);
    let m3 = bits::emit_smear(ctx, insert_block, m2, 4);
    assert forall|env: Env| is_lane_mask(
        #[trigger] m3.bits(env),
        |i: int| lane_equals(lhs.bits(env), rhs.bits(env), i),
    ) by {
        ctx.value_in_range(lhs, env);
        ctx.value_in_range(rhs, env);
        ctx.value_in_range(t, env);
        ctx.value_in_range(low, env);
        ctx.value_in_range(sum, env);
        ctx.value_in_range(m0, env);
        ctx.value_in_range(m1, env);
        ctx.value_in_range(m2, env);
        ctx.value_in_range(m3, env);
        let (a, b) = (lhs.bits(env), rhs.bits(env));
        let (wa, wb) = (a as u64, b as u64);
        assert(low_bits.bits(env) == 0x7f7f_7f7f_7f7f_7f7f);
        assert(all_ones.bits(env) == 0xffff_ffff_ffff_ffff);
        assert(high_bits.bits(env) == 0x8080_8080_8080_8080);
        assert(t.bits(env) == (wa ^ wb) as u128);
        let wl = (wa ^ wb) & 0x7f7f_7f7f_7f7f_7f7f;
        emit::lemma_and_small(0x7f7f_7f7f_7f7f_7f7f, (wa ^ wb) as u128);
        assert(low.bits(env) == wl as u128);
        sem::lemma_wrap_small(64, wl + 0x7f7f_7f7f_7f7f_7f7f);
        assert(sum.bits(env) == wl + 0x7f7f_7f7f_7f7f_7f7f);
        lemma_equal_mask(
            wa,
            wb,
            sum.bits(env) as u64,
            m0.bits(env) as u64,
            m1.bits(env) as u64,
            m2.bits(env) as u64,
            m3.bits(env) as u64,
        );
        let r = m3.bits(env);
        assert(lane(r, 0) == fill(lane_equals(a, b, 0)));
        assert(lane(r, 1) == fill(lane_equals(a, b, 1)));
        assert(lane(r, 2) == fill(lane_equals(a, b, 2)));
        assert(lane(r, 3) == fill(lane_equals(a, b, 3)));
        assert(lane(r, 4) == fill(lane_equals(a, b, 4)));
        assert(lane(r, 5) == fill(lane_equals(a, b, 5)));
        assert(lane(r, 6) == fill(lane_equals(a, b, 6)));
        assert(lane(r, 7) == fill(lane_equals(a, b, 7)));
        assert forall|i: int| 0 <= i < 8 implies #[trigger] lane(r, i) == fill(
            lane_equals(a, b, i),
        ) by {
            assert(i == 0 || i == 1 || i == 2 || i == 3 || i == 4 || i == 5 || i == 6 || i == 7);
        }
    }
    m3
}

/// Whether a lane of one vector is below that of another, both read as
/// signed bytes; or, for `!less`, whether it is not.
pub open spec fn lane_compares(less: bool, a: u128, b: u128, i: int) -> bool {
    (sem::as_signed(8, lane(a, i)) < sem::as_signed(8, lane(b, i))) == less
}

/// One signed lane of a vector.
fn emit_signed_lane(ctx: &mut Context, insert_block: BlockId, x: Value, amount: Value, index: u32)
    -> (r: Value)
    requires
        old(ctx).wf(),
        old(ctx).has_block(insert_block),
        old(ctx).has(x),
        old(ctx).has(amount),
        x.ty() == types::unsigned(64),
        amount.ty() == types::unsigned(64),
        index < 8,
        forall|env: Env| #[trigger] amount.bits(env) == 8 * index,
    ensures
        final(ctx).computed_since(*old(ctx), insert_block),
        final(ctx).has(r),
        r.ty() == types::signed(8),
        forall|env: Env| #[trigger] r.bits(env) == lane(x.bits(env), index as int),
{
    let i8_ty = TypeHandle::integer(8, Signedness::Signed);
    let shifted = emit_lshr(ctx, insert_block, x, amount);
    let r = cast_value_to_type(ctx, insert_block, shifted, &i8_ty);
    assert forall|env: Env| #[trigger] r.bits(env) == lane(x.bits(env), index as int) by {
        assert(amount.bits(env) == 8 * index);
        let y = x.bits(env) >> ((8 * index) as u128);
        assert(shifted.bits(env) == y);
        assert(y & 0xff == y % 0x100) by (bit_vector);
    }
    r
}

/// A mask of the lanes in which one vector is below another, or is not, as
/// signed bytes: one lane at a time.
pub fn emit_lanes_compare(
    ctx: &mut Context,
    insert_block: BlockId,
    less: bool,
    lhs: Value,
    rhs: Value,
) -> (r: Value)
    requires
        old(ctx).wf(),
        old(ctx).has_block(insert_block),
        old(ctx).has(lhs),
        old(ctx).has(rhs),
        lhs.ty() == types::unsigned(64),
        rhs.ty() == types::unsigned(64),
    ensures
        final(ctx).computed_since(*old(ctx), insert_block),
        final(ctx).has(r),
        r.ty() == types::unsigned(64),
        forall|env: Env|
            is_lane_mask(
                #[trigger] r.bits(env),
                |i: int| lane_compares(less, lhs.bits(env), rhs.bits(env), i),
            ),
{
    let ghost before = *ctx;
    let u64_ty = TypeHandle::integer(64, Signedness::Unsigned);
    let zero = emit_unsigned(ctx, insert_block, 64, 0);
    let mut result = zero;
    let mut index: u32 = 0;
    proof {
        assert forall|env: Env, i: int| 0 <= i < 8 implies #[trigger] lane(
            result.bits(env),
            i,
        ) == 0 by {
            bits::lemma_byte_small(0, i as u128);
        }
    }
    while index < 8
        invariant
            index <= 8,
            ctx.computed_since(before, insert_block),
            before.has_block(insert_block),
            before.has(lhs),
            before.has(rhs),
            ctx.has(zero),
            ctx.has(result),
            lhs.ty() == types::unsigned(64),
            rhs.ty() == types::unsigned(64),
            zero.ty() == types::unsigned(64),
            result.ty() == types::unsigned(64),
            u64_ty == types::unsigned(64),
            forall|env: Env| #[trigger] zero.bits(env) == 0,
            forall|env: Env, i: int|
                0 <= i < 8 ==> #[trigger] lane(result.bits(env), i) == fill(
                    i < index && lane_compares(less, lhs.bits(env), rhs.bits(env), i),
                ),
        decreases 8 - index,
    {
        let amount = emit_unsigned(ctx, insert_block, 64, (index * 8) as u128);
        assert forall|env: Env| #[trigger] amount.bits(env) == 8 * index by {}
        let lhs_lane = emit_signed_lane(ctx, insert_block, lhs, amount, index);
        let rhs_lane = emit_signed_lane(ctx, insert_block, rhs, amount, index);
        let test = if less {
            emit_lt(ctx, insert_block, lhs_lane, rhs_lane)
        } else {
            emit_ge(ctx, insert_block, lhs_lane, rhs_lane)
        };
        let cond = cast_value_to_type(ctx, insert_block, test, &u64_ty);
        let neg = emit_sub(ctx, insert_block, zero, cond);
        let byte_mask = emit_unsigned(ctx, insert_block, 64, 0xff);
        let lane_mask = emit_and(ctx, insert_block, neg, byte_mask);
        let placed = emit_shl(ctx, insert_block, lane_mask, amount);
        let next = emit_or(ctx, insert_block, result, placed);
        assert forall|env: Env, i: int| 0 <= i < 8 implies #[trigger] lane(next.bits(env), i) == fill(
            i < index + 1 && lane_compares(less, lhs.bits(env), rhs.bits(env), i),
        ) by {
            let truth = lane_compares(less, lhs.bits(env), rhs.bits(env), index as int);
            assert(amount.bits(env) == 8 * index);
            assert(zero.bits(env) == 0);
            assert(byte_mask.bits(env) == 0xff);
            assert(lhs_lane.bits(env) == lane(lhs.bits(env), index as int));
            assert(rhs_lane.bits(env) == lane(rhs.bits(env), index as int));
            assert(test.bits(env) == sem::bit(truth));
            assert(cond.bits(env) == sem::bit(truth));
            assert(0xffff_ffff_ffff_ffffu128 & 0xff == 0xff && 0u128 & 0xff == 0 && 0u128 | 0xff
                == 0xff && 0u128 | 0 == 0) by (bit_vector);
            let b = lane_mask.bits(env);
            assert(b == if truth { 0xffu128 } else { 0 });
            ctx.value_in_range(result, env);
            bits::lemma_merge_byte(result.bits(env), b, index as u128, i as u128);
            sem::lemma_wrap_small(64, (b << ((8 * index) as u128)) as int);
            assert(placed.bits(env) == b << ((8 * index) as u128));
            arith::lemma_masks(64, b);
            assert(lane(result.bits(env), i) == fill(
                i < index && lane_compares(less, lhs.bits(env), rhs.bits(env), i),
            ));
            assert(lane(next.bits(env), i) == if i == index {
                lane(result.bits(env), i) | b
            } else {
                lane(result.bits(env), i)
            });
        }
        result = next;
        index = index + 1;
    }
    assert forall|env: Env| is_lane_mask(
        #[trigger] result.bits(env),
        |i: int| lane_compares(less, lhs.bits(env), rhs.bits(env), i),
    ) by {
        ctx.value_in_range(result, env);
        assert forall|i: int| 0 <= i < 8 implies #[trigger] lane(result.bits(env), i) == fill(
            lane_compares(less, lhs.bits(env), rhs.bits(env), i),
        ) by {}
    }
    result
}

} // verus!
