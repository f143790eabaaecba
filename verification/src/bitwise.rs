//! What the bit operations of the front end mean, on integers of any type.

use crate::arith;
use crate::bits;
use crate::bits::{
    emit_bitreverse64, emit_bswap64, emit_ctlz128, emit_ctlz64, emit_cttz128, emit_cttz64,
    emit_popcount128, emit_popcount64, emit_rotate128, emit_rotate64, join_u128_halves,
    split_u128_halves, widen_to_u64,
};
use crate::emit::cast_value_to_type;
use crate::error::Failure;
use crate::ir::{BlockId, Context, Meaning, Value};
use crate::meaning;
use crate::meaning::put_as_type;
use crate::place;
use crate::sem;
use crate::sem::{Env, Sem};
use crate::simd;
use crate::simd::{emit_lanes_compare, emit_lanes_equal, emit_splat};
use crate::types;
use crate::types::{Signedness, TypeHandle};
use vstd::arithmetic::power2::pow2;
use vstd::prelude::*;

verus! {

/// Shifting twice is shifting once by both.
proof fn lemma_shift_twice(x: u128, s: u128, k: u128)
    requires
        s + k < 128,
    ensures
        (x >> s) >> k == x >> ((s + k) as u128),
{
    let (c, d) = (pow2(s as nat), pow2(k as nat));
    vstd::bits::lemma_u128_shr_is_div(x, s);
    vstd::bits::lemma_u128_shr_is_div(x >> s, k);
    vstd::bits::lemma_u128_shr_is_div(x, (s + k) as u128);
    vstd::arithmetic::power2::lemma_pow2_adds(s as nat, k as nat);
    vstd::arithmetic::power2::lemma_pow2_pos(s as nat);
    vstd::arithmetic::power2::lemma_pow2_pos(k as nat);
    vstd::arithmetic::div_mod::lemma_div_denominator(x as int, c as int, d as int);
}

/// Bytes with the same bits are the same.
proof fn lemma_same_byte(a: u128, i: u128, b: u128, j: u128)
    requires
        i < 16,
        j < 16,
        forall|k: u128|
            k < 8 ==> #[trigger] bits::bit_at(a, (8 * i + k) as u128) == bits::bit_at(
                b,
                (8 * j + k) as u128,
            ),
    ensures
        bits::byte_at(a, i) == bits::byte_at(b, j),
{
    let (x, y) = (a >> ((8 * i) as u128), b >> ((8 * j) as u128));
    assert forall|k: u128| k < 8 implies #[trigger] bits::bit_at(x, k) == bits::bit_at(y, k) by {
        lemma_shift_twice(a, (8 * i) as u128, k);
        lemma_shift_twice(b, (8 * j) as u128, k);
        assert(bits::bit_at(a, (8 * i + k) as u128) == bits::bit_at(b, (8 * j + k) as u128));
    }
    assert(bits::bit_at(x, 0) == bits::bit_at(y, 0));
    assert(bits::bit_at(x, 1) == bits::bit_at(y, 1));
    assert(bits::bit_at(x, 2) == bits::bit_at(y, 2));
    assert(bits::bit_at(x, 3) == bits::bit_at(y, 3));
    assert(bits::bit_at(x, 4) == bits::bit_at(y, 4));
    assert(bits::bit_at(x, 5) == bits::bit_at(y, 5));
    assert(bits::bit_at(x, 6) == bits::bit_at(y, 6));
    assert(bits::bit_at(x, 7) == bits::bit_at(y, 7));
    assert(x & 0xff == y & 0xff) by (bit_vector)
        requires
            (x >> 0u128) & 1 == (y >> 0u128) & 1,
            (x >> 1u128) & 1 == (y >> 1u128) & 1,
            (x >> 2u128) & 1 == (y >> 2u128) & 1,
            (x >> 3u128) & 1 == (y >> 3u128) & 1,
            (x >> 4u128) & 1 == (y >> 4u128) & 1,
            (x >> 5u128) & 1 == (y >> 5u128) & 1,
            (x >> 6u128) & 1 == (y >> 6u128) & 1,
            (x >> 7u128) & 1 == (y >> 7u128) & 1,
    ;
}

/// The number of zeros below the lowest set bit.
pub open spec fn trailing_count(x: u128, width: u32) -> u128 {
    choose|count: u128| bits::trailing_zeros(x, width, count)
}

proof fn lemma_trailing(x: u128, width: u32, count: u128)
    requires
        bits::trailing_zeros(x, width, count),
    ensures
        trailing_count(x, width) == count,
{
    let other = trailing_count(x, width);
    assert(bits::trailing_zeros(x, width, other));
    if other < count {
        assert(bits::bit_at(x, other) == 0);
    }
    if count < other {
        assert(bits::bit_at(x, count) == 0);
    }
}

/// The lowest set bit that is not below a given one.
proof fn lemma_lowest(x: u128, width: u32, from: u128) -> (count: u128)
    requires
        width <= 128,
        from <= width,
        forall|i: u128| i < from ==> #[trigger] bits::bit_at(x, i) == 0,
    ensures
        bits::trailing_zeros(x, width, count),
    decreases width - from,
{
    if from == width || bits::bit_at(x, from) == 1 {
        from
    } else {
        bits::lemma_bit_small(x, from);
        lemma_lowest(x, width, (from + 1) as u128)
    }
}

/// The count is that of the zeros below the lowest set bit, and no other is.
pub proof fn law_trailing_count(x: u128, width: u32, count: u128)
    requires
        width <= 128,
    ensures
        bits::trailing_zeros(x, width, count) <==> count == trailing_count(x, width),
{
    let some = lemma_lowest(x, width, 0);
    lemma_trailing(x, width, some);
    if bits::trailing_zeros(x, width, count) {
        lemma_trailing(x, width, count);
    }
}

/// The number of zeros above the highest set bit.
pub open spec fn leading_count(x: u128, width: u32) -> u128 {
    choose|count: u128| bits::leading_zeros(x, width, count)
}

proof fn lemma_leading(x: u128, width: u32, count: u128)
    requires
        width <= 128,
        bits::leading_zeros(x, width, count),
    ensures
        leading_count(x, width) == count,
{
    let other = leading_count(x, width);
    assert(bits::leading_zeros(x, width, other));
    if other < count {
        assert(bits::bit_at(x, (width - 1 - other) as u128) == 0);
    }
    if count < other {
        assert(bits::bit_at(x, (width - 1 - count) as u128) == 0);
    }
}

/// The highest set bit that is not above a given one.
proof fn lemma_highest(x: u128, width: u32, from: u128) -> (count: u128)
    requires
        width <= 128,
        from <= width,
        forall|i: u128| width - from <= i < width ==> #[trigger] bits::bit_at(x, i) == 0,
    ensures
        bits::leading_zeros(x, width, count),
    decreases width - from,
{
    if from == width || bits::bit_at(x, (width - 1 - from) as u128) == 1 {
        from
    } else {
        bits::lemma_bit_small(x, (width - 1 - from) as u128);
        lemma_highest(x, width, (from + 1) as u128)
    }
}

/// The count is that of the zeros above the highest set bit, and no other is.
pub proof fn law_leading_count(x: u128, width: u32, count: u128)
    requires
        width <= 128,
    ensures
        bits::leading_zeros(x, width, count) <==> count == leading_count(x, width),
{
    let some = lemma_highest(x, width, 0);
    lemma_leading(x, width, some);
    if bits::leading_zeros(x, width, count) {
        lemma_leading(x, width, count);
    }
}

/// A pattern with its bytes in the opposite order.
pub open spec fn swapped(x: u128, width: u32) -> u128 {
    choose|r: u128| bits::bytes_swapped(x, width, r)
}

proof fn lemma_swapped(x: u128, width: u32, r: u128)
    requires
        sem::valid_width(width),
        width >= 8,
        bits::bytes_swapped(x, width, r),
    ensures
        swapped(x, width) == r,
{
    let other = swapped(x, width);
    assert(bits::bytes_swapped(x, width, other));
    bits::lemma_same_bytes(other, r, width);
}

/// A pattern with given bytes.
proof fn lemma_bytes(width: u32, source: spec_fn(int) -> (u128, u128)) -> (r: u128)
    requires
        width <= 128,
        width % 8 == 0,
        forall|i: int| 0 <= i < width / 8 ==> (#[trigger] source(i)).1 < 16,
    ensures
        r < sem::modulus(width),
        forall|i: u128|
            i < width / 8 ==> #[trigger] bits::byte_at(r, i) == bits::byte_at(
                source(i as int).0,
                source(i as int).1,
            ),
{
    let f = |k: int|
        bits::bit_at(source(k / 8).0, (8 * source(k / 8).1 + k % 8) as u128) == 1;
    let r = bits::lemma_pattern(width, f);
    assert forall|i: u128| i < width / 8 implies #[trigger] bits::byte_at(r, i) == bits::byte_at(
        source(i as int).0,
        source(i as int).1,
    ) by {
        let (b, j) = source(i as int);
        assert forall|k: u128| k < 8 implies #[trigger] bits::bit_at(r, (8 * i + k) as u128)
            == bits::bit_at(b, (8 * j + k) as u128) by {
            let at = (8 * i + k) as u128;
            assert(bits::bit_at(r, at) == sem::bit(f(at as int)));
            assert(at as int / 8 == i && at as int % 8 == k);
            bits::lemma_bit_small(b, (8 * j + k) as u128);
        }
        lemma_same_byte(r, i, b, j);
    }
    r
}

/// The pattern is the one with the bytes in the opposite order, and no other
/// is.
pub proof fn law_swapped(x: u128, width: u32, r: u128)
    requires
        sem::valid_width(width),
        width >= 8,
    ensures
        bits::bytes_swapped(x, width, r) <==> r == swapped(x, width),
{
    let some = lemma_bytes(width, |i: int| (x, (width / 8 - 1 - i) as u128));
    assert(bits::bytes_swapped(x, width, some));
    lemma_swapped(x, width, some);
    if bits::bytes_swapped(x, width, r) {
        lemma_swapped(x, width, r);
    }
}

/// A pattern with its bits in the opposite order.
pub open spec fn reversed(x: u128, width: u32) -> u128 {
    choose|r: u128| bits::bits_reversed(x, width, r)
}

proof fn lemma_reversed(x: u128, width: u32, r: u128)
    requires
        sem::valid_width(width),
        bits::bits_reversed(x, width, r),
    ensures
        reversed(x, width) == r,
{
    let other = reversed(x, width);
    assert(bits::bits_reversed(x, width, other));
    bits::lemma_same_bits(other, r, width);
}

/// The pattern is the one with the bits in the opposite order, and no other
/// is.
pub proof fn law_reversed(x: u128, width: u32, r: u128)
    requires
        sem::valid_width(width),
    ensures
        bits::bits_reversed(x, width, r) <==> r == reversed(x, width),
{
    let f = |i: int| bits::bit_at(x, (width - 1 - i) as u128) == 1;
    let some = bits::lemma_pattern(width, f);
    assert forall|i: u128| i < width implies #[trigger] bits::bit_at(some, i) == bits::bit_at(
        x,
        (width - 1 - i) as u128,
    ) by {
        bits::lemma_bit_small(x, (width - 1 - i) as u128);
    }
    lemma_reversed(x, width, some);
    if bits::bits_reversed(x, width, r) {
        lemma_reversed(x, width, r);
    }
}

/// A pattern moved up by some places, what leaves the top coming in below.
pub open spec fn rotation(x: u128, width: u32, shift: int) -> u128 {
    choose|r: u128| bits::rotated(x, width, shift, r)
}

proof fn lemma_rotation(x: u128, width: u32, shift: int, r: u128)
    requires
        sem::valid_width(width),
        bits::rotated(x, width, shift, r),
    ensures
        rotation(x, width, shift) == r,
{
    let other = rotation(x, width, shift);
    assert(bits::rotated(x, width, shift, other));
    let w = width as int;
    assert forall|j: u128| j < width implies #[trigger] bits::bit_at(other, j) == bits::bit_at(
        r,
        j,
    ) by {
        let i = ((j - shift) % w) as u128;
        vstd::arithmetic::div_mod::lemma_add_mod_noop(j - shift, shift, w);
        vstd::arithmetic::div_mod::lemma_small_mod(j as nat, w as nat);
        assert((i + shift) % w == j) by {
            vstd::arithmetic::div_mod::lemma_add_mod_noop(i as int, shift, w);
            vstd::arithmetic::div_mod::lemma_mod_twice(j - shift, w);
        }
        assert(bits::bit_at(x, i) == bits::bit_at(r, ((i + shift) % w) as u128));
        assert(bits::bit_at(x, i) == bits::bit_at(other, ((i + shift) % w) as u128));
    }
    bits::lemma_same_bits(other, r, width);
}

/// The pattern is the one that was moved, and no other is.
pub proof fn law_rotation(x: u128, width: u32, shift: int, r: u128)
    requires
        sem::valid_width(width),
    ensures
        bits::rotated(x, width, shift, r) <==> r == rotation(x, width, shift),
{
    let w = width as int;
    let f = |j: int| bits::bit_at(x, ((j - shift) % w) as u128) == 1;
    let some = bits::lemma_pattern(width, f);
    assert forall|i: u128| i < width implies #[trigger] bits::bit_at(x, i) == bits::bit_at(
        some,
        ((i + shift) % w) as u128,
    ) by {
        let j = ((i + shift) % w) as u128;
        vstd::arithmetic::div_mod::lemma_mod_bound(i + shift, w);
        vstd::arithmetic::div_mod::lemma_sub_mod_noop(i + shift, shift, w);
        vstd::arithmetic::div_mod::lemma_sub_mod_noop(j as int, shift, w);
        vstd::arithmetic::div_mod::lemma_mod_twice(i + shift, w);
        vstd::arithmetic::div_mod::lemma_small_mod(i as nat, w as nat);
        assert((j - shift) % w == i);
        assert(bits::bit_at(some, j) == sem::bit(f(j as int)));
        bits::lemma_bit_small(x, i);
    }
    assert(some < sem::modulus(width));
    lemma_rotation(x, width, shift, some);
    if bits::rotated(x, width, shift, r) {
        lemma_rotation(x, width, shift, r);
    }
}

/// A value of a width of 64 bits in the representation of an integer.
proof fn lemma_integer(ctx: Context, v: Value, ty: TypeHandle, f: spec_fn(Env) -> u128)
    requires
        ctx.wf(),
        ctx.has(v),
        v.ty() == ty,
        ty is Integer,
        ty->width <= 128,
        forall|env: Env| #[trigger] v.bits(env) == f(env),
    ensures
        v.meaning@ == meaning::integer(ty, f),
{
    let want = meaning::integer(ty, f);
    assert forall|env: Env| #[trigger] v.den(env) == (want.den)(env) by {
        ctx.value_in_range(v, env);
        assert(v.bits(env) == f(env));
    }
    meaning::lemma_means(v, want);
}

/// The width of an integer type on which bits are counted.
pub open spec fn counted_width(ty: TypeHandle) -> Result<u32, Failure> {
    if !(ty is Integer) {
        Err(Failure::NonIntegerBits)
    } else if !sem::valid_width(ty->width) {
        Err(Failure::BitsWidth(ty->width))
    } else {
        Ok(ty->width)
    }
}

fn width_of(ctx: &Context, value: Value) -> (r: Result<u32, Failure>)
    requires
        ctx.wf(),
        ctx.has(value),
    ensures
        r == counted_width(value.ty()),
{
    let ty: TypeHandle = ctx.type_of(value);
    match ty.as_integer() {
        Some((width, _)) => {
            if width == 1 || width == 8 || width == 16 || width == 32 || width == 64 || width
                == 128 {
                Ok(width)
            } else {
                Err(Failure::BitsWidth(width))
            }
        },
        None => Err(Failure::NonIntegerBits),
    }
}

/// The operations on the bits of one integer.
#[derive(Clone, Copy, PartialEq, Eq, Debug, Structural)]
pub enum BitOp {
    Ones,
    TrailingZeros,
    LeadingZeros,
    SwapBytes,
    ReverseBits,
}

/// What an operation makes of a pattern of a width.
pub open spec fn bit_result(op: BitOp, x: u128, width: u32) -> u128 {
    match op {
        BitOp::Ones => if width == 128 {
            bits::ones(x, 128) as u128
        } else {
            bits::ones(x, 64) as u128
        },
        BitOp::TrailingZeros => trailing_count(x, width),
        BitOp::LeadingZeros => leading_count(x, width),
        BitOp::SwapBytes => swapped(x, width),
        BitOp::ReverseBits => reversed(x, width),
    }
}

/// Whether an operation has a result of the width of its operand.
pub open spec fn keeps_width(op: BitOp) -> bool {
    op == BitOp::SwapBytes || op == BitOp::ReverseBits
}

/// The result of an operation on the bits of an integer, as it is computed.
pub open spec fn bits_of(op: BitOp, value: Meaning) -> Result<Meaning, Failure> {
    match counted_width(value.ty) {
        Err(failure) => Err(failure),
        Ok(width) => if op == BitOp::SwapBytes && width < 8 {
            Err(Failure::BitsWidth(width))
        } else {
            Ok(
                meaning::integer(
                    types::unsigned(
                        if keeps_width(op) && width == 128 {
                            128
                        } else {
                            64
                        },
                    ),
                    |env: Env| bit_result(op, value.bits(env), width),
                ),
            )
        },
    }
}

/// Whether half of a wide pattern has the bytes that a swap puts there.
proof fn lemma_join_swapped(x: u128, lo: u128, hi: u128, r: u128)
    requires
        bits::bytes_swapped(x % 0x1_0000_0000_0000_0000, 64, lo),
        bits::bytes_swapped(x / 0x1_0000_0000_0000_0000, 64, hi),
        r == lo * 0x1_0000_0000_0000_0000 + hi,
    ensures
        bits::bytes_swapped(x, 128, r),
{
    let low = x % 0x1_0000_0000_0000_0000;
    let high = x / 0x1_0000_0000_0000_0000;
    assert forall|i: u128| i < 16 implies #[trigger] bits::byte_at(r, i) == bits::byte_at(
        x,
        (15 - i) as u128,
    ) by {
        lemma_half_bytes(r, i);
        lemma_half_bytes(x, (15 - i) as u128);
        assert(r % 0x1_0000_0000_0000_0000 == hi && r / 0x1_0000_0000_0000_0000 == lo);
        if i < 8 {
            assert(bits::byte_at(hi, i) == bits::byte_at(high, (7 - i) as u128));
        } else {
            let k = (i - 8) as u128;
            assert(bits::byte_at(lo, k) == bits::byte_at(low, (7 - k) as u128));
        }
    }
}

/// The bytes of a wide pattern are those of its halves.
proof fn lemma_half_bytes(x: u128, i: u128)
    requires
        i < 16,
    ensures
        i < 8 ==> bits::byte_at(x, i) == bits::byte_at(x % 0x1_0000_0000_0000_0000, i),
        i >= 8 ==> bits::byte_at(x, i) == bits::byte_at(
            x / 0x1_0000_0000_0000_0000,
            (i - 8) as u128,
        ),
{
    let s = (8 * i) as u128;
    let low = x % 0x1_0000_0000_0000_0000;
    let high = x / 0x1_0000_0000_0000_0000;
    assert({
        &&& s <= 56 ==> (x >> s) & 0xff == ((x % 0x1_0000_0000_0000_0000) >> s) & 0xff
        &&& 64 <= s <= 120 ==> (x >> s) & 0xff == ((x / 0x1_0000_0000_0000_0000) >> ((s
            - 64) as u128)) & 0xff
        &&& s <= 63 ==> (x >> s) & 1 == ((x % 0x1_0000_0000_0000_0000) >> s) & 1
    }) by (bit_vector);
}

/// The bits of a wide pattern are those of its halves.
proof fn lemma_half_bits(x: u128, i: u128)
    requires
        i < 128,
    ensures
        i < 64 ==> bits::bit_at(x, i) == bits::bit_at(x % 0x1_0000_0000_0000_0000, i),
        i >= 64 ==> bits::bit_at(x, i) == bits::bit_at(
            x / 0x1_0000_0000_0000_0000,
            (i - 64) as u128,
        ),
{
    assert({
        &&& i < 64 ==> (x >> i) & 1 == ((x % 0x1_0000_0000_0000_0000) >> i) & 1
        &&& 64 <= i < 128 ==> (x >> i) & 1 == ((x / 0x1_0000_0000_0000_0000) >> ((i
            - 64) as u128)) & 1
    }) by (bit_vector);
}

proof fn lemma_join_reversed(x: u128, lo: u128, hi: u128, r: u128)
    requires
        bits::bits_reversed(x % 0x1_0000_0000_0000_0000, 64, lo),
        bits::bits_reversed(x / 0x1_0000_0000_0000_0000, 64, hi),
        r == lo * 0x1_0000_0000_0000_0000 + hi,
    ensures
        bits::bits_reversed(x, 128, r),
{
    let low = x % 0x1_0000_0000_0000_0000;
    let high = x / 0x1_0000_0000_0000_0000;
    assert forall|i: u128| i < 128 implies #[trigger] bits::bit_at(r, i) == bits::bit_at(
        x,
        (127 - i) as u128,
    ) by {
        lemma_half_bits(r, i);
        lemma_half_bits(x, (127 - i) as u128);
        assert(r % 0x1_0000_0000_0000_0000 == hi && r / 0x1_0000_0000_0000_0000 == lo);
        if i < 64 {
            assert(bits::bit_at(hi, i) == bits::bit_at(high, (63 - i) as u128));
        } else {
            let k = (i - 64) as u128;
            assert(bits::bit_at(lo, k) == bits::bit_at(low, (63 - k) as u128));
        }
    }
}

/// An operation on the bits of a 128-bit integer.
fn put_wide_bits(ctx: &mut Context, block: BlockId, op: BitOp, value: Value) -> (r: Value)
    requires
        old(ctx).wf(),
        old(ctx).has_block(block),
        old(ctx).has(value),
        value.ty() is Integer,
        value.ty()->width == 128,
    ensures
        final(ctx).computed_since(*old(ctx), block),
        final(ctx).has(r),
        r.ty() == types::unsigned(
            if keeps_width(op) {
                128
            } else {
                64
            },
        ),
        forall|env: Env| #[trigger] r.bits(env) == bit_result(op, value.bits(env), 128),
{
    match op {
        BitOp::Ones => {
            let r: Value = emit_popcount128(ctx, block, value);
            assert forall|env: Env| #[trigger] r.bits(env) == bit_result(
                op,
                value.bits(env),
                128,
            ) by {}
            r
        },
        BitOp::TrailingZeros => {
            let r: Value = emit_cttz128(ctx, block, value);
            proof {
                assert forall|env: Env| #[trigger] r.bits(env) == bit_result(
                    op,
                    value.bits(env),
                    128,
                ) by {
                    lemma_trailing(value.bits(env), 128, r.bits(env));
                }
            }
            r
        },
        BitOp::LeadingZeros => {
            let r: Value = emit_ctlz128(ctx, block, value);
            proof {
                assert forall|env: Env| #[trigger] r.bits(env) == bit_result(
                    op,
                    value.bits(env),
                    128,
                ) by {
                    lemma_leading(value.bits(env), 128, r.bits(env));
                }
            }
            r
        },
        BitOp::SwapBytes => {
            let (low, high): (Value, Value) = split_u128_halves(ctx, block, value);
            let lo: Value = emit_bswap64(ctx, block, low, 64);
            let hi: Value = emit_bswap64(ctx, block, high, 64);
            let r: Value = join_u128_halves(ctx, block, hi, lo);
            proof {
                assert forall|env: Env| #[trigger] r.bits(env) == bit_result(
                    op,
                    value.bits(env),
                    128,
                ) by {
                    assert(low.bits(env) == value.bits(env) % 0x1_0000_0000_0000_0000);
                    assert(high.bits(env) == value.bits(env) / 0x1_0000_0000_0000_0000);
                    assert(bits::bytes_swapped(low.bits(env), 64, lo.bits(env)));
                    assert(bits::bytes_swapped(high.bits(env), 64, hi.bits(env)));
                    lemma_join_swapped(
                        value.bits(env),
                        lo.bits(env),
                        hi.bits(env),
                        r.bits(env),
                    );
                    lemma_swapped(value.bits(env), 128, r.bits(env));
                }
            }
            r
        },
        BitOp::ReverseBits => {
            let (low, high): (Value, Value) = split_u128_halves(ctx, block, value);
            let lo: Value = emit_bitreverse64(ctx, block, low, 64);
            let hi: Value = emit_bitreverse64(ctx, block, high, 64);
            let r: Value = join_u128_halves(ctx, block, hi, lo);
            proof {
                assert forall|env: Env| #[trigger] r.bits(env) == bit_result(
                    op,
                    value.bits(env),
                    128,
                ) by {
                    assert(low.bits(env) == value.bits(env) % 0x1_0000_0000_0000_0000);
                    assert(high.bits(env) == value.bits(env) / 0x1_0000_0000_0000_0000);
                    assert(bits::bits_reversed(low.bits(env), 64, lo.bits(env)));
                    assert(bits::bits_reversed(high.bits(env), 64, hi.bits(env)));
                    lemma_join_reversed(
                        value.bits(env),
                        lo.bits(env),
                        hi.bits(env),
                        r.bits(env),
                    );
                    lemma_reversed(value.bits(env), 128, r.bits(env));
                }
            }
            r
        },
    }
}

/// An operation on the bits of an integer of at most 64 bits.
fn put_narrow_bits(ctx: &mut Context, block: BlockId, op: BitOp, x: Value, width: u32) -> (r: Value)
    requires
        old(ctx).wf(),
        old(ctx).has_block(block),
        old(ctx).has(x),
        x.ty() == types::unsigned(64),
        sem::valid_width(width),
        width <= 64,
        op == BitOp::SwapBytes ==> width >= 8,
        forall|env: Env| #[trigger] x.bits(env) < sem::modulus(width),
    ensures
        final(ctx).computed_since(*old(ctx), block),
        final(ctx).has(r),
        r.ty() == types::unsigned(64),
        forall|env: Env| #[trigger] r.bits(env) == bit_result(op, x.bits(env), width),
{
    match op {
        BitOp::Ones => {
            let r: Value = emit_popcount64(ctx, block, x);
            assert forall|env: Env| #[trigger] r.bits(env) == bit_result(
                op,
                x.bits(env),
                width,
            ) by {}
            r
        },
        BitOp::TrailingZeros => {
            let r: Value = emit_cttz64(ctx, block, x, width);
            proof {
                assert forall|env: Env| #[trigger] r.bits(env) == bit_result(
                    op,
                    x.bits(env),
                    width,
                ) by {
                    assert(bits::trailing_zeros(x.bits(env), width, r.bits(env)));
                    lemma_trailing(x.bits(env), width, r.bits(env));
                }
            }
            r
        },
        BitOp::LeadingZeros => {
            let r: Value = emit_ctlz64(ctx, block, x, width);
            proof {
                assert forall|env: Env| #[trigger] r.bits(env) == bit_result(
                    op,
                    x.bits(env),
                    width,
                ) by {
                    assert(bits::leading_zeros(x.bits(env), width, r.bits(env)));
                    lemma_leading(x.bits(env), width, r.bits(env));
                }
            }
            r
        },
        BitOp::SwapBytes => {
            if width == 8 {
                proof {
                    assert forall|env: Env| #[trigger] x.bits(env) == bit_result(
                        op,
                        x.bits(env),
                        width,
                    ) by {
                        assert(x.bits(env) < sem::modulus(8));
                        assert forall|i: u128| i < 1 implies #[trigger] bits::byte_at(
                            x.bits(env),
                            i,
                        ) == bits::byte_at(x.bits(env), (0 - i) as u128) by {}
                        assert(bits::bytes_swapped(x.bits(env), 8, x.bits(env)));
                        lemma_swapped(x.bits(env), 8, x.bits(env));
                    }
                }
                return x;
            }
            let r: Value = emit_bswap64(ctx, block, x, width);
            proof {
                assert forall|env: Env| #[trigger] r.bits(env) == bit_result(
                    op,
                    x.bits(env),
                    width,
                ) by {
                    assert(bits::bytes_swapped(x.bits(env), width, r.bits(env)));
                    lemma_swapped(x.bits(env), width, r.bits(env));
                }
            }
            r
        },
        BitOp::ReverseBits => {
            let r: Value = emit_bitreverse64(ctx, block, x, width);
            proof {
                assert forall|env: Env| #[trigger] r.bits(env) == bit_result(
                    op,
                    x.bits(env),
                    width,
                ) by {
                    assert(bits::bits_reversed(x.bits(env), width, r.bits(env)));
                    lemma_reversed(x.bits(env), width, r.bits(env));
                }
            }
            r
        },
    }
}

/// Applies an operation to the bits of an integer.
pub fn put_bits(ctx: &mut Context, block: BlockId, op: BitOp, value: Value) -> (r: Result<
    Value,
    Failure,
>)
    requires
        old(ctx).wf(),
        old(ctx).has_block(block),
        old(ctx).has(value),
    ensures
        final(ctx).computed_since(*old(ctx), block),
        place::gives(*final(ctx), r, bits_of(op, value.meaning@)),
{
    let width: u32 = width_of(ctx, value)?;
    if let BitOp::SwapBytes = op {
        if width < 8 {
            return Err(Failure::BitsWidth(width));
        }
    }
    let ghost f = |env: Env| bit_result(op, value.meaning@.bits(env), width);
    let r: Value = if width == 128 {
        put_wide_bits(ctx, block, op, value)
    } else {
        let x: Value = widen_to_u64(ctx, block, value)?;
        proof {
            assert forall|env: Env| #[trigger] x.bits(env) < sem::modulus(width) by {
                ctx.value_in_range(value, env);
                assert(value.den(env) == value.den(env));
            }
        }
        let r: Value = put_narrow_bits(ctx, block, op, x, width);
        proof {
            assert forall|env: Env| #[trigger] r.bits(env) == bit_result(
                op,
                value.bits(env),
                width,
            ) by {
                assert(x.bits(env) == value.bits(env));
            }
        }
        r
    };
    proof {
        assert forall|env: Env| #[trigger] r.bits(env) == f(env) by {
            assert(value.bits(env) == value.meaning@.bits(env));
        }
        lemma_integer(*ctx, r, r.ty(), f);
    }
    Ok(r)
}

/// By how many places an integer of a width is rotated.
pub open spec fn places(left: bool, width: u32, shift: Meaning, env: Env) -> int {
    let amount = if width == 128 {
        meaning::as_type(shift, types::unsigned(128)).bits(env)
    } else {
        shift.bits(env)
    };
    if left {
        amount as int
    } else {
        -amount
    }
}

/// An integer rotated by another, up or down.
pub open spec fn rotated_value(left: bool, value: Meaning, shift: Meaning) -> Result<
    Meaning,
    Failure,
> {
    match counted_width(value.ty) {
        Err(failure) => Err(failure),
        Ok(width) => if width != 128 && !(shift.ty is Integer) {
            Err(Failure::NonIntegerBits)
        } else if width != 128 && shift.ty->width > 64 {
            Err(Failure::WideBits)
        } else {
            Ok(
                meaning::integer(
                    types::unsigned(
                        if width == 128 {
                            128
                        } else {
                            64
                        },
                    ),
                    |env: Env|
                        rotation(value.bits(env), width, places(left, width, shift, env)),
                ),
            )
        },
    }
}

/// Rotating one way and then the other by the same number of places gives an
/// integer back.
pub proof fn law_rotated_there_and_back(left: bool, value: Meaning, shift: Meaning, env: Env)
    requires
        rotated_value(left, value, shift) is Ok,
        value.bits(env) < sem::modulus(value.ty->width),
    ensures
        ({
            let there = meaning::as_type(rotated_value(left, value, shift)->Ok_0, value.ty);
            let back = rotated_value(!left, there, shift);
            &&& back is Ok
            &&& meaning::as_type(back->Ok_0, value.ty).bits(env) == value.bits(env)
        }),
{
    let width = value.ty->width;
    let x = value.bits(env);
    let by = places(left, width, shift, env);
    let moved = rotated_value(left, value, shift)->Ok_0;
    let there = meaning::as_type(moved, value.ty);
    law_rotation(x, width, by, rotation(x, width, by));
    lemma_as_type(moved, value.ty, env);
    law_rotation(there.bits(env), width, -by, rotation(there.bits(env), width, -by));
    bits::law_rotated_back(x, width, by, there.bits(env), rotation(there.bits(env), width, -by));
    let back = rotated_value(!left, there, shift)->Ok_0;
    lemma_as_type(back, value.ty, env);
}

/// Rotating by a multiple of the width, none among them, gives an integer back.
pub proof fn law_rotated_round(left: bool, value: Meaning, shift: Meaning, env: Env)
    requires
        rotated_value(left, value, shift) is Ok,
        value.bits(env) < sem::modulus(value.ty->width),
        places(left, value.ty->width, shift, env) % (value.ty->width as int) == 0,
    ensures
        meaning::as_type(rotated_value(left, value, shift)->Ok_0, value.ty).bits(env)
            == value.bits(env),
{
    let width = value.ty->width;
    let x = value.bits(env);
    let by = places(left, width, shift, env);
    law_rotation(x, width, by, rotation(x, width, by));
    bits::law_rotated_round(x, width, by, rotation(x, width, by));
    lemma_as_type(rotated_value(left, value, shift)->Ok_0, value.ty, env);
}

/// An unsigned pattern of a width is kept by a type of that width.
proof fn lemma_as_type(value: Meaning, ty: TypeHandle, env: Env)
    requires
        value.ty is Integer,
        value.ty->signedness == Signedness::Unsigned,
        ty is Integer,
        ty->width <= 128,
        (value.den)(env) == Sem::Bits(value.bits(env)),
        value.bits(env) < sem::modulus(ty->width),
    ensures
        meaning::as_type(value, ty).bits(env) == value.bits(env),
{
    sem::lemma_wrap_small(ty->width, value.bits(env) as int);
}

/// Whether an integer can be rotated at its width.
pub fn check_rotation(ctx: &Context, value: Value) -> (r: Result<u32, Failure>)
    requires
        ctx.wf(),
        ctx.has(value),
    ensures
        r == counted_width(value.ty()),
{
    width_of(ctx, value)
}

/// Rotates an integer by another.
pub fn put_rotated(ctx: &mut Context, block: BlockId, left: bool, value: Value, shift: Value) -> (r:
    Result<Value, Failure>)
    requires
        old(ctx).wf(),
        old(ctx).has_block(block),
        old(ctx).has(value),
        old(ctx).has(shift),
    ensures
        final(ctx).computed_since(*old(ctx), block),
        place::gives(*final(ctx), r, rotated_value(left, value.meaning@, shift.meaning@)),
{
    let width: u32 = width_of(ctx, value)?;
    let ghost f = |env: Env|
        rotation(value.meaning@.bits(env), width, places(left, width, shift.meaning@, env));
    let r: Value = if width == 128 {
        let wide: TypeHandle = TypeHandle::integer(128, Signedness::Unsigned);
        let x: Value = cast_value_to_type(ctx, block, value, &wide);
        let amount: Value = put_as_type(ctx, block, shift, &wide);
        let r: Value = emit_rotate128(ctx, block, x, amount, left);
        proof {
            assert forall|env: Env| #[trigger] r.bits(env) == f(env) by {
                ctx.value_in_range(value, env);
                assert(value.den(env) == value.den(env));
                sem::lemma_wrap_as_int(128, value.ty()->signedness, value.bits(env));
                assert(x.bits(env) == value.bits(env));
                assert(amount.bits(env) == amount.meaning@.bits(env));
                lemma_rotation(
                    value.bits(env),
                    128,
                    places(left, 128, shift.meaning@, env),
                    r.bits(env),
                );
                assert(value.bits(env) == value.meaning@.bits(env));
            }
        }
        r
    } else {
        let x: Value = widen_to_u64(ctx, block, value)?;
        let amount: Value = widen_to_u64(ctx, block, shift)?;
        let r: Value = emit_rotate64(ctx, block, x, amount, width, left);
        proof {
            assert forall|env: Env| #[trigger] r.bits(env) == f(env) by {
                ctx.value_in_range(value, env);
                assert(value.den(env) == value.den(env));
                assert(x.bits(env) == value.bits(env));
                assert(amount.bits(env) == shift.bits(env));
                assert(shift.bits(env) == shift.meaning@.bits(env));
                lemma_rotation(
                    value.bits(env),
                    width,
                    places(left, width, shift.meaning@, env),
                    r.bits(env),
                );
                assert(value.bits(env) == value.meaning@.bits(env));
            }
        }
        r
    };
    proof {
        lemma_integer(*ctx, r, r.ty(), f);
    }
    Ok(r)
}

/// The vector of eight bytes whose lanes are given.
pub open spec fn vector(lanes: spec_fn(int) -> u128) -> u128 {
    choose|r: u128| is_vector(r, lanes)
}

/// Whether a pattern is a vector of eight bytes with given lanes.
pub open spec fn is_vector(r: u128, lanes: spec_fn(int) -> u128) -> bool {
    r < sem::modulus(64) && forall|i: int| 0 <= i < 8 ==> #[trigger] simd::lane(r, i) == lanes(i)
}

proof fn lemma_vector(r: u128, lanes: spec_fn(int) -> u128)
    requires
        is_vector(r, lanes),
    ensures
        vector(lanes) == r,
{
    let other = vector(lanes);
    assert(is_vector(other, lanes));
    assert forall|i: u128| i < 8 implies #[trigger] bits::byte_at(other, i) == bits::byte_at(
        r,
        i,
    ) by {
        assert(simd::lane(other, i as int) == lanes(i as int));
        assert(simd::lane(r, i as int) == lanes(i as int));
    }
    bits::lemma_same_bytes(other, r, 64);
}

/// The pattern is the vector with the given lanes, and no other is.
pub proof fn law_vector(r: u128, lanes: spec_fn(int) -> u128)
    requires
        forall|i: int| 0 <= i < 8 ==> #[trigger] lanes(i) < 256,
    ensures
        is_vector(r, lanes) <==> r == vector(lanes),
{
    let some = lemma_bytes(64, |i: int| (lanes(i), 0u128));
    assert forall|i: int| 0 <= i < 8 implies #[trigger] simd::lane(some, i) == lanes(i) by {
        assert(bits::byte_at(some, i as u128) == bits::byte_at(lanes(i), 0));
        vstd::arithmetic::power2::lemma2_to64();
        vstd::bits::lemma_u128_shr_is_div(lanes(i), 0);
        arith::lemma_masks(8, lanes(i));
    }
    lemma_vector(some, lanes);
    if is_vector(r, lanes) {
        lemma_vector(r, lanes);
    }
}

/// A vector of copies of a byte.
pub open spec fn splat(byte: Meaning) -> Result<Meaning, Failure> {
    if byte.ty is Integer && byte.ty->width == 8 {
        Ok(
            meaning::integer(
                types::unsigned(64),
                |env: Env| vector(|i: int| simd::lane(byte.bits(env), 0)),
            ),
        )
    } else {
        Err(Failure::SplatLane)
    }
}

/// Fills a vector with copies of a byte.
pub fn put_splat(ctx: &mut Context, block: BlockId, byte: Value) -> (r: Result<Value, Failure>)
    requires
        old(ctx).wf(),
        old(ctx).has_block(block),
        old(ctx).has(byte),
    ensures
        final(ctx).computed_since(*old(ctx), block),
        place::gives(*final(ctx), r, splat(byte.meaning@)),
{
    let ty: TypeHandle = ctx.type_of(byte);
    match ty.as_integer() {
        Some((8, _)) => {},
        _ => return Err(Failure::SplatLane),
    }
    let wide: Value = match widen_to_u64(ctx, block, byte) {
        Ok(wide) => wide,
        Err(failure) => return Err(failure),
    };
    let r: Value = emit_splat(ctx, block, wide);
    proof {
        let f = |env: Env| vector(|i: int| simd::lane(byte.meaning@.bits(env), 0));
        assert forall|env: Env| #[trigger] r.bits(env) == f(env) by {
            let lanes = |i: int| simd::lane(byte.meaning@.bits(env), 0);
            assert(wide.bits(env) == byte.bits(env));
            assert(byte.bits(env) == byte.meaning@.bits(env));
            ctx.value_in_range(r, env);
            assert(r.den(env) == r.den(env));
            assert forall|i: int| 0 <= i < 8 implies #[trigger] simd::lane(r.bits(env), i) == lanes(
                i,
            ) by {}
            lemma_vector(r.bits(env), lanes);
        }
        lemma_integer(*ctx, r, types::unsigned(64), f);
    }
    Ok(r)
}

/// The lanes in which two vectors agree, all set.
pub open spec fn lanes_equal(lhs: Meaning, rhs: Meaning) -> Meaning {
    meaning::integer(
        types::unsigned(64),
        |env: Env|
            vector(
                |i: int|
                    simd::fill(simd::lane_equals(lhs.bits(env), rhs.bits(env), i)),
            ),
    )
}

/// Marks the lanes in which two vectors agree.
pub fn put_lanes_equal(ctx: &mut Context, block: BlockId, lhs: Value, rhs: Value) -> (r: Value)
    requires
        old(ctx).wf(),
        old(ctx).has_block(block),
        old(ctx).has(lhs),
        old(ctx).has(rhs),
        lhs.ty() == types::unsigned(64),
        rhs.ty() == types::unsigned(64),
    ensures
        final(ctx).computed_since(*old(ctx), block),
        final(ctx).has(r),
        r.meaning@ == lanes_equal(lhs.meaning@, rhs.meaning@),
{
    let r: Value = emit_lanes_equal(ctx, block, lhs, rhs);
    proof {
        let f = |env: Env|
            vector(
                |i: int|
                    simd::fill(
                        simd::lane_equals(lhs.meaning@.bits(env), rhs.meaning@.bits(env), i),
                    ),
            );
        assert forall|env: Env| #[trigger] r.bits(env) == f(env) by {
            let lanes = |i: int|
                simd::fill(
                    simd::lane_equals(lhs.meaning@.bits(env), rhs.meaning@.bits(env), i),
                );
            assert(lhs.bits(env) == lhs.meaning@.bits(env));
            assert(rhs.bits(env) == rhs.meaning@.bits(env));
            assert forall|i: int| 0 <= i < 8 implies #[trigger] simd::lane(r.bits(env), i) == lanes(
                i,
            ) by {}
            lemma_vector(r.bits(env), lanes);
        }
        lemma_integer(*ctx, r, types::unsigned(64), f);
    }
    r
}

/// The lanes in which one vector is below another, or is not, all set.
pub open spec fn lanes_compared(less: bool, lhs: Meaning, rhs: Meaning) -> Meaning {
    meaning::integer(
        types::unsigned(64),
        |env: Env|
            vector(
                |i: int|
                    simd::fill(simd::lane_compares(less, lhs.bits(env), rhs.bits(env), i)),
            ),
    )
}

/// Marks the lanes in which one vector is below another, or is not.
pub fn put_lanes_compared(
    ctx: &mut Context,
    block: BlockId,
    less: bool,
    lhs: Value,
    rhs: Value,
) -> (r: Value)
    requires
        old(ctx).wf(),
        old(ctx).has_block(block),
        old(ctx).has(lhs),
        old(ctx).has(rhs),
        lhs.ty() == types::unsigned(64),
        rhs.ty() == types::unsigned(64),
    ensures
        final(ctx).computed_since(*old(ctx), block),
        final(ctx).has(r),
        r.meaning@ == lanes_compared(less, lhs.meaning@, rhs.meaning@),
{
    let r: Value = emit_lanes_compare(ctx, block, less, lhs, rhs);
    proof {
        let f = |env: Env|
            vector(
                |i: int|
                    simd::fill(
                        simd::lane_compares(
                            less,
                            lhs.meaning@.bits(env),
                            rhs.meaning@.bits(env),
                            i,
                        ),
                    ),
            );
        assert forall|env: Env| #[trigger] r.bits(env) == f(env) by {
            let lanes = |i: int|
                simd::fill(
                    simd::lane_compares(
                        less,
                        lhs.meaning@.bits(env),
                        rhs.meaning@.bits(env),
                        i,
                    ),
                );
            assert(lhs.bits(env) == lhs.meaning@.bits(env));
            assert(rhs.bits(env) == rhs.meaning@.bits(env));
            assert forall|i: int| 0 <= i < 8 implies #[trigger] simd::lane(r.bits(env), i) == lanes(
                i,
            ) by {}
            lemma_vector(r.bits(env), lanes);
        }
        lemma_integer(*ctx, r, types::unsigned(64), f);
    }
    r
}

} // verus!
