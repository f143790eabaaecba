//! Bit counting, reversal and rotation from shifts, masks and sums.
//!
//! All of these work on 64-bit patterns; 128-bit operands are split in halves.
use crate::arith;
use crate::arith::low_mask;
use crate::emit;
use crate::emit::{
    cast_value_to_type, emit_add, emit_and, emit_eq, emit_lshr, emit_mul, emit_or, emit_shl,
    emit_sub, emit_unsigned, emit_xor,
};
use crate::error::Failure;
use crate::ir::{BlockId, Context, Value};
use crate::sem;
use crate::sem::Env;
use crate::types;
use crate::types::{Signedness, TypeHandle};
use vstd::prelude::*;

verus! {

/// One bit of a pattern.
pub open spec fn bit_at(x: u128, i: u128) -> u128 {
    (x >> i) & 1
}

/// How many of the low `n` bits of a pattern are set.
pub open spec fn ones(x: u128, n: nat) -> nat
    decreases n,
{
    if n == 0 {
        0
    } else {
        ones(x, (n - 1) as nat) + bit_at(x, (n - 1) as u128) as nat
    }
}

/// Whether the low `width` bits of a pattern start, from below, with exactly
/// `count` zeros.
pub open spec fn trailing_zeros(x: u128, width: u32, count: u128) -> bool {
    &&& count <= width
    &&& count < width ==> bit_at(x, count) == 1
    &&& forall|i: u128| i < count ==> #[trigger] bit_at(x, i) == 0
}

/// Whether the low `width` bits of a pattern start, from above, with exactly
/// `count` zeros.
pub open spec fn leading_zeros(x: u128, width: u32, count: u128) -> bool {
    &&& count <= width
    &&& count < width ==> bit_at(x, (width - 1 - count) as u128) == 1
    &&& forall|i: u128| width - count <= i < width ==> #[trigger] bit_at(x, i) == 0
}

/// Whether a pattern holds the bytes of the low `width` bits of another in
/// the opposite order.
pub open spec fn bytes_swapped(x: u128, width: u32, r: u128) -> bool {
    &&& r < sem::modulus(width)
    &&& forall|i: u128|
        i < width / 8 ==> #[trigger] byte_at(r, i) == byte_at(x, (width / 8 - 1 - i) as u128)
}

/// One byte of a pattern.
pub open spec fn byte_at(x: u128, i: u128) -> u128 {
    (x >> ((8 * i) as u128)) & 0xff
}

/// Whether a pattern holds the low `width` bits of another in the opposite
/// order.
pub open spec fn bits_reversed(x: u128, width: u32, r: u128) -> bool {
    &&& r < sem::modulus(width)
    &&& forall|i: u128| i < width ==> #[trigger] bit_at(r, i) == bit_at(x, (width - 1 - i) as u128)
}

/// Whether a pattern holds the low `width` bits of another moved up by
/// `shift` places, those that leave the top coming in below.
pub open spec fn rotated(x: u128, width: u32, shift: int, r: u128) -> bool {
    &&& r < sem::modulus(width)
    &&& forall|i: u128|
        i < width ==> #[trigger] bit_at(x, i) == bit_at(r, ((i + shift) % (width as int)) as u128)
}

proof fn lemma_bits_split(x: u64, i: u64)
    requires
        i < 64,
    ensures
        bit_at(x as u128, i as u128) == word_bit(x, i),
        word_bit(x, i) <= 1,
{
    assert((x >> i) & 1 <= 1 && ((x as u128) >> (i as u128)) & 1 == ((x >> i) & 1) as u128)
        by (bit_vector)
        requires
            i < 64,
    ;
}

spec fn word_bit(x: u64, i: u64) -> u64 {
    (x >> i) & 1
}

spec fn byte_ones(x: u64, s: u64) -> u64 {
    (((((((word_bit(x, s) + word_bit(x, (s + 1) as u64)) as u64 + word_bit(
        x,
        (s + 2) as u64,
    )) as u64 + word_bit(x, (s + 3) as u64)) as u64 + word_bit(x, (s + 4) as u64)) as u64
        + word_bit(x, (s + 5) as u64)) as u64 + word_bit(x, (s + 6) as u64)) as u64 + word_bit(
        x,
        (s + 7) as u64,
    )) as u64
}

proof fn lemma_ones_byte(x: u64, s: u64)
    requires
        s <= 56,
    ensures
        ones(x as u128, (s + 8) as nat) == ones(x as u128, s as nat) + byte_ones(x, s),
{
    reveal_with_fuel(ones, 9);
    lemma_bits_split(x, s);
    lemma_bits_split(x, (s + 1) as u64);
    lemma_bits_split(x, (s + 2) as u64);
    lemma_bits_split(x, (s + 3) as u64);
    lemma_bits_split(x, (s + 4) as u64);
    lemma_bits_split(x, (s + 5) as u64);
    lemma_bits_split(x, (s + 6) as u64);
    lemma_bits_split(x, (s + 7) as u64);
}

proof fn lemma_popcount(x: u64, x1: u64, x2: u64, x3: u64, total: u64)
    requires
        x1 == (x - ((x >> 1u64) & 0x5555_5555_5555_5555)) as u64,
        x2 == ((x1 & 0x3333_3333_3333_3333) + ((x1 >> 2u64) & 0x3333_3333_3333_3333)) as u64,
        x3 == ((((x2 + (x2 >> 4u64)) % 0x1_0000_0000_0000_0000)) as u64) & 0x0f0f_0f0f_0f0f_0f0f,
        total == (((x3 * 0x0101_0101_0101_0101) % 0x1_0000_0000_0000_0000) as u64) >> 56u64,
    ensures
        total == ones(x as u128, 64),
{
    assert(total == byte_ones(x, 0) + byte_ones(x, 8) + byte_ones(x, 16) + byte_ones(x, 24)
        + byte_ones(x, 32) + byte_ones(x, 40) + byte_ones(x, 48) + byte_ones(x, 56))
        by (bit_vector)
        requires
            x1 == (x - ((x >> 1u64) & 0x5555_5555_5555_5555)) as u64,
            x2 == ((x1 & 0x3333_3333_3333_3333) + ((x1 >> 2u64) & 0x3333_3333_3333_3333)) as u64,
            x3 == ((((x2 + (x2 >> 4u64)) % 0x1_0000_0000_0000_0000)) as u64)
                & 0x0f0f_0f0f_0f0f_0f0f,
            total == (((x3 * 0x0101_0101_0101_0101) % 0x1_0000_0000_0000_0000) as u64) >> 56u64,
    ;
    lemma_ones_byte(x, 0);
    lemma_ones_byte(x, 8);
    lemma_ones_byte(x, 16);
    lemma_ones_byte(x, 24);
    lemma_ones_byte(x, 32);
    lemma_ones_byte(x, 40);
    lemma_ones_byte(x, 48);
    lemma_ones_byte(x, 56);
    assert(ones(x as u128, 0) == 0);
}

proof fn lemma_popcount_no_wrap(x: u64, x1: u64)
    ensures
        (x >> 1u64) & 0x5555_5555_5555_5555 <= x,
        (x1 & 0x3333_3333_3333_3333) + ((x1 >> 2u64) & 0x3333_3333_3333_3333)
            < 0x1_0000_0000_0000_0000,
{
    assert((x >> 1u64) & 0x5555_5555_5555_5555 <= x && (x1 & 0x3333_3333_3333_3333) + ((x1 >> 2u64)
        & 0x3333_3333_3333_3333) < 0x1_0000_0000_0000_0000) by (bit_vector);
}

/// The number of set bits of an unsigned 64-bit value.
pub fn emit_popcount64(ctx: &mut Context, insert_block: BlockId, x: Value) -> (r: Value)
    requires
        old(ctx).wf(),
        old(ctx).has_block(insert_block),
        old(ctx).has(x),
        x.ty() == types::unsigned(64),
    ensures
        final(ctx).computed_since(*old(ctx), insert_block),
        final(ctx).has(r),
        r.ty() == types::unsigned(64),
        forall|env: Env| #[trigger] r.bits(env) == ones(x.bits(env), 64),
{
    let one = emit_unsigned(ctx, insert_block, 64, 1);
    let shifted = emit_lshr(ctx, insert_block, x, one);
    let mask55 = emit_unsigned(ctx, insert_block, 64, 0x5555_5555_5555_5555);
    let and55 = emit_and(ctx, insert_block, shifted, mask55);
    let x1 = emit_sub(ctx, insert_block, x, and55);

    let mask33 = emit_unsigned(ctx, insert_block, 64, 0x3333_3333_3333_3333);
    let low_pairs = emit_and(ctx, insert_block, x1, mask33);
    let two = emit_unsigned(ctx, insert_block, 64, 2);
    let shr2 = emit_lshr(ctx, insert_block, x1, two);
    let high_pairs = emit_and(ctx, insert_block, shr2, mask33);
    let x2 = emit_add(ctx, insert_block, low_pairs, high_pairs);

    let four = emit_unsigned(ctx, insert_block, 64, 4);
    let shr4 = emit_lshr(ctx, insert_block, x2, four);
    let nibble_sum = emit_add(ctx, insert_block, x2, shr4);
    let mask0f = emit_unsigned(ctx, insert_block, 64, 0x0f0f_0f0f_0f0f_0f0f);
    let nibbles = emit_and(ctx, insert_block, nibble_sum, mask0f);

    let spread_by = emit_unsigned(ctx, insert_block, 64, 0x0101_0101_0101_0101);
    let spread = emit_mul(ctx, insert_block, nibbles, spread_by);
    let fifty_six = emit_unsigned(ctx, insert_block, 64, 56);
    let total = emit_lshr(ctx, insert_block, spread, fifty_six);
    assert forall|env: Env| #[trigger] total.bits(env) == ones(x.bits(env), 64) by {
        ctx.value_in_range(x, env);
        ctx.value_in_range(x1, env);
        ctx.value_in_range(x2, env);
        let w = x.bits(env) as u64;
        let w1 = x1.bits(env) as u64;
        assert(one.bits(env) == 1 && two.bits(env) == 2 && four.bits(env) == 4);
        assert(mask55.bits(env) == 0x5555_5555_5555_5555);
        assert(mask33.bits(env) == 0x3333_3333_3333_3333);
        assert(mask0f.bits(env) == 0x0f0f_0f0f_0f0f_0f0f);
        assert(spread_by.bits(env) == 0x0101_0101_0101_0101);
        assert(fifty_six.bits(env) == 56);
        lemma_popcount_no_wrap(w, w1);
        assert(and55.bits(env) == ((w >> 1u64) & 0x5555_5555_5555_5555) as u128);
        assert(x1.bits(env) == x.bits(env) - and55.bits(env));
        assert(low_pairs.bits(env) == (w1 & 0x3333_3333_3333_3333) as u128);
        assert(high_pairs.bits(env) == ((w1 >> 2u64) & 0x3333_3333_3333_3333) as u128);
        assert(x2.bits(env) == low_pairs.bits(env) + high_pairs.bits(env));
        let w2 = x2.bits(env) as u64;
        assert(shr4.bits(env) == (w2 >> 4u64) as u128);
        assert(nibble_sum.bits(env) == (w2 + (w2 >> 4u64)) % 0x1_0000_0000_0000_0000);
        assert(nibble_sum.bits(env) < 0x1_0000_0000_0000_0000);
        let w3 = nibbles.bits(env) as u64;
        ctx.value_in_range(nibbles, env);
        assert(spread.bits(env) == (w3 * 0x0101_0101_0101_0101) % 0x1_0000_0000_0000_0000);
        assert(spread.bits(env) < 0x1_0000_0000_0000_0000);
        lemma_popcount(w, w1, w2, w3, total.bits(env) as u64);
    }
    total
}

/// Zero-extends an integer of at most 64 bits to an unsigned 64-bit value. A
/// signed value is first read as unsigned, so its sign is not spread.
pub fn widen_to_u64(ctx: &mut Context, insert_block: BlockId, value: Value) -> (r: Result<
    Value,
    Failure,
>)
    requires
        old(ctx).wf(),
        old(ctx).has_block(insert_block),
        old(ctx).has(value),
    ensures
        final(ctx).computed_since(*old(ctx), insert_block),
        match r {
            Ok(v) => {
                &&& value.ty() is Integer && value.ty()->width <= 64
                &&& final(ctx).has(v)
                &&& v.ty() == types::unsigned(64)
                &&& forall|env: Env| #[trigger] v.bits(env) == value.bits(env)
            },
            Err(Failure::NonIntegerBits) => !(value.ty() is Integer),
            Err(Failure::WideBits) => value.ty() is Integer && value.ty()->width > 64,
            Err(_) => false,
        },
{
    let (width, signedness): (u32, Signedness) = match ctx.type_of(value).as_integer() {
        Some(shape) => shape,
        None => {
            return Err(Failure::NonIntegerBits);
        },
    };
    if width > 64 {
        return Err(Failure::WideBits);
    }
    let unsigned_ty = TypeHandle::integer(width, Signedness::Unsigned);
    let plain = if signedness == Signedness::Signed {
        cast_value_to_type(ctx, insert_block, value, &unsigned_ty)
    } else {
        value
    };
    let u64_ty = TypeHandle::integer(64, Signedness::Unsigned);
    let r = cast_value_to_type(ctx, insert_block, plain, &u64_ty);
    assert forall|env: Env| #[trigger] r.bits(env) == value.bits(env) by {
        ctx.value_in_range(value, env);
        ctx.value_in_range(plain, env);
        sem::lemma_wrap_as_int(width, signedness, value.bits(env));
        assert(plain.bits(env) == value.bits(env));
        lemma_modulus_le_64(width);
        sem::lemma_wrap_small(64, value.bits(env) as int);
    }
    Ok(r)
}

proof fn lemma_modulus_le_64(width: u32)
    requires
        width <= 64,
    ensures
        sem::modulus(width) <= sem::modulus(64),
{
    sem::lemma_modulus(width);
    sem::lemma_modulus(64);
    if width < 64 {
        vstd::arithmetic::power2::lemma_pow2_strictly_increases(width as nat, 64);
    }
}

/// The word whose low `n` bits are set.
spec fn low(n: u64) -> u64 {
    if n == 0 {
        0
    } else {
        0xffff_ffff_ffff_ffffu64 >> ((64 - n) as u64)
    }
}

proof fn lemma_low_is_mask(width: u32)
    requires
        1 <= width <= 64,
    ensures
        low(width as u64) == sem::modulus(width) - 1,
{
    let shift = (64 - width) as u64;
    sem::lemma_modulus(width);
    sem::lemma_modulus(64);
    vstd::arithmetic::power2::lemma_pow2_adds(width as nat, shift as nat);
    vstd::arithmetic::power2::lemma_pow2_pos(shift as nat);
    vstd::bits::lemma_u64_shr_is_div(u64::MAX, shift);
    let p = vstd::arithmetic::power2::pow2(width as nat) as int;
    let q = vstd::arithmetic::power2::pow2(shift as nat) as int;
    assert(u64::MAX == (p - 1) * q + (q - 1)) by (nonlinear_arith)
        requires
            p * q == u64::MAX + 1,
    ;
    vstd::arithmetic::div_mod::lemma_fundamental_div_mod_converse(u64::MAX as int, q, p - 1, q - 1);
}

proof fn lemma_low_bits(n: u64, i: u64)
    requires
        n <= 64,
        i < 64,
    ensures
        word_bit(low(n), i) == (if i < n { 1u64 } else { 0 }),
        word_bit(low(n) ^ 0xffff_ffff_ffff_ffff, i) == (if i < n { 0u64 } else { 1 }),
{
    assert(word_bit(low(n), i) == (if i < n { 1u64 } else { 0 }) && word_bit(
        low(n) ^ 0xffff_ffff_ffff_ffff,
        i,
    ) == (if i < n { 0u64 } else { 1 })) by (bit_vector)
        requires
            n <= 64,
            i < 64,
    ;
}

/// A run of low bits, and its complement, count as expected.
proof fn lemma_ones_low(n: u64, k: nat)
    requires
        n <= 64,
        k <= 64,
    ensures
        ones(low(n) as u128, k) == if k < n { k } else { n as nat },
        ones((low(n) ^ 0xffff_ffff_ffff_ffff) as u128, k) == if k < n { 0 } else { (k - n) as nat },
    decreases k,
{
    if k > 0 {
        lemma_ones_low(n, (k - 1) as nat);
        lemma_low_bits(n, (k - 1) as u64);
        lemma_bits_split(low(n), (k - 1) as u64);
        lemma_bits_split(low(n) ^ 0xffff_ffff_ffff_ffff, (k - 1) as u64);
    }
}

proof fn lemma_zero_word(x: u64, i: u64)
    ensures
        word_bit(0, i) == 0,
        x & low(0) == 0,
        x & low(64) == 0 ==> x == 0,
        x <= low(64),
        x <= low(0) ==> x == 0,
{
    assert({
        &&& word_bit(0u64, i) == 0
        &&& x & low(0) == 0
        &&& (x & low(64) == 0 ==> x == 0)
        &&& x <= low(64)
        &&& (x <= low(0) ==> x == 0)
    }) by (bit_vector);
}

/// Finds the lowest set bit of a word among the bits from `from` to `width`.
proof fn lemma_lowest(x: u64, width: u64, from: u64) -> (t: u64)
    requires
        from <= width <= 64,
        x & low(from) == 0,
    ensures
        from <= t <= width,
        x & low(t) == 0,
        t < width ==> word_bit(x, t) == 1,
    decreases width - from,
{
    if from == width {
        from
    } else if word_bit(x, from) == 1 {
        from
    } else {
        lemma_bits_split(x, from);
        assert(x & low((from + 1) as u64) == 0) by (bit_vector)
            requires
                from < 64,
                x & low(from) == 0,
                word_bit(x, from) == 0,
        ;
        lemma_lowest(x, width, (from + 1) as u64)
    }
}

proof fn lemma_cttz(x: u64, width: u64, neg: u64, below: u64)
    requires
        1 <= width <= 64,
        neg == ((0x1_0000_0000_0000_0000 - x) % 0x1_0000_0000_0000_0000) as u64,
        below == ((0x1_0000_0000_0000_0000 + (x & neg) - 1) % 0x1_0000_0000_0000_0000) as u64,
    ensures
        trailing_zeros(x as u128, width as u32, ones((below & low(width)) as u128, 64) as u128),
        width == 64 ==> (ones((below & low(width)) as u128, 64) == 64 <==> x == 0),
{
    lemma_zero_word(x, 0);
    let t = lemma_lowest(x, width, 0);
    assert(below & low(width) == low(t)) by (bit_vector)
        requires
            t <= width <= 64,
            1 <= width,
            x & low(t) == 0,
            t < width ==> word_bit(x, t) == 1,
            neg == ((0x1_0000_0000_0000_0000 - x) % 0x1_0000_0000_0000_0000) as u64,
            below == ((0x1_0000_0000_0000_0000 + (x & neg) - 1) % 0x1_0000_0000_0000_0000) as u64,
    ;
    lemma_ones_low(t, 64);
    if t < width {
        lemma_bits_split(x, t);
    }
    assert forall|i: u128| i < t implies #[trigger] bit_at(x as u128, i) == 0 by {
        let j = i as u64;
        lemma_bits_split(x, j);
        assert(word_bit(x, j) == 0) by (bit_vector)
            requires
                j < t <= 64,
                x & low(t) == 0,
        ;
    }
    if width == 64 {
        lemma_zero_word(x, t);
    }
}

/// The number of trailing zeros of the low `width` bits of an unsigned 64-bit
/// value: the set bits of `((x & -x) - 1) & mask`.
pub fn emit_cttz64(ctx: &mut Context, insert_block: BlockId, x: Value, width: u32) -> (r: Value)
    requires
        old(ctx).wf(),
        old(ctx).has_block(insert_block),
        old(ctx).has(x),
        x.ty() == types::unsigned(64),
        1 <= width <= 64,
    ensures
        final(ctx).computed_since(*old(ctx), insert_block),
        final(ctx).has(r),
        r.ty() == types::unsigned(64),
        forall|env: Env| trailing_zeros(x.bits(env), width, #[trigger] r.bits(env)),
        width == 64 ==> forall|env: Env| #[trigger] r.bits(env) == 64 <==> x.bits(env) == 0,
{
    let zero = emit_unsigned(ctx, insert_block, 64, 0);
    let neg = emit_sub(ctx, insert_block, zero, x);
    let low_bit = emit_and(ctx, insert_block, x, neg);
    let one = emit_unsigned(ctx, insert_block, 64, 1);
    let below = emit_sub(ctx, insert_block, low_bit, one);
    let width_mask = emit_unsigned(ctx, insert_block, 64, low_mask(width));
    let masked = emit_and(ctx, insert_block, below, width_mask);
    let r = emit_popcount64(ctx, insert_block, masked);
    assert forall|env: Env|
        trailing_zeros(x.bits(env), width, #[trigger] r.bits(env)) && (width == 64 ==> (r.bits(env)
            == 64 <==> x.bits(env) == 0)) by {
        let n = 0x1_0000_0000_0000_0000int;
        ctx.value_in_range(x, env);
        ctx.value_in_range(neg, env);
        ctx.value_in_range(low_bit, env);
        ctx.value_in_range(below, env);
        let (w, wn, wb) = (x.bits(env) as u64, neg.bits(env) as u64, below.bits(env) as u64);
        assert(zero.bits(env) == 0);
        assert(one.bits(env) == 1);
        lemma_low_is_mask(width);
        lemma_modulus_le_64(width);
        assert(width_mask.bits(env) == low(width as u64) as u128);
        vstd::arithmetic::div_mod::lemma_mod_add_multiples_vanish(0 - w, n);
        assert(neg.bits(env) == (n - w) % n);
        assert(low_bit.bits(env) == (w & wn) as u128);
        vstd::arithmetic::div_mod::lemma_mod_add_multiples_vanish((w & wn) - 1, n);
        assert(below.bits(env) == (n + (w & wn) - 1) % n);
        assert(masked.bits(env) == (wb & low(width as u64)) as u128);
        lemma_cttz(w, width as u64, wn, wb);
    }
    r
}

/// Finds the highest set bit of a word among its low `n` bits.
proof fn lemma_highest(a: u64, n: u64) -> (top: u64)
    requires
        n <= 64,
        a <= low(n),
    ensures
        top <= n,
        a <= low(top),
        top > 0 ==> word_bit(a, (top - 1) as u64) == 1,
    decreases n,
{
    if n == 0 {
        0
    } else if word_bit(a, (n - 1) as u64) == 1 {
        n
    } else {
        lemma_bits_split(a, (n - 1) as u64);
        assert(a <= low((n - 1) as u64)) by (bit_vector)
            requires
                1 <= n <= 64,
                a <= low(n),
                word_bit(a, (n - 1) as u64) == 0,
        ;
        lemma_highest(a, (n - 1) as u64)
    }
}

proof fn lemma_ctlz(a: u64, a1: u64, a2: u64, a3: u64, a4: u64, a5: u64, a6: u64) -> (top: u64)
    requires
        a1 == a | (a >> 1u64),
        a2 == a1 | (a1 >> 2u64),
        a3 == a2 | (a2 >> 4u64),
        a4 == a3 | (a3 >> 8u64),
        a5 == a4 | (a4 >> 16u64),
        a6 == a5 | (a5 >> 32u64),
    ensures
        top <= 64,
        a <= low(top),
        top > 0 ==> word_bit(a, (top - 1) as u64) == 1,
        ones((a6 ^ 0xffff_ffff_ffff_ffff) as u128, 64) == 64 - top,
{
    lemma_zero_word(a, 0);
    let top = lemma_highest(a, 64);
    assert(a6 == low(top)) by (bit_vector)
        requires
            top <= 64,
            a <= low(top),
            top > 0 ==> word_bit(a, (top - 1) as u64) == 1,
            a1 == a | (a >> 1u64),
            a2 == a1 | (a1 >> 2u64),
            a3 == a2 | (a2 >> 4u64),
            a4 == a3 | (a3 >> 8u64),
            a5 == a4 | (a4 >> 16u64),
            a6 == a5 | (a5 >> 32u64),
    ;
    lemma_ones_low(top, 64);
    top
}

proof fn lemma_above_low(a: u64, top: u64, i: u64)
    requires
        top <= i < 64,
        a <= low(top),
    ensures
        word_bit(a, i) == 0,
{
    assert(word_bit(a, i) == 0) by (bit_vector)
        requires
            top <= i < 64,
            a <= low(top),
    ;
}

/// The aligned word carries the low bits of the value at its top, and one
/// set bit right below them.
proof fn lemma_aligned(x: u64, width: u64, a: u64, i: u64)
    requires
        1 <= width < 64,
        i < width,
        a == (x << ((64 - width) as u64)) | (1u64 << ((63 - width) as u64)),
    ensures
        word_bit(a, (i + 64 - width) as u64) == word_bit(x, i),
        word_bit(a, (63 - width) as u64) == 1,
{
    assert(word_bit(a, (i + 64 - width) as u64) == word_bit(x, i) && word_bit(
        a,
        (63 - width) as u64,
    ) == 1) by (bit_vector)
        requires
            1 <= width < 64,
            i < width,
            a == (x << ((64 - width) as u64)) | (1u64 << ((63 - width) as u64)),
    ;
}

proof fn lemma_ctlz_width(x: u64, width: u32, a: u64, top: u64)
    requires
        1 <= width <= 64,
        width == 64 ==> a == x,
        width < 64 ==> a == (x << ((64 - width) as u64)) | (1u64 << ((63 - width) as u64)),
        top <= 64,
        a <= low(top),
        top > 0 ==> word_bit(a, (top - 1) as u64) == 1,
    ensures
        leading_zeros(x as u128, width, (64 - top) as u128),
        width == 64 ==> (top == 0 <==> x == 0),
{
    let w = width as u64;
    let count = (64 - top) as u128;
    if width < 64 {
        lemma_aligned(x, w, a, 0);
        if top < 64 - width {
            lemma_above_low(a, top, (63 - w) as u64);
        }
        if count < width {
            lemma_aligned(x, w, a, (width - 1 - count) as u64);
        }
    } else {
        lemma_zero_word(x, (top - 1) as u64);
    }
    if count < width {
        lemma_bits_split(x, (width - 1 - count) as u64);
    }
    assert forall|i: u128| width - count <= i < width implies #[trigger] bit_at(x as u128, i)
        == 0 by {
        lemma_bits_split(x, i as u64);
        if width < 64 {
            lemma_aligned(x, w, a, i as u64);
        }
        lemma_above_low(a, top, (i + 64 - width) as u64);
    }
}

/// A value with a shifted copy of itself merged in.
pub fn emit_smear(ctx: &mut Context, insert_block: BlockId, x: Value, shift: u128) -> (r: Value)
    requires
        old(ctx).wf(),
        old(ctx).has_block(insert_block),
        old(ctx).has(x),
        x.ty() == types::unsigned(64),
        shift < 64,
    ensures
        final(ctx).computed_since(*old(ctx), insert_block),
        final(ctx).has(r),
        r.ty() == types::unsigned(64),
        forall|env: Env| #[trigger] r.bits(env) == x.bits(env) | (x.bits(env) >> shift),
{
    let amount = emit_unsigned(ctx, insert_block, 64, shift);
    let shifted = emit_lshr(ctx, insert_block, x, amount);
    let r = emit_or(ctx, insert_block, x, shifted);
    assert forall|env: Env| #[trigger] r.bits(env) == x.bits(env) | (x.bits(env) >> shift) by {
        assert(amount.bits(env) == shift);
        assert(shifted.bits(env) == x.bits(env) >> shift);
    }
    r
}

proof fn lemma_shl_word(x: u64, s: u64)
    requires
        s < 64,
    ensures
        sem::wrap(64, ((x as u128) << (s as u128)) as int) == (x << s) as u128,
{
    assert(((x as u128) << (s as u128)) % 0x1_0000_0000_0000_0000 == (x << s) as u128)
        by (bit_vector)
        requires
            s < 64,
    ;
}

/// The number of leading zeros of the low `width` bits of an unsigned 64-bit
/// value. Its bits are aligned with the top of the word, above one guard bit
/// that ends the count; the highest set bit is then spread downward, so that
/// the zeros left over are the leading ones.
pub fn emit_ctlz64(ctx: &mut Context, insert_block: BlockId, x: Value, width: u32) -> (r: Value)
    requires
        old(ctx).wf(),
        old(ctx).has_block(insert_block),
        old(ctx).has(x),
        x.ty() == types::unsigned(64),
        1 <= width <= 64,
    ensures
        final(ctx).computed_since(*old(ctx), insert_block),
        final(ctx).has(r),
        r.ty() == types::unsigned(64),
        forall|env: Env| leading_zeros(x.bits(env), width, #[trigger] r.bits(env)),
        width == 64 ==> forall|env: Env| #[trigger] r.bits(env) == 64 <==> x.bits(env) == 0,
{
    let aligned = if width < 64 {
        let up = emit_unsigned(ctx, insert_block, 64, (64 - width) as u128);
        let shifted = emit_shl(ctx, insert_block, x, up);
        let guard_bits: u64 = 1u64 << ((63 - width) as u64);
        let guard_bit = emit_unsigned(ctx, insert_block, 64, guard_bits as u128);
        let a = emit_or(ctx, insert_block, shifted, guard_bit);
        assert forall|env: Env| #[trigger] a.bits(env) == (((x.bits(env) as u64) << ((64
            - width) as u64)) | (1u64 << ((63 - width) as u64))) as u128 by {
            ctx.value_in_range(x, env);
            assert(up.bits(env) == 64 - width);
            assert(guard_bit.bits(env) == guard_bits as u128);
            lemma_shl_word(x.bits(env) as u64, (64 - width) as u64);
            assert(shifted.bits(env) == ((x.bits(env) as u64) << ((64 - width) as u64)) as u128);
        }
        a
    } else {
        x
    };
    let a1 = emit_smear(ctx, insert_block, aligned, 1);
    let a2 = emit_smear(ctx, insert_block, a1, 2);
    let a3 = emit_smear(ctx, insert_block, a2, 4);
    let a4 = emit_smear(ctx, insert_block, a3, 8);
    let a5 = emit_smear(ctx, insert_block, a4, 16);
    let a6 = emit_smear(ctx, insert_block, a5, 32);
    let all_ones = emit_unsigned(ctx, insert_block, 64, 0xffff_ffff_ffff_ffff);
    let inverted = emit_xor(ctx, insert_block, a6, all_ones);
    let r = emit_popcount64(ctx, insert_block, inverted);
    assert forall|env: Env|
        leading_zeros(x.bits(env), width, #[trigger] r.bits(env)) && (width == 64 ==> (r.bits(env)
            == 64 <==> x.bits(env) == 0)) by {
        ctx.value_in_range(x, env);
        ctx.value_in_range(aligned, env);
        ctx.value_in_range(a1, env);
        ctx.value_in_range(a2, env);
        ctx.value_in_range(a3, env);
        ctx.value_in_range(a4, env);
        ctx.value_in_range(a5, env);
        ctx.value_in_range(a6, env);
        assert(all_ones.bits(env) == 0xffff_ffff_ffff_ffff);
        let top = lemma_ctlz(
            aligned.bits(env) as u64,
            a1.bits(env) as u64,
            a2.bits(env) as u64,
            a3.bits(env) as u64,
            a4.bits(env) as u64,
            a5.bits(env) as u64,
            a6.bits(env) as u64,
        );
        assert(inverted.bits(env) == ((a6.bits(env) as u64) ^ 0xffff_ffff_ffff_ffff) as u128);
        lemma_ctlz_width(x.bits(env) as u64, width, aligned.bits(env) as u64, top);
    }
    r
}

/// The bits of a 128-bit pattern are those of its halves.
proof fn lemma_half_bits(x: u128, i: u128)
    requires
        i < 128,
    ensures
        bit_at(x, i) == (if i < 64 {
            bit_at(x % 0x1_0000_0000_0000_0000, i)
        } else {
            bit_at(x / 0x1_0000_0000_0000_0000, (i - 64) as u128)
        }),
{
    assert(bit_at(x, i) == (if i < 64 {
        bit_at(x % 0x1_0000_0000_0000_0000, i)
    } else {
        bit_at(x / 0x1_0000_0000_0000_0000, (i - 64) as u128)
    })) by (bit_vector)
        requires
            i < 128,
    ;
}

/// The low and the high half of a 128-bit value, as unsigned 64-bit values.
pub fn split_u128_halves(ctx: &mut Context, insert_block: BlockId, input: Value) -> (r: (
    Value,
    Value,
))
    requires
        old(ctx).wf(),
        old(ctx).has_block(insert_block),
        old(ctx).has(input),
        input.ty() is Integer,
        input.ty()->width == 128,
    ensures
        final(ctx).computed_since(*old(ctx), insert_block),
        final(ctx).has(r.0),
        final(ctx).has(r.1),
        r.0.ty() == types::unsigned(64),
        r.1.ty() == types::unsigned(64),
        forall|env: Env| #[trigger] r.0.bits(env) == input.bits(env) % 0x1_0000_0000_0000_0000,
        forall|env: Env| #[trigger] r.1.bits(env) == input.bits(env) / 0x1_0000_0000_0000_0000,
{
    let u128_ty = TypeHandle::integer(128, Signedness::Unsigned);
    let bits = cast_value_to_type(ctx, insert_block, input, &u128_ty);
    let u64_ty = TypeHandle::integer(64, Signedness::Unsigned);
    let lo = cast_value_to_type(ctx, insert_block, bits, &u64_ty);
    let sixty_four = emit_unsigned(ctx, insert_block, 128, 64);
    let hi_wide = emit_lshr(ctx, insert_block, bits, sixty_four);
    let hi = cast_value_to_type(ctx, insert_block, hi_wide, &u64_ty);
    proof {
        assert forall|env: Env| #[trigger] bits.bits(env) == input.bits(env) by {
            ctx.value_in_range(input, env);
            sem::lemma_wrap_as_int(128, input.ty()->signedness, input.bits(env));
        }
        assert forall|env: Env| #[trigger] lo.bits(env) == input.bits(env)
            % 0x1_0000_0000_0000_0000 by {
            assert(bits.bits(env) == input.bits(env));
        }
        assert forall|env: Env| #[trigger] hi.bits(env) == input.bits(env)
            / 0x1_0000_0000_0000_0000 by {
            assert(bits.bits(env) == input.bits(env));
            sem::lemma_wrap_small(128, 64);
            assert(sixty_four.bits(env) == 64);
            arith::lemma_halves(input.bits(env));
            assert(hi_wide.bits(env) == input.bits(env) >> 64u128);
        }
    }
    (lo, hi)
}

/// The unsigned 128-bit value of two unsigned 64-bit halves.
pub fn join_u128_halves(ctx: &mut Context, insert_block: BlockId, lo: Value, hi: Value) -> (r:
    Value)
    requires
        old(ctx).wf(),
        old(ctx).has_block(insert_block),
        old(ctx).has(lo),
        old(ctx).has(hi),
        lo.ty() == types::unsigned(64),
        hi.ty() == types::unsigned(64),
    ensures
        final(ctx).computed_since(*old(ctx), insert_block),
        final(ctx).has(r),
        r.ty() == types::unsigned(128),
        forall|env: Env| #[trigger]
            r.bits(env) == hi.bits(env) * 0x1_0000_0000_0000_0000 + lo.bits(env),
{
    let u128_ty = TypeHandle::integer(128, Signedness::Unsigned);
    let lo_wide = cast_value_to_type(ctx, insert_block, lo, &u128_ty);
    let hi_wide = cast_value_to_type(ctx, insert_block, hi, &u128_ty);
    let sixty_four = emit_unsigned(ctx, insert_block, 128, 64);
    let shifted = emit_shl(ctx, insert_block, hi_wide, sixty_four);
    let r = emit_or(ctx, insert_block, shifted, lo_wide);
    assert forall|env: Env| #[trigger] r.bits(env) == hi.bits(env) * 0x1_0000_0000_0000_0000
        + lo.bits(env) by {
        ctx.value_in_range(lo, env);
        ctx.value_in_range(hi, env);
        let (h, l) = (hi.bits(env), lo.bits(env));
        assert(sixty_four.bits(env) == 64);
        assert(hi_wide.bits(env) == h && lo_wide.bits(env) == l);
        assert((h << 64u128) | l == h * 0x1_0000_0000_0000_0000 + l) by (bit_vector)
            requires
                h < 0x1_0000_0000_0000_0000,
                l < 0x1_0000_0000_0000_0000,
        ;
        assert(shifted.bits(env) == h << 64u128);
    }
    r
}

/// `count` where `test` is zero, else zero.
fn emit_if_zero(ctx: &mut Context, insert_block: BlockId, test: Value, count: Value) -> (r: Value)
    requires
        old(ctx).wf(),
        old(ctx).has_block(insert_block),
        old(ctx).has(test),
        old(ctx).has(count),
        test.ty() == types::unsigned(64),
        count.ty() == types::unsigned(64),
    ensures
        final(ctx).computed_since(*old(ctx), insert_block),
        final(ctx).has(r),
        r.ty() == types::unsigned(64),
        forall|env: Env| #[trigger]
            r.bits(env) == if test.bits(env) == 0 {
                count.bits(env)
            } else {
                0
            },
{
    let u64_ty = TypeHandle::integer(64, Signedness::Unsigned);
    let zero = emit_unsigned(ctx, insert_block, 64, 0);
    let is_zero = emit_eq(ctx, insert_block, test, zero);
    let flag = cast_value_to_type(ctx, insert_block, is_zero, &u64_ty);
    let mask = emit_sub(ctx, insert_block, zero, flag);
    let r = emit_and(ctx, insert_block, mask, count);
    assert forall|env: Env| #[trigger]
        r.bits(env) == (if test.bits(env) == 0 {
            count.bits(env)
        } else {
            0
        }) by {
        ctx.value_in_range(count, env);
        assert(zero.bits(env) == 0);
        assert(is_zero.bits(env) == sem::bit(test.bits(env) == 0));
        assert(flag.bits(env) == is_zero.bits(env));
        arith::lemma_masks(64, count.bits(env));
        assert(mask.bits(env) == if test.bits(env) == 0 {
            0xffff_ffff_ffff_ffffu128
        } else {
            0
        });
    }
    r
}

/// The number of trailing zeros of a 128-bit value: that of the low half, and
/// where it is zero that of the high half on top.
pub fn emit_cttz128(ctx: &mut Context, insert_block: BlockId, input: Value) -> (r: Value)
    requires
        old(ctx).wf(),
        old(ctx).has_block(insert_block),
        old(ctx).has(input),
        input.ty() is Integer,
        input.ty()->width == 128,
    ensures
        final(ctx).computed_since(*old(ctx), insert_block),
        final(ctx).has(r),
        r.ty() == types::unsigned(64),
        forall|env: Env| trailing_zeros(input.bits(env), 128, #[trigger] r.bits(env)),
{
    let (lo, hi) = split_u128_halves(ctx, insert_block, input);
    let lo_count = emit_cttz64(ctx, insert_block, lo, 64);
    let hi_count = emit_cttz64(ctx, insert_block, hi, 64);
    let extra = emit_if_zero(ctx, insert_block, lo, hi_count);
    let r = emit_add(ctx, insert_block, lo_count, extra);
    assert forall|env: Env| trailing_zeros(input.bits(env), 128, #[trigger] r.bits(env)) by {
        let x = input.bits(env);
        let (l, h) = (lo.bits(env), hi.bits(env));
        let (lc, hc) = (lo_count.bits(env), hi_count.bits(env));
        assert(extra.bits(env) == if l == 0 { hc } else { 0 });
        assert(trailing_zeros(l, 64, lc) && trailing_zeros(h, 64, hc));
        let c = r.bits(env);
        assert(c == lc + extra.bits(env));
        if c < 128 {
            lemma_half_bits(x, c);
        }
        assert forall|i: u128| i < c implies #[trigger] bit_at(x, i) == 0 by {
            lemma_half_bits(x, i);
            if i < 64 {
                assert(bit_at(l, i) == 0);
            } else {
                assert(bit_at(h, (i - 64) as u128) == 0);
            }
        }
    }
    r
}

/// The number of leading zeros of a 128-bit value: that of the high half, and
/// where it is zero that of the low half on top.
pub fn emit_ctlz128(ctx: &mut Context, insert_block: BlockId, input: Value) -> (r: Value)
    requires
        old(ctx).wf(),
        old(ctx).has_block(insert_block),
        old(ctx).has(input),
        input.ty() is Integer,
        input.ty()->width == 128,
    ensures
        final(ctx).computed_since(*old(ctx), insert_block),
        final(ctx).has(r),
        r.ty() == types::unsigned(64),
        forall|env: Env| leading_zeros(input.bits(env), 128, #[trigger] r.bits(env)),
{
    let (lo, hi) = split_u128_halves(ctx, insert_block, input);
    let hi_count = emit_ctlz64(ctx, insert_block, hi, 64);
    let lo_count = emit_ctlz64(ctx, insert_block, lo, 64);
    let extra = emit_if_zero(ctx, insert_block, hi, lo_count);
    let r = emit_add(ctx, insert_block, hi_count, extra);
    assert forall|env: Env| leading_zeros(input.bits(env), 128, #[trigger] r.bits(env)) by {
        let x = input.bits(env);
        let (l, h) = (lo.bits(env), hi.bits(env));
        let (lc, hc) = (lo_count.bits(env), hi_count.bits(env));
        assert(extra.bits(env) == if h == 0 { lc } else { 0 });
        assert(leading_zeros(l, 64, lc) && leading_zeros(h, 64, hc));
        let c = r.bits(env);
        assert(c == hc + extra.bits(env));
        if c < 128 {
            lemma_half_bits(x, (127 - c) as u128);
        }
        assert forall|i: u128| 128 - c <= i < 128 implies #[trigger] bit_at(x, i) == 0 by {
            lemma_half_bits(x, i);
            if i < 64 {
                assert(bit_at(l, i) == 0);
            } else {
                assert(bit_at(h, (i - 64) as u128) == 0);
            }
        }
    }
    r
}

/// The number of set bits of a 128-bit pattern is that of its halves.
proof fn lemma_ones_halves(x: u128, k: nat)
    requires
        k <= 64,
    ensures
        ones(x, k) == ones(x % 0x1_0000_0000_0000_0000, k),
        ones(x, k + 64) == ones(x % 0x1_0000_0000_0000_0000, 64) + ones(
            x / 0x1_0000_0000_0000_0000,
            k,
        ),
    decreases k,
{
    if k > 0 {
        lemma_ones_halves(x, (k - 1) as nat);
        lemma_half_bits(x, (k - 1) as u128);
        lemma_half_bits(x, (k + 63) as u128);
    } else {
        lemma_ones_low_half(x, 64);
    }
}

proof fn lemma_ones_low_half(x: u128, k: nat)
    requires
        k <= 64,
    ensures
        ones(x, k) == ones(x % 0x1_0000_0000_0000_0000, k),
    decreases k,
{
    if k > 0 {
        lemma_ones_low_half(x, (k - 1) as nat);
        lemma_half_bits(x, (k - 1) as u128);
    }
}

proof fn lemma_ones_bound(x: u128, k: nat)
    requires
        k <= 128,
    ensures
        ones(x, k) <= k,
    decreases k,
{
    if k > 0 {
        lemma_ones_bound(x, (k - 1) as nat);
        lemma_combined_bits(x, x, 128, (k - 1) as u128);
    }
}

/// The number of set bits of a 128-bit value.
pub fn emit_popcount128(ctx: &mut Context, insert_block: BlockId, input: Value) -> (r: Value)
    requires
        old(ctx).wf(),
        old(ctx).has_block(insert_block),
        old(ctx).has(input),
        input.ty() is Integer,
        input.ty()->width == 128,
    ensures
        final(ctx).computed_since(*old(ctx), insert_block),
        final(ctx).has(r),
        r.ty() == types::unsigned(64),
        forall|env: Env| #[trigger] r.bits(env) == ones(input.bits(env), 128),
{
    let (lo, hi) = split_u128_halves(ctx, insert_block, input);
    let lo_count = emit_popcount64(ctx, insert_block, lo);
    let hi_count = emit_popcount64(ctx, insert_block, hi);
    let r = emit_add(ctx, insert_block, lo_count, hi_count);
    assert forall|env: Env| #[trigger] r.bits(env) == ones(input.bits(env), 128) by {
        lemma_ones_halves(input.bits(env), 64);
        lemma_ones_bound(lo.bits(env), 64);
        lemma_ones_bound(hi.bits(env), 64);
        assert(lo_count.bits(env) == ones(lo.bits(env), 64));
        assert(hi_count.bits(env) == ones(hi.bits(env), 64));
    }
    r
}

/// The bytes of a word after one byte was merged in.
pub proof fn lemma_merge_byte(r: u128, b: u128, k: u128, j: u128)
    requires
        r < 0x1_0000_0000_0000_0000,
        b < 0x100,
        k < 8,
        j < 8,
    ensures
        (b << ((8 * k) as u128)) < 0x1_0000_0000_0000_0000,
        byte_at(r | (b << ((8 * k) as u128)), j) == (if j == k {
            byte_at(r, j) | b
        } else {
            byte_at(r, j)
        }),
{
    assert({
        &&& (b << ((8 * k) as u128)) < 0x1_0000_0000_0000_0000
        &&& byte_at(r | (b << ((8 * k) as u128)), j) == (if j == k {
            byte_at(r, j) | b
        } else {
            byte_at(r, j)
        })
    }) by (bit_vector)
        requires
            r < 0x1_0000_0000_0000_0000,
            b < 0x100,
            k < 8,
            j < 8,
    ;
}

/// A word that stays below a byte boundary, and the bytes above it.
proof fn lemma_byte_bounds(r: u128, b: u128, k: u128, n: u128)
    requires
        b < 0x100,
        k < n <= 8,
        r <= 0xffff_ffff_ffff_ffffu128 >> ((64 - 8 * n) as u128),
    ensures
        r | (b << ((8 * k) as u128)) <= 0xffff_ffff_ffff_ffffu128 >> ((64 - 8 * n) as u128),
        0 | b == b,
{
    assert(r | (b << ((8 * k) as u128)) <= 0xffff_ffff_ffff_ffffu128 >> ((64 - 8 * n) as u128) && 0
        | b == b) by (bit_vector)
        requires
            b < 0x100,
            k < n <= 8,
            r <= 0xffff_ffff_ffff_ffffu128 >> ((64 - 8 * n) as u128),
    ;
}

pub proof fn lemma_byte_small(x: u128, i: u128)
    ensures
        byte_at(x, i) < 0x100,
        byte_at(0, i) == 0,
{
    let s = (8 * i) as u128;
    assert((x >> s) & 0xff < 0x100 && (0u128 >> s) & 0xff == 0) by (bit_vector);
}

/// What a byte swap of `lanes` bytes has built after the first `done` lanes.
spec fn partly_swapped(x: u128, lanes: int, done: int, r: u128) -> bool {
    &&& r < 0x1_0000_0000_0000_0000
    &&& r <= 0xffff_ffff_ffff_ffffu128 >> ((64 - 8 * lanes) as u128)
    &&& forall|i: u128|
        i < lanes ==> #[trigger] byte_at(r, i) == if i >= lanes - done {
            byte_at(x, (lanes - 1 - i) as u128)
        } else {
            0
        }
}

/// Moves one byte of a value to another place of a result.
fn emit_move_byte(
    ctx: &mut Context,
    insert_block: BlockId,
    x: Value,
    byte_mask: Value,
    result: Value,
    from: u32,
    to: u32,
) -> (r: Value)
    requires
        old(ctx).wf(),
        old(ctx).has_block(insert_block),
        old(ctx).has(x),
        old(ctx).has(byte_mask),
        old(ctx).has(result),
        x.ty() == types::unsigned(64),
        byte_mask.ty() == types::unsigned(64),
        result.ty() == types::unsigned(64),
        forall|env: Env| #[trigger] byte_mask.bits(env) == 0xff,
        from < 8,
        to < 8,
    ensures
        final(ctx).computed_since(*old(ctx), insert_block),
        final(ctx).has(r),
        r.ty() == types::unsigned(64),
        forall|env: Env| #[trigger]
            r.bits(env) == result.bits(env) | (byte_at(x.bits(env), from as u128) << ((8
                * to) as u128)),
{
    let down = emit_unsigned(ctx, insert_block, 64, (from * 8) as u128);
    let shifted = emit_lshr(ctx, insert_block, x, down);
    let byte = emit_and(ctx, insert_block, shifted, byte_mask);
    let up = emit_unsigned(ctx, insert_block, 64, (to * 8) as u128);
    let placed = emit_shl(ctx, insert_block, byte, up);
    let r = emit_or(ctx, insert_block, result, placed);
    assert forall|env: Env| #[trigger]
        r.bits(env) == result.bits(env) | (byte_at(x.bits(env), from as u128) << ((8
            * to) as u128)) by {
        assert(down.bits(env) == from * 8);
        assert(up.bits(env) == to * 8);
        assert(byte_mask.bits(env) == 0xff);
        let b = byte_at(x.bits(env), from as u128);
        assert(byte.bits(env) == b);
        lemma_byte_small(x.bits(env), from as u128);
        ctx.value_in_range(result, env);
        lemma_merge_byte(0, b, to as u128, 0);
        sem::lemma_wrap_small(64, (b << ((8 * to) as u128)) as int);
        assert(placed.bits(env) == b << ((8 * to) as u128));
    }
    r
}

/// The low `width` bits of an unsigned 64-bit value with their bytes in the
/// opposite order, one byte at a time.
pub fn emit_bswap64(ctx: &mut Context, insert_block: BlockId, x: Value, width: u32) -> (r: Value)
    requires
        old(ctx).wf(),
        old(ctx).has_block(insert_block),
        old(ctx).has(x),
        x.ty() == types::unsigned(64),
        8 <= width <= 64,
        width % 8 == 0,
    ensures
        final(ctx).computed_since(*old(ctx), insert_block),
        final(ctx).has(r),
        r.ty() == types::unsigned(64),
        forall|env: Env| bytes_swapped(x.bits(env), width, #[trigger] r.bits(env)),
{
    let ghost before = *ctx;
    let lanes: u32 = width / 8;
    let byte_mask = emit_unsigned(ctx, insert_block, 64, 0xff);
    let mut result = emit_unsigned(ctx, insert_block, 64, 0);
    proof {
        assert forall|env: Env| #[trigger] byte_mask.bits(env) == 0xff by {}
        assert forall|env: Env| partly_swapped(
            x.bits(env),
            lanes as int,
            0,
            #[trigger] result.bits(env),
        ) by {
            assert forall|i: u128| i < lanes implies #[trigger] byte_at(0, i) == 0 by {
                lemma_byte_small(0, i);
            }
        }
    }
    let mut lane: u32 = 0;
    while lane < lanes
        invariant
            lane <= lanes,
            1 <= lanes <= 8,
            ctx.computed_since(before, insert_block),
            before.has_block(insert_block),
            before.has(x),
            ctx.has(byte_mask),
            ctx.has(result),
            x.ty() == types::unsigned(64),
            byte_mask.ty() == types::unsigned(64),
            result.ty() == types::unsigned(64),
            forall|env: Env| #[trigger] byte_mask.bits(env) == 0xff,
            forall|env: Env|
                partly_swapped(
                    x.bits(env),
                    lanes as int,
                    lane as int,
                    #[trigger] result.bits(env),
                ),
        decreases lanes - lane,
    {
        let next = emit_move_byte(
            ctx,
            insert_block,
            x,
            byte_mask,
            result,
            lane,
            lanes - 1 - lane,
        );
        assert forall|env: Env| partly_swapped(
            x.bits(env),
            lanes as int,
            lane + 1,
            #[trigger] next.bits(env),
        ) by {
            let old_bits = result.bits(env);
            let b = byte_at(x.bits(env), lane as u128);
            let to = (lanes - 1 - lane) as u128;
            lemma_byte_small(x.bits(env), lane as u128);
            lemma_byte_bounds(old_bits, b, to, lanes as u128);
            assert(next.bits(env) == old_bits | (b << ((8 * to) as u128)));
            ctx.value_in_range(next, env);
            assert forall|i: u128| i < lanes implies #[trigger] byte_at(next.bits(env), i) == (
            if i >= lanes - (lane + 1) {
                byte_at(x.bits(env), (lanes - 1 - i) as u128)
            } else {
                0
            }) by {
                lemma_merge_byte(old_bits, b, to, i);
                assert(byte_at(old_bits, i) == byte_at(old_bits, i));
            }
        }
        result = next;
        lane = lane + 1;
    }
    assert forall|env: Env| bytes_swapped(x.bits(env), width, #[trigger] result.bits(env)) by {
        assert(partly_swapped(x.bits(env), lanes as int, lanes as int, result.bits(env)));
        lemma_low_is_mask(width);
        assert((0xffff_ffff_ffff_ffffu64 >> ((64 - width) as u64)) as u128
            == 0xffff_ffff_ffff_ffffu128 >> ((64 - 8 * lanes) as u128));
    }
    result
}

/// Swaps neighbouring groups of `shift` bits that a mask selects.
fn emit_swap_groups(
    ctx: &mut Context,
    insert_block: BlockId,
    x: Value,
    mask_bits: u64,
    shift: u64,
) -> (r: Value)
    requires
        old(ctx).wf(),
        old(ctx).has_block(insert_block),
        old(ctx).has(x),
        x.ty() == types::unsigned(64),
        shift < 64,
    ensures
        final(ctx).computed_since(*old(ctx), insert_block),
        final(ctx).has(r),
        r.ty() == types::unsigned(64),
        forall|env: Env| #[trigger]
            r.bits(env) == ((((x.bits(env) as u64) >> shift) & mask_bits) | (((x.bits(env) as u64)
                & mask_bits) << shift)) as u128,
{
    let mask = emit_unsigned(ctx, insert_block, 64, mask_bits as u128);
    let amount = emit_unsigned(ctx, insert_block, 64, shift as u128);
    let down_wide = emit_lshr(ctx, insert_block, x, amount);
    let down = emit_and(ctx, insert_block, down_wide, mask);
    let up_narrow = emit_and(ctx, insert_block, x, mask);
    let up = emit_shl(ctx, insert_block, up_narrow, amount);
    let r = emit_or(ctx, insert_block, down, up);
    assert forall|env: Env| #[trigger]
        r.bits(env) == ((((x.bits(env) as u64) >> shift) & mask_bits) | (((x.bits(env) as u64)
            & mask_bits) << shift)) as u128 by {
        ctx.value_in_range(x, env);
        let w = x.bits(env) as u64;
        assert(mask.bits(env) == mask_bits as u128);
        assert(amount.bits(env) == shift as u128);
        assert(down.bits(env) == ((w >> shift) & mask_bits) as u128);
        assert(up_narrow.bits(env) == (w & mask_bits) as u128);
        lemma_shl_word(w & mask_bits, shift);
        assert(up.bits(env) == ((w & mask_bits) << shift) as u128);
    }
    r
}

proof fn lemma_reverse(x: u64, a: u64, b: u64, c: u64, y: u64, i: u64)
    requires
        a == ((x >> 1u64) & 0x5555_5555_5555_5555) | ((x & 0x5555_5555_5555_5555) << 1u64),
        b == ((a >> 2u64) & 0x3333_3333_3333_3333) | ((a & 0x3333_3333_3333_3333) << 2u64),
        c == ((b >> 4u64) & 0x0f0f_0f0f_0f0f_0f0f) | ((b & 0x0f0f_0f0f_0f0f_0f0f) << 4u64),
        bytes_swapped(c as u128, 64, y as u128),
        i < 64,
    ensures
        word_bit(y, i) == word_bit(x, (63 - i) as u64),
{
    let (yy, cc) = (y as u128, c as u128);
    assert(byte_at(yy, 0) == byte_at(cc, 7));
    assert(byte_at(yy, 1) == byte_at(cc, 6));
    assert(byte_at(yy, 2) == byte_at(cc, 5));
    assert(byte_at(yy, 3) == byte_at(cc, 4));
    assert(byte_at(yy, 4) == byte_at(cc, 3));
    assert(byte_at(yy, 5) == byte_at(cc, 2));
    assert(byte_at(yy, 6) == byte_at(cc, 1));
    assert(byte_at(yy, 7) == byte_at(cc, 0));
    assert(word_bit(y, i) == word_bit(x, (63 - i) as u64)) by (bit_vector)
        requires
            a == ((x >> 1u64) & 0x5555_5555_5555_5555) | ((x & 0x5555_5555_5555_5555) << 1u64),
            b == ((a >> 2u64) & 0x3333_3333_3333_3333) | ((a & 0x3333_3333_3333_3333) << 2u64),
            c == ((b >> 4u64) & 0x0f0f_0f0f_0f0f_0f0f) | ((b & 0x0f0f_0f0f_0f0f_0f0f) << 4u64),
            byte_at(y as u128, 0) == byte_at(c as u128, 7),
            byte_at(y as u128, 1) == byte_at(c as u128, 6),
            byte_at(y as u128, 2) == byte_at(c as u128, 5),
            byte_at(y as u128, 3) == byte_at(c as u128, 4),
            byte_at(y as u128, 4) == byte_at(c as u128, 3),
            byte_at(y as u128, 5) == byte_at(c as u128, 2),
            byte_at(y as u128, 6) == byte_at(c as u128, 1),
            byte_at(y as u128, 7) == byte_at(c as u128, 0),
            i < 64,
    ;
}

proof fn lemma_shifted_bit(y: u64, d: u64, i: u64)
    requires
        d + i < 64,
    ensures
        word_bit(y >> d, i) == word_bit(y, (d + i) as u64),
        y >> d <= 0xffff_ffff_ffff_ffffu64 >> d,
        y >> 0u64 == y,
{
    assert(word_bit(y >> d, i) == word_bit(y, (d + i) as u64) && y >> d
        <= 0xffff_ffff_ffff_ffffu64 >> d && y >> 0u64 == y) by (bit_vector)
        requires
            d + i < 64,
    ;
}

/// The low `width` bits of an unsigned 64-bit value in the opposite order:
/// swaps of neighbouring bits, pairs and nibbles reverse each byte, a byte
/// swap reverses the word, and a shift aligns what was asked for.
pub fn emit_bitreverse64(ctx: &mut Context, insert_block: BlockId, x: Value, width: u32) -> (r:
    Value)
    requires
        old(ctx).wf(),
        old(ctx).has_block(insert_block),
        old(ctx).has(x),
        x.ty() == types::unsigned(64),
        1 <= width <= 64,
    ensures
        final(ctx).computed_since(*old(ctx), insert_block),
        final(ctx).has(r),
        r.ty() == types::unsigned(64),
        forall|env: Env| bits_reversed(x.bits(env), width, #[trigger] r.bits(env)),
{
    let a = emit_swap_groups(ctx, insert_block, x, 0x5555_5555_5555_5555, 1);
    let b = emit_swap_groups(ctx, insert_block, a, 0x3333_3333_3333_3333, 2);
    let c = emit_swap_groups(ctx, insert_block, b, 0x0f0f_0f0f_0f0f_0f0f, 4);
    let y = emit_bswap64(ctx, insert_block, c, 64);
    let r = if width < 64 {
        let down = emit_unsigned(ctx, insert_block, 64, (64 - width) as u128);
        let r = emit_lshr(ctx, insert_block, y, down);
        assert forall|env: Env| #[trigger] r.bits(env) == y.bits(env) >> ((64
            - width) as u128) by {
            assert(down.bits(env) == 64 - width);
        }
        r
    } else {
        y
    };
    assert forall|env: Env| bits_reversed(x.bits(env), width, #[trigger] r.bits(env)) by {
        ctx.value_in_range(x, env);
        ctx.value_in_range(a, env);
        ctx.value_in_range(b, env);
        ctx.value_in_range(c, env);
        ctx.value_in_range(y, env);
        let (wx, wy) = (x.bits(env) as u64, y.bits(env) as u64);
        let d = (64 - width) as u64;
        assert(bytes_swapped(c.bits(env), 64, y.bits(env)));
        lemma_shifted_bit(wy, d, 0);
        assert(r.bits(env) == (wy >> d) as u128);
        lemma_low_is_mask(width);
        assert forall|i: u128| i < width implies #[trigger] bit_at(r.bits(env), i) == bit_at(
            x.bits(env),
            (width - 1 - i) as u128,
        ) by {
            let j = i as u64;
            lemma_shifted_bit(wy, d, j);
            lemma_reverse(
                wx,
                a.bits(env) as u64,
                b.bits(env) as u64,
                c.bits(env) as u64,
                wy,
                (d + j) as u64,
            );
            lemma_bits_split(wy >> d, j);
            lemma_bits_split(wx, (width - 1 - j) as u64);
        }
    }
    r
}

/// A width whose rotations are taken modulo a power of two.
pub open spec fn rotate_width(width: u32) -> bool {
    width == 1 || width == 2 || width == 4 || width == 8 || width == 16 || width == 32 || width
        == 64
}

/// The patterns of a width fill its low bits.
spec fn low_128(n: u128) -> u128 {
    0xffff_ffff_ffff_ffff_ffff_ffff_ffff_ffffu128 >> ((128 - n) as u128)
}

/// Amounts modulo a power of two, and their complements.
proof fn lemma_amounts(w: u128, s: u128, k: u128, inv: u128)
    requires
        w == 1 || w == 2 || w == 4 || w == 8 || w == 16 || w == 32 || w == 64 || w == 128,
        k == s & ((w - 1) as u128),
        inv == ((w - k) as u128) & ((w - 1) as u128),
    ensures
        k == s % w,
        k < w,
        inv == if k == 0 { 0 } else { w - k },
{
    assert(s & 0 == s % 1 && s & 1 == s % 2 && s & 3 == s % 4 && s & 7 == s % 8 && s & 15 == s % 16
        && s & 31 == s % 32 && s & 63 == s % 64 && s & 127 == s % 128) by (bit_vector);
    let c = (w - k) as u128;
    assert(c & 0 == c % 1 && c & 1 == c % 2 && c & 3 == c % 4 && c & 7 == c % 8 && c & 15 == c % 16
        && c & 31 == c % 32 && c & 63 == c % 64 && c & 127 == c % 128) by (bit_vector);
}

proof fn lemma_shifted_bits(x: u128, k: u128, p: u128)
    requires
        k < 128,
        p < 128,
    ensures
        bit_at(x << k, p) == (if p >= k { bit_at(x, (p - k) as u128) } else { 0 }),
        bit_at(x >> k, p) == (if p + k < 128 { bit_at(x, (p + k) as u128) } else { 0 }),
{
    assert(bit_at(x << k, p) == (if p >= k { bit_at(x, (p - k) as u128) } else { 0 }))
        by (bit_vector)
        requires
            k < 128,
            p < 128,
    ;
    assert(bit_at(x >> k, p) == (if p + k < 128 { bit_at(x, (p + k) as u128) } else { 0 }))
        by (bit_vector)
        requires
            k < 128,
            p < 128,
    ;
}

proof fn lemma_combined_bits(a: u128, b: u128, n: u128, p: u128)
    requires
        1 <= n <= 128,
        p < 128,
    ensures
        bit_at(a | b, p) == bit_at(a, p) | bit_at(b, p),
        bit_at(a, p) <= 1,
        0 | bit_at(a, p) == bit_at(a, p),
        bit_at(a, p) | 0 == bit_at(a, p),
        bit_at(a, p) | bit_at(a, p) == bit_at(a, p),
        a & low_128(n) <= low_128(n),
        a <= low_128(n) ==> a & low_128(n) == a,
        bit_at(a & low_128(n), p) == (if p < n { bit_at(a, p) } else { 0 }),
{
    assert({
        &&& bit_at(a | b, p) == bit_at(a, p) | bit_at(b, p)
        &&& bit_at(a, p) <= 1
        &&& 0 | bit_at(a, p) == bit_at(a, p)
        &&& bit_at(a, p) | 0 == bit_at(a, p)
        &&& bit_at(a, p) | bit_at(a, p) == bit_at(a, p)
        &&& a & low_128(n) <= low_128(n)
        &&& a <= low_128(n) ==> a & low_128(n) == a
        &&& bit_at(a & low_128(n), p) == (if p < n { bit_at(a, p) } else { 0 })
    }) by (bit_vector)
        requires
            1 <= n <= 128,
            p < 128,
    ;
}

proof fn lemma_low_128_is_mask(width: u32)
    requires
        1 <= width <= 128,
    ensures
        low_128(width as u128) == sem::modulus(width) - 1,
{
    sem::lemma_ones(width);
}

/// A left shift merged with the complementary right shift rotates.
proof fn lemma_rotation(x: u128, width: u32, s: u128, k: u128, inv: u128, left: bool, i: u128)
    requires
        rotate_width(width) || width == 128,
        x < sem::modulus(width),
        k == s & ((width - 1) as u128),
        inv == ((width - k) as u128) & ((width - 1) as u128),
        i < width,
    ensures
        ({
            let (l, d) = if left { (k, inv) } else { (inv, k) };
            let total = if left { s as int } else { -s };
            let p = ((i + total) % (width as int)) as u128;
            &&& l < width && d < width
            &&& p < width
            &&& bit_at((x << l) | (x >> d), p) == bit_at(x, i)
        }),
{
    let w = width as u128;
    let (l, d) = if left { (k, inv) } else { (inv, k) };
    let total = if left { s as int } else { -s };
    lemma_amounts(w, s, k, inv);
    assert((k + inv) % (width as int) == 0);
    lemma_places(i as int, total, l as int, width as int, s as int, k as int, inv as int, left);
    let p = if i + l < w { (i + l) as u128 } else { (i + l - w) as u128 };
    assert(p == (i + l) % (width as int)) by {
        if i + l >= w {
            vstd::arithmetic::div_mod::lemma_mod_add_multiples_vanish(i + l - w, w as int);
        }
        vstd::arithmetic::div_mod::lemma_small_mod(p as nat, w as nat);
    }
    lemma_low_128_is_mask(width);
    lemma_shifted_bits(x, l, p);
    lemma_shifted_bits(x, d, p);
    lemma_combined_bits(x << l, x >> d, w, p);
    lemma_combined_bits(x, x, w, i);
    if p + d < 128 {
        lemma_combined_bits(x, x, w, (p + d) as u128);
    }
}

/// Rotates the low `width` bits of an unsigned 64-bit value that is zero
/// above them, to the left or to the right, by an amount taken modulo the
/// width.
pub fn emit_rotate64(
    ctx: &mut Context,
    insert_block: BlockId,
    x: Value,
    shift: Value,
    width: u32,
    left: bool,
) -> (r: Value)
    requires
        old(ctx).wf(),
        old(ctx).has_block(insert_block),
        old(ctx).has(x),
        old(ctx).has(shift),
        x.ty() == types::unsigned(64),
        shift.ty() == types::unsigned(64),
        rotate_width(width),
    ensures
        final(ctx).computed_since(*old(ctx), insert_block),
        final(ctx).has(r),
        r.ty() == types::unsigned(64),
        forall|env: Env|
            x.bits(env) < sem::modulus(width) ==> rotated(
                x.bits(env),
                width,
                if left {
                    shift.bits(env) as int
                } else {
                    -shift.bits(env)
                },
                #[trigger] r.bits(env),
            ),
{
    let plain = if width < 64 {
        let mask = emit_unsigned(ctx, insert_block, 64, low_mask(width));
        emit_and(ctx, insert_block, x, mask)
    } else {
        x
    };
    let modulus_mask = emit_unsigned(ctx, insert_block, 64, (width - 1) as u128);
    let k = emit_and(ctx, insert_block, shift, modulus_mask);
    let width_value = emit_unsigned(ctx, insert_block, 64, width as u128);
    let complement = emit_sub(ctx, insert_block, width_value, k);
    let inv = emit_and(ctx, insert_block, complement, modulus_mask);
    let up = if left {
        emit_shl(ctx, insert_block, plain, k)
    } else {
        emit_shl(ctx, insert_block, plain, inv)
    };
    let down = if left {
        emit_lshr(ctx, insert_block, plain, inv)
    } else {
        emit_lshr(ctx, insert_block, plain, k)
    };
    let merged = emit_or(ctx, insert_block, up, down);
    let r = if width < 64 {
        let mask = emit_unsigned(ctx, insert_block, 64, low_mask(width));
        emit_and(ctx, insert_block, merged, mask)
    } else {
        merged
    };
    assert forall|env: Env| x.bits(env) < sem::modulus(width) implies rotated(
        x.bits(env),
        width,
        if left {
            shift.bits(env) as int
        } else {
            -shift.bits(env)
        },
        #[trigger] r.bits(env),
    ) by {
        let (bx, bs) = (x.bits(env), shift.bits(env));
        let w = width as u128;
        ctx.value_in_range(x, env);
        lemma_low_128_is_mask(width);
        lemma_modulus_le_64(width);
        lemma_combined_bits(bx, bx, w, 0);
        assert(plain.bits(env) == bx);
        assert(modulus_mask.bits(env) == (width - 1) as u128);
        assert(width_value.bits(env) == w);
        let bk = bs & ((w - 1) as u128);
        let binv = ((w - bk) as u128) & ((w - 1) as u128);
        lemma_amounts(w, bs, bk, binv);
        assert(k.bits(env) == bk);
        assert(complement.bits(env) == w - bk);
        assert(inv.bits(env) == binv);
        let (l, d) = if left { (bk, binv) } else { (binv, bk) };
        assert(down.bits(env) == bx >> d);
        assert(up.bits(env) == (bx << l) % 0x1_0000_0000_0000_0000);
        let total = if left { bs as int } else { -bs };
        ctx.value_in_range(merged, env);
        lemma_combined_bits(merged.bits(env), 0, w, 0);
        assert(r.bits(env) == if width < 64 {
            merged.bits(env) & low_128(w)
        } else {
            merged.bits(env)
        });
        assert forall|i: u128| i < width implies #[trigger] bit_at(bx, i) == bit_at(
            r.bits(env),
            ((i + total) % (width as int)) as u128,
        ) by {
            lemma_rotation(bx, width, bs, bk, binv, left, i);
            let p = ((i + total) % (width as int)) as u128;
            lemma_combined_bits(merged.bits(env), 0, w, p);
            lemma_combined_bits(bx << l, bx >> d, w, p);
            lemma_combined_bits(up.bits(env), down.bits(env), w, p);
            lemma_half_bits(bx << l, p);
        }
    }
    r
}

/// Moving by an amount, or by its remainder, ends at the same place.
proof fn lemma_places(
    i: int,
    total: int,
    l: int,
    w: int,
    s: int,
    k: int,
    inv: int,
    left: bool,
)
    requires
        w > 0,
        k == s % w,
        (k + inv) % w == 0,
        left ==> total == s && l == k,
        !left ==> total == -s && l == inv,
    ensures
        (i + total) % w == (i + l) % w,
        0 <= (i + l) % w < w,
{
    if left {
        vstd::arithmetic::div_mod::lemma_add_mod_noop_right(i, s, w);
    } else {
        vstd::arithmetic::div_mod::lemma_sub_mod_noop_right(i, s, w);
        assert((i - s) % w == (i - k) % w);
        // i + inv = (i - k) + (k + inv)
        vstd::arithmetic::div_mod::lemma_add_mod_noop_right(i - k, k + inv, w);
        assert(i - k + (k + inv) == i + inv);
    }
    vstd::arithmetic::div_mod::lemma_mod_bound(i + l, w);
}

/// Rotates an unsigned 128-bit value to the left or to the right, by an
/// amount taken modulo its width.
pub fn emit_rotate128(
    ctx: &mut Context,
    insert_block: BlockId,
    x: Value,
    shift: Value,
    left: bool,
) -> (r: Value)
    requires
        old(ctx).wf(),
        old(ctx).has_block(insert_block),
        old(ctx).has(x),
        old(ctx).has(shift),
        x.ty() == types::unsigned(128),
        shift.ty() == types::unsigned(128),
    ensures
        final(ctx).computed_since(*old(ctx), insert_block),
        final(ctx).has(r),
        r.ty() == types::unsigned(128),
        forall|env: Env|
            rotated(
                x.bits(env),
                128,
                if left {
                    shift.bits(env) as int
                } else {
                    -shift.bits(env)
                },
                #[trigger] r.bits(env),
            ),
{
    let modulus_mask = emit_unsigned(ctx, insert_block, 128, 127);
    let k = emit_and(ctx, insert_block, shift, modulus_mask);
    let width_value = emit_unsigned(ctx, insert_block, 128, 128);
    let complement = emit_sub(ctx, insert_block, width_value, k);
    let inv = emit_and(ctx, insert_block, complement, modulus_mask);
    let up = if left {
        emit_shl(ctx, insert_block, x, k)
    } else {
        emit_shl(ctx, insert_block, x, inv)
    };
    let down = if left {
        emit_lshr(ctx, insert_block, x, inv)
    } else {
        emit_lshr(ctx, insert_block, x, k)
    };
    let r = emit_or(ctx, insert_block, up, down);
    assert forall|env: Env| rotated(
        x.bits(env),
        128,
        if left {
            shift.bits(env) as int
        } else {
            -shift.bits(env)
        },
        #[trigger] r.bits(env),
    ) by {
        let (bx, s) = (x.bits(env), shift.bits(env));
        assert(modulus_mask.bits(env) == 127);
        assert(width_value.bits(env) == 128);
        let bk = s & 127;
        let binv = ((128 - bk) as u128) & 127;
        lemma_amounts(128, s, bk, binv);
        assert(k.bits(env) == bk);
        assert(complement.bits(env) == 128 - bk);
        assert(inv.bits(env) == binv);
        let (l, d) = if left { (bk, binv) } else { (binv, bk) };
        assert(up.bits(env) == bx << l);
        assert(down.bits(env) == bx >> d);
        let total = if left { s as int } else { -s };
        assert forall|i: u128| i < 128 implies #[trigger] bit_at(bx, i) == bit_at(
            r.bits(env),
            ((i + total) % 128int) as u128,
        ) by {
            lemma_rotation(bx, 128, s, bk, binv, left, i);
        }
    }
    r
}

/// A pattern is made of its lowest bit and the rest, and of its lowest byte
/// and the rest.
proof fn lemma_lowest_part(x: u128)
    ensures
        x == 2 * (x >> 1) + bit_at(x, 0),
        x == 256 * (x >> 8) + byte_at(x, 0),
{
    assert(x == 2 * (x >> 1) + ((x >> 0) & 1) && x == 256 * (x >> 8) + ((x >> 0) & 0xff))
        by (bit_vector);
}

/// Shifting by one bit or one byte and then on is shifting once by both.
proof fn lemma_shift_on(x: u128, by: u128)
    ensures
        by < 127 ==> (x >> 1) >> by == x >> ((1 + by) as u128),
        by < 120 ==> (x >> 8) >> by == x >> ((8 + by) as u128),
{
    assert({
        &&& by < 127 ==> (x >> 1) >> by == x >> ((1 + by) as u128)
        &&& by < 120 ==> (x >> 8) >> by == x >> ((8 + by) as u128)
    }) by (bit_vector);
}

/// A pattern is the pattern of its bits.
pub proof fn lemma_same_bits(a: u128, b: u128, width: u32)
    requires
        width <= 128,
        a < sem::modulus(width),
        b < sem::modulus(width),
        forall|i: u128| i < width ==> #[trigger] bit_at(a, i) == bit_at(b, i),
    ensures
        a == b,
    decreases width,
{
    sem::lemma_modulus(width);
    vstd::arithmetic::power2::lemma2_to64();
    if width > 0 {
        let less = (width - 1) as u32;
        sem::lemma_modulus(less);
        vstd::arithmetic::power2::lemma_pow2_unfold(width as nat);
        lemma_lowest_part(a);
        lemma_lowest_part(b);
        assert(bit_at(a, 0) == bit_at(b, 0));
        assert forall|i: u128| i < less implies #[trigger] bit_at(a >> 1, i) == bit_at(
            b >> 1,
            i,
        ) by {
            lemma_shift_on(a, i);
            lemma_shift_on(b, i);
            assert(bit_at(a, (1 + i) as u128) == bit_at(b, (1 + i) as u128));
        }
        lemma_same_bits(a >> 1, b >> 1, less);
    }
}

/// A pattern is the pattern of its bytes.
pub proof fn lemma_same_bytes(a: u128, b: u128, width: u32)
    requires
        width <= 128,
        width % 8 == 0,
        a < sem::modulus(width),
        b < sem::modulus(width),
        forall|i: u128| i < width / 8 ==> #[trigger] byte_at(a, i) == byte_at(b, i),
    ensures
        a == b,
    decreases width,
{
    sem::lemma_modulus(width);
    vstd::arithmetic::power2::lemma2_to64();
    if width > 0 {
        let less = (width - 8) as u32;
        sem::lemma_modulus(less);
        vstd::arithmetic::power2::lemma_pow2_adds(8, less as nat);
        lemma_lowest_part(a);
        lemma_lowest_part(b);
        assert(byte_at(a, 0) == byte_at(b, 0));
        assert forall|i: u128| i < less / 8 implies #[trigger] byte_at(a >> 8, i) == byte_at(
            b >> 8,
            i,
        ) by {
            lemma_shift_on(a, (8 * i) as u128);
            lemma_shift_on(b, (8 * i) as u128);
            assert(byte_at(a, (1 + i) as u128) == byte_at(b, (1 + i) as u128));
        }
        lemma_same_bytes(a >> 8, b >> 8, less);
    }
}

/// A bit is one or zero.
pub proof fn lemma_bit_small(x: u128, i: u128)
    ensures
        bit_at(x, i) <= 1,
{
    emit::lemma_and_small(1, x >> i);
}

/// There is a pattern of a width with any given bits.
pub proof fn lemma_pattern(width: u32, f: spec_fn(int) -> bool) -> (r: u128)
    requires
        width <= 128,
    ensures
        r < sem::modulus(width),
        forall|i: u128| i < width ==> #[trigger] bit_at(r, i) == sem::bit(f(i as int)),
    decreases width,
{
    sem::lemma_modulus(width);
    vstd::arithmetic::power2::lemma2_to64();
    if width == 0 {
        0
    } else {
        let less = (width - 1) as u32;
        let rest = lemma_pattern(less, |i: int| f(i + 1));
        sem::lemma_modulus(less);
        sem::lemma_modulus(128);
        vstd::arithmetic::power2::lemma_pow2_unfold(width as nat);
        vstd::arithmetic::power2::lemma_pow2_adds(width as nat, (128 - width) as nat);
        vstd::arithmetic::power2::lemma_pow2_pos((128 - width) as nat);
        let (p, q) = (sem::modulus(width), vstd::arithmetic::power2::pow2((128 - width) as nat));
        assert(p <= p * q) by (nonlinear_arith)
            requires
                p > 0,
                q >= 1,
        ;
        let r = (2 * rest + sem::bit(f(0))) as u128;
        assert forall|i: u128| i < width implies #[trigger] bit_at(r, i) == sem::bit(
            f(i as int),
        ) by {
            lemma_lowest_part(r);
            lemma_bit_small(r, 0);
            if i > 0 {
                let before = (i - 1) as u128;
                lemma_shift_on(r, before);
                assert(r >> 1 == rest);
                assert(bit_at(rest, before) == sem::bit(f(before + 1)));
            }
        }
        r
    }
}

/// The low bits of a pattern are those of what it is modulo a width.
proof fn lemma_wrapped_bit(x: u128, width: u32, i: u128)
    requires
        i < width <= 128,
    ensures
        bit_at(sem::wrap(width, x as int), i) == bit_at(x, i),
{
    sem::lemma_modulus(width);
    vstd::arithmetic::power2::lemma2_to64();
    let up = (width - i - 1) as nat;
    let (d, m) = (
        vstd::arithmetic::power2::pow2(i as nat) as int,
        vstd::arithmetic::power2::pow2(up) as int,
    );
    vstd::arithmetic::power2::lemma_pow2_adds(i as nat, up + 1);
    vstd::arithmetic::power2::lemma_pow2_unfold(up + 1);
    vstd::arithmetic::power2::lemma_pow2_pos(i as nat);
    let low = sem::wrap(width, x as int);
    let n = sem::modulus(width);
    let q = x as int / n;
    vstd::arithmetic::div_mod::lemma_fundamental_div_mod(x as int, n);
    vstd::arithmetic::div_mod::lemma_mod_bound(x as int, n);
    vstd::arithmetic::div_mod::lemma_mod_decreases(x as nat, n as nat);
    assert(low == x as int % n);
    assert(n * q == (2 * (m * q)) * d) by (nonlinear_arith)
        requires
            n == d * (2 * m),
    ;
    vstd::arithmetic::div_mod::lemma_hoist_over_denominator(low as int, 2 * (m * q), d as nat);
    vstd::bits::lemma_u128_shr_is_div(x, i);
    vstd::bits::lemma_u128_shr_is_div(low, i);
    let (a, b) = (x >> i, low >> i);
    assert(a == b + 2 * (m * q));
    lemma_lowest_part(a);
    lemma_lowest_part(b);
    lemma_bit_small(a, 0);
    lemma_bit_small(b, 0);
    vstd::bits::lemma_u128_shr_is_div(a, 0);
    vstd::bits::lemma_u128_shr_is_div(b, 0);
}

/// Swapping the bytes twice gives the low bytes of the pattern back.
pub proof fn law_bytes_swapped_twice(x: u128, width: u32, once: u128, twice: u128)
    requires
        width <= 128,
        width % 8 == 0,
        bytes_swapped(x, width, once),
        bytes_swapped(once, width, twice),
    ensures
        forall|i: u128| i < width / 8 ==> #[trigger] byte_at(twice, i) == byte_at(x, i),
        x < sem::modulus(width) ==> twice == x,
{
    assert forall|i: u128| i < width / 8 implies #[trigger] byte_at(twice, i) == byte_at(
        x,
        i,
    ) by {
        let j = (width / 8 - 1 - i) as u128;
        assert(byte_at(once, j) == byte_at(x, (width / 8 - 1 - j) as u128));
    }
    if x < sem::modulus(width) {
        lemma_same_bytes(twice, x, width);
    }
}

/// Reversing the order of the bits twice gives the pattern back, modulo the
/// width.
pub proof fn law_bits_reversed_twice(x: u128, width: u32, once: u128, twice: u128)
    requires
        width <= 128,
        bits_reversed(x, width, once),
        bits_reversed(once, width, twice),
    ensures
        twice == sem::wrap(width, x as int),
        x < sem::modulus(width) ==> twice == x,
{
    let low = sem::wrap(width, x as int);
    sem::lemma_modulus(width);
    vstd::arithmetic::div_mod::lemma_mod_bound(x as int, sem::modulus(width));
    vstd::arithmetic::div_mod::lemma_mod_decreases(x as nat, sem::modulus(width) as nat);
    assert forall|i: u128| i < width implies #[trigger] bit_at(twice, i) == bit_at(low, i) by {
        let j = (width - 1 - i) as u128;
        assert(bit_at(once, j) == bit_at(x, (width - 1 - j) as u128));
        lemma_wrapped_bit(x, width, i);
    }
    lemma_same_bits(twice, low, width);
    if x < sem::modulus(width) {
        vstd::arithmetic::div_mod::lemma_small_mod(x as nat, sem::modulus(width) as nat);
    }
}

/// Rotating up and then down by the same number of places gives the pattern
/// back.
pub proof fn law_rotated_back(x: u128, width: u32, shift: int, up: u128, back: u128)
    requires
        0 < width <= 128,
        x < sem::modulus(width),
        rotated(x, width, shift, up),
        rotated(up, width, -shift, back),
    ensures
        back == x,
{
    assert forall|i: u128| i < width implies #[trigger] bit_at(back, i) == bit_at(x, i) by {
        let w = width as int;
        let j = ((i + shift) % w) as u128;
        vstd::arithmetic::div_mod::lemma_mod_bound(i + shift, w);
        vstd::arithmetic::div_mod::lemma_add_mod_noop_right(-shift, i + shift, w);
        vstd::arithmetic::div_mod::lemma_small_mod(i as nat, w as nat);
        assert(bit_at(up, j) == bit_at(x, i));
        assert(bit_at(up, j) == bit_at(back, ((j - shift) % w) as u128));
    }
    lemma_same_bits(back, x, width);
}

/// Rotating by a multiple of the width gives the pattern back.
pub proof fn law_rotated_round(x: u128, width: u32, shift: int, r: u128)
    requires
        0 < width <= 128,
        x < sem::modulus(width),
        shift % (width as int) == 0,
        rotated(x, width, shift, r),
    ensures
        r == x,
{
    assert forall|i: u128| i < width implies #[trigger] bit_at(r, i) == bit_at(x, i) by {
        let w = width as int;
        vstd::arithmetic::div_mod::lemma_add_mod_noop_right(i as int, shift, w);
        vstd::arithmetic::div_mod::lemma_small_mod(i as nat, w as nat);
        assert(bit_at(x, i) == bit_at(r, ((i + shift) % w) as u128));
    }
    lemma_same_bits(r, x, width);
}

} // verus!
