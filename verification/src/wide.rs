//! Operations on 128-bit integers that functions of another object carry out.

use crate::arith;
use crate::arith::is_unsigned_integer_value;
use crate::emit::{cast_value_to_type, emit_and, emit_or, emit_sub, emit_xor};
use crate::error::Failure;
use crate::ir::{BlockId, Context, Meaning, Value};
use crate::meaning;
use crate::meaning::{put_compare, put_constant, put_scalar};
use crate::mir::BinOp;
use crate::need;
use crate::need::{call_outside, Lowered, Needs};
use crate::sem::{Env, Moment, Relation, Sem};
use crate::types;
use crate::types::{Signedness, TypeHandle};
use vstd::prelude::*;

verus! {

/// A call of a function of another object that hands back a value.
pub open spec fn outside_value(
    at: Moment,
    callee: Seq<char>,
    inputs: Seq<TypeHandle>,
    args: Seq<Meaning>,
    result: TypeHandle,
) -> Lowered {
    let effect = need::outside(at, callee, inputs, args, Some(result));
    Lowered {
        value: meaning::replied(at, result),
        needs: effect.needs,
        steps: effect.steps,
    }
}

/// Calls a function of another object that hands back a value.
fn call_for_value(
    ctx: &mut Context,
    block: BlockId,
    needs: &mut Needs,
    callee: &str,
    inputs: Vec<TypeHandle>,
    args: Vec<Value>,
    result: &TypeHandle,
) -> (r: Value)
    requires
        old(ctx).wf(),
        old(ctx).has_block(block),
        forall|k: int| 0 <= k < args@.len() ==> old(ctx).has(#[trigger] args@[k]),
    ensures
        need::lowers(
            (*final(ctx), final(needs)@),
            (*old(ctx), old(needs)@),
            block,
            Ok(r),
            Ok(
                outside_value(
                    old(ctx)@.now(block),
                    callee@,
                    inputs@,
                    meaning::meanings(args@),
                    *result,
                ),
            ),
        ),
{
    match call_outside(ctx, block, needs, callee, inputs, args, Some(result.clone())) {
        Some(value) => value,
        None => {
            assert(false);
            meaning::put_undef(ctx, block, result)
        },
    }
}

/// Whether a type is that of 128-bit integers.
pub open spec fn is_wide(ty: TypeHandle) -> bool {
    ty is Integer && ty->width == 128
}

/// Whether an integer type is signed.
pub open spec fn is_signed(ty: TypeHandle) -> bool {
    !(ty is Integer && ty->signedness != Signedness::Signed)
}

/// The function that divides 128-bit integers.
pub open spec fn division(op: BinOp, signed: bool) -> Seq<char> {
    if op == BinOp::Div {
        if signed {
            "__divti3"@
        } else {
            "__udivti3"@
        }
    } else {
        if signed {
            "__modti3"@
        } else {
            "__umodti3"@
        }
    }
}

/// A quotient or remainder of 128-bit integers.
pub open spec fn divided(at: Moment, op: BinOp, lhs: Meaning, rhs: Meaning) -> Result<
    Lowered,
    Failure,
> {
    if op == BinOp::Div || op == BinOp::Rem {
        Ok(
            outside_value(
                at,
                division(op, is_signed(lhs.ty)),
                seq![lhs.ty, lhs.ty],
                seq![lhs, rhs],
                lhs.ty,
            ),
        )
    } else {
        Err(Failure::WideDivision(op))
    }
}

/// Divides 128-bit integers.
pub fn lower_i128_divrem(
    ctx: &mut Context,
    block: BlockId,
    needs: &mut Needs,
    op: BinOp,
    lhs: Value,
    rhs: Value,
) -> (r: Result<Value, Failure>)
    requires
        old(ctx).wf(),
        old(ctx).has_block(block),
        old(ctx).has(lhs),
        old(ctx).has(rhs),
    ensures
        need::lowers(
            (*final(ctx), final(needs)@),
            (*old(ctx), old(needs)@),
            block,
            r,
            divided(old(ctx)@.now(block), op, lhs.meaning@, rhs.meaning@),
        ),
{
    let signed: bool = !is_unsigned_integer_value(ctx, lhs);
    let callee: &str = match op {
        BinOp::Div => if signed {
            "__divti3"
        } else {
            "__udivti3"
        },
        BinOp::Rem => if signed {
            "__modti3"
        } else {
            "__umodti3"
        },
        _ => return Err(Failure::WideDivision(op)),
    };
    let ty: TypeHandle = ctx.type_of(lhs);
    let inputs: Vec<TypeHandle> = vec![ty.clone(), ty.clone()];
    let args: Vec<Value> = vec![lhs, rhs];
    assert(inputs@ =~= seq![lhs.ty(), lhs.ty()]);
    assert(meaning::meanings(args@) =~= seq![lhs.meaning@, rhs.meaning@]);
    Ok(call_for_value(ctx, block, needs, callee, inputs, args, &ty))
}

/// The function that turns a 128-bit integer into a float.
pub open spec fn int_to_float(signed: bool, to_f32: bool) -> Seq<char> {
    if signed {
        if to_f32 {
            "__floattisf"@
        } else {
            "__floattidf"@
        }
    } else {
        if to_f32 {
            "__floatuntisf"@
        } else {
            "__floatuntidf"@
        }
    }
}

/// A 128-bit integer as a float.
pub open spec fn floated(at: Moment, input: Meaning, ty: TypeHandle) -> Result<Lowered, Failure> {
    if ty.is_float() {
        Ok(
            outside_value(
                at,
                int_to_float(is_signed(input.ty), ty is Fp32),
                seq![input.ty],
                seq![input],
                ty,
            ),
        )
    } else {
        Err(Failure::WideToFloat)
    }
}

/// Turns a 128-bit integer into a float.
pub fn lower_i128_to_float(
    ctx: &mut Context,
    block: BlockId,
    needs: &mut Needs,
    input: Value,
    ty: &TypeHandle,
) -> (r: Result<Value, Failure>)
    requires
        old(ctx).wf(),
        old(ctx).has_block(block),
        old(ctx).has(input),
    ensures
        need::lowers(
            (*final(ctx), final(needs)@),
            (*old(ctx), old(needs)@),
            block,
            r,
            floated(old(ctx)@.now(block), input.meaning@, *ty),
        ),
{
    let signed: bool = !is_unsigned_integer_value(ctx, input);
    let to_f32: bool = match ty {
        TypeHandle::Fp32 => true,
        TypeHandle::Fp64 => false,
        _ => return Err(Failure::WideToFloat),
    };
    let callee: &str = if signed {
        if to_f32 {
            "__floattisf"
        } else {
            "__floattidf"
        }
    } else {
        if to_f32 {
            "__floatuntisf"
        } else {
            "__floatuntidf"
        }
    };
    let inputs: Vec<TypeHandle> = vec![ctx.type_of(input)];
    let args: Vec<Value> = vec![input];
    assert(inputs@ =~= seq![input.ty()]);
    assert(meaning::meanings(args@) =~= seq![input.meaning@]);
    Ok(call_for_value(ctx, block, needs, callee, inputs, args, ty))
}

/// The function that turns a float into a 128-bit integer.
pub open spec fn float_to_int(signed: bool, from_f32: bool) -> Seq<char> {
    if signed {
        if from_f32 {
            "__fixsfti"@
        } else {
            "__fixdfti"@
        }
    } else {
        if from_f32 {
            "__fixunssfti"@
        } else {
            "__fixunsdfti"@
        }
    }
}

/// The bits of two to the power of 127, or of 128 for integers without a sign,
/// as a float. The latter is infinite in 32 bits.
pub open spec fn upper_bits(signed: bool, from_f32: bool) -> u128 {
    if signed {
        if from_f32 {
            0x7f00_0000
        } else {
            0x47e0_0000_0000_0000
        }
    } else {
        if from_f32 {
            0x7f80_0000
        } else {
            0x47f0_0000_0000_0000
        }
    }
}

/// The bits of minus two to the power of 127, or of minus one for integers
/// without a sign, as a float.
pub open spec fn lower_bits(signed: bool, from_f32: bool) -> u128 {
    if signed {
        if from_f32 {
            0xff00_0000
        } else {
            0xc7e0_0000_0000_0000
        }
    } else {
        if from_f32 {
            0xbf80_0000
        } else {
            0xbff0_0000_0000_0000
        }
    }
}

/// Whether a comparison holds in a run.
pub open spec fn is_true(condition: Meaning, env: Env) -> bool {
    condition.bits(env) == 1
}

/// Whether a float relates to a constant in a run.
pub open spec fn relates(relation: Relation, input: Meaning, bits: u128, env: Env) -> bool {
    is_true(meaning::compared(relation, input, meaning::scalar(input.ty, bits)), env)
}

/// A converted float cut to the range of the integers: the largest above it,
/// the smallest below it, and zero for what is no number.
pub open spec fn clamped(input: Meaning, converted: u128, signed: bool, env: Env) -> u128 {
    let from_f32 = input.ty is Fp32;
    let above = relates(Relation::Ge, input, upper_bits(signed, from_f32), env);
    if signed {
        let below = relates(Relation::Lt, input, lower_bits(signed, from_f32), env);
        if !is_true(meaning::compared(Relation::Eq, input, input), env) {
            0
        } else if above && below {
            u128::MAX
        } else if above {
            0x7fff_ffff_ffff_ffff_ffff_ffff_ffff_ffff
        } else if below {
            0x8000_0000_0000_0000_0000_0000_0000_0000
        } else {
            converted
        }
    } else if !relates(Relation::Gt, input, lower_bits(signed, from_f32), env) {
        0
    } else if above {
        u128::MAX
    } else {
        converted
    }
}

/// A float as a 128-bit integer.
pub open spec fn truncated(at: Moment, input: Meaning, ty: TypeHandle) -> Result<Lowered, Failure> {
    let signed = ty == types::signed(128);
    if input.ty.is_float() {
        let call = outside_value(
            at,
            float_to_int(signed, input.ty is Fp32),
            seq![input.ty],
            seq![input],
            ty,
        );
        Ok(
            Lowered {
                value: Meaning {
                    ty,
                    den: |env: Env|
                        Sem::Bits(clamped(input, call.value.bits(env), signed, env)),
                },
                ..call
            },
        )
    } else {
        Err(Failure::FloatToWide)
    }
}

/// All ones where a condition holds, and zero where it does not.
fn put_mask(ctx: &mut Context, block: BlockId, zero: Value, condition: Value, ty: &TypeHandle) -> (r:
    Value)
    requires
        old(ctx).wf(),
        old(ctx).has_block(block),
        old(ctx).has(zero),
        old(ctx).has(condition),
        condition.ty() == types::signless(1),
        is_wide(*ty),
        zero.ty() == *ty,
        forall|env: Env| #[trigger] zero.bits(env) == 0,
    ensures
        final(ctx).computed_since(*old(ctx), block),
        final(ctx).has(r),
        r.ty() == *ty,
        forall|env: Env| #[trigger]
            r.bits(env) == if condition.bits(env) == 1 {
                u128::MAX
            } else {
                0
            },
{
    let wide: Value = cast_value_to_type(ctx, block, condition, ty);
    let r: Value = emit_sub(ctx, block, zero, wide);
    proof {
        assert forall|env: Env| #[trigger]
            r.bits(env) == if condition.bits(env) == 1 {
                u128::MAX
            } else {
                0
            } by {
            ctx.value_in_range(condition, env);
            assert(condition.den(env) == condition.den(env));
            assert(wide.bits(env) == wide.bits(env));
            assert(zero.bits(env) == 0);
            assert(wide.bits(env) == condition.bits(env));
        }
    }
    r
}

/// The masks that decide how a float is cut to a range.
struct Masks {
    /// Below the range of signed integers; unused for others.
    low: Value,
    /// Above the range.
    high: Value,
    /// A number, and for integers without a sign one above minus one.
    keep: Value,
}

/// Cuts a converted float to the range of the integers.
fn put_clamped(
    ctx: &mut Context,
    block: BlockId,
    signed: bool,
    ty: &TypeHandle,
    converted: Value,
    masks: Masks,
) -> (r: Value)
    requires
        old(ctx).wf(),
        old(ctx).has_block(block),
        old(ctx).has(converted),
        old(ctx).has(masks.low),
        old(ctx).has(masks.high),
        old(ctx).has(masks.keep),
        is_wide(*ty),
        converted.ty() == *ty,
        masks.low.ty() == *ty,
        masks.high.ty() == *ty,
        masks.keep.ty() == *ty,
        forall|env: Env| #[trigger] masks.low.bits(env) == u128::MAX || masks.low.bits(env) == 0,
        forall|env: Env| #[trigger] masks.high.bits(env) == u128::MAX || masks.high.bits(env) == 0,
        forall|env: Env| #[trigger] masks.keep.bits(env) == u128::MAX || masks.keep.bits(env) == 0,
    ensures
        final(ctx).computed_since(*old(ctx), block),
        final(ctx).has(r),
        r.ty() == *ty,
        forall|env: Env| #[trigger]
            r.bits(env) == if masks.keep.bits(env) == 0 {
                0
            } else if signed && masks.high.bits(env) != 0 && masks.low.bits(env) != 0 {
                u128::MAX
            } else if masks.high.bits(env) != 0 {
                if signed {
                    0x7fff_ffff_ffff_ffff_ffff_ffff_ffff_ffffu128
                } else {
                    u128::MAX
                }
            } else if signed && masks.low.bits(env) != 0 {
                0x8000_0000_0000_0000_0000_0000_0000_0000
            } else {
                converted.bits(env)
            },
{
    let ones: Value = put_constant(ctx, block, ty, u128::MAX);
    let not_high: Value = emit_xor(ctx, block, masks.high, ones);
    let high_bits: u128 = if signed {
        0x7fff_ffff_ffff_ffff_ffff_ffff_ffff_ffff
    } else {
        u128::MAX
    };
    let high: Value = put_constant(ctx, block, ty, high_bits);
    let high_part: Value = emit_and(ctx, block, high, masks.high);
    let rest: Value = emit_and(ctx, block, converted, not_high);
    proof {
        assert forall|env: Env| #[trigger]
            high_part.bits(env) == if masks.high.bits(env) != 0 {
                high_bits
            } else {
                0
            } by {
            assert(masks.high.bits(env) == u128::MAX || masks.high.bits(env) == 0);
            assert(high.bits(env) == high_bits);
            arith::lemma_masks(128, high_bits);
        }
        assert forall|env: Env| #[trigger]
            rest.bits(env) == if masks.high.bits(env) != 0 {
                0
            } else {
                converted.bits(env)
            } by {
            assert(masks.high.bits(env) == u128::MAX || masks.high.bits(env) == 0);
            assert(ones.bits(env) == u128::MAX);
            assert(not_high.bits(env) == masks.high.bits(env) ^ ones.bits(env));
            arith::lemma_masks(128, converted.bits(env));
        }
    }
    let chosen: Value = if signed {
        let not_low: Value = emit_xor(ctx, block, masks.low, ones);
        let inside: Value = emit_and(ctx, block, rest, not_low);
        let least: Value = put_constant(
            ctx,
            block,
            ty,
            0x8000_0000_0000_0000_0000_0000_0000_0000,
        );
        let low_part: Value = emit_and(ctx, block, least, masks.low);
        let with_low: Value = emit_or(ctx, block, inside, low_part);
        let chosen: Value = emit_or(ctx, block, with_low, high_part);
        proof {
            assert forall|env: Env| #[trigger]
                chosen.bits(env) == if masks.high.bits(env) != 0 && masks.low.bits(env) != 0 {
                    u128::MAX
                } else if masks.high.bits(env) != 0 {
                    high_bits
                } else if masks.low.bits(env) != 0 {
                    0x8000_0000_0000_0000_0000_0000_0000_0000
                } else {
                    converted.bits(env)
                } by {
                assert(masks.high.bits(env) == u128::MAX || masks.high.bits(env) == 0);
                assert(masks.low.bits(env) == u128::MAX || masks.low.bits(env) == 0);
                assert(high_part.bits(env) == high_part.bits(env));
                assert(rest.bits(env) == if masks.high.bits(env) != 0 {
                    0
                } else {
                    converted.bits(env)
                });
                assert(ones.bits(env) == u128::MAX);
                assert(not_low.bits(env) == not_low.bits(env));
                assert(inside.bits(env) == inside.bits(env));
                assert(least.bits(env) == 0x8000_0000_0000_0000_0000_0000_0000_0000);
                assert(low_part.bits(env) == low_part.bits(env));
                assert(with_low.bits(env) == with_low.bits(env));
                arith::lemma_masks(128, high_bits);
                arith::lemma_masks(128, converted.bits(env));
                arith::lemma_masks(128, 0x8000_0000_0000_0000_0000_0000_0000_0000);
                arith::lemma_masks(128, 0);
                assert(0x8000_0000_0000_0000_0000_0000_0000_0000u128
                    | 0x7fff_ffff_ffff_ffff_ffff_ffff_ffff_ffffu128
                    == 0xffff_ffff_ffff_ffff_ffff_ffff_ffff_ffffu128) by (bit_vector);
            }
        }
        chosen
    } else {
        let chosen: Value = emit_or(ctx, block, rest, high_part);
        proof {
            assert forall|env: Env| #[trigger]
                chosen.bits(env) == if masks.high.bits(env) != 0 {
                    high_bits
                } else {
                    converted.bits(env)
                } by {
                assert(high_part.bits(env) == high_part.bits(env));
                assert(rest.bits(env) == if masks.high.bits(env) != 0 {
                    0
                } else {
                    converted.bits(env)
                });
                arith::lemma_masks(128, high_bits);
                arith::lemma_masks(128, converted.bits(env));
            }
        }
        chosen
    };
    let r: Value = emit_and(ctx, block, chosen, masks.keep);
    proof {
        assert forall|env: Env| #[trigger]
            r.bits(env) == if masks.keep.bits(env) == 0 {
                0
            } else {
                chosen.bits(env)
            } by {
            assert(masks.keep.bits(env) == u128::MAX || masks.keep.bits(env) == 0);
            arith::lemma_masks(128, chosen.bits(env));
        }
        assert forall|env: Env| #[trigger]
            r.bits(env) == if masks.keep.bits(env) == 0 {
                0
            } else if signed && masks.high.bits(env) != 0 && masks.low.bits(env) != 0 {
                u128::MAX
            } else if masks.high.bits(env) != 0 {
                if signed {
                    0x7fff_ffff_ffff_ffff_ffff_ffff_ffff_ffffu128
                } else {
                    u128::MAX
                }
            } else if signed && masks.low.bits(env) != 0 {
                0x8000_0000_0000_0000_0000_0000_0000_0000
            } else {
                converted.bits(env)
            } by {
            assert(chosen.bits(env) == chosen.bits(env));
        }
    }
    r
}

/// Turns a float into a 128-bit integer: a function of another object converts
/// what is in range, and masks take care of the rest.
pub fn lower_float_to_i128_sat(
    ctx: &mut Context,
    block: BlockId,
    needs: &mut Needs,
    input: Value,
    ty: &TypeHandle,
) -> (r: Result<Value, Failure>)
    requires
        old(ctx).wf(),
        old(ctx).has_block(block),
        old(ctx).has(input),
        is_wide(*ty),
    ensures
        need::lowers(
            (*final(ctx), final(needs)@),
            (*old(ctx), old(needs)@),
            block,
            r,
            truncated(old(ctx)@.now(block), input.meaning@, *ty),
        ),
        r is Err ==> *final(ctx) == *old(ctx),
{
    let float_ty: TypeHandle = ctx.type_of(input);
    let from_f32: bool = match &float_ty {
        TypeHandle::Fp32 => true,
        TypeHandle::Fp64 => false,
        _ => return Err(Failure::FloatToWide),
    };
    let signed: bool = match ty {
        TypeHandle::Integer { signedness: Signedness::Signed, .. } => true,
        _ => false,
    };
    let callee: &str = if signed {
        if from_f32 {
            "__fixsfti"
        } else {
            "__fixdfti"
        }
    } else {
        if from_f32 {
            "__fixunssfti"
        } else {
            "__fixunsdfti"
        }
    };
    let inputs: Vec<TypeHandle> = vec![float_ty.clone()];
    let args: Vec<Value> = vec![input];
    assert(inputs@ =~= seq![input.ty()]);
    assert(meaning::meanings(args@) =~= seq![input.meaning@]);
    let ghost before = *ctx;
    let raw: Value = call_for_value(ctx, block, needs, callee, inputs, args, ty);
    let ghost called = *ctx;
    let zero: Value = put_constant(ctx, block, ty, 0);
    assert forall|env: Env| #[trigger] zero.bits(env) == 0 by {}
    let low_bits: u128 = if signed {
        if from_f32 {
            0xff00_0000
        } else {
            0xc7e0_0000_0000_0000
        }
    } else {
        if from_f32 {
            0xbf80_0000
        } else {
            0xbff0_0000_0000_0000
        }
    };
    let bound: Value = put_scalar(ctx, block, &float_ty, low_bits);
    let (low, keep): (Value, Value) = if signed {
        let below: Value = put_compare(ctx, block, Relation::Lt, input, bound);
        let low: Value = put_mask(ctx, block, zero, below, ty);
        let ordered: Value = put_compare(ctx, block, Relation::Eq, input, input);
        let keep: Value = put_mask(ctx, block, zero, ordered, ty);
        proof {
            assert forall|env: Env|
                {
                    &&& #[trigger] low.bits(env) == (if relates(
                        Relation::Lt,
                        input.meaning@,
                        low_bits,
                        env,
                    ) {
                        u128::MAX
                    } else {
                        0
                    })
                    &&& keep.bits(env) == (if is_true(
                        meaning::compared(Relation::Eq, input.meaning@, input.meaning@),
                        env,
                    ) {
                        u128::MAX
                    } else {
                        0
                    })
                } by {
                assert(low.bits(env) == low.bits(env) && keep.bits(env) == keep.bits(env));
                assert(below.bits(env) == below.meaning@.bits(env));
                assert(ordered.bits(env) == ordered.meaning@.bits(env));
            }
        }
        (low, keep)
    } else {
        let inside: Value = put_compare(ctx, block, Relation::Gt, input, bound);
        let keep: Value = put_mask(ctx, block, zero, inside, ty);
        proof {
            assert forall|env: Env| #[trigger]
                keep.bits(env) == (if relates(Relation::Gt, input.meaning@, low_bits, env) {
                    u128::MAX
                } else {
                    0
                }) by {
                assert(inside.bits(env) == inside.meaning@.bits(env));
            }
        }
        (zero, keep)
    };
    let high_bits: u128 = if signed {
        if from_f32 {
            0x7f00_0000
        } else {
            0x47e0_0000_0000_0000
        }
    } else {
        if from_f32 {
            0x7f80_0000
        } else {
            0x47f0_0000_0000_0000
        }
    };
    let upper: Value = put_scalar(ctx, block, &float_ty, high_bits);
    let above: Value = put_compare(ctx, block, Relation::Ge, input, upper);
    let high: Value = put_mask(ctx, block, zero, above, ty);
    let r: Value = put_clamped(ctx, block, signed, ty, raw, Masks { low, high, keep });
    proof {
        let want = truncated(before@.now(block), input.meaning@, *ty)->Ok_0;
        assert forall|env: Env| #[trigger] r.den(env) == (want.value.den)(env) by {
            assert(r.bits(env) == r.bits(env));
            assert(high.bits(env) == high.bits(env));
            assert(above.bits(env) == above.meaning@.bits(env));
            assert(low.bits(env) == low.bits(env));
            assert(keep.bits(env) == keep.bits(env));
            assert(zero.bits(env) == 0);
            assert(raw.bits(env) == raw.meaning@.bits(env));
            ctx.value_in_range(r, env);
        }
        meaning::lemma_means(r, want.value);
        ctx.lemma_ran_computed(called, before, block, want.steps);
    }
    Ok(r)
}

} // verus!
