//! Emission of single operations at the end of a block.
//!
//! Each function here makes one operation and appends it. For integer operands
//! its contract gives the bits of the result.
use crate::error::Failure;
use crate::ir;
use crate::ir::{BlockId, Context, Inst, OpId, OpKind, Value};
use crate::ox;
use crate::ox::{
    AddOp, AllocaOp, BitAndOp, BitOrOp, BitXorOp, CastOp, ConstantAttr, ConstantOp, EqOp,
    ExtractValueOp, GeOp, GtOp, InsertValueOp, LeOp, LoadOp, LtOp, MulOp, NeOp, ShlOp, ShrOp,
    SignAwareShrOp, StoreOp, SubOp, UndefOp,
};
use crate::sem;
use crate::sem::{BinKind, Env, Moment, Relation, Sem};
use crate::types;
use crate::types::{Signedness, StructBody, TypeHandle};
use std::rc::Rc;
use vstd::prelude::*;

verus! {

impl Context {
    /// Whether nothing happened since an earlier state but computations at the
    /// end of a block.
    pub open spec fn computed_since(self, old: Context, block: BlockId) -> bool {
        &&& self.grew(old)
        &&& self.frame(block) == old.frame(block)
        &&& self@ == old@
        &&& self.dialects == old.dialects
    }
}

impl Context {
    /// Whether one instruction with an effect was appended to a block since an
    /// earlier state, after computations at its end.
    pub open spec fn acted_since(self, old: Context, block: BlockId, inst: Inst) -> bool {
        &&& self.grew(old)
        &&& self.frame(block) == old.frame(block).then_in(block, inst)
        &&& self@ == old@.then_in(block, inst)
        &&& self.dialects == old.dialects
    }
}

/// Whether a type is an integer type of a width at which bits are counted.
pub open spec fn is_int(ty: TypeHandle) -> bool {
    ty is Integer && ty->width <= 128
}

/// The bits that binary arithmetic gives for two integer values.
pub open spec fn binary_bits(kind: BinKind, lhs: Value, rhs: Value, env: Env) -> u128 {
    sem::int_bin(kind, lhs.ty()->width, lhs.ty()->signedness, lhs.bits(env), rhs.bits(env), env)
}

/// Whether two types are integer types of one width at which bits are counted.
pub open spec fn same_int(a: TypeHandle, b: TypeHandle) -> bool {
    a is Integer && b is Integer && a->width == b->width && sem::held_width(a->width)
}

/// A pattern has no bit that one of those it was combined from lacks.
pub proof fn lemma_and_small(a: u128, b: u128)
    ensures
        a & b <= a,
        b & a <= a,
{
    assert(a & b <= a && b & a <= a) by (bit_vector);
}

proof fn lemma_or_small(width: u32, a: u128, b: u128)
    requires
        sem::held_width(width),
        a < sem::modulus(width),
        b < sem::modulus(width),
    ensures
        a | b < sem::modulus(width),
        a ^ b < sem::modulus(width),
{
    sem::lemma_ones(width);
    let ones = (sem::modulus(width) - 1) as u128;
    let shift = (128 - width) as u128;
    assert((a | b) <= ones && (a ^ b) <= ones) by (bit_vector)
        requires
            shift < 128,
            ones == 0xffff_ffff_ffff_ffff_ffff_ffff_ffff_ffffu128 >> shift,
            a <= ones,
            b <= ones,
    ;
}

proof fn lemma_shr_small(a: u128, b: u128)
    requires
        b < 128,
    ensures
        a >> b <= a,
{
    assert(a >> b <= a) by (bit_vector)
        requires
            b < 128,
    ;
}

/// Appends a freshly made operation and returns its result.
pub fn emit_op(op: OpId, ctx: &mut Context, insert_block: BlockId) -> (r: Value)
    requires
        old(ctx).wf(),
        old(ctx).is_loose(op),
        old(ctx).has_block(insert_block),
        old(ctx).op(op).result_ty is Some,
    ensures
        final(ctx).grew(*old(ctx)),
        final(ctx).dialects == old(ctx).dialects,
        final(ctx).kinds(insert_block) == old(ctx).kinds(insert_block).push(old(ctx).op(op).kind),
        match ir::inst_of(old(ctx).op(op)) {
            Some(inst) => {
                &&& final(ctx).frame(insert_block) == old(ctx).frame(insert_block).then_in(
                    insert_block,
                    inst,
                )
                &&& final(ctx)@ == old(ctx)@.then_in(insert_block, inst)
            },
            None => final(ctx).computed_since(*old(ctx), insert_block),
        },
        final(ctx).has(r),
        Some(r.ty()) == old(ctx).op(op).result_ty,
        forall|env: Env| #[trigger]
            r.den(env) == ir::op_sem(
                old(ctx).op(op).kind,
                old(ctx).op(op).operands@,
                r.ty(),
                old(ctx)@.now(insert_block),
                env,
            ),
{
    ctx.insert_at_back(op, insert_block);
    ctx.result_of(op)
}

/// The sum of two values.
pub fn emit_add(ctx: &mut Context, insert_block: BlockId, lhs: Value, rhs: Value) -> (r: Value)
    requires
        old(ctx).wf(),
        old(ctx).has_block(insert_block),
        old(ctx).has(lhs),
        old(ctx).has(rhs),
    ensures
        final(ctx).computed_since(*old(ctx), insert_block),
        final(ctx).has(r),
        r.ty() == lhs.ty(),
        !(is_int(lhs.ty()) && !rhs.ty().is_ptr()) ==> forall|env: Env| #[trigger]
            r.den(env) == ir::op_sem(
                ox::binary_kind(BinKind::Add, BinKind::Add, lhs, rhs),
                seq![lhs, rhs],
                lhs.ty(),
                Moment { block: -1, time: 0 },
                env,
            ),
        is_int(lhs.ty()) && !rhs.ty().is_ptr() ==> forall|env: Env| #[trigger]
            r.bits(env) == sem::wrap(lhs.ty()->width, lhs.bits(env) + rhs.bits(env)),
{
    let op = AddOp::new(ctx, lhs, rhs);
    let r = emit_op(op.get_operation(), ctx, insert_block);
    proof {
        reveal(ir::raw_sem);
        if is_int(lhs.ty()) && !rhs.ty().is_ptr() {
            assert forall|env: Env| #[trigger]
                r.bits(env) == sem::wrap(lhs.ty()->width, lhs.bits(env) + rhs.bits(env)) by {
                assert(r.den(env) == r.den(env));
                let x = binary_bits(BinKind::Add, lhs, rhs, env);
                assert(r.bits(env) == sem::wrap(lhs.ty()->width, x as int));
                sem::lemma_wrap_idem(lhs.ty()->width, lhs.bits(env) + rhs.bits(env));
            }
        }
    }
    r
}

/// The difference of two values.
pub fn emit_sub(ctx: &mut Context, insert_block: BlockId, lhs: Value, rhs: Value) -> (r: Value)
    requires
        old(ctx).wf(),
        old(ctx).has_block(insert_block),
        old(ctx).has(lhs),
        old(ctx).has(rhs),
    ensures
        final(ctx).computed_since(*old(ctx), insert_block),
        final(ctx).has(r),
        r.ty() == lhs.ty(),
        !(is_int(lhs.ty()) && !rhs.ty().is_ptr()) ==> forall|env: Env| #[trigger]
            r.den(env) == ir::op_sem(
                ox::binary_kind(BinKind::Sub, BinKind::Sub, lhs, rhs),
                seq![lhs, rhs],
                lhs.ty(),
                Moment { block: -1, time: 0 },
                env,
            ),
        is_int(lhs.ty()) && !rhs.ty().is_ptr() ==> forall|env: Env| #[trigger]
            r.bits(env) == sem::wrap(lhs.ty()->width, lhs.bits(env) - rhs.bits(env)),
{
    let op = SubOp::new(ctx, lhs, rhs);
    let r = emit_op(op.get_operation(), ctx, insert_block);
    proof {
        reveal(ir::raw_sem);
        if is_int(lhs.ty()) && !rhs.ty().is_ptr() {
            assert forall|env: Env| #[trigger]
                r.bits(env) == sem::wrap(lhs.ty()->width, lhs.bits(env) - rhs.bits(env)) by {
                assert(r.den(env) == r.den(env));
                let x = binary_bits(BinKind::Sub, lhs, rhs, env);
                assert(r.bits(env) == sem::wrap(lhs.ty()->width, x as int));
                sem::lemma_wrap_idem(lhs.ty()->width, lhs.bits(env) - rhs.bits(env));
            }
        }
    }
    r
}

/// The product of two values.
pub fn emit_mul(ctx: &mut Context, insert_block: BlockId, lhs: Value, rhs: Value) -> (r: Value)
    requires
        old(ctx).wf(),
        old(ctx).has_block(insert_block),
        old(ctx).has(lhs),
        old(ctx).has(rhs),
    ensures
        final(ctx).computed_since(*old(ctx), insert_block),
        final(ctx).has(r),
        r.ty() == lhs.ty(),
        !(is_int(lhs.ty()) && !rhs.ty().is_ptr()) ==> forall|env: Env| #[trigger]
            r.den(env) == ir::op_sem(
                ox::binary_kind(BinKind::Mul, BinKind::Mul, lhs, rhs),
                seq![lhs, rhs],
                lhs.ty(),
                Moment { block: -1, time: 0 },
                env,
            ),
        is_int(lhs.ty()) && !rhs.ty().is_ptr() ==> forall|env: Env| #[trigger]
            r.bits(env) == sem::wrap(lhs.ty()->width, lhs.bits(env) * rhs.bits(env)),
{
    let op = MulOp::new(ctx, lhs, rhs);
    let r = emit_op(op.get_operation(), ctx, insert_block);
    proof {
        reveal(ir::raw_sem);
        if is_int(lhs.ty()) && !rhs.ty().is_ptr() {
            assert forall|env: Env| #[trigger]
                r.bits(env) == sem::wrap(lhs.ty()->width, lhs.bits(env) * rhs.bits(env)) by {
                assert(r.den(env) == r.den(env));
                let x = binary_bits(BinKind::Mul, lhs, rhs, env);
                assert(r.bits(env) == sem::wrap(lhs.ty()->width, x as int));
                sem::lemma_wrap_idem(lhs.ty()->width, lhs.bits(env) * rhs.bits(env));
            }
        }
    }
    r
}

/// The bitwise and of two values.
pub fn emit_and(ctx: &mut Context, insert_block: BlockId, lhs: Value, rhs: Value) -> (r: Value)
    requires
        old(ctx).wf(),
        old(ctx).has_block(insert_block),
        old(ctx).has(lhs),
        old(ctx).has(rhs),
    ensures
        final(ctx).computed_since(*old(ctx), insert_block),
        final(ctx).has(r),
        r.ty() == lhs.ty(),
        !(is_int(lhs.ty()) && !rhs.ty().is_ptr()) ==> forall|env: Env| #[trigger]
            r.den(env) == ir::op_sem(
                ox::binary_kind(BinKind::And, BinKind::And, lhs, rhs),
                seq![lhs, rhs],
                lhs.ty(),
                Moment { block: -1, time: 0 },
                env,
            ),
        is_int(lhs.ty()) && !rhs.ty().is_ptr() ==> forall|env: Env| #[trigger]
            r.bits(env) == lhs.bits(env) & rhs.bits(env),
{
    let op = BitAndOp::new(ctx, lhs, rhs);
    let r = emit_op(op.get_operation(), ctx, insert_block);
    proof {
        reveal(ir::raw_sem);
        if is_int(lhs.ty()) && !rhs.ty().is_ptr() {
            assert forall|env: Env| #[trigger] r.bits(env) == lhs.bits(env) & rhs.bits(env) by {
                assert(r.den(env) == r.den(env));
                let x = binary_bits(BinKind::And, lhs, rhs, env);
                assert(r.bits(env) == sem::wrap(lhs.ty()->width, x as int));
                ctx.value_in_range(lhs, env);
                lemma_and_small(lhs.bits(env), rhs.bits(env));
                sem::lemma_wrap_small(lhs.ty()->width, x as int);
            }
        }
    }
    r
}

/// The bitwise or of two values.
pub fn emit_or(ctx: &mut Context, insert_block: BlockId, lhs: Value, rhs: Value) -> (r: Value)
    requires
        old(ctx).wf(),
        old(ctx).has_block(insert_block),
        old(ctx).has(lhs),
        old(ctx).has(rhs),
    ensures
        final(ctx).computed_since(*old(ctx), insert_block),
        final(ctx).has(r),
        r.ty() == lhs.ty(),
        !same_int(lhs.ty(), rhs.ty()) ==> forall|env: Env| #[trigger]
            r.den(env) == ir::op_sem(
                ox::binary_kind(BinKind::Or, BinKind::Or, lhs, rhs),
                seq![lhs, rhs],
                lhs.ty(),
                Moment { block: -1, time: 0 },
                env,
            ),
        same_int(lhs.ty(), rhs.ty()) ==> forall|env: Env| #[trigger]
            r.bits(env) == lhs.bits(env) | rhs.bits(env),
{
    let op = BitOrOp::new(ctx, lhs, rhs);
    let r = emit_op(op.get_operation(), ctx, insert_block);
    proof {
        reveal(ir::raw_sem);
        if same_int(lhs.ty(), rhs.ty()) {
            assert forall|env: Env| #[trigger] r.bits(env) == lhs.bits(env) | rhs.bits(env) by {
                assert(r.den(env) == r.den(env));
                let x = binary_bits(BinKind::Or, lhs, rhs, env);
                assert(r.bits(env) == sem::wrap(lhs.ty()->width, x as int));
                ctx.value_in_range(lhs, env);
                ctx.value_in_range(rhs, env);
                lemma_or_small(lhs.ty()->width, lhs.bits(env), rhs.bits(env));
                sem::lemma_wrap_small(lhs.ty()->width, x as int);
            }
        }
    }
    r
}

/// The bitwise exclusive or of two values.
pub fn emit_xor(ctx: &mut Context, insert_block: BlockId, lhs: Value, rhs: Value) -> (r: Value)
    requires
        old(ctx).wf(),
        old(ctx).has_block(insert_block),
        old(ctx).has(lhs),
        old(ctx).has(rhs),
    ensures
        final(ctx).computed_since(*old(ctx), insert_block),
        final(ctx).has(r),
        r.ty() == lhs.ty(),
        !same_int(lhs.ty(), rhs.ty()) ==> forall|env: Env| #[trigger]
            r.den(env) == ir::op_sem(
                ox::binary_kind(BinKind::Xor, BinKind::Xor, lhs, rhs),
                seq![lhs, rhs],
                lhs.ty(),
                Moment { block: -1, time: 0 },
                env,
            ),
        same_int(lhs.ty(), rhs.ty()) ==> forall|env: Env| #[trigger]
            r.bits(env) == lhs.bits(env) ^ rhs.bits(env),
{
    let op = BitXorOp::new(ctx, lhs, rhs);
    let r = emit_op(op.get_operation(), ctx, insert_block);
    proof {
        reveal(ir::raw_sem);
        if same_int(lhs.ty(), rhs.ty()) {
            assert forall|env: Env| #[trigger] r.bits(env) == lhs.bits(env) ^ rhs.bits(env) by {
                assert(r.den(env) == r.den(env));
                let x = binary_bits(BinKind::Xor, lhs, rhs, env);
                assert(r.bits(env) == sem::wrap(lhs.ty()->width, x as int));
                ctx.value_in_range(lhs, env);
                ctx.value_in_range(rhs, env);
                lemma_or_small(lhs.ty()->width, lhs.bits(env), rhs.bits(env));
                sem::lemma_wrap_small(lhs.ty()->width, x as int);
            }
        }
    }
    r
}

/// A value shifted left.
pub fn emit_shl(ctx: &mut Context, insert_block: BlockId, lhs: Value, rhs: Value) -> (r: Value)
    requires
        old(ctx).wf(),
        old(ctx).has_block(insert_block),
        old(ctx).has(lhs),
        old(ctx).has(rhs),
    ensures
        final(ctx).computed_since(*old(ctx), insert_block),
        final(ctx).has(r),
        r.ty() == lhs.ty(),
        !(is_int(lhs.ty()) && !rhs.ty().is_ptr()) ==> forall|env: Env| #[trigger]
            r.den(env) == ir::op_sem(
                ox::binary_kind(BinKind::Shl, BinKind::Shl, lhs, rhs),
                seq![lhs, rhs],
                lhs.ty(),
                Moment { block: -1, time: 0 },
                env,
            ),
        is_int(lhs.ty()) && !rhs.ty().is_ptr() ==> forall|env: Env| #[trigger]
            r.bits(env) == (if rhs.bits(env) < lhs.ty()->width {
                sem::wrap(lhs.ty()->width, (lhs.bits(env) << rhs.bits(env)) as int)
            } else {
                sem::wrap(
                    lhs.ty()->width,
                    (env.undefined)(BinKind::Shl, lhs.bits(env), rhs.bits(env)) as int,
                )
            }),
{
    let op = ShlOp::new(ctx, lhs, rhs);
    let r = emit_op(op.get_operation(), ctx, insert_block);
    proof {
        reveal(ir::raw_sem);
        if is_int(lhs.ty()) && !rhs.ty().is_ptr() {
            assert forall|env: Env| #[trigger] r.bits(env) == (if rhs.bits(env) < lhs.ty()->width {
                sem::wrap(lhs.ty()->width, (lhs.bits(env) << rhs.bits(env)) as int)
            } else {
                sem::wrap(
                    lhs.ty()->width,
                    (env.undefined)(BinKind::Shl, lhs.bits(env), rhs.bits(env)) as int,
                )
            }) by {
                assert(r.den(env) == r.den(env));
                let x = binary_bits(BinKind::Shl, lhs, rhs, env);
                assert(r.bits(env) == sem::wrap(lhs.ty()->width, x as int));
                sem::lemma_wrap_idem(
                    lhs.ty()->width,
                    (lhs.bits(env) << rhs.bits(env)) as int,
                );
            }
        }
    }
    r
}

/// A value shifted right, following its sign.
pub fn emit_shr(ctx: &mut Context, insert_block: BlockId, lhs: Value, rhs: Value) -> (r: Value)
    requires
        old(ctx).wf(),
        old(ctx).has_block(insert_block),
        old(ctx).has(lhs),
        old(ctx).has(rhs),
    ensures
        final(ctx).computed_since(*old(ctx), insert_block),
        final(ctx).has(r),
        r.ty() == lhs.ty(),
        !(is_int(lhs.ty()) && !rhs.ty().is_ptr()) ==> forall|env: Env| #[trigger]
            r.den(env) == ir::op_sem(
                ox::binary_kind(BinKind::Shr, BinKind::LShr, lhs, rhs),
                seq![lhs, rhs],
                lhs.ty(),
                Moment { block: -1, time: 0 },
                env,
            ),
        is_int(lhs.ty()) && !rhs.ty().is_ptr() ==> forall|env: Env| #[trigger]
            r.bits(env) == sem::wrap(lhs.ty()->width, binary_bits(BinKind::Shr, lhs, rhs, env) as int),
{
    let op = SignAwareShrOp::new(ctx, lhs, rhs);
    let r = emit_op(op.get_operation(), ctx, insert_block);
    proof {
        reveal(ir::raw_sem);
        if is_int(lhs.ty()) && !rhs.ty().is_ptr() {
            assert forall|env: Env| #[trigger]
                r.bits(env) == sem::wrap(
                lhs.ty()->width,
                binary_bits(BinKind::Shr, lhs, rhs, env) as int,
            ) by {
                assert(r.den(env) == r.den(env));
                let x = binary_bits(BinKind::Shr, lhs, rhs, env);
                assert(r.bits(env) == sem::wrap(lhs.ty()->width, x as int));
            }
        }
    }
    r
}

/// A value shifted right with zeros, whatever its signedness.
pub fn emit_lshr(ctx: &mut Context, insert_block: BlockId, lhs: Value, rhs: Value) -> (r: Value)
    requires
        old(ctx).wf(),
        old(ctx).has_block(insert_block),
        old(ctx).has(lhs),
        old(ctx).has(rhs),
    ensures
        final(ctx).computed_since(*old(ctx), insert_block),
        final(ctx).has(r),
        r.ty() == lhs.ty(),
        is_int(lhs.ty()) ==> forall|env: Env| #[trigger]
            r.bits(env) == (if rhs.bits(env) < lhs.ty()->width {
                lhs.bits(env) >> rhs.bits(env)
            } else {
                sem::wrap(
                    lhs.ty()->width,
                    (env.undefined)(BinKind::LShr, lhs.bits(env), rhs.bits(env)) as int,
                )
            }),
{
    let op = ShrOp::new(ctx, lhs, rhs);
    let r = emit_op(op.get_operation(), ctx, insert_block);
    proof {
        reveal(ir::raw_sem);
        if is_int(lhs.ty()) {
            assert forall|env: Env| #[trigger]
                r.bits(env) == (if rhs.bits(env) < lhs.ty()->width {
                    lhs.bits(env) >> rhs.bits(env)
                } else {
                    sem::wrap(
                        lhs.ty()->width,
                        (env.undefined)(BinKind::LShr, lhs.bits(env), rhs.bits(env)) as int,
                    )
                }) by {
                assert(r.den(env) == r.den(env));
                if rhs.bits(env) < lhs.ty()->width {
                    ctx.value_in_range(lhs, env);
                    lemma_shr_small(lhs.bits(env), rhs.bits(env));
                    sem::lemma_wrap_small(
                        lhs.ty()->width,
                        (lhs.bits(env) >> rhs.bits(env)) as int,
                    );
                }
            }
        }
    }
    r
}

/// Whether one value is equal to another.
pub fn emit_eq(ctx: &mut Context, insert_block: BlockId, lhs: Value, rhs: Value) -> (r: Value)
    requires
        old(ctx).wf(),
        old(ctx).has_block(insert_block),
        old(ctx).has(lhs),
        old(ctx).has(rhs),
    ensures
        final(ctx).computed_since(*old(ctx), insert_block),
        final(ctx).has(r),
        r.ty() == types::signless(1),
        !(is_int(lhs.ty()) && !rhs.ty().is_ptr()) ==> forall|env: Env| #[trigger]
            r.den(env) == ir::op_sem(
                ox::compare_kind(Relation::Eq, lhs, rhs),
                seq![lhs, rhs],
                types::signless(1),
                Moment { block: -1, time: 0 },
                env,
            ),
        is_int(lhs.ty()) && !rhs.ty().is_ptr() ==> forall|env: Env| #[trigger]
            r.bits(env) == sem::bit(
                sem::holds(
                    Relation::Eq,
                    sem::int_value(lhs.ty(), lhs.den(env)),
                    sem::int_value(lhs.ty(), rhs.den(env)),
                ),
            ),
{
    let op = EqOp::new(ctx, lhs, rhs);
    let r = emit_op(op.get_operation(), ctx, insert_block);
    proof {
        reveal(ir::raw_sem);
        if is_int(lhs.ty()) && !rhs.ty().is_ptr() {
            assert forall|env: Env| #[trigger] r.bits(env) == sem::bit(
                sem::holds(
                    Relation::Eq,
                    sem::int_value(lhs.ty(), lhs.den(env)),
                    sem::int_value(lhs.ty(), rhs.den(env)),
                ),
            ) by {
                assert(r.den(env) == r.den(env));
            }
        }
    }
    r
}

/// Whether one value is different than another.
pub fn emit_ne(ctx: &mut Context, insert_block: BlockId, lhs: Value, rhs: Value) -> (r: Value)
    requires
        old(ctx).wf(),
        old(ctx).has_block(insert_block),
        old(ctx).has(lhs),
        old(ctx).has(rhs),
    ensures
        final(ctx).computed_since(*old(ctx), insert_block),
        final(ctx).has(r),
        r.ty() == types::signless(1),
        !(is_int(lhs.ty()) && !rhs.ty().is_ptr()) ==> forall|env: Env| #[trigger]
            r.den(env) == ir::op_sem(
                ox::compare_kind(Relation::Ne, lhs, rhs),
                seq![lhs, rhs],
                types::signless(1),
                Moment { block: -1, time: 0 },
                env,
            ),
        is_int(lhs.ty()) && !rhs.ty().is_ptr() ==> forall|env: Env| #[trigger]
            r.bits(env) == sem::bit(
                sem::holds(
                    Relation::Ne,
                    sem::int_value(lhs.ty(), lhs.den(env)),
                    sem::int_value(lhs.ty(), rhs.den(env)),
                ),
            ),
{
    let op = NeOp::new(ctx, lhs, rhs);
    let r = emit_op(op.get_operation(), ctx, insert_block);
    proof {
        reveal(ir::raw_sem);
        if is_int(lhs.ty()) && !rhs.ty().is_ptr() {
            assert forall|env: Env| #[trigger] r.bits(env) == sem::bit(
                sem::holds(
                    Relation::Ne,
                    sem::int_value(lhs.ty(), lhs.den(env)),
                    sem::int_value(lhs.ty(), rhs.den(env)),
                ),
            ) by {
                assert(r.den(env) == r.den(env));
            }
        }
    }
    r
}

/// Whether one value is less than another.
pub fn emit_lt(ctx: &mut Context, insert_block: BlockId, lhs: Value, rhs: Value) -> (r: Value)
    requires
        old(ctx).wf(),
        old(ctx).has_block(insert_block),
        old(ctx).has(lhs),
        old(ctx).has(rhs),
    ensures
        final(ctx).computed_since(*old(ctx), insert_block),
        final(ctx).has(r),
        r.ty() == types::signless(1),
        !(is_int(lhs.ty()) && !rhs.ty().is_ptr()) ==> forall|env: Env| #[trigger]
            r.den(env) == ir::op_sem(
                ox::compare_kind(Relation::Lt, lhs, rhs),
                seq![lhs, rhs],
                types::signless(1),
                Moment { block: -1, time: 0 },
                env,
            ),
        is_int(lhs.ty()) && !rhs.ty().is_ptr() ==> forall|env: Env| #[trigger]
            r.bits(env) == sem::bit(
                sem::holds(
                    Relation::Lt,
                    sem::int_value(lhs.ty(), lhs.den(env)),
                    sem::int_value(lhs.ty(), rhs.den(env)),
                ),
            ),
{
    let op = LtOp::new(ctx, lhs, rhs);
    let r = emit_op(op.get_operation(), ctx, insert_block);
    proof {
        reveal(ir::raw_sem);
        if is_int(lhs.ty()) && !rhs.ty().is_ptr() {
            assert forall|env: Env| #[trigger] r.bits(env) == sem::bit(
                sem::holds(
                    Relation::Lt,
                    sem::int_value(lhs.ty(), lhs.den(env)),
                    sem::int_value(lhs.ty(), rhs.den(env)),
                ),
            ) by {
                assert(r.den(env) == r.den(env));
            }
        }
    }
    r
}

/// Whether one value is less or equal than another.
pub fn emit_le(ctx: &mut Context, insert_block: BlockId, lhs: Value, rhs: Value) -> (r: Value)
    requires
        old(ctx).wf(),
        old(ctx).has_block(insert_block),
        old(ctx).has(lhs),
        old(ctx).has(rhs),
    ensures
        final(ctx).computed_since(*old(ctx), insert_block),
        final(ctx).has(r),
        r.ty() == types::signless(1),
        !(is_int(lhs.ty()) && !rhs.ty().is_ptr()) ==> forall|env: Env| #[trigger]
            r.den(env) == ir::op_sem(
                ox::compare_kind(Relation::Le, lhs, rhs),
                seq![lhs, rhs],
                types::signless(1),
                Moment { block: -1, time: 0 },
                env,
            ),
        is_int(lhs.ty()) && !rhs.ty().is_ptr() ==> forall|env: Env| #[trigger]
            r.bits(env) == sem::bit(
                sem::holds(
                    Relation::Le,
                    sem::int_value(lhs.ty(), lhs.den(env)),
                    sem::int_value(lhs.ty(), rhs.den(env)),
                ),
            ),
{
    let op = LeOp::new(ctx, lhs, rhs);
    let r = emit_op(op.get_operation(), ctx, insert_block);
    proof {
        reveal(ir::raw_sem);
        if is_int(lhs.ty()) && !rhs.ty().is_ptr() {
            assert forall|env: Env| #[trigger] r.bits(env) == sem::bit(
                sem::holds(
                    Relation::Le,
                    sem::int_value(lhs.ty(), lhs.den(env)),
                    sem::int_value(lhs.ty(), rhs.den(env)),
                ),
            ) by {
                assert(r.den(env) == r.den(env));
            }
        }
    }
    r
}

/// Whether one value is greater than another.
pub fn emit_gt(ctx: &mut Context, insert_block: BlockId, lhs: Value, rhs: Value) -> (r: Value)
    requires
        old(ctx).wf(),
        old(ctx).has_block(insert_block),
        old(ctx).has(lhs),
        old(ctx).has(rhs),
    ensures
        final(ctx).computed_since(*old(ctx), insert_block),
        final(ctx).has(r),
        r.ty() == types::signless(1),
        !(is_int(lhs.ty()) && !rhs.ty().is_ptr()) ==> forall|env: Env| #[trigger]
            r.den(env) == ir::op_sem(
                ox::compare_kind(Relation::Gt, lhs, rhs),
                seq![lhs, rhs],
                types::signless(1),
                Moment { block: -1, time: 0 },
                env,
            ),
        is_int(lhs.ty()) && !rhs.ty().is_ptr() ==> forall|env: Env| #[trigger]
            r.bits(env) == sem::bit(
                sem::holds(
                    Relation::Gt,
                    sem::int_value(lhs.ty(), lhs.den(env)),
                    sem::int_value(lhs.ty(), rhs.den(env)),
                ),
            ),
{
    let op = GtOp::new(ctx, lhs, rhs);
    let r = emit_op(op.get_operation(), ctx, insert_block);
    proof {
        reveal(ir::raw_sem);
        if is_int(lhs.ty()) && !rhs.ty().is_ptr() {
            assert forall|env: Env| #[trigger] r.bits(env) == sem::bit(
                sem::holds(
                    Relation::Gt,
                    sem::int_value(lhs.ty(), lhs.den(env)),
                    sem::int_value(lhs.ty(), rhs.den(env)),
                ),
            ) by {
                assert(r.den(env) == r.den(env));
            }
        }
    }
    r
}

/// Whether one value is greater or equal than another.
pub fn emit_ge(ctx: &mut Context, insert_block: BlockId, lhs: Value, rhs: Value) -> (r: Value)
    requires
        old(ctx).wf(),
        old(ctx).has_block(insert_block),
        old(ctx).has(lhs),
        old(ctx).has(rhs),
    ensures
        final(ctx).computed_since(*old(ctx), insert_block),
        final(ctx).has(r),
        r.ty() == types::signless(1),
        !(is_int(lhs.ty()) && !rhs.ty().is_ptr()) ==> forall|env: Env| #[trigger]
            r.den(env) == ir::op_sem(
                ox::compare_kind(Relation::Ge, lhs, rhs),
                seq![lhs, rhs],
                types::signless(1),
                Moment { block: -1, time: 0 },
                env,
            ),
        is_int(lhs.ty()) && !rhs.ty().is_ptr() ==> forall|env: Env| #[trigger]
            r.bits(env) == sem::bit(
                sem::holds(
                    Relation::Ge,
                    sem::int_value(lhs.ty(), lhs.den(env)),
                    sem::int_value(lhs.ty(), rhs.den(env)),
                ),
            ),
{
    let op = GeOp::new(ctx, lhs, rhs);
    let r = emit_op(op.get_operation(), ctx, insert_block);
    proof {
        reveal(ir::raw_sem);
        if is_int(lhs.ty()) && !rhs.ty().is_ptr() {
            assert forall|env: Env| #[trigger] r.bits(env) == sem::bit(
                sem::holds(
                    Relation::Ge,
                    sem::int_value(lhs.ty(), lhs.den(env)),
                    sem::int_value(lhs.ty(), rhs.den(env)),
                ),
            ) by {
                assert(r.den(env) == r.den(env));
            }
        }
    }
    r
}

/// An integer constant of an integer type.
pub fn integer_constant(ctx: &mut Context, ty: &TypeHandle, bits: u128) -> (r: Result<
    ConstantOp,
    Failure,
>)
    requires
        old(ctx).wf(),
    ensures
        match r {
            Ok(op) => {
                &&& ty is Integer
                &&& final(ctx).made(
                    *old(ctx),
                    op.op,
                    OpKind::IntConstant { bits },
                    seq![],
                    Some(*ty),
                    seq![],
                )
            },
            Err(failure) => {
                &&& !(ty is Integer)
                &&& failure == Failure::NonIntegerConstant
                &&& *final(ctx) == *old(ctx)
            },
        },
        final(ctx).dialects == old(ctx).dialects,
{
    match ty {
        TypeHandle::Integer { .. } => Ok(ConstantOp::new_integer(ctx, ty.clone(), bits)),
        _ => Err(Failure::NonIntegerConstant),
    }
}

/// A constant of a float or integer type, by its bits.
pub fn constant_from_bits(ctx: &mut Context, ty: &TypeHandle, bits: u128) -> (r: Result<
    ConstantOp,
    Failure,
>)
    requires
        old(ctx).wf(),
    ensures
        match r {
            Ok(op) => {
                &&& ty is Integer || ty.is_float()
                &&& final(ctx).made(
                    *old(ctx),
                    op.op,
                    constant_kind(*ty, bits),
                    seq![],
                    Some(*ty),
                    seq![],
                )
            },
            Err(failure) => {
                &&& !(ty is Integer || ty.is_float())
                &&& failure == Failure::NonIntegerConstant
                &&& *final(ctx) == *old(ctx)
            },
        },
        final(ctx).dialects == old(ctx).dialects,
{
    match ty {
        TypeHandle::Fp32 => Ok(
            ConstantOp::new(ctx, ConstantAttr::F32 { bits: (bits % 0x1_0000_0000) as u32 }),
        ),
        TypeHandle::Fp64 => Ok(
            ConstantOp::new(
                ctx,
                ConstantAttr::F64 { bits: (bits % 0x1_0000_0000_0000_0000) as u64 },
            ),
        ),
        _ => integer_constant(ctx, ty, bits),
    }
}

/// The operation that holds a constant of a type: the low bits for a float.
pub open spec fn constant_kind(ty: TypeHandle, bits: u128) -> OpKind {
    match ty {
        TypeHandle::Fp32 => OpKind::F32Constant { bits: (bits % 0x1_0000_0000) as u32 },
        TypeHandle::Fp64 => OpKind::F64Constant {
            bits: (bits % 0x1_0000_0000_0000_0000) as u64,
        },
        _ => OpKind::IntConstant { bits },
    }
}

/// Appends an integer constant.
pub fn emit_constant(
    ctx: &mut Context,
    insert_block: BlockId,
    ty: &TypeHandle,
    bits: u128,
) -> (r: Result<Value, Failure>)
    requires
        old(ctx).wf(),
        old(ctx).has_block(insert_block),
    ensures
        final(ctx).computed_since(*old(ctx), insert_block),
        match r {
            Ok(v) => {
                &&& ty is Integer
                &&& final(ctx).has(v)
                &&& v.ty() == *ty
                &&& forall|env: Env| #[trigger]
                    v.den(env) == Sem::Bits(constant_bits(ty->width, bits))
                &&& forall|env: Env| #[trigger] v.bits(env) == constant_bits(ty->width, bits)
            },
            Err(failure) => !(ty is Integer) && failure == Failure::NonIntegerConstant,
        },
{
    match integer_constant(ctx, ty, bits) {
        Ok(op) => {
            let v = emit_op(op.get_operation(), ctx, insert_block);
            reveal(ir::raw_sem);
            proof {
                if ty->width <= 128 && bits < sem::modulus(ty->width) {
                    sem::lemma_wrap_small(ty->width, bits as int);
                }
                assert forall|env: Env| #[trigger] v.bits(env) == constant_bits(
                    ty->width,
                    bits,
                ) by {
                    assert(v.den(env) == v.den(env));
                }
            }
            Ok(v)
        },
        Err(failure) => Err(failure),
    }
}

/// The bits of an integer constant: its low bits where it does not fit.
pub open spec fn constant_bits(width: u32, bits: u128) -> u128 {
    if width <= 128 && bits < sem::modulus(width) {
        bits
    } else {
        sem::wrap(width, bits as int)
    }
}

/// Appends an integer constant of the unsigned type of a width.
pub fn emit_unsigned(ctx: &mut Context, insert_block: BlockId, width: u32, bits: u128) -> (r: Value)
    requires
        old(ctx).wf(),
        old(ctx).has_block(insert_block),
    ensures
        final(ctx).computed_since(*old(ctx), insert_block),
        final(ctx).has(r),
        r.ty() == types::unsigned(width),
        forall|env: Env| #[trigger] r.den(env) == Sem::Bits(constant_bits(width, bits)),
        forall|env: Env| #[trigger] r.bits(env) == constant_bits(width, bits),
{
    let ty = TypeHandle::integer(width, Signedness::Unsigned);
    let op = ConstantOp::new_integer(ctx, ty, bits);
    let v = emit_op(op.get_operation(), ctx, insert_block);
    reveal(ir::raw_sem);
    proof {
        if width <= 128 && bits < sem::modulus(width) {
            sem::lemma_wrap_small(width, bits as int);
        }
        assert forall|env: Env| #[trigger] v.bits(env) == constant_bits(width, bits) by {
            assert(v.den(env) == v.den(env));
        }
    }
    v
}

/// What a cast makes of a value.
pub open spec fn cast_value(value: Value, ty: TypeHandle, env: Env) -> Sem {
    if value.ty() == ty {
        value.den(env)
    } else {
        ir::op_sem(
            ox::cast_op_kind(value.ty(), ty),
            seq![value],
            ty,
            Moment { block: -1, time: 0 },
            env,
        )
    }
}

/// The value as a value of another type; the value itself where it has that
/// type already.
pub fn cast_value_to_type(
    ctx: &mut Context,
    insert_block: BlockId,
    value: Value,
    target_ty: &TypeHandle,
) -> (r: Value)
    requires
        old(ctx).wf(),
        old(ctx).has_block(insert_block),
        old(ctx).has(value),
    ensures
        final(ctx).computed_since(*old(ctx), insert_block),
        final(ctx).has(r),
        r.ty() == *target_ty,
        value.ty() == *target_ty ==> r == value && *final(ctx) == *old(ctx),
        !(is_int(value.ty()) && is_int(*target_ty)) ==> forall|env: Env| #[trigger]
            r.den(env) == cast_value(value, *target_ty, env),
        is_int(value.ty()) && is_int(*target_ty) ==> forall|env: Env| #[trigger]
            r.bits(env) == sem::wrap(
                target_ty->width,
                sem::as_int(value.ty()->width, value.ty()->signedness, value.bits(env)),
            ),
{
    if ctx.type_of(value).same(target_ty) {
        proof {
            if is_int(value.ty()) {
                assert forall|env: Env| #[trigger] value.bits(env) == sem::wrap(
                    target_ty->width,
                    sem::as_int(value.ty()->width, value.ty()->signedness, value.bits(env)),
                ) by {
                    ctx.value_in_range(value, env);
                    sem::lemma_wrap_as_int(
                        value.ty()->width,
                        value.ty()->signedness,
                        value.bits(env),
                    );
                }
            }
        }
        return value;
    }
    let op = CastOp::new(ctx, value, target_ty.clone());
    let r = emit_op(op.get_operation(), ctx, insert_block);
    proof {
        reveal(ir::raw_sem);
        if is_int(value.ty()) && is_int(*target_ty) {
            assert forall|env: Env| #[trigger] r.bits(env) == sem::wrap(
                target_ty->width,
                sem::as_int(value.ty()->width, value.ty()->signedness, value.bits(env)),
            ) by {
                assert(r.den(env) == r.den(env));
                sem::lemma_wrap_idem(
                    target_ty->width,
                    sem::as_int(value.ty()->width, value.ty()->signedness, value.bits(env)),
                );
            }
        }
    }
    r
}

/// An undefined value of a type.
pub fn emit_undef(ctx: &mut Context, insert_block: BlockId, ty: &TypeHandle) -> (r: Value)
    requires
        old(ctx).wf(),
        old(ctx).has_block(insert_block),
    ensures
        final(ctx).computed_since(*old(ctx), insert_block),
        final(ctx).has(r),
        r.ty() == *ty,
        forall|env: Env| #[trigger] r.den(env) == sem::shaped(*ty, Sem::Undef),
{
    let op = UndefOp::new(ctx, ty.clone());
    reveal(ir::raw_sem);
    emit_op(op.get_operation(), ctx, insert_block)
}

/// An aggregate with one part replaced.
pub fn emit_insert(
    ctx: &mut Context,
    insert_block: BlockId,
    value: Value,
    aggregate: Value,
    indices: Vec<u32>,
) -> (r: Value)
    requires
        old(ctx).wf(),
        old(ctx).has_block(insert_block),
        old(ctx).has(value),
        old(ctx).has(aggregate),
    ensures
        final(ctx).computed_since(*old(ctx), insert_block),
        final(ctx).has(r),
        r.ty() == aggregate.ty(),
        forall|env: Env| #[trigger]
            r.den(env) == sem::shaped(
                aggregate.ty(),
                sem::with_part(aggregate.den(env), indices@, value.den(env)),
            ),
{
    let op = InsertValueOp::new(ctx, value, aggregate, indices);
    reveal(ir::raw_sem);
    emit_op(op.get_operation(), ctx, insert_block)
}

/// A part of an aggregate.
pub fn emit_extract(
    ctx: &mut Context,
    insert_block: BlockId,
    aggregate: Value,
    indices: Vec<u32>,
) -> (r: Value)
    requires
        old(ctx).wf(),
        old(ctx).has_block(insert_block),
        old(ctx).has(aggregate),
        ox::type_at(aggregate.ty(), indices@) is Some,
    ensures
        final(ctx).computed_since(*old(ctx), insert_block),
        final(ctx).has(r),
        Some(r.ty()) == ox::type_at(aggregate.ty(), indices@),
        forall|env: Env| #[trigger]
            r.den(env) == sem::shaped(r.ty(), sem::part_at(aggregate.den(env), indices@)),
        final(ctx).kinds(insert_block) == old(ctx).kinds(insert_block).push(
            OpKind::ExtractValue { indices },
        ),
{
    let op = ExtractValueOp::new(ctx, aggregate, indices);
    proof {
        ctx.lemma_kept_kinds(*old(ctx), insert_block);
    }
    reveal(ir::raw_sem);
    emit_op(op.get_operation(), ctx, insert_block)
}

/// An aggregate with one field replaced.
pub fn emit_insert_field(
    ctx: &mut Context,
    insert_block: BlockId,
    value: Value,
    aggregate: Value,
    index: u32,
) -> (r: Value)
    requires
        old(ctx).wf(),
        old(ctx).has_block(insert_block),
        old(ctx).has(value),
        old(ctx).has(aggregate),
    ensures
        final(ctx).computed_since(*old(ctx), insert_block),
        final(ctx).has(r),
        r.ty() == aggregate.ty(),
        forall|env: Env| #[trigger]
            r.den(env) == sem::shaped(
                aggregate.ty(),
                sem::with_part(aggregate.den(env), seq![index], value.den(env)),
            ),
{
    let path: Vec<u32> = vec![index];
    assert(path@ =~= seq![index]);
    emit_insert(ctx, insert_block, value, aggregate, path)
}

/// The type of a field of an aggregate type.
pub open spec fn field_type(ty: TypeHandle, index: u32) -> Option<TypeHandle> {
    ox::type_at(ty, seq![index])
}

/// A field of an aggregate.
pub fn emit_extract_field(
    ctx: &mut Context,
    insert_block: BlockId,
    aggregate: Value,
    index: u32,
) -> (r: Value)
    requires
        old(ctx).wf(),
        old(ctx).has_block(insert_block),
        old(ctx).has(aggregate),
        field_type(aggregate.ty(), index) is Some,
    ensures
        final(ctx).computed_since(*old(ctx), insert_block),
        final(ctx).has(r),
        Some(r.ty()) == field_type(aggregate.ty(), index),
        forall|env: Env| #[trigger]
            r.den(env) == sem::shaped(r.ty(), sem::part(aggregate.den(env), index as int)),
        final(ctx).kinds(insert_block).len() == old(ctx).kinds(insert_block).len() + 1,
        final(ctx).kinds(insert_block).drop_last() == old(ctx).kinds(insert_block),
        final(ctx).kinds(insert_block).last() matches OpKind::ExtractValue { indices } && indices@
            == seq![index],
{
    let path: Vec<u32> = vec![index];
    assert(path@ =~= seq![index]);
    assert forall|whole: Sem| #[trigger] sem::part_at(whole, path@) == sem::part(
        whole,
        index as int,
    ) by {
        reveal_with_fuel(sem::part_at, 2);
    }
    let r: Value = emit_extract(ctx, insert_block, aggregate, path);
    assert(ctx.kinds(insert_block).drop_last() =~= old(ctx).kinds(insert_block));
    r
}

/// A part of an aggregate that has the shape of its type has that of its own.
proof fn lemma_shaped_part(ty: &TypeHandle, whole: Sem, path: Seq<u32>)
    requires
        ox::type_at(*ty, path) is Some,
    ensures
        sem::has_part(sem::shaped(*ty, whole), path),
        sem::part_at(sem::shaped(*ty, whole), path) == sem::shaped(
            ox::type_at(*ty, path)->0,
            sem::part_at(whole, path),
        ),
    decreases path.len(),
{
    if path.len() > 0 {
        let index = path[0] as int;
        match ty {
            TypeHandle::Array { elem, .. } => {
                lemma_shaped_part(elem, sem::part(whole, index), path.skip(1));
            },
            TypeHandle::Struct { body: StructBody::Fields(list), .. } => {
                sem::lemma_shaped_list(list, whole, 0);
                assert(sem::shaped_list(**list, whole, 0)[index] == sem::shaped(
                    list.seq()[index],
                    sem::part(whole, 0 + index),
                ));
                let first = seq![path[0]];
                assert(first.skip(1) =~= Seq::<u32>::empty());
                reveal_with_fuel(ox::type_at, 2);
                let head = ox::type_at(*ty, first)->0;
                assert(head == list.seq()[index]);
                lemma_shaped_part(&head, sem::part(whole, index), path.skip(1));
            },
            _ => {},
        }
    }
}

/// Two paths neither of which begins with the other part at some step.
proof fn lemma_fork(path: Seq<u32>, other: Seq<u32>) -> (fork: int)
    requires
        !path.is_prefix_of(other),
        !other.is_prefix_of(path),
    ensures
        0 <= fork < path.len(),
        fork < other.len(),
        path.take(fork) == other.take(fork),
        path[fork] != other[fork],
    decreases path.len(),
{
    if path.len() == 0 {
        assert(path =~= other.subrange(0, 0));
        0
    } else if other.len() == 0 {
        assert(other =~= path.subrange(0, 0));
        0
    } else if path[0] != other[0] {
        assert(path.take(0) =~= other.take(0));
        0
    } else {
        let rest = path.skip(1);
        let beside = other.skip(1);
        if rest.is_prefix_of(beside) {
            assert forall|i: int| 0 <= i < path.len() implies path[i] == other.subrange(
                0,
                path.len() as int,
            )[i] by {
                if i > 0 {
                    assert(rest[i - 1] == beside.subrange(0, rest.len() as int)[i - 1]);
                }
            }
            assert(path =~= other.subrange(0, path.len() as int));
        }
        if beside.is_prefix_of(rest) {
            assert forall|i: int| 0 <= i < other.len() implies other[i] == path.subrange(
                0,
                other.len() as int,
            )[i] by {
                if i > 0 {
                    assert(beside[i - 1] == rest.subrange(0, beside.len() as int)[i - 1]);
                }
            }
            assert(other =~= path.subrange(0, other.len() as int));
        }
        let fork = lemma_fork(rest, beside);
        let both = fork + 1;
        assert forall|i: int| 0 <= i < both implies #[trigger] path.take(both)[i] == other.take(
            both,
        )[i] by {
            if i > 0 {
                assert(rest.take(fork)[i - 1] == beside.take(fork)[i - 1]);
            }
        }
        assert(path.take(both) =~= other.take(both));
        both
    }
}

/// What an operation takes out of an aggregate where another has put a value
/// in is that value.
pub proof fn law_inserted_read_back(
    ctx: Context,
    aggregate: Value,
    value: Value,
    inserted: Value,
    insert: OpKind,
    extract: OpKind,
    at: Moment,
    env: Env,
)
    requires
        ctx.wf(),
        ctx.has(aggregate),
        ctx.has(value),
        sem::narrow(value.ty()),
        insert matches OpKind::InsertValue { indices: put } && extract matches OpKind::ExtractValue {
            indices: taken,
        } && put@ == taken@ && ox::type_at(aggregate.ty(), put@) == Some(value.ty()),
        inserted.ty() == aggregate.ty(),
        inserted.den(env) == ir::op_sem(
            insert,
            seq![aggregate, value],
            aggregate.ty(),
            at,
            env,
        ),
    ensures
        ir::op_sem(extract, seq![inserted], value.ty(), at, env) == value.den(env),
{
    reveal(ir::raw_sem);
    let path = insert->InsertValue_indices@;
    let whole = sem::with_part(aggregate.den(env), path, value.den(env));
    ctx.value_shaped(aggregate, env);
    let s = choose|s: Sem| #[trigger] aggregate.den(env) == sem::shaped(aggregate.ty(), s);
    lemma_shaped_part(&aggregate.ty(), s, path);
    lemma_shaped_part(&aggregate.ty(), whole, path);
    ctx.value_fixed(value, env);
    sem::law_part_read_back(aggregate.den(env), path, value.den(env));
}

/// What an operation takes out of an aggregate beside where another has put a
/// value in, on a path that neither leads there nor further, is what it would
/// have taken out before.
pub proof fn law_inserted_beside(
    aggregate: Value,
    value: Value,
    inserted: Value,
    insert: OpKind,
    extract: OpKind,
    at: Moment,
    env: Env,
)
    requires
        insert matches OpKind::InsertValue { indices: put } && extract matches OpKind::ExtractValue {
            indices: taken,
        } && !put@.is_prefix_of(taken@) && !taken@.is_prefix_of(put@) && ox::type_at(
            aggregate.ty(),
            taken@,
        ) is Some && sem::narrow(ox::type_at(aggregate.ty(), taken@)->0),
        inserted.ty() == aggregate.ty(),
        inserted.den(env) == ir::op_sem(
            insert,
            seq![aggregate, value],
            aggregate.ty(),
            at,
            env,
        ),
    ensures
        ({
            let ty = ox::type_at(aggregate.ty(), extract->ExtractValue_indices@)->0;
            ir::op_sem(extract, seq![inserted], ty, at, env) == ir::op_sem(
                extract,
                seq![aggregate],
                ty,
                at,
                env,
            )
        }),
{
    reveal(ir::raw_sem);
    let path = insert->InsertValue_indices@;
    let other = extract->ExtractValue_indices@;
    let ty = ox::type_at(aggregate.ty(), other)->0;
    let whole = sem::with_part(aggregate.den(env), path, value.den(env));
    lemma_shaped_part(&aggregate.ty(), whole, other);
    let fork = lemma_fork(path, other);
    sem::law_other_parts_stay(aggregate.den(env), path, other, value.den(env), fork);
    sem::lemma_shaped_idem(&ty, sem::part_at(aggregate.den(env), other));
}

/// A read of a value of a type.
pub fn emit_load(ctx: &mut Context, insert_block: BlockId, addr: Value, ty: &TypeHandle) -> (r:
    Value)
    requires
        old(ctx).wf(),
        old(ctx).has_block(insert_block),
        old(ctx).has(addr),
    ensures
        final(ctx).computed_since(*old(ctx), insert_block),
        final(ctx).has(r),
        r.ty() == *ty,
        forall|env: Env| #[trigger]
            r.den(env) == sem::shaped(
                *ty,
                (env.read)(old(ctx)@.now(insert_block), addr.den(env), *ty),
            ),
{
    let op = LoadOp::new(ctx, addr, ty.clone());
    reveal(ir::raw_sem);
    emit_op(op.get_operation(), ctx, insert_block)
}

/// A stack slot for one value of a type.
pub fn emit_alloca(ctx: &mut Context, insert_block: BlockId, elem: &TypeHandle) -> (r: Value)
    requires
        old(ctx).wf(),
        old(ctx).has_block(insert_block),
    ensures
        final(ctx).acted_since(*old(ctx), insert_block, Inst::Alloca { elem: *elem }),
        final(ctx).has(r),
        r.ty() == slot_type(*elem),
        forall|env: Env| #[trigger]
            r.den(env) == slot_address(old(ctx)@.now(insert_block), env),
{
    let op = AllocaOp::new(ctx, elem.clone());
    reveal(ir::raw_sem);
    emit_op(op.get_operation(), ctx, insert_block)
}

/// The type of a stack slot's address.
pub open spec fn slot_type(elem: TypeHandle) -> TypeHandle {
    TypeHandle::MirPtr {
        pointee: Rc::new(elem),
        mutable: true,
        address_space: types::GENERIC,
    }
}

/// The address of the stack slot that is reserved at a moment.
pub open spec fn slot_address(at: Moment, env: Env) -> Sem {
    Sem::Bits(sem::wrap(64, (env.slot)(at) as int))
}

/// Writes a value to an address.
pub fn emit_store(ctx: &mut Context, insert_block: BlockId, value: Value, addr: Value)
    requires
        old(ctx).wf(),
        old(ctx).has_block(insert_block),
        old(ctx).has(value),
        old(ctx).has(addr),
    ensures
        final(ctx).acted_since(*old(ctx), insert_block, Inst::Store { addr, value }),
{
    let op = StoreOp::new(ctx, value, addr);
    ctx.insert_at_back(op.get_operation(), insert_block);
}

} // verus!
