//! Meanings, and the emission of operations by what they mean.
//!
//! A [`Meaning`] can be computed from others without looking at a run: this
//! gives each construct to import a meaning of its own, and each function here
//! emits an operation whose result has such a meaning. Instructions with an
//! effect are described in the same way, as [`Step`]s.

use crate::emit;
use crate::emit::{emit_op, emit_store};
use crate::error::Failure;
use crate::ir;
use crate::ir::{BlockId, Context, Dialect, Inst, Meaning, OpId, OpKind, Value};
use crate::ox;
use crate::ox::{
    AddOp, AddressOfOp, BitAndOp, BitOrOp, BitXorOp, CallOp, CastOp, CondBrOp, ConstantOp, DivOp,
    EqOp, GeOp, GotoOp, GtOp, LeOp, LoadOp, LtOp, MulOp, NeOp, NegOp, PtrOffsetOp, RemOp, ReturnOp,
    ShlOp, SignAwareShrOp, SubOp, UndefOp, UnreachableOp,
};
use crate::sem;
use crate::sem::{BinKind, Env, Moment, Relation, Sem};
use crate::types;
use crate::types::{Signedness, TypeHandle};
use vstd::prelude::*;

verus! {

impl Meaning {
    /// The bit pattern in a run.
    pub open spec fn bits(self, env: Env) -> u128 {
        sem::bits_of((self.den)(env))
    }
}

/// A value of an integer type, by its bits.
pub open spec fn integer(ty: TypeHandle, bits: spec_fn(Env) -> u128) -> Meaning {
    Meaning { ty, den: |env: Env| Sem::Bits(bits(env)) }
}

/// A constant of an integer type.
pub open spec fn constant(ty: TypeHandle, bits: u128) -> Meaning {
    Meaning { ty, den: |env: Env| Sem::Bits(emit::constant_bits(ty->width, bits)) }
}

/// An undefined value.
pub open spec fn undefined(ty: TypeHandle) -> Meaning {
    Meaning { ty, den: |env: Env| sem::shaped(ty, Sem::Undef) }
}

/// What a load reads.
pub open spec fn loaded(at: Moment, addr: Meaning, ty: TypeHandle) -> Meaning {
    Meaning { ty, den: |env: Env| sem::shaped(ty, (env.read)(at, (addr.den)(env), ty)) }
}

/// Whether memory still holds at a moment what a step has stored: a load of the
/// type of the value from the address reads it.
pub open spec fn keeps(env: Env, step: Step, at: Moment) -> bool {
    step matches Step::Store { addr, value } ==> (env.read)(at, (addr.den)(env), value.ty) == (
    value.den)(env)
}

/// A load gives what was stored, where memory still holds it.
pub proof fn law_loaded_back(env: Env, addr: Meaning, value: Meaning, at: Moment)
    requires
        keeps(env, Step::Store { addr, value }, at),
        sem::shaped(value.ty, (value.den)(env)) == (value.den)(env),
    ensures
        (loaded(at, addr, value.ty).den)(env) == (value.den)(env),
{
}

/// The address of a symbol.
pub open spec fn symbol_address(name: Seq<char>) -> Meaning {
    Meaning {
        ty: types::pointer(),
        den: |env: Env| Sem::Bits(sem::wrap(64, (env.symbol)(name) as int)),
    }
}

/// The address some bytes after another.
pub open spec fn moved(base: Meaning, bytes: Meaning) -> Meaning {
    Meaning {
        ty: types::pointer(),
        den: |env: Env|
            Sem::Bits(
                sem::wrap(
                    64,
                    sem::address_of((base.den)(env)) + sem::int_value(
                        bytes.ty,
                        (bytes.den)(env),
                    ),
                ),
            ),
    }
}

/// The address of the stack slot that is reserved at a moment.
pub open spec fn slot_at(at: Moment, elem: TypeHandle) -> Meaning {
    Meaning { ty: emit::slot_type(elem), den: |env: Env| emit::slot_address(at, env) }
}

/// What a cast makes of a meaning in a run.
pub open spec fn cast_to(from: TypeHandle, to: TypeHandle, a: Sem, env: Env) -> Sem {
    match ox::cast_kind_of(from, to) {
        Some(kind) => sem::cast_sem(kind, from, to, a, env),
        None => (env.reinterpret)(from, to, a),
    }
}

/// A value after a cast.
pub open spec fn cast(value: Meaning, ty: TypeHandle) -> Meaning {
    Meaning {
        ty,
        den: |env: Env| sem::shaped(ty, cast_to(value.ty, ty, (value.den)(env), env)),
    }
}

/// A value as one of a type: itself where it has the type.
pub open spec fn as_type(value: Meaning, ty: TypeHandle) -> Meaning {
    if value.ty == ty {
        value
    } else {
        cast(value, ty)
    }
}

/// A field of an aggregate.
pub open spec fn field(whole: Meaning, index: u32) -> Meaning {
    let ty = emit::field_type(whole.ty, index)->0;
    Meaning {
        ty,
        den: |env: Env| sem::shaped(ty, sem::part((whole.den)(env), index as int)),
    }
}

/// Whether an aggregate has a field.
pub open spec fn has_field(whole: Meaning, index: u32) -> bool {
    emit::field_type(whole.ty, index) is Some
}

/// An aggregate with a field replaced.
pub open spec fn with_field(whole: Meaning, index: u32, part: Meaning) -> Meaning {
    Meaning {
        ty: whole.ty,
        den: |env: Env|
            sem::shaped(
                whole.ty,
                sem::with_part((whole.den)(env), seq![index], (part.den)(env)),
            ),
    }
}

/// An aggregate of two fields.
pub open spec fn pair(ty: TypeHandle, first: Meaning, second: Meaning) -> Meaning {
    with_field(with_field(undefined(ty), 0, first), 1, second)
}

/// The operations of arithmetic.
#[derive(Clone, Copy, PartialEq, Eq, Debug, Structural)]
pub enum Arith {
    Add,
    Sub,
    Mul,
    Div,
    Rem,
    And,
    Or,
    Xor,
    Shl,
    Shr,
}

/// What an operation of arithmetic is, and what it is on addresses.
pub open spec fn arith_kinds(op: Arith) -> (BinKind, BinKind) {
    match op {
        Arith::Add => (BinKind::Add, BinKind::Add),
        Arith::Sub => (BinKind::Sub, BinKind::Sub),
        Arith::Mul => (BinKind::Mul, BinKind::Mul),
        Arith::Div => (BinKind::Div, BinKind::Div),
        Arith::Rem => (BinKind::Rem, BinKind::Rem),
        Arith::And => (BinKind::And, BinKind::And),
        Arith::Or => (BinKind::Or, BinKind::Or),
        Arith::Xor => (BinKind::Xor, BinKind::Xor),
        Arith::Shl => (BinKind::Shl, BinKind::Shl),
        Arith::Shr => (BinKind::Shr, BinKind::LShr),
    }
}

/// What arithmetic gives. Where an address takes part, both operands are read
/// as unsigned.
pub open spec fn computed(op: Arith, lhs: Meaning, rhs: Meaning) -> Meaning {
    let (kind, twin) = arith_kinds(op);
    Meaning {
        ty: lhs.ty,
        den: |env: Env|
            sem::shaped(
                lhs.ty,
                if lhs.ty.is_ptr() || rhs.ty.is_ptr() {
                    Sem::Bits(
                        sem::int_bin(
                            twin,
                            sem::bit_width(lhs.ty),
                            Signedness::Unsigned,
                            lhs.bits(env),
                            rhs.bits(env),
                            env,
                        ),
                    )
                } else {
                    sem::bin_sem(kind, lhs.ty, (lhs.den)(env), (rhs.den)(env), env)
                },
            ),
    }
}

/// Whether a relation holds.
pub open spec fn compared(relation: Relation, lhs: Meaning, rhs: Meaning) -> Meaning {
    Meaning {
        ty: types::signless(1),
        den: |env: Env|
            sem::shaped(
                types::signless(1),
                if lhs.ty.is_ptr() || rhs.ty.is_ptr() {
                    Sem::Bits(
                        sem::bit(
                            sem::holds(relation, lhs.bits(env) as int, rhs.bits(env) as int),
                        ),
                    )
                } else {
                    sem::compare_sem(relation, lhs.ty, (lhs.den)(env), (rhs.den)(env), env)
                },
            ),
    }
}

/// A negated value.
pub open spec fn negated(value: Meaning) -> Meaning {
    Meaning {
        ty: value.ty,
        den: |env: Env|
            sem::shaped(value.ty, sem::neg_sem(value.ty, (value.den)(env), env)),
    }
}

/// What a call hands back.
pub open spec fn replied(at: Moment, ty: TypeHandle) -> Meaning {
    Meaning { ty, den: |env: Env| sem::shaped(ty, (env.reply)(at)) }
}

/// An instruction with an effect, by what its operands mean.
#[verifier::ext_equal]
#[allow(inconsistent_fields)]
pub enum Step {
    Alloca { elem: TypeHandle },
    Store { addr: Meaning, value: Meaning },
    Return { dialect: Dialect, operands: Seq<Meaning> },
    Branch { conditional: bool, operands: Seq<Meaning>, successors: Seq<BlockId> },
    Unreachable,
    Call { callee: Seq<char>, args: Seq<Meaning>, result: Option<TypeHandle> },
    LlvmCall { callee: Seq<char>, ty: TypeHandle, args: Seq<Meaning> },
    IndirectCall { ty: TypeHandle, operands: Seq<Meaning> },
    /// The definition or declaration of a symbol.
    Symbol(Inst),
}

/// What values mean.
pub open spec fn meanings(values: Seq<Value>) -> Seq<Meaning> {
    values.map_values(|v: Value| v.meaning@)
}

/// What an instruction does.
pub open spec fn step_of(inst: Inst) -> Step {
    match inst {
        Inst::Alloca { elem } => Step::Alloca { elem },
        Inst::Store { addr, value } => Step::Store { addr: addr.meaning@, value: value.meaning@ },
        Inst::Return { dialect, operands } => Step::Return {
            dialect,
            operands: meanings(operands),
        },
        Inst::Branch { conditional, operands, successors } => Step::Branch {
            conditional,
            operands: meanings(operands),
            successors,
        },
        Inst::Unreachable => Step::Unreachable,
        Inst::Call { callee, args, result } => Step::Call {
            callee,
            args: meanings(args),
            result,
        },
        Inst::LlvmCall { callee, ty, args } => Step::LlvmCall { callee, ty, args: meanings(args) },
        Inst::IndirectCall { ty, operands } => Step::IndirectCall {
            ty,
            operands: meanings(operands),
        },
        other => Step::Symbol(other),
    }
}

/// Whether a step ends a block.
pub open spec fn step_ends(step: Step) -> bool {
    step is Return || step is Branch || step is Unreachable
}

/// Whether no step ends a block.
#[verifier::opaque]
pub open spec fn is_straight(steps: Seq<Step>) -> bool {
    forall|k: int| 0 <= k < steps.len() ==> !step_ends(#[trigger] steps[k])
}

/// Steps of which none ends a block are still so one after another.
pub proof fn lemma_straight(first: Seq<Step>, second: Seq<Step>)
    requires
        is_straight(first),
        is_straight(second),
    ensures
        is_straight(first + second),
{
    reveal(is_straight);
    let both = first + second;
    assert forall|k: int| 0 <= k < both.len() implies !step_ends(#[trigger] both[k]) by {
        if k < first.len() {
            assert(both[k] == first[k]);
        } else {
            assert(both[k] == second[k - first.len()]);
        }
    }
}

/// What instructions do.
pub open spec fn steps_of(insts: Seq<Inst>) -> Seq<Step> {
    insts.map_values(|inst: Inst| step_of(inst))
}

/// The moment some steps later.
pub open spec fn later(at: Moment, count: nat) -> Moment {
    Moment { block: at.block, time: at.time + count }
}

impl Context {
    /// What the instructions of a block do.
    pub open spec fn steps(self, block: BlockId) -> Seq<Step> {
        steps_of(self@.effects[block.0 as int])
    }

    /// Whether nothing happened since an earlier state but that instructions
    /// were appended to a block, which do given steps, and of which none ends
    /// the block.
    pub open spec fn ran_since(self, old: Context, block: BlockId, steps: Seq<Step>) -> bool {
        self.moved_since(old, block, steps) && is_straight(steps)
    }

    /// Whether nothing happened since an earlier state but that a block was
    /// ended by instructions that do given steps: the last operation ends it,
    /// and no earlier step does.
    pub open spec fn left_since(self, old: Context, block: BlockId, steps: Seq<Step>) -> bool {
        &&& self.moved_since(old, block, steps)
        &&& steps.len() > 0
        &&& is_straight(steps.drop_last())
        &&& self.kinds(block).len() > 0
        &&& ir::kind_ends(self.kinds(block).last())
    }

    /// Whether nothing happened since an earlier state but that instructions
    /// were appended to a block, which do given steps.
    pub open spec fn moved_since(self, old: Context, block: BlockId, steps: Seq<Step>) -> bool {
        &&& self.grew(old)
        &&& self.frame(block).kinds == old.frame(block).kinds
        &&& self.dialects == old.dialects
        &&& self@.args == old@.args
        &&& self@.labels == old@.labels
        &&& self@.regions == old@.regions
        &&& self@.effects.len() == old@.effects.len()
        &&& self.steps(block) == old.steps(block) + steps
        &&& forall|b: int|
            0 <= b < old@.effects.len() && b != block.0 ==> #[trigger] self@.effects[b]
                == old@.effects[b]
    }

    /// Computations make no steps.
    pub proof fn lemma_computed(self, old: Context, block: BlockId)
        requires
            self.computed_since(old, block),
        ensures
            self.ran_since(old, block, Seq::empty()),
    {
        reveal(is_straight);
        assert(old.steps(block) + Seq::<Step>::empty() =~= old.steps(block));
    }

    /// One instruction makes one step.
    pub proof fn lemma_acted(self, old: Context, block: BlockId, inst: Inst)
        requires
            self.acted_since(old, block, inst),
            old.has_block(block),
        ensures
            self.moved_since(old, block, seq![step_of(inst)]),
            !ir::inst_ends(inst) ==> self.ran_since(old, block, seq![step_of(inst)]),
    {
        reveal(is_straight);
        let before = old@.effects[block.0 as int];
        assert(self@.effects[block.0 as int] == before.push(inst));
        assert(steps_of(before.push(inst)) =~= steps_of(before) + seq![step_of(inst)]);
    }

    /// Steps follow each other.
    pub proof fn lemma_ran(
        self,
        middle: Context,
        old: Context,
        block: BlockId,
        first: Seq<Step>,
        second: Seq<Step>,
    )
        requires
            middle.ran_since(old, block, first),
            self.ran_since(middle, block, second),
            old.has_block(block),
        ensures
            self.ran_since(old, block, first + second),
            self@.now(block) == later(old@.now(block), first.len() + second.len()),
            middle@.now(block) == later(old@.now(block), first.len()),
    {
        lemma_straight(first, second);
        assert(old.steps(block) + first + second =~= old.steps(block) + (first + second));
        assert(old.steps(block).len() == old@.time(block));
        assert(middle.steps(block).len() == middle@.time(block));
        assert(self.steps(block).len() == self@.time(block));
    }

    /// A block is ended after steps.
    pub proof fn lemma_left(
        self,
        middle: Context,
        old: Context,
        block: BlockId,
        first: Seq<Step>,
        second: Seq<Step>,
    )
        requires
            middle.ran_since(old, block, first),
            self.left_since(middle, block, second),
        ensures
            self.left_since(old, block, first + second),
    {
        lemma_straight(first, second.drop_last());
        assert((first + second).drop_last() =~= first + second.drop_last());
        assert(old.steps(block) + first + second =~= old.steps(block) + (first + second));
    }

    /// A block is ended after computations.
    pub proof fn lemma_computed_left(
        self,
        middle: Context,
        old: Context,
        block: BlockId,
        steps: Seq<Step>,
    )
        requires
            middle.computed_since(old, block),
            self.left_since(middle, block, steps),
        ensures
            self.left_since(old, block, steps),
    {
    }

    /// A block that was ended is whole where no step before ended it.
    pub proof fn lemma_left_whole(self, old: Context, block: BlockId, steps: Seq<Step>)
        requires
            self.left_since(old, block, steps),
            old.has_block(block),
            is_straight(old.steps(block)),
        ensures
            ir::is_whole(self.kinds(block)),
    {
        reveal(is_straight);
        let insts = self@.effects[block.0 as int];
        let all = self.steps(block);
        assert(all == old.steps(block) + steps);
        assert forall|k: int| 0 <= k < insts.len() - 1 implies !ir::inst_ends(
            #[trigger] insts[k],
        ) by {
            assert(all[k] == step_of(insts[k]));
            let n = old.steps(block).len();
            if k < n {
                assert(all[k] == old.steps(block)[k]);
            } else {
                assert(all[k] == steps.drop_last()[k - n]);
            }
        }
        self.lemma_whole(block);
    }

    /// Steps take time.
    pub proof fn lemma_time(self, old: Context, block: BlockId, steps: Seq<Step>)
        requires
            self.ran_since(old, block, steps),
            old.has_block(block),
        ensures
            self@.now(block) == later(old@.now(block), steps.len()),
            self.has_block(block),
    {
        assert(old.steps(block).len() == old@.time(block));
        assert(self.steps(block).len() == self@.time(block));
    }
}

/// A value has a meaning where it has the type and is the same in every run.
pub proof fn lemma_means(value: Value, meaning: Meaning)
    requires
        value.ty() == meaning.ty,
        forall|env: Env| #[trigger] value.den(env) == (meaning.den)(env),
    ensures
        value.meaning@ == meaning,
{
    assert forall|env: Env| #[trigger] (value.meaning@.den)(env) == (meaning.den)(env) by {
        assert(value.den(env) == (meaning.den)(env));
    }
    assert(value.meaning@.den =~= meaning.den);
}

/// A constant of an integer type.
pub fn put_constant(ctx: &mut Context, block: BlockId, ty: &TypeHandle, bits: u128) -> (r: Value)
    requires
        old(ctx).wf(),
        old(ctx).has_block(block),
        ty is Integer,
    ensures
        final(ctx).computed_since(*old(ctx), block),
        final(ctx).has(r),
        r.meaning@ == constant(*ty, bits),
{
    let op: ConstantOp = ConstantOp::new_integer(ctx, ty.clone(), bits);
    let r: Value = emit_op(op.get_operation(), ctx, block);
    proof {
        reveal(ir::raw_sem);
        assert forall|env: Env| r.den(env) == Sem::Bits(emit::constant_bits(ty->width, bits)) by {
            if ty->width <= 128 && bits < sem::modulus(ty->width) {
                sem::lemma_wrap_small(ty->width, bits as int);
            }
        }
        lemma_means(r, constant(*ty, bits));
    }
    r
}

/// Whether constants of a type are made of bits.
pub open spec fn has_constants(ty: TypeHandle) -> bool {
    ty is Integer || ty.is_float()
}

/// A constant of an integer or float type.
pub open spec fn scalar(ty: TypeHandle, bits: u128) -> Meaning {
    match ty {
        TypeHandle::Fp32 => Meaning {
            ty,
            den: |env: Env| sem::shaped(ty, Sem::Bits((bits % 0x1_0000_0000) as u32 as u128)),
        },
        TypeHandle::Fp64 => Meaning {
            ty,
            den: |env: Env|
                sem::shaped(ty, Sem::Bits((bits % 0x1_0000_0000_0000_0000) as u64 as u128)),
        },
        _ => constant(ty, bits),
    }
}

/// A constant of an integer or float type.
pub fn put_scalar(ctx: &mut Context, block: BlockId, ty: &TypeHandle, bits: u128) -> (r: Value)
    requires
        old(ctx).wf(),
        old(ctx).has_block(block),
        has_constants(*ty),
    ensures
        final(ctx).computed_since(*old(ctx), block),
        final(ctx).has(r),
        r.meaning@ == scalar(*ty, bits),
{
    if let TypeHandle::Integer { .. } = ty {
        return put_constant(ctx, block, ty, bits);
    }
    match emit::constant_from_bits(ctx, ty, bits) {
        Ok(op) => {
            let v: Value = emit_op(op.get_operation(), ctx, block);
            reveal(ir::raw_sem);
            proof {
                lemma_means(v, scalar(*ty, bits));
            }
            v
        },
        Err(_) => put_undef(ctx, block, ty),
    }
}

/// A size.
pub fn put_size(ctx: &mut Context, block: BlockId, bytes: u64) -> (r: Value)
    requires
        old(ctx).wf(),
        old(ctx).has_block(block),
    ensures
        final(ctx).computed_since(*old(ctx), block),
        final(ctx).has(r),
        r.meaning@ == constant(types::unsigned(64), bytes as u128),
{
    put_constant(ctx, block, &TypeHandle::integer(64, Signedness::Unsigned), bytes as u128)
}

/// An undefined value.
pub fn put_undef(ctx: &mut Context, block: BlockId, ty: &TypeHandle) -> (r: Value)
    requires
        old(ctx).wf(),
        old(ctx).has_block(block),
    ensures
        final(ctx).computed_since(*old(ctx), block),
        final(ctx).has(r),
        r.meaning@ == undefined(*ty),
{
    let op: UndefOp = UndefOp::new(ctx, ty.clone());
    let r: Value = emit_op(op.get_operation(), ctx, block);
    proof {
        reveal(ir::raw_sem);
        lemma_means(r, undefined(*ty));
    }
    r
}

/// A read.
pub fn put_load(ctx: &mut Context, block: BlockId, addr: Value, ty: &TypeHandle) -> (r: Value)
    requires
        old(ctx).wf(),
        old(ctx).has_block(block),
        old(ctx).has(addr),
    ensures
        final(ctx).computed_since(*old(ctx), block),
        final(ctx).has(r),
        r.meaning@ == loaded(old(ctx)@.now(block), addr.meaning@, *ty),
{
    let op: LoadOp = LoadOp::new(ctx, addr, ty.clone());
    let r: Value = emit_op(op.get_operation(), ctx, block);
    proof {
        reveal(ir::raw_sem);
        lemma_means(r, loaded(old(ctx)@.now(block), addr.meaning@, *ty));
    }
    r
}

/// The address of a symbol.
pub fn put_address_of(ctx: &mut Context, block: BlockId, symbol: String) -> (r: Value)
    requires
        old(ctx).wf(),
        old(ctx).has_block(block),
    ensures
        final(ctx).computed_since(*old(ctx), block),
        final(ctx).has(r),
        r.meaning@ == symbol_address(symbol@),
{
    let op: AddressOfOp = AddressOfOp::new(ctx, symbol);
    let r: Value = emit_op(op.get_operation(), ctx, block);
    proof {
        reveal(ir::raw_sem);
        lemma_means(r, symbol_address(symbol@));
    }
    r
}

/// An address some bytes after another.
pub fn put_offset(ctx: &mut Context, block: BlockId, base: Value, bytes: Value) -> (r: Value)
    requires
        old(ctx).wf(),
        old(ctx).has_block(block),
        old(ctx).has(base),
        old(ctx).has(bytes),
    ensures
        final(ctx).computed_since(*old(ctx), block),
        final(ctx).has(r),
        r.meaning@ == moved(base.meaning@, bytes.meaning@),
{
    let op: PtrOffsetOp = PtrOffsetOp::new(ctx, base, bytes);
    let r: Value = emit_op(op.get_operation(), ctx, block);
    proof {
        reveal(ir::raw_sem);
        assert forall|env: Env| r.den(env) == (moved(base.meaning@, bytes.meaning@).den)(env) by {
            sem::lemma_wrap_idem(
                64,
                sem::address_of(base.den(env)) + sem::int_value(bytes.ty(), bytes.den(env)),
            );
        }
        lemma_means(r, moved(base.meaning@, bytes.meaning@));
    }
    r
}

/// The address a number of bytes after another; the address itself for none.
pub open spec fn past(base: Meaning, bytes: u64) -> Meaning {
    if bytes == 0 {
        base
    } else {
        moved(base, constant(types::unsigned(64), bytes as u128))
    }
}

/// An address a constant number of bytes after another.
pub fn ptr_offset_const(ctx: &mut Context, block: BlockId, base: Value, offset: u64) -> (r: Value)
    requires
        old(ctx).wf(),
        old(ctx).has_block(block),
        old(ctx).has(base),
    ensures
        final(ctx).computed_since(*old(ctx), block),
        final(ctx).has(r),
        r.meaning@ == moved(base.meaning@, constant(types::unsigned(64), offset as u128)),
{
    let bytes: Value = put_size(ctx, block, offset);
    put_offset(ctx, block, base, bytes)
}

/// The address a number of bytes after another; the address itself for none.
pub fn put_past(ctx: &mut Context, block: BlockId, base: Value, offset: u64) -> (r: Value)
    requires
        old(ctx).wf(),
        old(ctx).has_block(block),
        old(ctx).has(base),
    ensures
        final(ctx).computed_since(*old(ctx), block),
        final(ctx).has(r),
        r.meaning@ == past(base.meaning@, offset),
{
    if offset == 0 {
        base
    } else {
        ptr_offset_const(ctx, block, base, offset)
    }
}

/// A cast, also where it changes nothing.
pub fn put_cast(ctx: &mut Context, block: BlockId, value: Value, ty: &TypeHandle) -> (r: Value)
    requires
        old(ctx).wf(),
        old(ctx).has_block(block),
        old(ctx).has(value),
    ensures
        final(ctx).computed_since(*old(ctx), block),
        final(ctx).has(r),
        r.meaning@ == cast(value.meaning@, *ty),
{
    let op: CastOp = CastOp::new(ctx, value, ty.clone());
    let r: Value = emit_op(op.get_operation(), ctx, block);
    proof {
        reveal(ir::raw_sem);
        lemma_means(r, cast(value.meaning@, *ty));
    }
    r
}

/// A value as one of a type.
pub fn put_as_type(ctx: &mut Context, block: BlockId, value: Value, ty: &TypeHandle) -> (r: Value)
    requires
        old(ctx).wf(),
        old(ctx).has_block(block),
        old(ctx).has(value),
    ensures
        final(ctx).computed_since(*old(ctx), block),
        final(ctx).has(r),
        r.meaning@ == as_type(value.meaning@, *ty),
{
    if ctx.type_of(value).same(ty) {
        value
    } else {
        put_cast(ctx, block, value, ty)
    }
}

/// Whether an aggregate has a field.
pub fn value_has_field(ctx: &Context, whole: Value, index: u32) -> (r: bool)
    requires
        ctx.wf(),
        ctx.has(whole),
    ensures
        r == has_field(whole.meaning@, index),
{
    let path: Vec<u32> = vec![index];
    assert(path@ =~= seq![index]);
    ox::aggregate_field(&ctx.type_of(whole), &path).is_some()
}

/// A field of an aggregate.
pub fn put_field(ctx: &mut Context, block: BlockId, whole: Value, index: u32) -> (r: Value)
    requires
        old(ctx).wf(),
        old(ctx).has_block(block),
        old(ctx).has(whole),
        has_field(whole.meaning@, index),
    ensures
        final(ctx).computed_since(*old(ctx), block),
        final(ctx).has(r),
        r.meaning@ == field(whole.meaning@, index),
        final(ctx).kinds(block).len() == old(ctx).kinds(block).len() + 1,
        final(ctx).kinds(block).drop_last() == old(ctx).kinds(block),
        final(ctx).kinds(block).last() matches OpKind::ExtractValue { indices } && indices@
            == seq![index],
{
    let r: Value = emit::emit_extract_field(ctx, block, whole, index);
    proof {
        lemma_means(r, field(whole.meaning@, index));
    }
    r
}

/// An aggregate with a field replaced.
pub fn put_with_field(
    ctx: &mut Context,
    block: BlockId,
    whole: Value,
    index: u32,
    part: Value,
) -> (r: Value)
    requires
        old(ctx).wf(),
        old(ctx).has_block(block),
        old(ctx).has(whole),
        old(ctx).has(part),
    ensures
        final(ctx).computed_since(*old(ctx), block),
        final(ctx).has(r),
        r.meaning@ == with_field(whole.meaning@, index, part.meaning@),
{
    let r: Value = emit::emit_insert_field(ctx, block, part, whole, index);
    proof {
        lemma_means(r, with_field(whole.meaning@, index, part.meaning@));
    }
    r
}

/// An aggregate of two fields.
pub fn put_pair(
    ctx: &mut Context,
    block: BlockId,
    ty: &TypeHandle,
    first: Value,
    second: Value,
) -> (r: Value)
    requires
        old(ctx).wf(),
        old(ctx).has_block(block),
        old(ctx).has(first),
        old(ctx).has(second),
    ensures
        final(ctx).computed_since(*old(ctx), block),
        final(ctx).has(r),
        r.meaning@ == pair(*ty, first.meaning@, second.meaning@),
{
    let undef: Value = put_undef(ctx, block, ty);
    let half: Value = put_with_field(ctx, block, undef, 0, first);
    put_with_field(ctx, block, half, 1, second)
}

/// Arithmetic.
pub fn put_arith(ctx: &mut Context, block: BlockId, op: Arith, lhs: Value, rhs: Value) -> (r: Value)
    requires
        old(ctx).wf(),
        old(ctx).has_block(block),
        old(ctx).has(lhs),
        old(ctx).has(rhs),
    ensures
        final(ctx).computed_since(*old(ctx), block),
        final(ctx).has(r),
        r.meaning@ == computed(op, lhs.meaning@, rhs.meaning@),
{
    let id: OpId = match op {
        Arith::Add => AddOp::new(ctx, lhs, rhs).get_operation(),
        Arith::Sub => SubOp::new(ctx, lhs, rhs).get_operation(),
        Arith::Mul => MulOp::new(ctx, lhs, rhs).get_operation(),
        Arith::Div => DivOp::new(ctx, lhs, rhs).get_operation(),
        Arith::Rem => RemOp::new(ctx, lhs, rhs).get_operation(),
        Arith::And => BitAndOp::new(ctx, lhs, rhs).get_operation(),
        Arith::Or => BitOrOp::new(ctx, lhs, rhs).get_operation(),
        Arith::Xor => BitXorOp::new(ctx, lhs, rhs).get_operation(),
        Arith::Shl => ShlOp::new(ctx, lhs, rhs).get_operation(),
        Arith::Shr => SignAwareShrOp::new(ctx, lhs, rhs).get_operation(),
    };
    let r: Value = emit_op(id, ctx, block);
    proof {
        reveal(ir::raw_sem);
        lemma_means(r, computed(op, lhs.meaning@, rhs.meaning@));
    }
    r
}

/// A comparison.
pub fn put_compare(
    ctx: &mut Context,
    block: BlockId,
    relation: Relation,
    lhs: Value,
    rhs: Value,
) -> (r: Value)
    requires
        old(ctx).wf(),
        old(ctx).has_block(block),
        old(ctx).has(lhs),
        old(ctx).has(rhs),
    ensures
        final(ctx).computed_since(*old(ctx), block),
        final(ctx).has(r),
        r.meaning@ == compared(relation, lhs.meaning@, rhs.meaning@),
{
    let id: OpId = match relation {
        Relation::Eq => EqOp::new(ctx, lhs, rhs).get_operation(),
        Relation::Ne => NeOp::new(ctx, lhs, rhs).get_operation(),
        Relation::Lt => LtOp::new(ctx, lhs, rhs).get_operation(),
        Relation::Le => LeOp::new(ctx, lhs, rhs).get_operation(),
        Relation::Gt => GtOp::new(ctx, lhs, rhs).get_operation(),
        Relation::Ge => GeOp::new(ctx, lhs, rhs).get_operation(),
    };
    let r: Value = emit_op(id, ctx, block);
    proof {
        reveal(ir::raw_sem);
        lemma_means(r, compared(relation, lhs.meaning@, rhs.meaning@));
    }
    r
}

/// A negation.
pub fn put_neg(ctx: &mut Context, block: BlockId, value: Value) -> (r: Value)
    requires
        old(ctx).wf(),
        old(ctx).has_block(block),
        old(ctx).has(value),
    ensures
        final(ctx).computed_since(*old(ctx), block),
        final(ctx).has(r),
        r.meaning@ == negated(value.meaning@),
{
    let op: NegOp = NegOp::new(ctx, value);
    let r: Value = emit_op(op.get_operation(), ctx, block);
    proof {
        reveal(ir::raw_sem);
        lemma_means(r, negated(value.meaning@));
    }
    r
}

/// An index scaled by an element size: the index itself for single bytes.
pub open spec fn scaled(index: Meaning, size: u64) -> Meaning {
    if size == 1 {
        index
    } else {
        computed(Arith::Mul, index, constant(index.ty, size as u128))
    }
}

/// A stack slot.
pub fn put_alloca(ctx: &mut Context, block: BlockId, elem: &TypeHandle) -> (r: Value)
    requires
        old(ctx).wf(),
        old(ctx).has_block(block),
    ensures
        final(ctx).ran_since(*old(ctx), block, seq![Step::Alloca { elem: *elem }]),
        final(ctx).has(r),
        r.meaning@ == slot_at(old(ctx)@.now(block), *elem),
{
    let r: Value = emit::emit_alloca(ctx, block, elem);
    proof {
        ctx.lemma_acted(*old(ctx), block, Inst::Alloca { elem: *elem });
        lemma_means(r, slot_at(old(ctx)@.now(block), *elem));
    }
    r
}

/// A write.
pub fn put_store(ctx: &mut Context, block: BlockId, value: Value, addr: Value)
    requires
        old(ctx).wf(),
        old(ctx).has_block(block),
        old(ctx).has(value),
        old(ctx).has(addr),
    ensures
        final(ctx).ran_since(
            *old(ctx),
            block,
            seq![Step::Store { addr: addr.meaning@, value: value.meaning@ }],
        ),
{
    emit_store(ctx, block, value, addr);
    proof {
        ctx.lemma_acted(*old(ctx), block, Inst::Store { addr, value });
    }
}

/// An index scaled by an element size, where that is possible.
pub open spec fn scale(index: Meaning, size: u64) -> Result<Meaning, Failure> {
    if size == 1 || index.ty is Integer {
        Ok(scaled(index, size))
    } else {
        Err(Failure::NonIntegerConstant)
    }
}

/// Scales an index by an element size.
pub fn scale_index(ctx: &mut Context, block: BlockId, index: Value, size: u64) -> (r: Result<
    Value,
    Failure,
>)
    requires
        old(ctx).wf(),
        old(ctx).has_block(block),
        old(ctx).has(index),
    ensures
        final(ctx).computed_since(*old(ctx), block),
        match scale(index.meaning@, size) {
            Ok(meaning) => r matches Ok(v) && final(ctx).has(v) && v.meaning@ == meaning,
            Err(failure) => r matches Err(other) && other == failure,
        },
{
    if size == 1 {
        return Ok(index);
    }
    let ty: TypeHandle = ctx.type_of(index);
    if ty.as_integer().is_none() {
        return Err(Failure::NonIntegerConstant);
    }
    let factor: Value = put_constant(ctx, block, &ty, size as u128);
    Ok(put_arith(ctx, block, Arith::Mul, index, factor))
}

/// Appends an operation that has no result.
fn append(ctx: &mut Context, block: BlockId, op: OpId)
    requires
        old(ctx).wf(),
        old(ctx).has_block(block),
        old(ctx).is_loose(op),
        ir::inst_of(old(ctx).op(op)) is Some,
        ir::kind_ends(old(ctx).op(op).kind),
    ensures
        final(ctx).left_since(
            *old(ctx),
            block,
            seq![step_of(ir::inst_of(old(ctx).op(op))->0)],
        ),
        final(ctx).frame(block).kinds == old(ctx).frame(block).kinds,
{
    ctx.insert_at_back(op, block);
    proof {
        let inst = ir::inst_of(old(ctx).op(op))->0;
        assert(ctx.acted_since(*old(ctx), block, inst));
        ctx.lemma_acted(*old(ctx), block, inst);
        reveal(is_straight);
    }
}

/// A jump to a block.
pub open spec fn jump(dest: BlockId) -> Step {
    Step::Branch { conditional: false, operands: Seq::empty(), successors: seq![dest] }
}

/// Jumps to a block.
pub fn put_goto(ctx: &mut Context, block: BlockId, dest: BlockId)
    requires
        old(ctx).wf(),
        old(ctx).has_block(block),
    ensures
        final(ctx).left_since(*old(ctx), block, seq![jump(dest)]),
{
    let op: GotoOp = GotoOp::new(ctx, dest, Vec::new());
    let ghost made = *ctx;
    append(ctx, block, op.get_operation());
    proof {
        assert(meanings(Seq::<Value>::empty()) =~= Seq::empty());
        assert(made.op(op.op).operands@ =~= Seq::<Value>::empty());
        made.lemma_same_world(*old(ctx));
    }
}

/// A branch on a condition.
pub open spec fn branch(condition: Meaning, yes: BlockId, no: BlockId) -> Step {
    Step::Branch { conditional: true, operands: seq![condition], successors: seq![yes, no] }
}

/// Branches on a condition.
pub fn put_branch(ctx: &mut Context, block: BlockId, condition: Value, yes: BlockId, no: BlockId)
    requires
        old(ctx).wf(),
        old(ctx).has_block(block),
        old(ctx).has(condition),
    ensures
        final(ctx).left_since(*old(ctx), block, seq![branch(condition.meaning@, yes, no)]),
        final(ctx).frame(block).kinds == old(ctx).frame(block).kinds,
{
    let op: CondBrOp = CondBrOp::new(ctx, condition, yes, Vec::new(), no, Vec::new());
    let ghost made = *ctx;
    append(ctx, block, op.get_operation());
    proof {
        let operands = made.op(op.op).operands@;
        assert(operands =~= seq![condition]);
        assert(meanings(operands) =~= seq![condition.meaning@]);
        made.lemma_same_world(*old(ctx));
    }
}

/// What returning does.
pub open spec fn return_step(value: Option<Meaning>) -> Step {
    Step::Return { dialect: Dialect::Mir, operands: ox::option_seq(value) }
}

/// The meaning of an optional value.
pub open spec fn meaning_of(value: Option<Value>) -> Option<Meaning> {
    match value {
        Some(value) => Some(value.meaning@),
        None => None,
    }
}

/// Returns.
pub fn put_return(ctx: &mut Context, block: BlockId, value: Option<Value>)
    requires
        old(ctx).wf(),
        old(ctx).has_block(block),
        value matches Some(v) ==> old(ctx).has(v),
    ensures
        final(ctx).left_since(*old(ctx), block, seq![return_step(meaning_of(value))]),
{
    let op: ReturnOp = ReturnOp::new(ctx, value);
    let ghost made = *ctx;
    append(ctx, block, op.get_operation());
    proof {
        assert(meanings(ox::option_seq(value)) =~= ox::option_seq(meaning_of(value)));
        made.lemma_same_world(*old(ctx));
    }
}

/// Marks a point that is never reached.
pub fn put_unreachable(ctx: &mut Context, block: BlockId)
    requires
        old(ctx).wf(),
        old(ctx).has_block(block),
    ensures
        final(ctx).left_since(*old(ctx), block, seq![Step::Unreachable]),
{
    let op: UnreachableOp = UnreachableOp::new(ctx);
    let ghost made = *ctx;
    append(ctx, block, op.get_operation());
    proof {
        made.lemma_same_world(*old(ctx));
    }
}

impl Context {
    /// Whether a state holds the same world as an earlier one.
    pub open spec fn still(self, old: Context) -> bool {
        self.grew(old) && self@ == old@ && self.dialects == old.dialects
    }

    proof fn lemma_same_world(self, old: Context)
        requires
            self.grew(old),
            self@ == old@,
            self.dialects == old.dialects,
        ensures
            self.still(old),
    {
    }

    /// Steps after nothing happened.
    pub proof fn lemma_ran_same(self, middle: Context, old: Context, block: BlockId, steps: Seq<Step>)
        requires
            middle.still(old),
            middle.frame(block) == old.frame(block),
            self.ran_since(middle, block, steps),
        ensures
            self.ran_since(old, block, steps),
    {
    }

    /// Computations after steps.
    pub proof fn lemma_ran_computed(
        self,
        middle: Context,
        old: Context,
        block: BlockId,
        steps: Seq<Step>,
    )
        requires
            middle.ran_since(old, block, steps),
            self.computed_since(middle, block),
        ensures
            self.ran_since(old, block, steps),
    {
    }

    /// Steps after computations.
    pub proof fn lemma_computed_ran(
        self,
        middle: Context,
        old: Context,
        block: BlockId,
        steps: Seq<Step>,
    )
        requires
            middle.computed_since(old, block),
            self.ran_since(middle, block, steps),
        ensures
            self.ran_since(old, block, steps),
    {
    }
}

/// A call of a symbol.
pub open spec fn call_step(callee: Seq<char>, args: Seq<Meaning>, result: Option<TypeHandle>) -> Step {
    Step::Call { callee, args, result }
}

/// What a call hands back, where it hands back anything.
pub open spec fn reply_of(at: Moment, result: Option<TypeHandle>) -> Option<Meaning> {
    match result {
        Some(ty) => Some(replied(at, ty)),
        None => None,
    }
}

/// Calls a symbol.
pub fn put_call(
    ctx: &mut Context,
    block: BlockId,
    callee: String,
    args: Vec<Value>,
    result: Option<TypeHandle>,
) -> (r: Option<Value>)
    requires
        old(ctx).wf(),
        old(ctx).has_block(block),
        forall|k: int| 0 <= k < args@.len() ==> old(ctx).has(#[trigger] args@[k]),
    ensures
        final(ctx).ran_since(
            *old(ctx),
            block,
            seq![call_step(callee@, meanings(args@), result)],
        ),
        r matches Some(v) ==> final(ctx).has(v),
        meaning_of(r) == reply_of(old(ctx)@.now(block), result),
{
    let has_result: bool = result.is_some();
    let op: CallOp = CallOp::new_direct(ctx, callee, args, result);
    let ghost made = *ctx;
    let ghost inst = ir::inst_of(made.op(op.op))->0;
    ctx.insert_at_back(op.get_operation(), block);
    proof {
        assert(ctx.acted_since(made, block, inst));
        ctx.lemma_acted(made, block, inst);
        made.lemma_same_world(*old(ctx));
        ctx.lemma_ran_same(
            made,
            *old(ctx),
            block,
            seq![call_step(callee@, meanings(args@), result)],
        );
    }
    if has_result {
        let v: Value = ctx.result_of(op.get_operation());
        proof {
            reveal(ir::raw_sem);
            lemma_means(v, replied(old(ctx)@.now(block), result->0));
        }
        Some(v)
    } else {
        None
    }
}

/// The types of meanings, as they stand in the signature of an indirect call.
pub open spec fn indirect_signature(args: Seq<Meaning>, result: Option<TypeHandle>) -> TypeHandle {
    TypeHandle::LlvmFunction {
        result: std::rc::Rc::new(
            match result {
                Some(ty) => ox::sanitized(ty),
                None => TypeHandle::Void,
            },
        ),
        inputs: std::rc::Rc::new(
            types::TypeList::of(args.map_values(|m: Meaning| ox::sanitized(m.ty))),
        ),
        variadic: false,
    }
}

/// A call through a function pointer.
pub open spec fn indirect_step(
    callee: Meaning,
    args: Seq<Meaning>,
    result: Option<TypeHandle>,
) -> Step {
    Step::IndirectCall {
        ty: indirect_signature(args, result),
        operands: seq![callee] + args,
    }
}

/// Calls through a function pointer.
pub fn put_indirect_call(
    ctx: &mut Context,
    block: BlockId,
    callee: Value,
    args: Vec<Value>,
    result: Option<TypeHandle>,
) -> (r: Option<Value>)
    requires
        old(ctx).wf(),
        old(ctx).has_block(block),
        old(ctx).has(callee),
        forall|k: int| 0 <= k < args@.len() ==> old(ctx).has(#[trigger] args@[k]),
    ensures
        final(ctx).ran_since(
            *old(ctx),
            block,
            seq![indirect_step(callee.meaning@, meanings(args@), result)],
        ),
        r matches Some(v) ==> final(ctx).has(v),
        meaning_of(r) == reply_of(old(ctx)@.now(block), ox::indirect_result(result)),
{
    let has_result: bool = result.is_some();
    let op: CallOp = CallOp::new_indirect(ctx, callee, args, result);
    let ghost made = *ctx;
    let ghost inst = ir::inst_of(made.op(op.op))->0;
    ctx.insert_at_back(op.get_operation(), block);
    proof {
        assert(ctx.acted_since(made, block, inst));
        ctx.lemma_acted(made, block, inst);
        made.lemma_same_world(*old(ctx));
        assert(meanings(seq![callee] + args@) =~= seq![callee.meaning@] + meanings(args@));
        assert(args@.map_values(|v: Value| ox::sanitized(v.ty())) =~= meanings(args@).map_values(
            |m: Meaning| ox::sanitized(m.ty),
        ));
        assert(step_of(inst) == indirect_step(callee.meaning@, meanings(args@), result));
        ctx.lemma_ran_same(
            made,
            *old(ctx),
            block,
            seq![indirect_step(callee.meaning@, meanings(args@), result)],
        );
    }
    if has_result {
        let v: Value = ctx.result_of(op.get_operation());
        proof {
            reveal(ir::raw_sem);
            lemma_means(v, replied(old(ctx)@.now(block), ox::indirect_result(result)->0));
        }
        Some(v)
    } else {
        None
    }
}

/// A call of the `llvm` dialect.
pub open spec fn llvm_call_step(
    callee: Seq<char>,
    args: Seq<Meaning>,
    result: Option<TypeHandle>,
) -> Step {
    Step::LlvmCall {
        callee,
        ty: TypeHandle::LlvmFunction {
            result: std::rc::Rc::new(
                match result {
                    Some(ty) => ty,
                    None => TypeHandle::Void,
                },
            ),
            inputs: std::rc::Rc::new(types::TypeList::of(args.map_values(|m: Meaning| m.ty))),
            variadic: false,
        },
        args,
    }
}

/// Calls a symbol in the `llvm` dialect.
pub fn put_llvm_call(
    ctx: &mut Context,
    block: BlockId,
    callee: String,
    args: Vec<Value>,
    result: Option<TypeHandle>,
) -> (r: Option<Value>)
    requires
        old(ctx).wf(),
        old(ctx).has_block(block),
        forall|k: int| 0 <= k < args@.len() ==> old(ctx).has(#[trigger] args@[k]),
    ensures
        final(ctx).ran_since(
            *old(ctx),
            block,
            seq![llvm_call_step(callee@, meanings(args@), result)],
        ),
        r matches Some(v) ==> final(ctx).has(v),
        meaning_of(r) == reply_of(old(ctx)@.now(block), result),
{
    let ghost name = callee@;
    let ghost given = args@;
    let mut inputs: Vec<TypeHandle> = Vec::new();
    let mut i: usize = 0;
    while i < args.len()
        invariant
            i <= args@.len(),
            ctx.wf(),
            forall|k: int| 0 <= k < args@.len() ==> ctx.has(#[trigger] args@[k]),
            inputs@.len() == i,
            forall|k: int| 0 <= k < i ==> #[trigger] inputs@[k] == args@[k].ty(),
        decreases args@.len() - i,
    {
        inputs.push(ctx.type_of(args[i]));
        i = i + 1;
    }
    let has_result: bool = result.is_some();
    let handed_back: TypeHandle = match &result {
        Some(ty) => ty.clone(),
        None => TypeHandle::Void,
    };
    let ty: TypeHandle = TypeHandle::llvm_function(handed_back, &inputs);
    let op: OpId = ctx.add_op(OpKind::LlvmCall { callee, ty }, args, result, Vec::new());
    let ghost made = *ctx;
    let ghost inst = ir::inst_of(made.op(op))->0;
    ctx.insert_at_back(op, block);
    proof {
        assert(inputs@ =~= meanings(given).map_values(|m: Meaning| m.ty));
        assert(step_of(inst) == llvm_call_step(name, meanings(given), result));
        assert(ctx.acted_since(made, block, inst));
        ctx.lemma_acted(made, block, inst);
        made.lemma_same_world(*old(ctx));
        ctx.lemma_ran_same(
            made,
            *old(ctx),
            block,
            seq![llvm_call_step(name, meanings(given), result)],
        );
    }
    if has_result {
        let v: Value = ctx.result_of(op);
        proof {
            reveal(ir::raw_sem);
            lemma_means(v, replied(old(ctx)@.now(block), result->0));
        }
        Some(v)
    } else {
        None
    }
}

/// What returning does in the `llvm` dialect.
pub open spec fn llvm_return_step(value: Option<Meaning>) -> Step {
    Step::Return { dialect: Dialect::Llvm, operands: ox::option_seq(value) }
}

/// Returns in the `llvm` dialect.
pub fn put_llvm_return(ctx: &mut Context, block: BlockId, value: Option<Value>)
    requires
        old(ctx).wf(),
        old(ctx).has_block(block),
        value matches Some(v) ==> old(ctx).has(v),
    ensures
        final(ctx).left_since(*old(ctx), block, seq![llvm_return_step(meaning_of(value))]),
{
    let mut operands: Vec<Value> = Vec::new();
    if let Some(v) = value {
        operands.push(v);
    }
    assert(operands@ =~= ox::option_seq(value));
    let op: OpId = ctx.add_op(
        OpKind::Return { dialect: Dialect::Llvm },
        operands,
        None,
        Vec::new(),
    );
    let ghost made = *ctx;
    append(ctx, block, op);
    proof {
        assert(meanings(ox::option_seq(value)) =~= ox::option_seq(meaning_of(value)));
        made.lemma_same_world(*old(ctx));
    }
}

/// The arguments of a block, as a list of their own.
pub fn copy_args(ctx: &Context, block: BlockId) -> (r: Vec<Value>)
    requires
        ctx.wf(),
        ctx.has_block(block),
    ensures
        r@ == ctx@.args[block.0 as int],
        forall|i: int| 0 <= i < r@.len() ==> ctx.has(#[trigger] r@[i]),
{
    let args: &Vec<Value> = ctx.block_args(block);
    let mut r: Vec<Value> = Vec::new();
    let mut i: usize = 0;
    while i < args.len()
        invariant
            i <= args@.len(),
            r@ == args@.take(i as int),
        decreases args@.len() - i,
    {
        r.push(args[i]);
        assert(r@ =~= args@.take(i + 1));
        i = i + 1;
    }
    assert(r@ =~= args@);
    assert forall|i: int| 0 <= i < r@.len() implies ctx.has(#[trigger] r@[i]) by {
        assert(r@[i] == args@[i]);
    }
    r
}

} // verus!
