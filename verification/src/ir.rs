//! The intermediate representation: operations in blocks in regions, all owned
//! by a [`Context`].
//!
//! Two views describe a context. Each [`Value`] has a meaning in every run (see
//! [`crate::sem`]), and the context as a whole has a [`World`]: for each block,
//! the instructions that have an effect, in order. An instruction without an
//! effect leaves the world as it is; it only adds a value with a meaning.
use crate::sem;
use crate::sem::{BinKind, Env, MirCastKind, Moment, Relation, Sem};
use crate::types;
use crate::types::TypeHandle;
use vstd::prelude::*;

verus! {

/// An operation of a context.
#[derive(Clone, Copy, PartialEq, Eq, Debug, Structural)]
pub struct OpId(pub usize);

/// A block of a context.
#[derive(Clone, Copy, PartialEq, Eq, Debug, Structural)]
pub struct BlockId(pub usize);

/// A region of a context.
#[derive(Clone, Copy, PartialEq, Eq, Debug, Structural)]
pub struct RegionId(pub usize);

/// Where a value comes from.
#[derive(Clone, Copy, PartialEq, Eq, Debug, Structural)]
pub enum ValueSource {
    Op(OpId),
    Arg(BlockId, usize),
}

/// The type of a value and what it is in each run.
#[verifier::ext_equal]
pub struct Meaning {
    pub ty: TypeHandle,
    pub den: spec_fn(Env) -> Sem,
}

/// A value: the result of an operation or an argument of a block.
#[derive(Clone, Copy)]
pub struct Value {
    pub source: ValueSource,
    pub meaning: Ghost<Meaning>,
}

impl Value {
    /// The type of the value.
    pub open spec fn ty(self) -> TypeHandle {
        self.meaning@.ty
    }

    /// What the value is in a run.
    pub open spec fn den(self, env: Env) -> Sem {
        (self.meaning@.den)(env)
    }

    /// The bit pattern of the value in a run.
    pub open spec fn bits(self, env: Env) -> u128 {
        sem::bits_of(self.den(env))
    }
}

/// The dialect that an arithmetic operation belongs to.
#[derive(Clone, Copy, PartialEq, Eq, Debug, Structural)]
pub enum Dialect {
    Mir,
    Llvm,
}

/// How a symbol is visible to a linker.
#[derive(Clone, Copy, PartialEq, Eq, Debug, Structural)]
pub enum Linkage {
    External,
    Internal,
    Private,
    WeakOdr,
}

/// A pointer slot in a data global: the address of `symbol` plus `addend`
/// stands at byte `offset`.
pub struct DataReloc {
    pub offset: u64,
    pub symbol: String,
    pub addend: i64,
}

/// What a global is filled with.
pub enum GlobalInit {
    Declared,
    Bytes(Vec<u8>),
    Data { bytes: Vec<u8>, align: u64, mutable: bool, relocs: Vec<DataReloc> },
}

/// What an operation does.
#[allow(inconsistent_fields)]
pub enum OpKind {
    Module { symbol: String },
    MirFunc { symbol: String, ty: TypeHandle, linkage: Option<Linkage> },
    LlvmFunc { symbol: String, ty: TypeHandle, linkage: Linkage },
    Global {
        symbol: String,
        ty: TypeHandle,
        linkage: Linkage,
        thread_local: bool,
        section: Option<String>,
        init: GlobalInit,
    },
    IntConstant { bits: u128 },
    /// A constant of the 32-bit float type, by its bit pattern.
    F32Constant { bits: u32 },
    /// A constant of the 64-bit float type, by its bit pattern.
    F64Constant { bits: u64 },
    Undef,
    AddressOf { symbol: String },
    Alloca { elem: TypeHandle },
    Load,
    /// Operands: the address, the value.
    Store,
    /// Operands: a base address, an offset in bytes.
    ByteOffset,
    Cast { kind: MirCastKind },
    Bitcast,
    ExtractValue { indices: Vec<u32> },
    /// Operands: the aggregate, the value.
    InsertValue { indices: Vec<u32> },
    Return { dialect: Dialect },
    Goto,
    /// Operands: the condition, then those of the first and of the second
    /// successor.
    CondBr { true_operands: usize, false_operands: usize },
    Unreachable,
    /// A direct call of the `mir` dialect.
    Call { callee: String },
    /// A direct call of the `llvm` dialect.
    LlvmCall { callee: String, ty: TypeHandle },
    /// Operands: the callee, then the arguments.
    IndirectCall { ty: TypeHandle },
    Binary { kind: BinKind, dialect: Dialect },
    Compare { relation: Relation, dialect: Dialect },
    Neg,
}

/// An operation.
pub struct Operation {
    pub kind: OpKind,
    pub operands: Vec<Value>,
    pub result: Option<Value>,
    pub result_ty: Option<TypeHandle>,
    pub successors: Vec<BlockId>,
    pub region: Option<RegionId>,
    pub parent: Option<BlockId>,
    /// Whether it was taken out of its block again.
    pub taken: bool,
    pub time: Ghost<nat>,
}

/// A block: its arguments and its operations in order.
pub struct BasicBlock {
    pub label: String,
    pub arg_tys: Vec<TypeHandle>,
    pub args: Vec<Value>,
    pub ops: Vec<OpId>,
    pub region: Option<RegionId>,
}

/// The owner of all operations, blocks and regions.
pub struct Context {
    pub ops: Vec<Operation>,
    pub blocks: Vec<BasicBlock>,
    pub regions: Vec<Vec<BlockId>>,
    pub dialects: Vec<String>,
}

/// A pointer slot of a data global.
pub struct RelocView {
    pub offset: u64,
    pub symbol: Seq<char>,
    pub addend: i64,
}

/// What a global is filled with.
pub enum InitView {
    Declared,
    Bytes(Seq<u8>),
    Data { bytes: Seq<u8>, align: u64, mutable: bool, relocs: Seq<RelocView> },
}

/// An instruction that has an effect, with all that it depends on.
#[allow(inconsistent_fields)]
pub enum Inst {
    Module { symbol: Seq<char>, region: Option<RegionId> },
    MirFunc {
        symbol: Seq<char>,
        ty: TypeHandle,
        linkage: Option<Linkage>,
        region: Option<RegionId>,
    },
    LlvmFunc { symbol: Seq<char>, ty: TypeHandle, linkage: Linkage, region: Option<RegionId> },
    Global {
        symbol: Seq<char>,
        ty: TypeHandle,
        linkage: Linkage,
        thread_local: bool,
        section: Option<Seq<char>>,
        init: InitView,
    },
    Alloca { elem: TypeHandle },
    Store { addr: Value, value: Value },
    Return { dialect: Dialect, operands: Seq<Value> },
    Branch { conditional: bool, operands: Seq<Value>, successors: Seq<BlockId> },
    Unreachable,
    Call { callee: Seq<char>, args: Seq<Value>, result: Option<TypeHandle> },
    LlvmCall { callee: Seq<char>, ty: TypeHandle, args: Seq<Value> },
    IndirectCall { ty: TypeHandle, operands: Seq<Value> },
}

/// What a context holds, seen without the instructions that have no effect.
#[verifier::ext_equal]
pub struct World {
    /// For each block, its instructions with an effect.
    pub effects: Seq<Seq<Inst>>,
    /// For each block, its arguments.
    pub args: Seq<Seq<Value>>,
    /// For each block, its label.
    pub labels: Seq<Seq<char>>,
    /// For each region, its blocks.
    pub regions: Seq<Seq<BlockId>>,
}

/// The world, and which operations stand in the other blocks than a given one,
/// and of what kinds they are.
#[verifier::ext_equal]
pub struct Frame {
    pub world: World,
    pub elsewhere: Seq<Seq<OpId>>,
    pub kinds: Seq<Seq<OpKind>>,
}

/// Whether an operation ends a block: a return, a branch, or a point that is
/// never reached.
pub open spec fn kind_ends(kind: OpKind) -> bool {
    match kind {
        OpKind::Return { .. } => true,
        OpKind::Goto => true,
        OpKind::CondBr { .. } => true,
        OpKind::Unreachable => true,
        _ => false,
    }
}

/// Whether an instruction ends a block.
pub open spec fn inst_ends(inst: Inst) -> bool {
    inst is Return || inst is Branch || inst is Unreachable
}

/// Whether a list of operations is that of a whole block: the last operation
/// ends it, and no other does.
pub open spec fn is_whole(kinds: Seq<OpKind>) -> bool {
    &&& kinds.len() > 0
    &&& kind_ends(kinds.last())
    &&& forall|k: int| 0 <= k < kinds.len() - 1 ==> !kind_ends(#[trigger] kinds[k])
}

impl World {
    /// The world after one more instruction in a block.
    pub open spec fn then_in(self, block: BlockId, inst: Inst) -> World {
        World {
            effects: self.effects.update(
                block.0 as int,
                self.effects[block.0 as int].push(inst),
            ),
            ..self
        }
    }

    /// How many instructions with an effect a block holds.
    pub open spec fn time(self, block: BlockId) -> nat {
        self.effects[block.0 as int].len()
    }

    /// The present moment of a block.
    pub open spec fn now(self, block: BlockId) -> Moment {
        Moment { block: block.0 as int, time: self.time(block) }
    }
}

impl Frame {
    /// The frame after one more instruction in its block.
    pub open spec fn then_in(self, block: BlockId, inst: Inst) -> Frame {
        Frame { world: self.world.then_in(block, inst), ..self }
    }
}

pub open spec fn relocs_view(relocs: Seq<DataReloc>) -> Seq<RelocView> {
    relocs.map_values(
        |r: DataReloc| RelocView { offset: r.offset, symbol: r.symbol@, addend: r.addend },
    )
}

impl View for GlobalInit {
    type V = InitView;

    open spec fn view(&self) -> InitView {
        match *self {
            GlobalInit::Declared => InitView::Declared,
            GlobalInit::Bytes(bytes) => InitView::Bytes(bytes@),
            GlobalInit::Data { bytes, align, mutable, relocs } => InitView::Data {
                bytes: bytes@,
                align,
                mutable,
                relocs: relocs_view(relocs@),
            },
        }
    }
}

/// The view of an optional string.
pub open spec fn text(s: Option<String>) -> Option<Seq<char>> {
    match s {
        Some(s) => Some(s@),
        None => None,
    }
}

/// The instruction that an operation is, where it has an effect.
pub open spec fn inst_of(op: Operation) -> Option<Inst> {
    match op.kind {
        OpKind::Module { symbol } => Some(Inst::Module { symbol: symbol@, region: op.region }),
        OpKind::MirFunc { symbol, ty, linkage } => Some(
            Inst::MirFunc { symbol: symbol@, ty, linkage, region: op.region },
        ),
        OpKind::LlvmFunc { symbol, ty, linkage } => Some(
            Inst::LlvmFunc { symbol: symbol@, ty, linkage, region: op.region },
        ),
        OpKind::Global { symbol, ty, linkage, thread_local, section, init } => Some(
            Inst::Global {
                symbol: symbol@,
                ty,
                linkage,
                thread_local,
                section: text(section),
                init: init@,
            },
        ),
        OpKind::Alloca { elem } => Some(Inst::Alloca { elem }),
        OpKind::Store => Some(Inst::Store { addr: op.operands@[0], value: op.operands@[1] }),
        OpKind::Return { dialect } => Some(Inst::Return { dialect, operands: op.operands@ }),
        OpKind::Goto => Some(
            Inst::Branch {
                conditional: false,
                operands: op.operands@,
                successors: op.successors@,
            },
        ),
        OpKind::CondBr { .. } => Some(
            Inst::Branch { conditional: true, operands: op.operands@, successors: op.successors@ },
        ),
        OpKind::Unreachable => Some(Inst::Unreachable),
        OpKind::Call { callee } => Some(
            Inst::Call { callee: callee@, args: op.operands@, result: op.result_ty },
        ),
        OpKind::LlvmCall { callee, ty } => Some(
            Inst::LlvmCall { callee: callee@, ty, args: op.operands@ },
        ),
        OpKind::IndirectCall { ty } => Some(Inst::IndirectCall { ty, operands: op.operands@ }),
        _ => None,
    }
}

/// The instructions with an effect among the listed operations.
pub open spec fn effects_of(ops: Seq<Operation>, list: Seq<OpId>) -> Seq<Inst>
    decreases list.len(),
{
    if list.len() == 0 {
        Seq::empty()
    } else {
        let before = effects_of(ops, list.drop_last());
        match inst_of(ops[list.last().0 as int]) {
            Some(inst) => before.push(inst),
            None => before,
        }
    }
}

/// Operations of which no instruction ends a block end none.
proof fn lemma_no_end(ops: Seq<Operation>, list: Seq<OpId>)
    requires
        forall|k: int|
            0 <= k < effects_of(ops, list).len() ==> !inst_ends(
                #[trigger] effects_of(ops, list)[k],
            ),
    ensures
        forall|k: int|
            0 <= k < list.len() ==> !kind_ends(ops[(#[trigger] list[k]).0 as int].kind),
    decreases list.len(),
{
    if list.len() > 0 {
        let all = effects_of(ops, list);
        let before = effects_of(ops, list.drop_last());
        assert forall|k: int| 0 <= k < before.len() implies !inst_ends(#[trigger] before[k]) by {
            assert(all[k] == before[k]);
        }
        lemma_no_end(ops, list.drop_last());
        if let Some(inst) = inst_of(ops[list.last().0 as int]) {
            assert(all[all.len() - 1] == inst);
        }
        assert forall|k: int| 0 <= k < list.len() implies !kind_ends(
            ops[(#[trigger] list[k]).0 as int].kind,
        ) by {
            if k < list.len() - 1 {
                assert(list.drop_last()[k] == list[k]);
            }
        }
    }
}

/// Whether the meaning of an operation's result depends on when it runs.
pub open spec fn timed(kind: OpKind) -> bool {
    kind is Alloca || kind is Load || kind is Call || kind is LlvmCall || kind is IndirectCall
}

/// What an operation computes from its operands.
#[verifier::opaque]
pub open spec fn raw_sem(
    kind: OpKind,
    operands: Seq<Value>,
    ty: TypeHandle,
    at: Moment,
    env: Env,
) -> Sem {
    match kind {
        OpKind::IntConstant { bits } => Sem::Bits(bits),
        OpKind::F32Constant { bits } => Sem::Bits(bits as u128),
        OpKind::F64Constant { bits } => Sem::Bits(bits as u128),
        OpKind::AddressOf { symbol } => Sem::Bits((env.symbol)(symbol@)),
        OpKind::Alloca { .. } => Sem::Bits((env.slot)(at)),
        OpKind::Load => (env.read)(at, operands[0].den(env), ty),
        OpKind::ByteOffset => Sem::Bits(
            sem::wrap(
                64,
                sem::address_of(operands[0].den(env)) + sem::int_value(
                    operands[1].ty(),
                    operands[1].den(env),
                ),
            ),
        ),
        OpKind::Cast { kind } => sem::cast_sem(
            kind,
            operands[0].ty(),
            ty,
            operands[0].den(env),
            env,
        ),
        OpKind::Bitcast => (env.reinterpret)(operands[0].ty(), ty, operands[0].den(env)),
        OpKind::ExtractValue { indices } => sem::part_at(operands[0].den(env), indices@),
        OpKind::InsertValue { indices } => sem::with_part(
            operands[0].den(env),
            indices@,
            operands[1].den(env),
        ),
        OpKind::Call { .. } | OpKind::LlvmCall { .. } | OpKind::IndirectCall { .. } => (env.reply)(
            at,
        ),
        OpKind::Binary { kind, dialect } => match dialect {
            Dialect::Mir => sem::bin_sem(
                kind,
                operands[0].ty(),
                operands[0].den(env),
                operands[1].den(env),
                env,
            ),
            Dialect::Llvm => Sem::Bits(
                sem::int_bin(
                    kind,
                    sem::bit_width(operands[0].ty()),
                    types::Signedness::Unsigned,
                    operands[0].bits(env),
                    operands[1].bits(env),
                    env,
                ),
            ),
        },
        OpKind::Compare { relation, dialect } => match dialect {
            Dialect::Mir => sem::compare_sem(
                relation,
                operands[0].ty(),
                operands[0].den(env),
                operands[1].den(env),
                env,
            ),
            Dialect::Llvm => Sem::Bits(
                sem::bit(
                    sem::holds(
                        relation,
                        operands[0].bits(env) as int,
                        operands[1].bits(env) as int,
                    ),
                ),
            ),
        },
        OpKind::Neg => sem::neg_sem(operands[0].ty(), operands[0].den(env), env),
        _ => Sem::Undef,
    }
}

/// What an operation's result is: what it computes, in the shape of its type.
pub open spec fn op_sem(
    kind: OpKind,
    operands: Seq<Value>,
    ty: TypeHandle,
    at: Moment,
    env: Env,
) -> Sem {
    sem::shaped(ty, raw_sem(kind, operands, ty, at, env))
}

impl Operation {
    /// When the operation runs.
    pub open spec fn moment(self) -> Moment {
        match self.parent {
            Some(block) => Moment { block: block.0 as int, time: self.time@ },
            None => Moment { block: -1, time: 0 },
        }
    }
}

impl View for Context {
    type V = World;

    closed spec fn view(&self) -> World {
        World {
            effects: Seq::new(
                self.blocks@.len(),
                |b: int| effects_of(self.ops@, self.blocks@[b].ops@),
            ),
            args: Seq::new(self.blocks@.len(), |b: int| self.blocks@[b].args@),
            labels: Seq::new(self.blocks@.len(), |b: int| self.blocks@[b].label@),
            regions: Seq::new(self.regions@.len(), |r: int| self.regions@[r]@),
        }
    }
}

impl Context {
    /// Whether a value belongs to the context: it is an argument of a block, or
    /// the result of an operation that stands or stood in one.
    pub closed spec fn has(self, v: Value) -> bool {
        match v.source {
            ValueSource::Op(op) => {
                &&& op.0 < self.ops@.len()
                &&& self.ops@[op.0 as int].result == Some(v)
                &&& self.ops@[op.0 as int].parent is Some
            },
            ValueSource::Arg(block, index) => {
                &&& block.0 < self.blocks@.len()
                &&& index < self.blocks@[block.0 as int].args@.len()
                &&& self.blocks@[block.0 as int].args@[index as int] == v
            },
        }
    }

    /// Whether a block belongs to the context.
    pub open spec fn has_block(self, block: BlockId) -> bool {
        block.0 < self@.effects.len()
    }

    /// Whether an operation belongs to the context and stands in no block.
    pub closed spec fn is_loose(self, op: OpId) -> bool {
        &&& op.0 < self.ops@.len()
        &&& self.ops@[op.0 as int].parent is None
    }

    /// An operation of the context.
    pub closed spec fn op(self, op: OpId) -> Operation {
        self.ops@[op.0 as int]
    }

    /// The kinds of the operations that stand in a block, in order.
    pub closed spec fn kinds(self, block: BlockId) -> Seq<OpKind> {
        self.blocks@[block.0 as int].ops@.map_values(
            |op: OpId| self.ops@[op.0 as int].kind,
        )
    }

    /// The world, and the operations in the other blocks than the given one.
    pub closed spec fn frame(self, block: BlockId) -> Frame {
        Frame {
            world: self@,
            elsewhere: Seq::new(
                self.blocks@.len(),
                |b: int|
                    if b == block.0 {
                        Seq::<OpId>::empty()
                    } else {
                        self.blocks@[b].ops@
                    },
            ),
            kinds: Seq::new(
                self.blocks@.len(),
                |b: int|
                    if b == block.0 {
                        Seq::<OpKind>::empty()
                    } else {
                        self.kinds(BlockId(b as usize))
                    },
            ),
        }
    }

    /// Whether an operation is one of the first of a block.
    pub open spec fn stands_in(self, op: OpId, block: BlockId, count: int) -> bool {
        exists|k: int| 0 <= k < count && #[trigger] self.blocks@[block.0 as int].ops@[k] == op
    }

    spec fn op_wf(self, i: int) -> bool {
        let op = self.ops@[i];
        &&& forall|k: int|
            0 <= k < op.operands@.len() ==> self.has(#[trigger] op.operands@[k])
        &&& match op.parent {
            Some(block) => {
                &&& block.0 < self.blocks@.len()
                &&& op.taken || self.stands_in(
                    OpId(i as usize),
                    block,
                    self.blocks@[block.0 as int].ops@.len() as int,
                )
            },
            None => true,
        }
        &&& match (op.result, op.result_ty) {
            (Some(v), Some(ty)) => {
                &&& v.source == ValueSource::Op(OpId(i as usize))
                &&& v.ty() == ty
                &&& forall|env: Env| #[trigger]
                    v.den(env) == op_sem(op.kind, op.operands@, ty, op.moment(), env)
            },
            (None, None) => true,
            _ => false,
        }
    }

    /// Whether what an operand of an operation in a block names stands before
    /// the operation, where it is of the same block and was not taken out of it.
    spec fn use_wf(self, b: int, k: int, m: int) -> bool {
        match self.ops@[self.blocks@[b].ops@[k].0 as int].operands@[m].source {
            ValueSource::Op(source) => self.ops@[source.0 as int].parent == Some(
                BlockId(b as usize),
            ) ==> self.ops@[source.0 as int].taken || self.stands_in(
                source,
                BlockId(b as usize),
                k,
            ),
            ValueSource::Arg(_, _) => true,
        }
    }

    spec fn entry_wf(self, b: int, k: int) -> bool {
        let id = self.blocks@[b].ops@[k];
        &&& forall|m: int|
            0 <= m < self.ops@[id.0 as int].operands@.len() ==> #[trigger] self.use_wf(b, k, m)
        &&& id.0 < self.ops@.len()
        &&& self.ops@[id.0 as int].parent == Some(BlockId(b as usize))
        &&& self.ops@[id.0 as int].time@ == effects_of(
            self.ops@,
            self.blocks@[b].ops@.take(k),
        ).len()
    }

    spec fn arg_wf(self, b: int, i: int) -> bool {
        let v = self.blocks@[b].args@[i];
        &&& v.source == ValueSource::Arg(BlockId(b as usize), i as usize)
        &&& v.ty() == self.blocks@[b].arg_tys@[i]
        &&& forall|env: Env| #[trigger]
            v.den(env) == sem::shaped(v.ty(), (env.argument)(b, i))
    }

    spec fn block_wf(self, b: int) -> bool {
        &&& self.blocks@[b].args@.len() == self.blocks@[b].arg_tys@.len()
        &&& forall|i: int|
            0 <= i < self.blocks@[b].args@.len() ==> #[trigger] self.arg_wf(b, i)
        &&& forall|k: int|
            0 <= k < self.blocks@[b].ops@.len() ==> #[trigger] self.entry_wf(b, k)
    }

    /// Operations use values of the context, results mean what their
    /// operations compute, and each operation knows when it runs.
    pub closed spec fn wf(self) -> bool {
        &&& forall|i: int| 0 <= i < self.ops@.len() ==> #[trigger] self.op_wf(i)
        &&& forall|b: int| 0 <= b < self.blocks@.len() ==> #[trigger] self.block_wf(b)
    }
}

impl Context {
    /// An operation among the first of a block stays there.
    proof fn lemma_stands(self, old: Context, op: OpId, block: BlockId, count: int, more: int)
        requires
            old.stands_in(op, block, count),
            count <= more,
            forall|k: int|
                0 <= k < count ==> self.blocks@[block.0 as int].ops@[k]
                    == #[trigger] old.blocks@[block.0 as int].ops@[k],
        ensures
            self.stands_in(op, block, more),
    {
        let k = choose|k: int|
            0 <= k < count && #[trigger] old.blocks@[block.0 as int].ops@[k] == op;
        assert(self.blocks@[block.0 as int].ops@[k] == op);
    }

    /// The operands of an operation stay before it.
    proof fn lemma_uses(self, old: Context, b: int, k: int)
        requires
            0 <= b < self.blocks@.len(),
            old.entry_wf(b, k),
            old.op_wf(old.blocks@[b].ops@[k].0 as int),
            0 <= k,
            forall|j: int|
                0 <= j <= k ==> self.blocks@[b].ops@[j] == #[trigger] old.blocks@[b].ops@[j],
            ({
                let id = old.blocks@[b].ops@[k].0 as int;
                self.ops@[id].operands@ == old.ops@[id].operands@
            }),
            forall|i: int|
                0 <= i < old.ops@.len() && (#[trigger] old.ops@[i]).parent is Some
                    ==> self.ops@[i].parent == old.ops@[i].parent && (old.ops@[i].taken
                    ==> self.ops@[i].taken),
        ensures
            forall|m: int|
                0 <= m < self.ops@[self.blocks@[b].ops@[k].0 as int].operands@.len()
                    ==> #[trigger] self.use_wf(b, k, m),
    {
        let id = old.blocks@[b].ops@[k].0 as int;
        assert(self.blocks.len() == self.blocks@.len());
        assert(self.blocks@[b].ops@[k] == old.blocks@[b].ops@[k]);
        assert forall|m: int| 0 <= m < self.ops@[id].operands@.len() implies #[trigger] self.use_wf(
            b,
            k,
            m,
        ) by {
            assert(old.use_wf(b, k, m));
            assert(old.has(old.ops@[id].operands@[m]));
            match old.ops@[id].operands@[m].source {
                ValueSource::Op(source) => {
                    assert(old.ops@[source.0 as int].parent is Some);
                    if old.ops@[source.0 as int].parent == Some(BlockId(b as usize))
                        && !old.ops@[source.0 as int].taken {
                        self.lemma_stands(old, source, BlockId(b as usize), k, k);
                    }
                },
                ValueSource::Arg(_, _) => {},
            }
        }
    }

    /// What an operand of an operation in a block names is defined before it
    /// is used: it is an argument of a block, or the result of an operation
    /// that stands in another block or before this one, unless that was taken
    /// out of its block again.
    pub proof fn law_defined_before_use(&self, block: BlockId, index: int, operand: int)
        requires
            self.wf(),
            block.0 < self.blocks@.len(),
            0 <= index < self.blocks@[block.0 as int].ops@.len(),
            0 <= operand < self.ops@[self.blocks@[block.0 as int].ops@[index].0 as int].operands@.len(),
        ensures
            match self.ops@[self.blocks@[block.0 as int].ops@[index].0 as int].operands@[operand].source {
                ValueSource::Arg(from, position) => {
                    &&& from.0 < self.blocks@.len()
                    &&& position < self.blocks@[from.0 as int].args@.len()
                },
                ValueSource::Op(source) => {
                    &&& source.0 < self.ops@.len()
                    &&& self.ops@[source.0 as int].parent matches Some(from)
                    &&& !self.ops@[source.0 as int].taken ==> {
                        &&& from == block ==> self.stands_in(source, block, index)
                        &&& self.stands_in(
                            source,
                            from,
                            self.blocks@[from.0 as int].ops@.len() as int,
                        )
                    }
                },
            },
    {
        let b = block.0 as int;
        assert(self.block_wf(b));
        assert(self.entry_wf(b, index));
        let id = self.blocks@[b].ops@[index].0 as int;
        assert(self.op_wf(id));
        assert(self.use_wf(b, index, operand));
        assert(self.has(self.ops@[id].operands@[operand]));
        if let ValueSource::Op(source) = self.ops@[id].operands@[operand].source {
            assert(self.op_wf(source.0 as int));
        }
    }
}

/// Lists of operations with the same instructions have the same effects.
proof fn lemma_effects_same(ops: Seq<Operation>, new_ops: Seq<Operation>, list: Seq<OpId>)
    requires
        forall|k: int|
            0 <= k < list.len() ==> inst_of(ops[(#[trigger] list[k]).0 as int]) == inst_of(
                new_ops[list[k].0 as int],
            ),
    ensures
        effects_of(ops, list) == effects_of(new_ops, list),
    decreases list.len(),
{
    if list.len() > 0 {
        assert forall|k: int| 0 <= k < list.drop_last().len() implies inst_of(
            ops[(#[trigger] list.drop_last()[k]).0 as int],
        ) == inst_of(new_ops[list.drop_last()[k].0 as int]) by {
            assert(list.drop_last()[k] == list[k]);
        }
        lemma_effects_same(ops, new_ops, list.drop_last());
        assert(list.last() == list[list.len() - 1]);
    }
}

impl Context {
    /// Whether nothing of an earlier state was lost: its values and blocks are
    /// still there.
    pub open spec fn grew(self, old: Context) -> bool {
        &&& self.wf()
        &&& forall|v: Value| old.has(v) ==> #[trigger] self.has(v)
        &&& old@.effects.len() <= self@.effects.len()
    }

    /// Whether a loose operation was made, and nothing else happened.
    pub open spec fn made(
        self,
        old: Context,
        op: OpId,
        kind: OpKind,
        operands: Seq<Value>,
        result_ty: Option<TypeHandle>,
        successors: Seq<BlockId>,
    ) -> bool {
        &&& self.grew(old)
        &&& forall|b: BlockId| #[trigger] self.frame(b) == old.frame(b)
        &&& self@ == old@
        &&& self.is_loose(op)
        &&& !old.is_loose(op)
        &&& forall|o: OpId| old.is_loose(o) ==> #[trigger] self.is_loose(o) && self.op(o) == old.op(o)
        &&& self.op(op).kind == kind
        &&& self.op(op).operands@ == operands
        &&& self.op(op).successors@ == successors
        &&& self.op(op).result_ty == result_ty
        &&& self.op(op).region is None
        &&& self.is_op(op)
        &&& match (self.op(op).result, result_ty) {
            (Some(v), Some(ty)) => {
                &&& v.ty() == ty
                &&& forall|env: Env| #[trigger] v.den(env) == op_sem(
                    kind,
                    operands,
                    ty,
                    Moment { block: -1, time: 0 },
                    env,
                )
            },
            (None, None) => true,
            _ => false,
        }
    }

    /// An empty context.
    pub fn new() -> (r: Context)
        ensures
            r.wf(),
            r@ == (World {
                effects: Seq::empty(),
                args: Seq::empty(),
                labels: Seq::empty(),
                regions: Seq::empty(),
            }),
            r.dialects@ == Seq::<String>::empty(),
    {
        let r = Context {
            ops: Vec::new(),
            blocks: Vec::new(),
            regions: Vec::new(),
            dialects: Vec::new(),
        };
        assert(r@ =~= (World {
            effects: Seq::empty(),
            args: Seq::empty(),
            labels: Seq::empty(),
            regions: Seq::empty(),
        }));
        r
    }

    /// Makes a dialect known.
    pub fn register_dialect(&mut self, name: String)
        requires
            old(self).wf(),
        ensures
            final(self).grew(*old(self)),
            final(self)@ == old(self)@,
            final(self).dialects@ == old(self).dialects@.push(name),
    {
        let ghost before = *self;
        self.dialects.push(name);
        proof {
            self.lemma_same_ops_and_blocks(before);
            assert(self@ =~= before@);
        }
    }

    /// Makes an operation that stands in no block yet.
    pub fn add_op(
        &mut self,
        kind: OpKind,
        operands: Vec<Value>,
        result_ty: Option<TypeHandle>,
        successors: Vec<BlockId>,
    ) -> (r: OpId)
        requires
            old(self).wf(),
            forall|k: int| 0 <= k < operands@.len() ==> old(self).has(#[trigger] operands@[k]),
        ensures
            final(self).made(*old(self), r, kind, operands@, result_ty, successors@),
            final(self).dialects == old(self).dialects,
    {
        let ghost before = *self;
        let id = OpId(self.ops.len());
        let ghost at = Moment { block: -1int, time: 0nat };
        let ghost k = kind;
        let ghost args = operands@;
        let result: Option<Value> = match &result_ty {
            Some(ty) => {
                let ghost t = *ty;
                Some(
                    Value {
                        source: ValueSource::Op(id),
                        meaning: Ghost(
                            Meaning { ty: t, den: |env: Env| op_sem(k, args, t, at, env) },
                        ),
                    },
                )
            },
            None => None,
        };
        self.ops.push(
            Operation {
                kind,
                operands,
                result,
                result_ty,
                successors,
                region: None,
                parent: None,
                taken: false,
                time: Ghost(0),
            },
        );
        proof {
            assert forall|v: Value| before.has(v) implies #[trigger] self.has(v) by {}
            assert forall|i: int| 0 <= i < self.ops@.len() implies #[trigger] self.op_wf(i) by {
                if i < before.ops@.len() {
                    assert(before.op_wf(i));
                    assert(self.ops@[i] == before.ops@[i]);
                }
            }
            assert forall|b: int| 0 <= b < self.blocks@.len() implies #[trigger] effects_of(
                self.ops@,
                self.blocks@[b].ops@,
            ) == effects_of(before.ops@, before.blocks@[b].ops@) by {
                assert(before.block_wf(b));
                assert forall|j: int| 0 <= j < self.blocks@[b].ops@.len() implies inst_of(
                    before.ops@[(#[trigger] self.blocks@[b].ops@[j]).0 as int],
                ) == inst_of(self.ops@[self.blocks@[b].ops@[j].0 as int]) by {
                    assert(before.entry_wf(b, j));
                }
                lemma_effects_same(before.ops@, self.ops@, self.blocks@[b].ops@);
            }
            assert forall|b: int| 0 <= b < self.blocks@.len() implies #[trigger] self.block_wf(b) by {
                assert(before.block_wf(b));
                assert forall|i: int|
                    0 <= i < self.blocks@[b].args@.len() implies #[trigger] self.arg_wf(b, i) by {
                    assert(before.arg_wf(b, i));
                }
                assert forall|j: int|
                    0 <= j < self.blocks@[b].ops@.len() implies #[trigger] self.entry_wf(b, j) by {
                    assert(before.entry_wf(b, j));
                    assert(before.op_wf(before.blocks@[b].ops@[j].0 as int));
                    self.lemma_uses(before, b, j);
                    let list = self.blocks@[b].ops@.take(j);
                    assert forall|m: int| 0 <= m < list.len() implies inst_of(
                        before.ops@[(#[trigger] list[m]).0 as int],
                    ) == inst_of(self.ops@[list[m].0 as int]) by {
                        assert(before.entry_wf(b, m));
                    }
                    lemma_effects_same(before.ops@, self.ops@, list);
                }
            }
            assert(self@ =~= before@);
            self.lemma_same_kinds(before);
            assert forall|b: BlockId| #[trigger] self.frame(b) == before.frame(b) by {
                assert(self.frame(b) =~= before.frame(b));
            }
        }
        id
    }

    /// Appends a loose operation to a block.
    pub fn insert_at_back(&mut self, op: OpId, block: BlockId)
        requires
            old(self).wf(),
            old(self).is_loose(op),
            old(self).has_block(block),
        ensures
            final(self).grew(*old(self)),
            final(self).dialects == old(self).dialects,
            !final(self).is_loose(op),
            final(self).is_op(op),
            forall|o: OpId|
                o != op && old(self).is_loose(o) ==> #[trigger] final(self).is_loose(o)
                    && final(self).op(o) == old(self).op(o),
            match inst_of(old(self).op(op)) {
                Some(inst) => {
                    &&& final(self).frame(block) == old(self).frame(block).then_in(block, inst)
                    &&& final(self)@ == old(self)@.then_in(block, inst)
                },
                None => {
                    &&& final(self).frame(block) == old(self).frame(block)
                    &&& final(self)@ == old(self)@
                },
            },
            final(self).kinds(block) == old(self).kinds(block).push(old(self).op(op).kind),
            final(self).op(op).kind == old(self).op(op).kind,
            final(self).op(op).operands == old(self).op(op).operands,
            final(self).op(op).successors == old(self).op(op).successors,
            final(self).op(op).region == old(self).op(op).region,
            final(self).op(op).result_ty == old(self).op(op).result_ty,
            match (final(self).op(op).result, old(self).op(op).result_ty) {
                (Some(v), Some(ty)) => {
                    &&& final(self).has(v)
                    &&& v.ty() == ty
                    &&& forall|env: Env| #[trigger] v.den(env) == op_sem(
                        old(self).op(op).kind,
                        old(self).op(op).operands@,
                        ty,
                        old(self)@.now(block),
                        env,
                    )
                },
                (None, None) => true,
                _ => false,
            },
    {
        let ghost before = *self;
        let ghost bi = block.0 as int;
        let ghost oi = op.0 as int;
        let ghost time = effects_of(self.ops@, self.blocks@[bi].ops@).len();
        let ghost at = Moment { block: bi, time };
        proof {
            assert(self.op_wf(oi));
            assert(self.block_wf(bi));
            assert(self@.effects[bi] == effects_of(self.ops@, self.blocks@[bi].ops@));
        }
        if kind_is_timed(&self.ops[op.0].kind) {
            let ghost k = self.ops@[oi].kind;
            let ghost args = self.ops@[oi].operands@;
            let result: Option<Value> = match &self.ops[op.0].result_ty {
                Some(ty) => {
                    let ghost t = *ty;
                    Some(
                        Value {
                            source: ValueSource::Op(op),
                            meaning: Ghost(
                                Meaning { ty: t, den: |env: Env| op_sem(k, args, t, at, env) },
                            ),
                        },
                    )
                },
                None => None,
            };
            self.ops[op.0].result = result;
        }
        self.ops[op.0].parent = Some(block);
        self.ops[op.0].time = Ghost(time);
        self.blocks[block.0].ops.push(op);
        proof {
            reveal(raw_sem);
            let list = before.blocks@[bi].ops@;
            assert(self.ops@.len() == before.ops@.len());
            assert(forall|i: int|
                0 <= i < self.ops@.len() && i != oi ==> #[trigger] self.ops@[i] == before.ops@[i]);
            assert(inst_of(self.ops@[oi]) == inst_of(before.ops@[oi]));
            assert forall|v: Value| before.has(v) implies #[trigger] self.has(v) by {}
            assert forall|l: Seq<OpId>|
                (forall|k: int| 0 <= k < l.len() ==> (#[trigger] l[k]).0 < self.ops@.len())
                implies #[trigger] effects_of(self.ops@, l) == effects_of(before.ops@, l) by {
                lemma_effects_same(before.ops@, self.ops@, l);
            }
            assert forall|i: int| 0 <= i < self.ops@.len() implies #[trigger] self.op_wf(i) by {
                assert(before.op_wf(i));
                if i == oi {
                    assert(self.blocks@[bi].ops@[list.len() as int] == op);
                } else if let Some(other) = before.ops@[i].parent {
                    if !before.ops@[i].taken {
                        self.lemma_stands(
                            before,
                            OpId(i as usize),
                            other,
                            before.blocks@[other.0 as int].ops@.len() as int,
                            self.blocks@[other.0 as int].ops@.len() as int,
                        );
                    }
                }
                if i == oi && !timed(before.ops@[oi].kind) {
                    let ty = before.ops@[oi].result_ty;
                    if ty is Some {
                        assert forall|env: Env| op_sem(
                            self.ops@[oi].kind,
                            self.ops@[oi].operands@,
                            ty->0,
                            self.ops@[oi].moment(),
                            env,
                        ) == op_sem(
                            before.ops@[oi].kind,
                            before.ops@[oi].operands@,
                            ty->0,
                            before.ops@[oi].moment(),
                            env,
                        ) by {}
                    }
                }
            }
            assert forall|b: int, j: int|
                0 <= b < before.blocks@.len() && 0 <= j < before.blocks@[b].ops@.len() implies (
                #[trigger] before.blocks@[b].ops@[j]).0 < self.ops@.len() by {
                assert(before.block_wf(b));
                assert(before.entry_wf(b, j));
            }
            assert(self.blocks@[bi].ops@ == list.push(op));
            assert(list.push(op).drop_last() =~= list);
            assert(effects_of(self.ops@, list) == effects_of(before.ops@, list));
            assert forall|b: int| 0 <= b < self.blocks@.len() implies #[trigger] self.block_wf(b) by {
                assert(before.block_wf(b));
                assert forall|i: int|
                    0 <= i < self.blocks@[b].args@.len() implies #[trigger] self.arg_wf(b, i) by {
                    assert(before.arg_wf(b, i));
                }
                assert forall|j: int|
                    0 <= j < self.blocks@[b].ops@.len() implies #[trigger] self.entry_wf(b, j) by {
                    if b == bi && j == list.len() {
                        assert(self.blocks@[b].ops@.take(j) =~= list);
                        assert forall|m: int|
                            0 <= m < self.ops@[oi].operands@.len() implies #[trigger] self.use_wf(
                            b,
                            j,
                            m,
                        ) by {
                            let operand = before.ops@[oi].operands@[m];
                            assert(before.op_wf(oi));
                            assert(before.has(operand));
                            if let ValueSource::Op(source) = operand.source {
                                assert(before.op_wf(source.0 as int));
                                if before.ops@[source.0 as int].parent == Some(block)
                                    && !before.ops@[source.0 as int].taken {
                                    self.lemma_stands(before, source, block, j, j);
                                }
                            }
                        }
                    } else {
                        assert(before.entry_wf(b, j));
                        assert(before.op_wf(before.blocks@[b].ops@[j].0 as int));
                        self.lemma_uses(before, b, j);
                        assert(before.blocks@[b].ops@[j] == self.blocks@[b].ops@[j]);
                        assert(before.blocks@[b].ops@[j] != op);
                        let prefix = self.blocks@[b].ops@.take(j);
                        assert(prefix =~= before.blocks@[b].ops@.take(j));
                        assert forall|m: int| 0 <= m < prefix.len() implies (
                        #[trigger] prefix[m]).0 < self.ops@.len() by {
                            assert(prefix[m] == before.blocks@[b].ops@[m]);
                        }
                        assert(effects_of(self.ops@, prefix) == effects_of(before.ops@, prefix));
                    }
                }
            }
            assert forall|b: int| 0 <= b < self.blocks@.len() && b != bi implies #[trigger] effects_of(
                self.ops@,
                self.blocks@[b].ops@,
            ) == effects_of(before.ops@, before.blocks@[b].ops@) by {
                assert(self.blocks@[b] == before.blocks@[b]);
            }
            assert(self.kinds(block) =~= before.kinds(block).push(before.ops@[oi].kind));
            assert forall|b: int| 0 <= b < self.blocks@.len() && b != bi implies #[trigger] self.kinds(
                BlockId(b as usize),
            ) =~= before.kinds(BlockId(b as usize)) by {
                assert(self.blocks.len() == before.blocks.len());
            }
            match inst_of(before.ops@[oi]) {
                Some(inst) => {
                    assert(self@ =~= before@.then_in(block, inst));
                    assert(self.frame(block) =~= before.frame(block).then_in(block, inst));
                },
                None => {
                    assert(self@ =~= before@);
                    assert(self.frame(block) =~= before.frame(block));
                },
            }
        }
    }

    /// The result of an operation.
    pub fn result_of(&self, op: OpId) -> (r: Value)
        requires
            self.is_op(op),
            self.op(op).result is Some,
        ensures
            self.op(op).result == Some(r),
    {
        match self.ops[op.0].result {
            Some(v) => v,
            None => {
                proof {
                    assert(false);
                }
                Value {
                    source: ValueSource::Op(op),
                    meaning: Ghost(Meaning { ty: TypeHandle::Unit, den: |env: Env| Sem::Undef }),
                }
            },
        }
    }

    /// Whether an operation belongs to the context.
    pub closed spec fn is_op(self, op: OpId) -> bool {
        op.0 < self.ops@.len()
    }

    /// The type of a value.
    pub fn type_of(&self, v: Value) -> (r: TypeHandle)
        requires
            self.wf(),
            self.has(v),
        ensures
            r == v.ty(),
    {
        match v.source {
            ValueSource::Op(op) => {
                proof {
                    assert(self.op_wf(op.0 as int));
                }
                match &self.ops[op.0].result_ty {
                    Some(ty) => ty.clone(),
                    None => {
                        proof {
                            assert(false);
                        }
                        TypeHandle::Unit
                    },
                }
            },
            ValueSource::Arg(block, index) => {
                proof {
                    assert(self.block_wf(block.0 as int));
                    assert(self.arg_wf(block.0 as int, index as int));
                }
                self.blocks[block.0].arg_tys[index].clone()
            },
        }
    }

    /// Every value has the shape of its type.
    pub broadcast proof fn value_shaped(self, v: Value, env: Env)
        requires
            self.wf(),
            #[trigger] self.has(v),
        ensures
            exists|s: Sem| #[trigger] v.den(env) == sem::shaped(v.ty(), s),
    {
        match v.source {
            ValueSource::Op(op) => {
                assert(self.op_wf(op.0 as int));
                let o = self.ops@[op.0 as int];
                assert(v.den(env) == sem::shaped(
                    v.ty(),
                    raw_sem(o.kind, o.operands@, v.ty(), o.moment(), env),
                ));
            },
            ValueSource::Arg(block, index) => {
                assert(self.block_wf(block.0 as int));
                assert(self.arg_wf(block.0 as int, index as int));
                assert(v.den(env) == sem::shaped(
                    v.ty(),
                    (env.argument)(block.0 as int, index as int),
                ));
            },
        }
    }

    /// A value is its own cut to the shape of its type.
    pub proof fn value_fixed(self, v: Value, env: Env)
        requires
            self.wf(),
            self.has(v),
            sem::narrow(v.ty()),
        ensures
            sem::shaped(v.ty(), v.den(env)) == v.den(env),
    {
        self.value_shaped(v, env);
        let s = choose|s: Sem| #[trigger] v.den(env) == sem::shaped(v.ty(), s);
        sem::lemma_shaped_idem(&v.ty(), s);
    }

    /// An argument of a block is what a run hands to it.
    pub proof fn lemma_argument(self, block: BlockId, index: int, env: Env)
        requires
            self.wf(),
            self.has_block(block),
            0 <= index < self@.args[block.0 as int].len(),
        ensures
            self.has(self@.args[block.0 as int][index]),
            self@.args[block.0 as int][index].den(env) == sem::shaped(
                self@.args[block.0 as int][index].ty(),
                (env.argument)(block.0 as int, index),
            ),
    {
        let b = block.0 as int;
        assert(self.block_wf(b));
        assert(self.arg_wf(b, index));
        let v = self.blocks@[b].args@[index];
        assert(v.den(env) == v.den(env));
        assert(self.blocks@[b].args.len() == self.blocks@[b].args@.len());
        assert(v.source == ValueSource::Arg(BlockId(b as usize), index as usize));
    }

    /// Every block has a list of arguments, and there are no more blocks and
    /// regions than can be counted.
    pub proof fn lemma_sizes(&self)
        ensures
            self@.args.len() == self@.effects.len(),
            self@.labels.len() == self@.effects.len(),
            self@.effects.len() <= usize::MAX,
            self@.regions.len() <= usize::MAX,
    {
        assert(self.blocks.len() == self@.effects.len());
        assert(self.regions.len() == self@.regions.len());
    }

    /// An integer value is a bit pattern of its width.
    pub broadcast proof fn value_in_range(self, v: Value, env: Env)
        requires
            self.wf(),
            #[trigger] self.has(v),
            v.ty() is Integer,
            v.ty()->width <= 128,
        ensures
            #[trigger] v.den(env) == Sem::Bits(v.bits(env)),
            v.bits(env) < sem::modulus(v.ty()->width),
    {
        self.value_shaped(v, env);
        let s = choose|s: Sem| #[trigger] v.den(env) == sem::shaped(v.ty(), s);
        sem::lemma_wrap_range(v.ty()->width, sem::bits_of(s) as int);
    }
}

/// Whether operations of a kind have an effect.
fn kind_acts(kind: &OpKind) -> (r: bool)
    ensures
        forall|op: Operation| op.kind == *kind ==> r == (#[trigger] inst_of(op) is Some),
{
    matches!(
        kind,
        OpKind::Module { .. }
            | OpKind::MirFunc { .. }
            | OpKind::LlvmFunc { .. }
            | OpKind::Global { .. }
            | OpKind::Alloca { .. }
            | OpKind::Store
            | OpKind::Return { .. }
            | OpKind::Goto
            | OpKind::CondBr { .. }
            | OpKind::Unreachable
            | OpKind::Call { .. }
            | OpKind::LlvmCall { .. }
            | OpKind::IndirectCall { .. }
    )
}

fn kind_is_timed(kind: &OpKind) -> (r: bool)
    ensures
        r == timed(*kind),
{
    matches!(
        kind,
        OpKind::Alloca { .. }
            | OpKind::Load
            | OpKind::Call { .. }
            | OpKind::LlvmCall { .. }
            | OpKind::IndirectCall { .. }
    )
}

impl World {
    /// The world with one more block, which is empty.
    pub open spec fn with_block(self, label: Seq<char>, args: Seq<Value>) -> World {
        World {
            effects: self.effects.push(Seq::empty()),
            args: self.args.push(args),
            labels: self.labels.push(label),
            ..self
        }
    }

    /// The world with one more region.
    pub open spec fn with_region(self, blocks: Seq<BlockId>) -> World {
        World { regions: self.regions.push(blocks), ..self }
    }

    /// The world with a block appended to a region.
    pub open spec fn with_block_in(self, region: RegionId, block: BlockId) -> World {
        World {
            regions: self.regions.update(
                region.0 as int,
                self.regions[region.0 as int].push(block),
            ),
            ..self
        }
    }
}

impl Frame {
    /// The frame around a block once another, empty block exists.
    pub open spec fn with_block(self, label: Seq<char>, args: Seq<Value>) -> Frame {
        Frame {
            world: self.world.with_block(label, args),
            elsewhere: self.elsewhere.push(Seq::empty()),
            kinds: self.kinds.push(Seq::empty()),
        }
    }
}

impl Context {
    /// Makes an empty block with arguments of the given types.
    pub fn new_block(&mut self, label: String, arg_tys: Vec<TypeHandle>) -> (r: BlockId)
        requires
            old(self).wf(),
        ensures
            final(self).grew(*old(self)),
            final(self).dialects == old(self).dialects,
            r.0 == old(self)@.effects.len(),
            final(self)@ == old(self)@.with_block(label@, final(self)@.args.last()),
            final(self)@.args.last().len() == arg_tys@.len(),
            forall|i: int|
                0 <= i < arg_tys@.len() ==> final(self).has(
                    #[trigger] final(self)@.args.last()[i],
                ) && final(self)@.args.last()[i].ty() == arg_tys@[i],
            forall|b: BlockId|
                old(self).has_block(b) ==> #[trigger] final(self).frame(b) == old(self).frame(
                    b,
                ).with_block(label@, final(self)@.args.last()),
            forall|b: BlockId|
                old(self).has_block(b) ==> #[trigger] final(self).kinds(b) == old(self).kinds(b),
            final(self).kinds(r) == Seq::<OpKind>::empty(),
            forall|o: OpId|
                old(self).is_loose(o) ==> #[trigger] final(self).is_loose(o) && final(self).op(o)
                    == old(self).op(o) && final(self).is_op(o),
    {
        let ghost before = *self;
        let ghost name = label@;
        let id = BlockId(self.blocks.len());
        let mut args: Vec<Value> = Vec::new();
        let mut i: usize = 0;
        while i < arg_tys.len()
            invariant
                i <= arg_tys@.len(),
                args@.len() == i,
                id.0 == self.blocks@.len(),
                forall|j: int|
                    0 <= j < i ==> {
                        let v = #[trigger] args@[j];
                        &&& v.source == ValueSource::Arg(id, j as usize)
                        &&& v.ty() == arg_tys@[j]
                        &&& forall|env: Env| #[trigger]
                            v.den(env) == sem::shaped(v.ty(), (env.argument)(id.0 as int, j))
                    },
            decreases arg_tys@.len() - i,
        {
            let ghost t = arg_tys@[i as int];
            let ghost b = id.0 as int;
            let ghost n = i as int;
            args.push(
                Value {
                    source: ValueSource::Arg(id, i),
                    meaning: Ghost(
                        Meaning {
                            ty: t,
                            den: |env: Env| sem::shaped(t, (env.argument)(b, n)),
                        },
                    ),
                },
            );
            i = i + 1;
        }
        self.blocks.push(BasicBlock { label, arg_tys, args, ops: Vec::new(), region: None });
        proof {
            let n = before.blocks@.len() as int;
            assert forall|v: Value| before.has(v) implies #[trigger] self.has(v) by {}
            assert forall|j: int| 0 <= j < self.ops@.len() implies #[trigger] self.op_wf(j) by {
                assert(before.op_wf(j));
            }
            assert forall|b: int| 0 <= b < self.blocks@.len() implies #[trigger] self.block_wf(b) by {
                if b < n {
                    assert(before.block_wf(b));
                    assert(self.blocks@[b] == before.blocks@[b]);
                    assert forall|j: int|
                        0 <= j < self.blocks@[b].args@.len() implies #[trigger] self.arg_wf(
                        b,
                        j,
                    ) by {
                        assert(before.arg_wf(b, j));
                    }
                    assert forall|j: int|
                        0 <= j < self.blocks@[b].ops@.len() implies #[trigger] self.entry_wf(
                        b,
                        j,
                    ) by {
                        assert(before.entry_wf(b, j));
                        assert(before.op_wf(before.blocks@[b].ops@[j].0 as int));
                        self.lemma_uses(before, b, j);
                    }
                } else {
                    assert forall|j: int|
                        0 <= j < self.blocks@[b].args@.len() implies #[trigger] self.arg_wf(
                        b,
                        j,
                    ) by {
                        assert(self.blocks@[b].args@[j] == args@[j]);
                    }
                }
            }
            assert(self@.args.last() == args@);
            assert(effects_of(self.ops@, self.blocks@[n].ops@) =~= Seq::<Inst>::empty());
            assert(self@ =~= before@.with_block(name, args@));
            assert(self.blocks.len() == n + 1);
            assert(self.kinds(id) =~= Seq::<OpKind>::empty());
            assert forall|b: BlockId| before.has_block(b) implies #[trigger] self.kinds(b)
                == before.kinds(b) by {
                assert(self.kinds(b) =~= before.kinds(b));
            }
            assert forall|b: BlockId| before.has_block(b) implies #[trigger] self.frame(b)
                == before.frame(b).with_block(name, args@) by {
                let made = self.frame(b);
                let wanted = before.frame(b).with_block(name, args@);
                assert forall|c: int| 0 <= c < made.kinds.len() implies #[trigger] made.kinds[c]
                    == wanted.kinds[c] by {
                    let other = BlockId(c as usize);
                    if c < n {
                        assert(before.has_block(other));
                        assert(self.kinds(other) == before.kinds(other));
                    }
                }
                assert(made.kinds =~= wanted.kinds);
                assert(self.frame(b) =~= before.frame(b).with_block(name, args@));
            }
        }
        id
    }

    /// Makes a region of the given blocks.
    pub fn new_region(&mut self, blocks: Vec<BlockId>) -> (r: RegionId)
        requires
            old(self).wf(),
        ensures
            final(self).grew(*old(self)),
            final(self).dialects == old(self).dialects,
            r.0 == old(self)@.regions.len(),
            final(self)@ == old(self)@.with_region(blocks@),
            forall|b: BlockId|
                old(self).has_block(b) ==> #[trigger] final(self).kinds(b) == old(self).kinds(b),
            forall|o: OpId|
                old(self).is_loose(o) ==> #[trigger] final(self).is_loose(o) && final(self).op(o)
                    == old(self).op(o) && final(self).is_op(o),
    {
        let ghost before = *self;
        let id = RegionId(self.regions.len());
        self.regions.push(blocks);
        proof {
            self.lemma_same_ops_and_blocks(before);
            self.lemma_same_kinds(before);
            assert(self@ =~= before@.with_region(blocks@));
        }
        id
    }

    /// Appends a block to a region.
    pub fn append_block(&mut self, region: RegionId, block: BlockId)
        requires
            old(self).wf(),
            region.0 < old(self)@.regions.len(),
            old(self).has_block(block),
        ensures
            final(self).grew(*old(self)),
            final(self).dialects == old(self).dialects,
            final(self)@ == old(self)@.with_block_in(region, block),
            forall|b: BlockId| #[trigger]
                final(self).frame(b) == (Frame {
                    world: old(self)@.with_block_in(region, block),
                    ..old(self).frame(b)
                }),
            forall|b: BlockId| #[trigger] final(self).kinds(b) == old(self).kinds(b),
            forall|o: OpId|
                old(self).is_loose(o) ==> #[trigger] final(self).is_loose(o) && final(self).op(o)
                    == old(self).op(o) && final(self).is_op(o),
    {
        let ghost before = *self;
        self.regions[region.0].push(block);
        proof {
            self.lemma_same_ops_and_blocks(before);
            assert(self@ =~= before@.with_block_in(region, block));
            assert forall|b: BlockId| #[trigger] self.frame(b) == (Frame {
                world: before@.with_block_in(region, block),
                ..before.frame(b)
            }) by {
                assert(self.frame(b) =~= (Frame {
                    world: before@.with_block_in(region, block),
                    ..before.frame(b)
                }));
            }
        }
    }

    /// Blocks keep the kinds of their operations where operations were only
    /// added.
    proof fn lemma_same_kinds(self, before: Context)
        requires
            before.wf(),
            self.blocks == before.blocks,
            before.ops@.len() <= self.ops@.len(),
            forall|i: int|
                0 <= i < before.ops@.len() ==> (#[trigger] self.ops@[i]).kind
                    == before.ops@[i].kind,
        ensures
            forall|b: BlockId|
                b.0 < before.blocks@.len() ==> #[trigger] self.kinds(b) == before.kinds(b),
    {
        assert forall|b: BlockId| b.0 < before.blocks@.len() implies #[trigger] self.kinds(b)
            == before.kinds(b) by {
            let list = before.blocks@[b.0 as int].ops@;
            assert(before.block_wf(b.0 as int));
            assert forall|j: int| 0 <= j < list.len() implies (#[trigger] list[j]).0
                < before.ops@.len() by {
                assert(before.entry_wf(b.0 as int, j));
            }
            assert(self.kinds(b) =~= before.kinds(b));
        }
    }

    /// The operations of another block stay of their kinds.
    pub proof fn lemma_other_kinds(self, old: Context, block: BlockId, other: BlockId)
        requires
            self.frame(block).kinds == old.frame(block).kinds,
            old.has_block(other),
            self.has_block(other),
            other != block,
        ensures
            self.kinds(other) == old.kinds(other),
    {
        assert(self.frame(block).kinds[other.0 as int] == self.kinds(other));
        assert(old.frame(block).kinds[other.0 as int] == old.kinds(other));
    }

    /// A block keeps the kinds of its operations where what surrounds any block
    /// is as it was.
    pub proof fn lemma_kept_kinds(self, old: Context, block: BlockId)
        requires
            forall|b: BlockId| #[trigger] self.frame(b) == old.frame(b),
            old.has_block(block),
            self.has_block(block),
        ensures
            self.kinds(block) == old.kinds(block),
    {
        let other = BlockId(
            if block.0 == 0 {
                1
            } else {
                0
            },
        );
        assert(self.frame(other) == old.frame(other));
        self.lemma_other_kinds(old, other, block);
    }

    /// A block whose last operation ends it is whole where no other instruction
    /// of it does.
    pub proof fn lemma_whole(self, block: BlockId)
        requires
            self.wf(),
            self.has_block(block),
            self.kinds(block).len() > 0,
            kind_ends(self.kinds(block).last()),
            forall|k: int|
                0 <= k < self@.effects[block.0 as int].len() - 1 ==> !inst_ends(
                    #[trigger] self@.effects[block.0 as int][k],
                ),
        ensures
            is_whole(self.kinds(block)),
    {
        let list = self.blocks@[block.0 as int].ops@;
        let kinds = self.kinds(block);
        assert(self.block_wf(block.0 as int));
        assert(kinds.last() == self.ops@[list.last().0 as int].kind);
        let before = list.drop_last();
        assert(self@.effects[block.0 as int] == effects_of(self.ops@, list));
        assert(effects_of(self.ops@, list).drop_last() =~= effects_of(self.ops@, before));
        assert forall|k: int| 0 <= k < effects_of(self.ops@, before).len() implies !inst_ends(
            #[trigger] effects_of(self.ops@, before)[k],
        ) by {
            assert(effects_of(self.ops@, list)[k] == effects_of(self.ops@, before)[k]);
        }
        lemma_no_end(self.ops@, before);
        assert forall|k: int| 0 <= k < kinds.len() - 1 implies !kind_ends(#[trigger] kinds[k]) by {
            assert(before[k] == list[k]);
        }
    }

    proof fn lemma_same_ops_and_blocks(&self, before: Context)
        requires
            before.wf(),
            self.ops == before.ops,
            self.blocks == before.blocks,
        ensures
            self.grew(before),
            self@.effects == before@.effects,
            self@.args == before@.args,
    {
        assert forall|v: Value| before.has(v) implies #[trigger] self.has(v) by {}
        assert forall|j: int| 0 <= j < self.ops@.len() implies #[trigger] self.op_wf(j) by {
            assert(before.op_wf(j));
        }
        assert forall|b: int| 0 <= b < self.blocks@.len() implies #[trigger] self.block_wf(b) by {
            assert(before.block_wf(b));
            assert forall|j: int|
                0 <= j < self.blocks@[b].args@.len() implies #[trigger] self.arg_wf(b, j) by {
                assert(before.arg_wf(b, j));
            }
            assert forall|j: int|
                0 <= j < self.blocks@[b].ops@.len() implies #[trigger] self.entry_wf(b, j) by {
                assert(before.entry_wf(b, j));
                assert(before.op_wf(before.blocks@[b].ops@[j].0 as int));
                self.lemma_uses(before, b, j);
            }
        }
        assert(self@.effects =~= before@.effects);
        assert(self@.args =~= before@.args);
    }

    /// Gives a loose operation a region.
    pub fn set_region(&mut self, op: OpId, region: RegionId)
        requires
            old(self).wf(),
            old(self).is_loose(op),
        ensures
            final(self).grew(*old(self)),
            final(self).dialects == old(self).dialects,
            final(self)@ == old(self)@,
            final(self).is_loose(op),
            final(self).is_op(op),
            final(self).op(op).region == Some(region),
            final(self).op(op).kind == old(self).op(op).kind,
            final(self).op(op).operands == old(self).op(op).operands,
            final(self).op(op).successors == old(self).op(op).successors,
            final(self).op(op).result == old(self).op(op).result,
            final(self).op(op).result_ty == old(self).op(op).result_ty,
            forall|b: BlockId|
                old(self).has_block(b) ==> #[trigger] final(self).kinds(b) == old(self).kinds(b),
            forall|o: OpId|
                o != op && old(self).is_loose(o) ==> #[trigger] final(self).is_loose(o)
                    && final(self).op(o) == old(self).op(o),
    {
        let ghost before = *self;
        let ghost oi = op.0 as int;
        self.ops[op.0].region = Some(region);
        proof {
            self.lemma_same_kinds(before);
            assert forall|v: Value| before.has(v) implies #[trigger] self.has(v) by {}
            assert forall|j: int| 0 <= j < self.ops@.len() implies #[trigger] self.op_wf(j) by {
                assert(before.op_wf(j));
            }
            assert forall|b: int, j: int|
                0 <= b < before.blocks@.len() && 0 <= j < before.blocks@[b].ops@.len() implies (
                #[trigger] before.blocks@[b].ops@[j]).0 != oi && before.blocks@[b].ops@[j].0
                    < before.ops@.len() by {
                assert(before.block_wf(b));
                assert(before.entry_wf(b, j));
            }
            assert forall|b: int| 0 <= b < self.blocks@.len() implies #[trigger] self.block_wf(b) by {
                assert(before.block_wf(b));
                assert forall|j: int|
                    0 <= j < self.blocks@[b].args@.len() implies #[trigger] self.arg_wf(b, j) by {
                    assert(before.arg_wf(b, j));
                }
                assert forall|j: int|
                    0 <= j < self.blocks@[b].ops@.len() implies #[trigger] self.entry_wf(b, j) by {
                    assert(before.entry_wf(b, j));
                    assert(before.op_wf(before.blocks@[b].ops@[j].0 as int));
                    self.lemma_uses(before, b, j);
                    let prefix = self.blocks@[b].ops@.take(j);
                    assert forall|m: int| 0 <= m < prefix.len() implies inst_of(
                        before.ops@[(#[trigger] prefix[m]).0 as int],
                    ) == inst_of(self.ops@[prefix[m].0 as int]) by {
                        assert(prefix[m] == before.blocks@[b].ops@[m]);
                    }
                    lemma_effects_same(before.ops@, self.ops@, prefix);
                }
            }
            assert forall|b: int| 0 <= b < self.blocks@.len() implies #[trigger] effects_of(
                self.ops@,
                self.blocks@[b].ops@,
            ) == effects_of(before.ops@, before.blocks@[b].ops@) by {
                let list = self.blocks@[b].ops@;
                assert forall|m: int| 0 <= m < list.len() implies inst_of(
                    before.ops@[(#[trigger] list[m]).0 as int],
                ) == inst_of(self.ops@[list[m].0 as int]) by {
                    assert(list[m] == before.blocks@[b].ops@[m]);
                }
                lemma_effects_same(before.ops@, self.ops@, list);
            }
            assert(self@ =~= before@);
        }
    }

    /// The arguments of a block.
    pub fn block_args(&self, block: BlockId) -> (r: &Vec<Value>)
        requires
            self.wf(),
            self.has_block(block),
        ensures
            r@ == self@.args[block.0 as int],
            forall|i: int| 0 <= i < r@.len() ==> self.has(#[trigger] r@[i]),
    {
        let args = &self.blocks[block.0].args;
        let count: usize = args.len();
        proof {
            assert(self.block_wf(block.0 as int));
            assert forall|i: int|
                0 <= i < count implies self.has(
                #[trigger] self.blocks@[block.0 as int].args@[i],
            ) by {
                assert(self.arg_wf(block.0 as int, i));
            }
        }
        args
    }
}

/// The symbol that an instruction defines or declares.
pub open spec fn symbol_of(inst: Inst) -> Option<Seq<char>> {
    match inst {
        Inst::Module { symbol, .. } => Some(symbol),
        Inst::MirFunc { symbol, .. } => Some(symbol),
        Inst::LlvmFunc { symbol, .. } => Some(symbol),
        Inst::Global { symbol, .. } => Some(symbol),
        _ => None,
    }
}

/// The position of the first instruction that defines or declares a symbol.
pub open spec fn position_of(insts: Seq<Inst>, symbol: Seq<char>) -> Option<int>
    decreases insts.len(),
{
    if insts.len() == 0 {
        None
    } else {
        match position_of(insts.drop_last(), symbol) {
            Some(i) => Some(i),
            None => if symbol_of(insts.last()) == Some(symbol) {
                Some(insts.len() - 1)
            } else {
                None
            },
        }
    }
}

/// Whether instructions define or declare a symbol.
pub open spec fn has_symbol(insts: Seq<Inst>, symbol: Seq<char>) -> bool {
    position_of(insts, symbol) is Some
}

/// Whether instructions hold a function of the `llvm` dialect of a name.
pub open spec fn has_llvm_function(insts: Seq<Inst>, symbol: Seq<char>) -> bool {
    exists|i: int|
        0 <= i < insts.len() && (#[trigger] insts[i]) is LlvmFunc && symbol_of(insts[i]) == Some(
            symbol,
        )
}

/// Whether a linker can see a symbol: a function that was given a linkage that
/// is not confined to its object, or anything that is no function.
pub open spec fn is_visible(inst: Inst) -> bool {
    match inst {
        Inst::MirFunc { linkage, .. } => linkage == Some(Linkage::WeakOdr) || linkage == Some(
            Linkage::External,
        ),
        Inst::LlvmFunc { linkage, .. } => linkage == Linkage::WeakOdr || linkage
            == Linkage::External,
        _ => true,
    }
}

/// Whether the first instruction of a symbol is one that a linker can see.
pub open spec fn is_seen(insts: Seq<Inst>, symbol: Seq<char>) -> bool {
    position_of(insts, symbol) matches Some(i) && is_visible(insts[i])
}

pub proof fn lemma_position(insts: Seq<Inst>, symbol: Seq<char>)
    ensures
        match position_of(insts, symbol) {
            Some(i) => {
                &&& 0 <= i < insts.len()
                &&& symbol_of(insts[i]) == Some(symbol)
                &&& forall|j: int| 0 <= j < i ==> symbol_of(#[trigger] insts[j]) != Some(symbol)
            },
            None => forall|j: int|
                0 <= j < insts.len() ==> symbol_of(#[trigger] insts[j]) != Some(symbol),
        },
    decreases insts.len(),
{
    if insts.len() > 0 {
        lemma_position(insts.drop_last(), symbol);
        assert forall|j: int| 0 <= j < insts.len() - 1 implies #[trigger] insts[j]
            == insts.drop_last()[j] by {}
    }
}

/// The symbol that an operation defines or declares.
pub open spec fn kind_symbol(kind: OpKind) -> Option<Seq<char>> {
    match kind {
        OpKind::Module { symbol } => Some(symbol@),
        OpKind::MirFunc { symbol, .. } => Some(symbol@),
        OpKind::LlvmFunc { symbol, .. } => Some(symbol@),
        OpKind::Global { symbol, .. } => Some(symbol@),
        _ => None,
    }
}

/// A function with another linkage; anything else as it is.
pub open spec fn relinked(inst: Inst, linkage: Linkage) -> Inst {
    match inst {
        Inst::MirFunc { symbol, ty, region, .. } => Inst::MirFunc {
            symbol,
            ty,
            linkage: Some(linkage),
            region,
        },
        Inst::LlvmFunc { symbol, ty, region, .. } => Inst::LlvmFunc {
            symbol,
            ty,
            linkage,
            region,
        },
        _ => inst,
    }
}

/// A global with other contents; anything else as it is.
pub open spec fn refilled(inst: Inst, filling: InitView) -> Inst {
    match inst {
        Inst::Global { symbol, ty, linkage, thread_local, section, .. } => Inst::Global {
            symbol,
            ty,
            linkage,
            thread_local,
            section,
            init: filling,
        },
        _ => inst,
    }
}

/// A global without contents and of no section; anything else as it is.
pub open spec fn emptied(inst: Inst) -> Inst {
    match inst {
        Inst::Global { symbol, ty, linkage, thread_local, .. } => Inst::Global {
            symbol,
            ty,
            linkage,
            thread_local,
            section: None,
            init: InitView::Declared,
        },
        _ => inst,
    }
}

/// A global in a section; anything else as it is.
pub open spec fn resectioned(inst: Inst, place: Seq<char>) -> Inst {
    match inst {
        Inst::Global { symbol, ty, linkage, thread_local, init, .. } => Inst::Global {
            symbol,
            ty,
            linkage,
            thread_local,
            section: Some(place),
            init,
        },
        _ => inst,
    }
}

impl World {
    /// The world with the first instruction of a symbol in a block replaced.
    pub open spec fn with_symbol(
        self,
        block: BlockId,
        symbol: Seq<char>,
        new: spec_fn(Inst) -> Inst,
    ) -> World {
        let insts = self.effects[block.0 as int];
        match position_of(insts, symbol) {
            Some(i) => World {
                effects: self.effects.update(block.0 as int, insts.update(i, new(insts[i]))),
                ..self
            },
            None => self,
        }
    }
}

/// A shorter list of operations has no more effects.
proof fn lemma_effects_prefix(ops: Seq<Operation>, list: Seq<OpId>, k: int)
    requires
        0 <= k <= list.len(),
    ensures
        effects_of(ops, list.take(k)).len() <= effects_of(ops, list).len(),
        effects_of(ops, list.take(k)) == effects_of(ops, list).take(
            effects_of(ops, list.take(k)).len() as int,
        ),
    decreases list.len(),
{
    if k == list.len() {
        assert(list.take(k) =~= list);
        assert(effects_of(ops, list).take(effects_of(ops, list).len() as int) =~= effects_of(
            ops,
            list,
        ));
    } else {
        lemma_effects_prefix(ops, list.drop_last(), k);
        assert(list.drop_last().take(k) =~= list.take(k));
        let n = effects_of(ops, list.take(k)).len() as int;
        assert(effects_of(ops, list.drop_last()).take(n) =~= effects_of(ops, list).take(n));
    }
}

/// The operation at a position of a list has its instruction after those
/// before it.
proof fn lemma_effects_at(ops: Seq<Operation>, list: Seq<OpId>, k: int)
    requires
        0 <= k < list.len(),
        inst_of(ops[list[k].0 as int]) is Some,
    ensures
        effects_of(ops, list.take(k)).len() < effects_of(ops, list).len(),
        effects_of(ops, list)[effects_of(ops, list.take(k)).len() as int] == inst_of(
            ops[list[k].0 as int],
        )->0,
{
    lemma_effects_prefix(ops, list, k + 1);
    let n = effects_of(ops, list.take(k)).len() as int;
    assert(list.take(k + 1).drop_last() =~= list.take(k));
    assert(list.take(k + 1).last() == list[k]);
    assert(effects_of(ops, list).take(n + 1)[n] == effects_of(ops, list)[n]);
}

/// Changing what one operation of a list does changes one of its effects.
proof fn lemma_effects_update(
    ops: Seq<Operation>,
    new_ops: Seq<Operation>,
    list: Seq<OpId>,
    k: int,
)
    requires
        0 <= k < list.len(),
        inst_of(ops[list[k].0 as int]) is Some,
        inst_of(new_ops[list[k].0 as int]) is Some,
        forall|m: int|
            0 <= m < list.len() && m != k ==> inst_of(ops[(#[trigger] list[m]).0 as int])
                == inst_of(new_ops[list[m].0 as int]),
    ensures
        effects_of(new_ops, list) == effects_of(ops, list).update(
            effects_of(ops, list.take(k)).len() as int,
            inst_of(new_ops[list[k].0 as int])->0,
        ),
    decreases list.len(),
{
    let n = effects_of(ops, list.take(k)).len() as int;
    let new = inst_of(new_ops[list[k].0 as int])->0;
    let init = list.drop_last();
    assert forall|m: int| 0 <= m < init.len() implies #[trigger] init[m] == list[m] by {}
    if k == list.len() - 1 {
        lemma_effects_same(ops, new_ops, init);
        assert(list.take(k) =~= init);
        assert(effects_of(ops, init).push(inst_of(ops[list[k].0 as int])->0).update(n, new)
            =~= effects_of(ops, init).push(new));
    } else {
        lemma_effects_update(ops, new_ops, init, k);
        assert(init.take(k) =~= list.take(k));
        lemma_effects_at(ops, init, k);
        match inst_of(ops[list.last().0 as int]) {
            Some(inst) => {
                assert(list.last() == list[list.len() - 1]);
                assert(effects_of(ops, init).update(n, new).push(inst) =~= effects_of(
                    ops,
                    init,
                ).push(inst).update(n, new));
            },
            None => {
                assert(list.last() == list[list.len() - 1]);
            },
        }
    }
}

/// The first effect with a symbol belongs to the first operation with it.
proof fn lemma_position_of_op(ops: Seq<Operation>, list: Seq<OpId>, k: int, symbol: Seq<char>)
    requires
        0 <= k < list.len(),
        kind_symbol(ops[list[k].0 as int].kind) == Some(symbol),
        forall|m: int|
            0 <= m < k ==> kind_symbol(ops[(#[trigger] list[m]).0 as int].kind) != Some(symbol),
    ensures
        position_of(effects_of(ops, list), symbol) == Some(
            effects_of(ops, list.take(k)).len() as int,
        ),
    decreases list.len(),
{
    let init = list.drop_last();
    assert(list.last() == list[list.len() - 1]);
    if k == list.len() - 1 {
        assert(list.take(k) =~= init);
        assert forall|m: int| 0 <= m < init.len() implies kind_symbol(
            ops[(#[trigger] init[m]).0 as int].kind,
        ) != Some(symbol) by {
            assert(init[m] == list[m]);
        }
        lemma_no_position(ops, init, symbol);
        let inst = inst_of(ops[list.last().0 as int])->0;
        assert(effects_of(ops, init).push(inst).drop_last() =~= effects_of(ops, init));
    } else {
        assert(init[k] == list[k]);
        assert forall|m: int| 0 <= m < k implies kind_symbol(ops[(#[trigger] init[m]).0 as int].kind)
            != Some(symbol) by {
            assert(init[m] == list[m]);
        }
        lemma_position_of_op(ops, init, k, symbol);
        assert(init.take(k) =~= list.take(k));
        match inst_of(ops[list.last().0 as int]) {
            Some(inst) => {
                assert(effects_of(ops, init).push(inst).drop_last() =~= effects_of(ops, init));
            },
            None => {},
        }
    }
}

proof fn lemma_no_position(ops: Seq<Operation>, list: Seq<OpId>, symbol: Seq<char>)
    requires
        forall|m: int|
            0 <= m < list.len() ==> kind_symbol(ops[(#[trigger] list[m]).0 as int].kind) != Some(
                symbol,
            ),
    ensures
        position_of(effects_of(ops, list), symbol) is None,
    decreases list.len(),
{
    if list.len() > 0 {
        let init = list.drop_last();
        assert forall|m: int| 0 <= m < init.len() implies kind_symbol(
            ops[(#[trigger] init[m]).0 as int].kind,
        ) != Some(symbol) by {
            assert(init[m] == list[m]);
        }
        lemma_no_position(ops, init, symbol);
        assert(list.last() == list[list.len() - 1]);
        match inst_of(ops[list.last().0 as int]) {
            Some(inst) => {
                assert(effects_of(ops, init).push(inst).drop_last() =~= effects_of(ops, init));
            },
            None => {},
        }
    }
}

/// Whether an operation defines or declares a symbol.
fn kind_has_symbol(kind: &OpKind, name: &String) -> (r: bool)
    ensures
        r == (kind_symbol(*kind) == Some(name@)),
{
    match kind {
        OpKind::Module { symbol } => *symbol == *name,
        OpKind::MirFunc { symbol, .. } => *symbol == *name,
        OpKind::LlvmFunc { symbol, .. } => *symbol == *name,
        OpKind::Global { symbol, .. } => *symbol == *name,
        _ => false,
    }
}

impl Context {
    /// Where in a block the first operation of a symbol stands.
    fn find_symbol(&self, block: BlockId, name: &String) -> (r: Option<usize>)
        requires
            self.wf(),
            self.has_block(block),
        ensures
            match r {
                Some(k) => {
                    let list = self.blocks@[block.0 as int].ops@;
                    &&& k < list.len()
                    &&& list[k as int].0 < self.ops@.len()
                    &&& kind_symbol(self.ops@[list[k as int].0 as int].kind) == Some(name@)
                    &&& position_of(self@.effects[block.0 as int], name@) == Some(
                        effects_of(self.ops@, list.take(k as int)).len() as int,
                    )
                },
                None => position_of(self@.effects[block.0 as int], name@) is None,
            },
    {
        let ghost b = block.0 as int;
        let ghost list = self.blocks@[b].ops@;
        assert(self.block_wf(b));
        let mut k: usize = 0;
        while k < self.blocks[block.0].ops.len()
            invariant
                self.wf(),
                self.has_block(block),
                b == block.0,
                list == self.blocks@[b].ops@,
                self.block_wf(b),
                k <= list.len(),
                forall|m: int|
                    0 <= m < k ==> kind_symbol(self.ops@[(#[trigger] list[m]).0 as int].kind)
                        != Some(name@),
            decreases list.len() - k,
        {
            let op: OpId = self.blocks[block.0].ops[k];
            assert(self.entry_wf(b, k as int));
            if kind_has_symbol(&self.ops[op.0].kind, name) {
                proof {
                    lemma_position_of_op(self.ops@, list, k as int, name@);
                }
                return Some(k);
            }
            k = k + 1;
        }
        proof {
            lemma_no_position(self.ops@, list, name@);
        }
        None
    }

    /// Whether a block defines or declares a symbol.
    pub fn symbol_exists(&self, block: BlockId, name: &String) -> (r: bool)
        requires
            self.wf(),
            self.has_block(block),
        ensures
            r == has_symbol(self@.effects[block.0 as int], name@),
    {
        self.find_symbol(block, name).is_some()
    }

    /// Whether a linker can see the first symbol of a name in a block.
    pub fn symbol_is_seen(&self, block: BlockId, name: &String) -> (r: bool)
        requires
            self.wf(),
            self.has_block(block),
        ensures
            r == is_seen(self@.effects[block.0 as int], name@),
    {
        match self.find_symbol(block, name) {
            None => false,
            Some(k) => {
                let op: OpId = self.blocks[block.0].ops[k];
                proof {
                    self.lemma_symbol_inst(block, k as int);
                }
                match &self.ops[op.0].kind {
                    OpKind::MirFunc { linkage: Some(linkage), .. } => matches!(
                        linkage,
                        Linkage::WeakOdr | Linkage::External
                    ),
                    OpKind::MirFunc { linkage: None, .. } => false,
                    OpKind::LlvmFunc { linkage, .. } => matches!(
                        linkage,
                        Linkage::WeakOdr | Linkage::External
                    ),
                    _ => true,
                }
            },
        }
    }

    /// Whether a block holds a function of the `llvm` dialect of a name.
    pub fn module_has_llvm_function(&self, block: BlockId, name: &String) -> (r: bool)
        requires
            self.wf(),
            self.has_block(block),
        ensures
            r == has_llvm_function(self@.effects[block.0 as int], name@),
    {
        let ghost b = block.0 as int;
        let ghost list = self.blocks@[b].ops@;
        assert(self.block_wf(b));
        let mut k: usize = 0;
        assert(list.take(0) =~= Seq::<OpId>::empty());
        while k < self.blocks[block.0].ops.len()
            invariant
                self.wf(),
                self.has_block(block),
                b == block.0,
                list == self.blocks@[b].ops@,
                self.block_wf(b),
                k <= list.len(),
                !has_llvm_function(effects_of(self.ops@, list.take(k as int)), name@),
            decreases list.len() - k,
        {
            let op: OpId = self.blocks[block.0].ops[k];
            assert(self.entry_wf(b, k as int));
            let found: bool = match &self.ops[op.0].kind {
                OpKind::LlvmFunc { symbol, .. } => *symbol == *name,
                _ => false,
            };
            let ghost before = effects_of(self.ops@, list.take(k as int));
            if found {
                proof {
                    lemma_effects_at(self.ops@, list, k as int);
                    let n = before.len() as int;
                    assert(self@.effects[b] == effects_of(self.ops@, list));
                    assert(self@.effects[b][n] is LlvmFunc);
                }
                return true;
            }
            proof {
                assert(list.take(k + 1).drop_last() =~= list.take(k as int));
                assert(list.take(k + 1).last() == list[k as int]);
                let after = effects_of(self.ops@, list.take(k + 1));
                if has_llvm_function(after, name@) {
                    let i = choose|i: int|
                        0 <= i < after.len() && (#[trigger] after[i]) is LlvmFunc && symbol_of(
                            after[i],
                        ) == Some(name@);
                    assert(i < before.len());
                    assert(before[i] == after[i]);
                }
            }
            k = k + 1;
        }
        assert(list.take(list.len() as int) =~= list);
        false
    }

    /// Gives the operation at a place of a block another symbol kind.
    fn replace_kind(&mut self, block: BlockId, k: usize, kind: OpKind)
        requires
            old(self).wf(),
            old(self).has_block(block),
            k < old(self).blocks@[block.0 as int].ops@.len(),
            ({
                let id = old(self).blocks@[block.0 as int].ops@[k as int];
                kind_symbol(old(self).ops@[id.0 as int].kind) is Some
            }),
            kind_symbol(kind) is Some,
        ensures
            final(self).grew(*old(self)),
            final(self).dialects == old(self).dialects,
            ({
                let b = block.0 as int;
                let list = old(self).blocks@[b].ops@;
                let op = old(self).ops@[list[k as int].0 as int];
                let n = effects_of(old(self).ops@, list.take(k as int)).len() as int;
                &&& n < old(self)@.effects[b].len()
                &&& inst_of(op) == Some(old(self)@.effects[b][n])
                &&& final(self)@ == (World {
                    effects: old(self)@.effects.update(
                        b,
                        old(self)@.effects[b].update(n, inst_of(Operation { kind, ..op })->0),
                    ),
                    ..old(self)@
                })
            }),
    {
        let ghost before = *self;
        let ghost b = block.0 as int;
        let ghost list = before.blocks@[b].ops@;
        assert(self.block_wf(b));
        assert(self.entry_wf(b, k as int));
        let op: OpId = self.blocks[block.0].ops[k];
        let ghost oi = op.0 as int;
        assert(self.op_wf(oi));
        let count: usize = self.blocks.len();
        self.ops[op.0].kind = kind;
        proof {
            reveal(raw_sem);
            let ops = before.ops@;
            let new_ops = self.ops@;
            assert(inst_of(ops[oi]) is Some);
            assert(inst_of(new_ops[oi]) is Some);
            assert(new_ops[oi] == (Operation { kind, ..ops[oi] }));
            assert forall|c: int, j: int|
                0 <= c < before.blocks@.len() && 0 <= j < before.blocks@[c].ops@.len() && !(c == b
                    && j == k) implies (#[trigger] before.blocks@[c].ops@[j]).0 != oi
                && before.blocks@[c].ops@[j].0 < ops.len() by {
                assert(before.block_wf(c));
                assert(before.entry_wf(c, j));
                if before.blocks@[c].ops@[j].0 == oi {
                    assert(c < count && b < count);
                    assert(c == b);
                    if j < k {
                        lemma_effects_prefix(ops, list.take(k as int), j + 1);
                        assert(list.take(k as int).take(j + 1) =~= list.take(j + 1));
                        assert(list.take(j + 1).drop_last() =~= list.take(j));
                        assert(list.take(j + 1).last() == list[j]);
                    } else {
                        lemma_effects_prefix(ops, list.take(j), k + 1);
                        assert(list.take(j).take(k + 1) =~= list.take(k + 1));
                        assert(list.take(k + 1).drop_last() =~= list.take(k as int));
                        assert(list.take(k + 1).last() == list[k as int]);
                    }
                }
            }
            assert forall|v: Value| before.has(v) implies #[trigger] self.has(v) by {}
            assert forall|j: int| 0 <= j < self.ops@.len() implies #[trigger] self.op_wf(j) by {
                assert(before.op_wf(j));
                if j == oi && ops[oi].result_ty is Some {
                    let ty = ops[oi].result_ty->0;
                    assert forall|env: Env| op_sem(
                        new_ops[oi].kind,
                        new_ops[oi].operands@,
                        ty,
                        new_ops[oi].moment(),
                        env,
                    ) == op_sem(ops[oi].kind, ops[oi].operands@, ty, ops[oi].moment(), env) by {}
                }
            }
            assert forall|c: int, j: int|
                #![trigger self.entry_wf(c, j)]
                0 <= c < self.blocks@.len() && 0 <= j < self.blocks@[c].ops@.len() implies self.entry_wf(
                c,
                j,
            ) by {
                assert(before.block_wf(c));
                assert(before.entry_wf(c, j));
                assert(before.op_wf(before.blocks@[c].ops@[j].0 as int));
                self.lemma_uses(before, c, j);
                let prefix = self.blocks@[c].ops@.take(j);
                if c == b && j > k {
                    assert(prefix[k as int] == op);
                    assert forall|m: int| 0 <= m < prefix.len() && m != k implies inst_of(
                        ops[(#[trigger] prefix[m]).0 as int],
                    ) == inst_of(new_ops[prefix[m].0 as int]) by {
                        assert(prefix[m] == before.blocks@[c].ops@[m]);
                    }
                    lemma_effects_at(ops, prefix, k as int);
                    lemma_effects_update(ops, new_ops, prefix, k as int);
                } else {
                    assert forall|m: int| 0 <= m < prefix.len() implies inst_of(
                        ops[(#[trigger] prefix[m]).0 as int],
                    ) == inst_of(new_ops[prefix[m].0 as int]) by {
                        assert(prefix[m] == before.blocks@[c].ops@[m]);
                    }
                    lemma_effects_same(ops, new_ops, prefix);
                }
                assert(effects_of(new_ops, prefix).len() == effects_of(ops, prefix).len());
                let id = self.blocks@[c].ops@[j].0 as int;
                assert(self.ops@[id].time == before.ops@[id].time);
                assert(self.ops@[id].parent == before.ops@[id].parent);
            }
            assert forall|c: int| 0 <= c < self.blocks@.len() implies #[trigger] self.block_wf(c) by {
                assert(before.block_wf(c));
                assert forall|j: int|
                    0 <= j < self.blocks@[c].args@.len() implies #[trigger] self.arg_wf(c, j) by {
                    assert(before.arg_wf(c, j));
                }
            }
            assert forall|c: int| 0 <= c < self.blocks@.len() && c != b implies #[trigger] effects_of(
                self.ops@,
                self.blocks@[c].ops@,
            ) == effects_of(before.ops@, before.blocks@[c].ops@) by {
                let other = self.blocks@[c].ops@;
                assert forall|m: int| 0 <= m < other.len() implies inst_of(
                    ops[(#[trigger] other[m]).0 as int],
                ) == inst_of(new_ops[other[m].0 as int]) by {
                    assert(other[m] == before.blocks@[c].ops@[m]);
                }
                lemma_effects_same(ops, new_ops, other);
            }
            assert(list[k as int] == op);
            assert forall|m: int| 0 <= m < list.len() && m != k implies inst_of(
                ops[(#[trigger] list[m]).0 as int],
            ) == inst_of(new_ops[list[m].0 as int]) by {
                assert(list[m] == before.blocks@[b].ops@[m]);
            }
            lemma_effects_update(ops, new_ops, list, k as int);
            lemma_effects_at(ops, list, k as int);
            assert(before@.effects[b] == effects_of(ops, list));
            assert(self@.effects =~= before@.effects.update(b, effects_of(new_ops, list)));
            assert(self@.args =~= before@.args);
            assert(self@.regions =~= before@.regions);
        }
    }

    /// How many operations a block holds.
    pub closed spec fn length(self, block: BlockId) -> nat {
        self.blocks@[block.0 as int].ops@.len()
    }

    /// How many operations a block holds.
    pub fn count_of(&self, block: BlockId) -> (r: usize)
        requires
            self.has_block(block),
        ensures
            r == self.length(block),
    {
        self.blocks[block.0].ops.len()
    }

    /// How many operations of a block have an effect.
    pub fn time_of(&self, block: BlockId) -> (r: usize)
        requires
            self.wf(),
            self.has_block(block),
        ensures
            r == self@.time(block),
    {
        proof {
            let list = self.blocks@[block.0 as int].ops@;
            assert(list.take(list.len() as int) =~= list);
            assert(self@.effects[block.0 as int] == effects_of(self.ops@, list));
        }
        self.time_until(block, self.blocks[block.0].ops.len())
    }

    /// How many of the first operations of a block have an effect.
    pub fn time_until(&self, block: BlockId, count: usize) -> (r: usize)
        requires
            self.wf(),
            self.has_block(block),
            count <= self.length(block),
        ensures
            r == self.time_at(block, count as int),
    {
        let ghost list = self.blocks@[block.0 as int].ops@;
        let mut time: usize = 0;
        let mut k: usize = 0;
        proof {
            assert(self.block_wf(block.0 as int));
            assert(list.take(0) =~= Seq::<OpId>::empty());
        }
        while k < count
            invariant
                k <= count <= list.len(),
                block.0 < self.blocks@.len(),
                list == self.blocks@[block.0 as int].ops@,
                self.block_wf(block.0 as int),
                time <= k,
                time == effects_of(self.ops@, list.take(k as int)).len(),
            decreases count - k,
        {
            proof {
                assert(self.entry_wf(block.0 as int, k as int));
                assert(list.take(k + 1).drop_last() =~= list.take(k as int));
                assert(list.take(k + 1).last() == list[k as int]);
            }
            let op: OpId = self.blocks[block.0].ops[k];
            if kind_acts(&self.ops[op.0].kind) {
                time = time + 1;
            }
            k = k + 1;
        }
        time
    }

    /// How many of the first operations of a block have an effect.
    pub closed spec fn time_at(self, block: BlockId, count: int) -> nat {
        effects_of(self.ops@, self.blocks@[block.0 as int].ops@.take(count)).len()
    }

    /// After how many operations of a block so many have had an effect. A number
    /// of operations is tried first.
    pub fn place_of(&self, block: BlockId, time: usize, guess: usize) -> (r: usize)
        requires
            self.wf(),
            self.has_block(block),
        ensures
            r <= self.length(block),
            if time <= self@.time(block) {
                self.time_at(block, r as int) == time
            } else {
                self.time_at(block, r as int) == self@.time(block)
            },
            guess <= self.length(block) && self.time_at(block, guess as int) == time ==> r
                == guess,
    {
        let ghost list = self.blocks@[block.0 as int].ops@;
        let total: usize = self.blocks[block.0].ops.len();
        if guess <= total && self.time_until(block, guess) == time {
            proof {
                lemma_effects_prefix(self.ops@, list, guess as int);
                assert(self@.effects[block.0 as int] == effects_of(self.ops@, list));
            }
            return guess;
        }
        let mut k: usize = 0;
        let mut now: usize = 0;
        proof {
            assert(self.block_wf(block.0 as int));
            assert(list.take(0) =~= Seq::<OpId>::empty());
        }
        while k < total && now < time
            invariant
                k <= total,
                total == list.len(),
                block.0 < self.blocks@.len(),
                list == self.blocks@[block.0 as int].ops@,
                self.block_wf(block.0 as int),
                now <= time,
                now == effects_of(self.ops@, list.take(k as int)).len(),
            decreases total - k,
        {
            proof {
                assert(self.entry_wf(block.0 as int, k as int));
                assert(list.take(k + 1).drop_last() =~= list.take(k as int));
                assert(list.take(k + 1).last() == list[k as int]);
            }
            let op: OpId = self.blocks[block.0].ops[k];
            if kind_acts(&self.ops[op.0].kind) {
                now = now + 1;
            }
            k = k + 1;
        }
        proof {
            lemma_effects_prefix(self.ops@, list, k as int);
            assert(list.take(list.len() as int) =~= list);
            assert(self@.effects[block.0 as int] == effects_of(self.ops@, list));
        }
        k
    }

    /// How many blocks and regions there are.
    pub fn totals(&self) -> (r: (usize, usize))
        ensures
            r.0 == self@.effects.len(),
            r.1 == self@.regions.len(),
    {
        (self.blocks.len(), self.regions.len())
    }

    /// How many blocks a region holds.
    pub fn region_len(&self, region: RegionId) -> (r: usize)
        requires
            region.0 < self@.regions.len(),
        ensures
            r == self@.regions[region.0 as int].len(),
    {
        self.regions[region.0].len()
    }

    /// Takes all operations out of a block but the first so many.
    pub fn cut_block(&mut self, block: BlockId, count: usize)
        requires
            old(self).wf(),
            old(self).has_block(block),
            count <= old(self).length(block),
        ensures
            count == 0 ==> old(self).time_at(block, 0) == 0,
            final(self).grew(*old(self)),
            final(self).dialects == old(self).dialects,
            final(self)@ == (World {
                effects: old(self)@.effects.update(
                    block.0 as int,
                    old(self)@.effects[block.0 as int].take(
                        old(self).time_at(block, count as int) as int,
                    ),
                ),
                ..old(self)@
            }),
            old(self).time_at(block, count as int) <= old(self)@.time(block),
            final(self).length(block) == count,
            forall|b: BlockId|
                old(self).has_block(b) && b != block ==> #[trigger] final(self).length(b)
                    == old(self).length(b),
            forall|b: BlockId, n: int|
                old(self).has_block(b) && b != block && 0 <= n <= old(self).length(b)
                    ==> #[trigger] final(self).time_at(b, n) == old(self).time_at(b, n),
    {
        let ghost before = *self;
        let ghost bi = block.0 as int;
        let ghost list = self.blocks@[bi].ops@;
        proof {
            assert(self.block_wf(bi));
            assert forall|j: int| 0 <= j < list.len() implies (#[trigger] list[j]).0
                < before.ops@.len() by {
                assert(before.entry_wf(bi, j));
            }
        }
        let mut i: usize = count;
        while i < self.blocks[block.0].ops.len()
            invariant
                count <= i <= list.len(),
                bi == block.0,
                bi < before.blocks@.len(),
                list == before.blocks@[bi].ops@,
                self.blocks == before.blocks,
                self.regions == before.regions,
                self.dialects == before.dialects,
                self.ops@.len() == before.ops@.len(),
                forall|j: int| 0 <= j < list.len() ==> (#[trigger] list[j]).0 < before.ops@.len(),
                forall|o: int|
                    0 <= o < before.ops@.len() ==> #[trigger] self.ops@[o] == (Operation {
                        taken: self.ops@[o].taken,
                        ..before.ops@[o]
                    }) && (before.ops@[o].taken ==> self.ops@[o].taken),
                forall|j: int| count <= j < i ==> self.ops@[(#[trigger] list[j]).0 as int].taken,
            decreases list.len() - i,
        {
            let op: OpId = self.blocks[block.0].ops[i];
            self.ops[op.0].taken = true;
            i = i + 1;
        }
        self.blocks[block.0].ops.truncate(count);
        proof {
            let kept = self.blocks@[bi].ops@;
            let ops = before.ops@;
            let new_ops = self.ops@;
            assert(kept =~= list.take(count as int));
            assert(self.ops.len() == ops.len());
            assert forall|o: int| 0 <= o < ops.len() implies #[trigger] inst_of(new_ops[o])
                == inst_of(ops[o]) by {
                assert(new_ops[o] == (Operation { taken: new_ops[o].taken, ..ops[o] }));
            }
            assert forall|v: Value| before.has(v) implies #[trigger] self.has(v) by {}
            assert forall|c: int, j: int|
                0 <= c < before.blocks@.len() && 0 <= j < before.blocks@[c].ops@.len() implies (
                #[trigger] before.blocks@[c].ops@[j]).0 < ops.len() by {
                assert(before.block_wf(c));
                assert(before.entry_wf(c, j));
            }
            assert forall|o: int| 0 <= o < self.ops@.len() implies #[trigger] self.op_wf(o) by {
                assert(before.op_wf(o));
                assert(new_ops[o] == (Operation { taken: new_ops[o].taken, ..ops[o] }));
                if let Some(other) = ops[o].parent {
                    if !new_ops[o].taken {
                        let c = other.0 as int;
                        let k = choose|k: int|
                            0 <= k < before.blocks@[c].ops@.len()
                                && #[trigger] before.blocks@[c].ops@[k] == OpId(o as usize);
                        if c == bi {
                            assert(list[k] == OpId(o as usize));
                            assert(k < count);
                            assert(kept[k] == list[k]);
                        }
                        assert(self.blocks@[c].ops@[k] == OpId(o as usize));
                    }
                }
            }
            assert forall|c: int| 0 <= c < self.blocks@.len() implies #[trigger] self.block_wf(c) by {
                assert(before.block_wf(c));
                assert forall|j: int|
                    0 <= j < self.blocks@[c].args@.len() implies #[trigger] self.arg_wf(c, j) by {
                    assert(before.arg_wf(c, j));
                }
                assert forall|j: int|
                    0 <= j < self.blocks@[c].ops@.len() implies #[trigger] self.entry_wf(c, j) by {
                    assert(before.entry_wf(c, j));
                    let id = before.blocks@[c].ops@[j].0 as int;
                    assert(before.op_wf(id));
                    assert(new_ops[id] == (Operation { taken: new_ops[id].taken, ..ops[id] }));
                    assert forall|m: int|
                        0 <= m <= j implies self.blocks@[c].ops@[m]
                        == #[trigger] before.blocks@[c].ops@[m] by {
                        if c == bi {
                            assert(kept[m] == list[m]);
                        }
                    }
                    self.lemma_uses(before, c, j);
                    let prefix = self.blocks@[c].ops@.take(j);
                    assert(prefix =~= before.blocks@[c].ops@.take(j));
                    assert forall|m: int| 0 <= m < prefix.len() implies inst_of(
                        ops[(#[trigger] prefix[m]).0 as int],
                    ) == inst_of(new_ops[prefix[m].0 as int]) by {
                        assert(prefix[m] == before.blocks@[c].ops@[m]);
                    }
                    lemma_effects_same(ops, new_ops, prefix);
                }
            }
            assert forall|c: int, n: int|
                0 <= c < before.blocks@.len() && 0 <= n <= before.blocks@[c].ops@.len() implies effects_of(
                new_ops,
                #[trigger] before.blocks@[c].ops@.take(n),
            ) == effects_of(ops, before.blocks@[c].ops@.take(n)) by {
                let l = before.blocks@[c].ops@.take(n);
                assert forall|m: int| 0 <= m < l.len() implies inst_of(
                    ops[(#[trigger] l[m]).0 as int],
                ) == inst_of(new_ops[l[m].0 as int]) by {
                    assert(l[m] == before.blocks@[c].ops@[m]);
                }
                lemma_effects_same(ops, new_ops, l);
            }
            assert forall|c: int| 0 <= c < self.blocks@.len() && c != bi implies #[trigger] effects_of(
                new_ops,
                self.blocks@[c].ops@,
            ) == effects_of(ops, before.blocks@[c].ops@) by {
                let l = before.blocks@[c].ops@;
                assert(l.take(l.len() as int) =~= l);
            }
            lemma_effects_prefix(ops, list, count as int);
            assert(list.take(0) =~= Seq::<OpId>::empty());
            assert(before@.effects[bi] == effects_of(ops, list));
            assert(self@ =~= (World {
                effects: before@.effects.update(
                    bi,
                    before@.effects[bi].take(before.time_at(block, count as int) as int),
                ),
                ..before@
            }));
        }
    }

    /// Takes all blocks out of a region but the first so many.
    pub fn cut_region(&mut self, region: RegionId, count: usize)
        requires
            old(self).wf(),
            region.0 < old(self)@.regions.len(),
            count <= old(self)@.regions[region.0 as int].len(),
        ensures
            final(self).grew(*old(self)),
            final(self).dialects == old(self).dialects,
            final(self)@ == (World {
                regions: old(self)@.regions.update(
                    region.0 as int,
                    old(self)@.regions[region.0 as int].take(count as int),
                ),
                ..old(self)@
            }),
    {
        let ghost before = *self;
        self.regions[region.0].truncate(count);
        proof {
            self.lemma_same_ops_and_blocks(before);
            assert(self@ =~= (World {
                regions: before@.regions.update(
                    region.0 as int,
                    before@.regions[region.0 as int].take(count as int),
                ),
                ..before@
            }));
        }
    }

    /// Gives the first function of a symbol in a block a linkage.
    pub fn set_function_linkage(&mut self, block: BlockId, name: &String, linkage: Linkage)
        requires
            old(self).wf(),
            old(self).has_block(block),
        ensures
            final(self).grew(*old(self)),
            final(self).dialects == old(self).dialects,
            final(self)@ == old(self)@.with_symbol(
                block,
                name@,
                |inst: Inst| relinked(inst, linkage),
            ),
    {
        if let Some(k) = self.find_symbol(block, name) {
            let op: OpId = self.blocks[block.0].ops[k];
            let kind: OpKind = match &self.ops[op.0].kind {
                OpKind::MirFunc { symbol, ty, .. } => OpKind::MirFunc {
                    symbol: symbol.clone(),
                    ty: ty.clone(),
                    linkage: Some(linkage),
                },
                OpKind::LlvmFunc { symbol, ty, .. } => OpKind::LlvmFunc {
                    symbol: symbol.clone(),
                    ty: ty.clone(),
                    linkage,
                },
                _ => {
                    proof {
                        self.lemma_symbol_inst(block, k as int);
                        let insts = self@.effects[block.0 as int];
                        let i = position_of(insts, name@)->0;
                        assert(insts.update(i, insts[i]) =~= insts);
                        assert(self@.effects.update(block.0 as int, insts) =~= self@.effects);
                    }
                    return;
                },
            };
            self.replace_kind(block, k, kind);
        }
    }

    /// The effect of the symbol operation at a place of a block.
    proof fn lemma_symbol_inst(&self, block: BlockId, k: int)
        requires
            self.wf(),
            self.has_block(block),
            0 <= k < self.blocks@[block.0 as int].ops@.len(),
            ({
                let id = self.blocks@[block.0 as int].ops@[k];
                kind_symbol(self.ops@[id.0 as int].kind) is Some
            }),
        ensures
            ({
                let b = block.0 as int;
                let list = self.blocks@[b].ops@;
                let n = effects_of(self.ops@, list.take(k)).len() as int;
                &&& n < self@.effects[b].len()
                &&& inst_of(self.ops@[list[k].0 as int]) == Some(self@.effects[b][n])
            }),
    {
        let b = block.0 as int;
        let list = self.blocks@[b].ops@;
        lemma_effects_at(self.ops@, list, k);
        assert(self@.effects[b] == effects_of(self.ops@, list));
    }

    /// Fills the first global of a symbol in a block.
    pub fn set_global_init(&mut self, block: BlockId, name: &String, init: GlobalInit)
        requires
            old(self).wf(),
            old(self).has_block(block),
        ensures
            final(self).grew(*old(self)),
            final(self).dialects == old(self).dialects,
            final(self)@ == old(self)@.with_symbol(
                block,
                name@,
                |inst: Inst| refilled(inst, init@),
            ),
    {
        if let Some(k) = self.find_symbol(block, name) {
            let op: OpId = self.blocks[block.0].ops[k];
            let kind: OpKind = match &self.ops[op.0].kind {
                OpKind::Global { symbol, ty, linkage, thread_local, section, .. } => OpKind::Global {
                    symbol: symbol.clone(),
                    ty: ty.clone(),
                    linkage: *linkage,
                    thread_local: *thread_local,
                    section: clone_text(section),
                    init,
                },
                _ => {
                    proof {
                        self.lemma_symbol_inst(block, k as int);
                        let insts = self@.effects[block.0 as int];
                        let i = position_of(insts, name@)->0;
                        assert(insts.update(i, insts[i]) =~= insts);
                        assert(self@.effects.update(block.0 as int, insts) =~= self@.effects);
                    }
                    return;
                },
            };
            self.replace_kind(block, k, kind);
        }
    }

    /// Takes its contents and its section from the first global of a symbol in a
    /// block.
    pub fn empty_global(&mut self, block: BlockId, name: &String)
        requires
            old(self).wf(),
            old(self).has_block(block),
        ensures
            final(self).grew(*old(self)),
            final(self).dialects == old(self).dialects,
            final(self)@ == old(self)@.with_symbol(block, name@, |inst: Inst| emptied(inst)),
    {
        if let Some(k) = self.find_symbol(block, name) {
            let op: OpId = self.blocks[block.0].ops[k];
            let kind: OpKind = match &self.ops[op.0].kind {
                OpKind::Global { symbol, ty, linkage, thread_local, .. } => OpKind::Global {
                    symbol: symbol.clone(),
                    ty: ty.clone(),
                    linkage: *linkage,
                    thread_local: *thread_local,
                    section: None,
                    init: GlobalInit::Declared,
                },
                _ => {
                    proof {
                        self.lemma_symbol_inst(block, k as int);
                        let insts = self@.effects[block.0 as int];
                        let i = position_of(insts, name@)->0;
                        assert(insts.update(i, insts[i]) =~= insts);
                        assert(self@.effects.update(block.0 as int, insts) =~= self@.effects);
                    }
                    return;
                },
            };
            self.replace_kind(block, k, kind);
        }
    }

    /// Puts the first global of a symbol in a block into a section.
    pub fn set_global_section_by_symbol(&mut self, block: BlockId, name: &String, place: String)
        requires
            old(self).wf(),
            old(self).has_block(block),
        ensures
            final(self).grew(*old(self)),
            final(self).dialects == old(self).dialects,
            final(self)@ == old(self)@.with_symbol(
                block,
                name@,
                |inst: Inst| resectioned(inst, place@),
            ),
    {
        if let Some(k) = self.find_symbol(block, name) {
            let op: OpId = self.blocks[block.0].ops[k];
            let kind: OpKind = match &self.ops[op.0].kind {
                OpKind::Global { symbol, ty, linkage, thread_local, init, .. } => OpKind::Global {
                    symbol: symbol.clone(),
                    ty: ty.clone(),
                    linkage: *linkage,
                    thread_local: *thread_local,
                    section: Some(place),
                    init: clone_init(init),
                },
                _ => {
                    proof {
                        self.lemma_symbol_inst(block, k as int);
                        let insts = self@.effects[block.0 as int];
                        let i = position_of(insts, name@)->0;
                        assert(insts.update(i, insts[i]) =~= insts);
                        assert(self@.effects.update(block.0 as int, insts) =~= self@.effects);
                    }
                    return;
                },
            };
            self.replace_kind(block, k, kind);
        }
    }
}

fn clone_text(s: &Option<String>) -> (r: Option<String>)
    ensures
        text(r) == text(*s),
{
    match s {
        Some(s) => Some(s.clone()),
        None => None,
    }
}

/// A copy of bytes.
pub fn clone_bytes(bytes: &Vec<u8>) -> (r: Vec<u8>)
    ensures
        r@ == bytes@,
{
    let mut out: Vec<u8> = Vec::new();
    let mut i: usize = 0;
    while i < bytes.len()
        invariant
            i <= bytes@.len(),
            out@ == bytes@.take(i as int),
        decreases bytes@.len() - i,
    {
        out.push(bytes[i]);
        i = i + 1;
        assert(bytes@.take(i as int) =~= bytes@.take(i - 1).push(bytes@[i - 1]));
    }
    assert(bytes@.take(i as int) =~= bytes@);
    out
}

fn clone_relocs(relocs: &Vec<DataReloc>) -> (r: Vec<DataReloc>)
    ensures
        relocs_view(r@) == relocs_view(relocs@),
{
    let mut out: Vec<DataReloc> = Vec::new();
    let mut i: usize = 0;
    while i < relocs.len()
        invariant
            i <= relocs@.len(),
            relocs_view(out@) == relocs_view(relocs@.take(i as int)),
        decreases relocs@.len() - i,
    {
        let reloc: &DataReloc = &relocs[i];
        let copy: DataReloc = DataReloc {
            offset: reloc.offset,
            symbol: reloc.symbol.clone(),
            addend: reloc.addend,
        };
        let ghost before = out@;
        out.push(copy);
        i = i + 1;
        proof {
            assert(relocs_view(before.push(copy)) =~= relocs_view(before).push(
                RelocView { offset: copy.offset, symbol: copy.symbol@, addend: copy.addend },
            ));
            assert(relocs@.take(i as int) =~= relocs@.take(i - 1).push(relocs@[i - 1]));
            assert(relocs_view(relocs@.take(i as int)) =~= relocs_view(relocs@.take(i - 1)).push(
                RelocView { offset: reloc.offset, symbol: reloc.symbol@, addend: reloc.addend },
            ));
        }
    }
    assert(relocs@.take(i as int) =~= relocs@);
    out
}

fn clone_init(init: &GlobalInit) -> (r: GlobalInit)
    ensures
        r@ == init@,
{
    match init {
        GlobalInit::Declared => GlobalInit::Declared,
        GlobalInit::Bytes(bytes) => GlobalInit::Bytes(clone_bytes(bytes)),
        GlobalInit::Data { bytes, align, mutable, relocs } => GlobalInit::Data {
            bytes: clone_bytes(bytes),
            align: *align,
            mutable: *mutable,
            relocs: clone_relocs(relocs),
        },
    }
}

} // verus!
