//! What the body of a function needs of the module that it stands in.
//!
//! Importing a body decides which symbols it refers to. The symbols are
//! provided after it, in the order in which it asked, also where it fails: then
//! it asked for what comes before the failure.

use crate::error::Failure;
use crate::ir::{BlockId, Context, Meaning, Value};
use crate::meaning;
use crate::meaning::{put_call, Step};
use crate::mir::{Alloc, Instance, InstanceKind, Memory, Program};
use crate::names;
use crate::names::legal_identifier;
use crate::sem::Moment;
use crate::text;
use crate::text::{hex_suffix, join};
use crate::ty::TyId;
use crate::types::TypeHandle;
use vstd::prelude::*;

verus! {

/// Why a function is needed.
#[derive(Clone, Copy, PartialEq, Eq, Debug, Structural)]
pub enum Purpose {
    Call,
    /// Its address is taken.
    Address,
    /// Its address stands in memory.
    Data,
    /// It drops values of a type.
    Drop(TyId),
}

/// Something that must stand in the module.
pub enum Need {
    /// Bytes without a name.
    Bytes(Vec<u8>),
    Static(usize),
    ThreadLocal(usize),
    /// What lies at an address.
    Alloc(usize),
    /// A function with a body.
    Function(usize, Purpose),
    /// A function that forwards to one without a body.
    Thunk(usize),
    /// A function of another object.
    Declare { symbol: String, inputs: Vec<TypeHandle>, result: Option<TypeHandle> },
}

/// Something that must stand in the module.
#[allow(inconsistent_fields)]
pub enum Demand {
    Bytes(Seq<u8>),
    Static(usize),
    ThreadLocal(usize),
    Alloc(usize),
    Function(usize, Purpose),
    Thunk(usize),
    Declare { symbol: Seq<char>, inputs: Seq<TypeHandle>, result: Option<TypeHandle> },
}

impl View for Need {
    type V = Demand;

    open spec fn view(&self) -> Demand {
        match *self {
            Need::Bytes(bytes) => Demand::Bytes(bytes@),
            Need::Static(index) => Demand::Static(index),
            Need::ThreadLocal(index) => Demand::ThreadLocal(index),
            Need::Alloc(index) => Demand::Alloc(index),
            Need::Function(index, purpose) => Demand::Function(index, purpose),
            Need::Thunk(index) => Demand::Thunk(index),
            Need::Declare { symbol, inputs, result } => Demand::Declare {
                symbol: symbol@,
                inputs: inputs@,
                result,
            },
        }
    }
}

/// Something that was asked for, and when: at which moment of a block.
pub struct Asked {
    pub what: Demand,
    pub at: Moment,
}

/// What was asked for, whenever that was.
pub open spec fn demands(asked: Seq<Asked>) -> Seq<Demand> {
    asked.map_values(|a: Asked| a.what)
}

/// One thing that was asked for.
pub open spec fn asking(at: Moment, what: Demand) -> Seq<Asked> {
    seq![Asked { what, at }]
}

/// Where in a body something was asked for: in which block, and after how many
/// operations, of which so many have an effect.
pub struct Mark {
    pub block: BlockId,
    pub ops: usize,
    pub time: usize,
}

/// Something that was asked for, and where.
pub struct Ask {
    pub need: Need,
    pub mark: Mark,
}

impl View for Ask {
    type V = Asked;

    open spec fn view(&self) -> Asked {
        Asked {
            what: self.need@,
            at: Moment { block: self.mark.block.0 as int, time: self.mark.time as nat },
        }
    }
}

/// What has been asked for, in order.
pub struct Needs {
    pub list: Vec<Ask>,
}

impl View for Needs {
    type V = Seq<Asked>;

    open spec fn view(&self) -> Seq<Asked> {
        self.list@.map_values(|ask: Ask| ask@)
    }
}

impl Needs {
    /// Nothing yet.
    pub fn new() -> (r: Needs)
        ensures
            r@ == Seq::<Asked>::empty(),
    {
        let r = Needs { list: Vec::new() };
        assert(r@ =~= Seq::<Asked>::empty());
        r
    }

    /// Asks for something in a block of a body.
    pub fn ask(&mut self, ctx: &Context, block: BlockId, need: Need)
        requires
            ctx.wf(),
            ctx.has_block(block),
        ensures
            final(self)@ == old(self)@ + asking(ctx@.now(block), need@),
    {
        let mark: Mark = Mark { block, ops: ctx.count_of(block), time: ctx.time_of(block) };
        self.list.push(Ask { need, mark });
        assert(self@ =~= old(self)@ + asking(ctx@.now(block), need@));
    }

    /// Asks for something outside any body, where no place matters.
    pub fn ask_for(&mut self, need: Need)
        ensures
            demands(final(self)@) == demands(old(self)@).push(need@),
    {
        let mark: Mark = Mark { block: BlockId(0), ops: 0, time: 0 };
        self.list.push(Ask { need, mark });
        assert(demands(self@) =~= demands(old(self)@).push(need@));
    }
}

/// What a construct amounts to: its value, what it needs of the module, and
/// what it does.
#[verifier::ext_equal]
pub struct Lowered {
    pub value: Meaning,
    pub needs: Seq<Asked>,
    pub steps: Seq<Step>,
}

/// Why a construct fails, what it asked for before it did, and, of a block, the
/// steps of the statements before the one that fails or before its end.
#[verifier::ext_equal]
pub struct Lost {
    pub why: Failure,
    pub needs: Seq<Asked>,
    pub steps: Seq<Step>,
}

impl Failure {
    /// A failure before anything was asked for.
    pub open spec fn at_once(self) -> Lost {
        Lost { why: self, needs: Seq::empty(), steps: Seq::empty() }
    }

    /// A failure after something was asked for.
    pub open spec fn after(self, needs: Seq<Asked>) -> Lost {
        Lost { why: self, needs, steps: Seq::empty() }
    }
}

impl Lost {
    /// The same failure after something else was asked for.
    pub open spec fn after(self, needs: Seq<Asked>) -> Lost {
        Lost { why: self.why, needs: needs + self.needs, steps: self.steps }
    }

    /// The same failure in a block in which something else took place first.
    pub open spec fn past(self, effect: Effect) -> Lost {
        Lost {
            why: self.why,
            needs: effect.needs + self.needs,
            steps: effect.steps,
        }
    }
}

/// A construct that asks for nothing where it fails.
pub open spec fn unasked(lowered: Result<Lowered, Failure>) -> Result<Lowered, Lost> {
    match lowered {
        Ok(lowered) => Ok(lowered),
        Err(failure) => Err(failure.at_once()),
    }
}

/// A value that is only computed.
pub open spec fn plain(value: Meaning) -> Lowered {
    Lowered { value, needs: Seq::empty(), steps: Seq::empty() }
}

/// A value that is only computed, where there is one.
pub open spec fn only(value: Result<Meaning, Failure>) -> Result<Lowered, Failure> {
    match value {
        Ok(value) => Ok(plain(value)),
        Err(failure) => Err(failure),
    }
}

/// Whether steps begin with others.
pub open spec fn begins(all: Seq<Step>, first: Seq<Step>) -> bool {
    &&& first.len() <= all.len()
    &&& forall|i: int| 0 <= i < first.len() ==> #[trigger] all[i] == first[i]
}

impl Context {
    /// Whether nothing happened since an earlier state but that a block may
    /// have grown.
    pub open spec fn touched_since(self, old: Context, block: BlockId) -> bool {
        &&& self.grew(old)
        &&& self.dialects == old.dialects
        &&& self@.args == old@.args
        &&& self@.labels == old@.labels
        &&& self@.regions == old@.regions
        &&& self@.effects.len() == old@.effects.len()
        &&& begins(self.steps(block), old.steps(block))
        &&& forall|b: int|
            0 <= b < old@.effects.len() && b != block.0 ==> #[trigger] self@.effects[b]
                == old@.effects[b]
    }
}

/// Whether a construct came out as it should: with the value, the needs and
/// the steps that it should have, or with the failure that it should be, and
/// then nothing was asked for.
pub open spec fn lowers(
    new: (Context, Seq<Asked>),
    old: (Context, Seq<Asked>),
    block: BlockId,
    r: Result<Value, Failure>,
    want: Result<Lowered, Failure>,
) -> bool {
    match want {
        Ok(lowered) => {
            &&& r matches Ok(v) && new.0.has(v) && v.meaning@ == lowered.value
            &&& new.0.ran_since(old.0, block, lowered.steps)
            &&& new.1 == old.1 + lowered.needs
        },
        Err(failure) => {
            &&& r matches Err(other) && other == failure
            &&& new.0.computed_since(old.0, block)
            &&& new.1 == old.1
        },
    }
}

/// Whether a construct came out as it should; where it fails, it may have left
/// steps behind.
pub open spec fn lowers_past(
    new: (Context, Seq<Asked>),
    old: (Context, Seq<Asked>),
    block: BlockId,
    r: Result<Value, Failure>,
    want: Result<Lowered, Lost>,
) -> bool {
    match want {
        Ok(lowered) => {
            &&& r matches Ok(v) && new.0.has(v) && v.meaning@ == lowered.value
            &&& new.0.ran_since(old.0, block, lowered.steps)
            &&& new.1 == old.1 + lowered.needs
        },
        Err(lost) => {
            &&& r matches Err(other) && other == lost.why
            &&& new.0.touched_since(old.0, block)
            &&& new.1 =~= old.1 + lost.needs
        },
    }
}

/// What a construct without a value amounts to.
#[verifier::ext_equal]
pub struct Effect {
    pub needs: Seq<Asked>,
    pub steps: Seq<Step>,
}

/// Whether a construct without a value came out as it should.
pub open spec fn does(
    new: (Context, Seq<Asked>),
    old: (Context, Seq<Asked>),
    block: BlockId,
    r: Result<(), Failure>,
    want: Result<Effect, Lost>,
) -> bool {
    match want {
        Ok(effect) => {
            &&& r is Ok
            &&& new.0.ran_since(old.0, block, effect.steps)
            &&& new.1 == old.1 + effect.needs
        },
        Err(lost) => {
            &&& r matches Err(other) && other == lost.why
            &&& new.0.computed_since(old.0, block)
            &&& new.1 =~= old.1 + lost.needs
        },
    }
}

/// Whether a construct without a value came out as it should; where it fails, it
/// may have left steps behind.
pub open spec fn does_past(
    new: (Context, Seq<Asked>),
    old: (Context, Seq<Asked>),
    block: BlockId,
    r: Result<(), Failure>,
    want: Result<Effect, Lost>,
) -> bool {
    match want {
        Ok(effect) => {
            &&& r is Ok
            &&& new.0.ran_since(old.0, block, effect.steps)
            &&& new.1 == old.1 + effect.needs
        },
        Err(lost) => {
            &&& r matches Err(other) && other == lost.why
            &&& new.0.touched_since(old.0, block)
            &&& new.1 =~= old.1 + lost.needs
        },
    }
}

/// Whether the end of a block came out as it should.
pub open spec fn leaves(
    new: (Context, Seq<Asked>),
    old: (Context, Seq<Asked>),
    block: BlockId,
    r: Result<(), Failure>,
    want: Result<Effect, Lost>,
) -> bool {
    match want {
        Ok(effect) => {
            &&& r is Ok
            &&& new.0.left_since(old.0, block, effect.steps)
            &&& new.1 == old.1 + effect.needs
        },
        Err(lost) => {
            &&& r matches Err(other) && other == lost.why
            &&& new.0.touched_since(old.0, block)
            &&& new.1 =~= old.1 + lost.needs
        },
    }
}

/// One effect after another.
pub open spec fn joined(first: Effect, second: Effect) -> Effect {
    Effect { needs: first.needs + second.needs, steps: first.steps + second.steps }
}

/// Whether an effect took place.
pub open spec fn took(
    new: (Context, Seq<Asked>),
    old: (Context, Seq<Asked>),
    block: BlockId,
    effect: Effect,
) -> bool {
    &&& new.0.ran_since(old.0, block, effect.steps)
    &&& new.1 == old.1 + effect.needs
}

/// Effects follow each other.
pub proof fn lemma_joined(
    new: (Context, Seq<Asked>),
    middle: (Context, Seq<Asked>),
    old: (Context, Seq<Asked>),
    block: BlockId,
    first: Effect,
    second: Effect,
)
    requires
        took(middle, old, block, first),
        took(new, middle, block, second),
        old.0.has_block(block),
    ensures
        took(new, old, block, joined(first, second)),
        new.0@.now(block) == meaning::later(
            old.0@.now(block),
            first.steps.len() + second.steps.len(),
        ),
{
    new.0.lemma_ran(middle.0, old.0, block, first.steps, second.steps);
    assert(old.1 + first.needs + second.needs =~= old.1 + (first.needs + second.needs));
}

/// A call of a function of another object.
pub open spec fn outside(
    at: Moment,
    callee: Seq<char>,
    inputs: Seq<TypeHandle>,
    args: Seq<Meaning>,
    result: Option<TypeHandle>,
) -> Effect {
    Effect {
        needs: asking(at, Demand::Declare { symbol: callee, inputs, result }),
        steps: seq![meaning::call_step(callee, args, result)],
    }
}

/// Calls a function of another object.
pub fn call_outside(
    ctx: &mut Context,
    block: BlockId,
    needs: &mut Needs,
    callee: &str,
    inputs: Vec<TypeHandle>,
    args: Vec<Value>,
    result: Option<TypeHandle>,
) -> (r: Option<Value>)
    requires
        old(ctx).wf(),
        old(ctx).has_block(block),
        forall|k: int| 0 <= k < args@.len() ==> old(ctx).has(#[trigger] args@[k]),
    ensures
        ({
            let effect = outside(
                old(ctx)@.now(block),
                callee@,
                inputs@,
                meaning::meanings(args@),
                result,
            );
            &&& final(ctx).ran_since(*old(ctx), block, effect.steps)
            &&& final(needs)@ == old(needs)@ + effect.needs
        }),
        r matches Some(v) ==> final(ctx).has(v),
        meaning::meaning_of(r) == meaning::reply_of(old(ctx)@.now(block), result),
{
    let copy: Option<TypeHandle> = match &result {
        Some(ty) => Some(ty.clone()),
        None => None,
    };
    needs.ask(
        ctx,
        block,
        Need::Declare { symbol: callee.to_owned(), inputs, result: copy },
    );
    put_call(ctx, block, callee.to_owned(), args, result)
}

/// A computed value and the one symbol that it needs.
pub open spec fn needing(at: Moment, value: Meaning, need: Demand) -> Lowered {
    Lowered { value, needs: asking(at, need), steps: Seq::empty() }
}

/// Whether a computed value came out as it should, and asked for what it
/// should; nothing is asked for where it fails.
pub open spec fn supplies(
    ctx: Context,
    new: Seq<Asked>,
    old: Seq<Asked>,
    r: Result<Value, Failure>,
    want: Result<Lowered, Failure>,
) -> bool {
    match want {
        Ok(lowered) => {
            &&& r matches Ok(v) && ctx.has(v) && v.meaning@ == lowered.value
            &&& new == old + lowered.needs
        },
        Err(failure) => {
            &&& r matches Err(other) && other == failure
            &&& new == old
        },
    }
}

/// The same for a value that there may not be.
pub open spec fn supplies_if(
    ctx: Context,
    new: Seq<Asked>,
    old: Seq<Asked>,
    r: Result<Option<Value>, Failure>,
    want: Result<Option<Lowered>, Failure>,
) -> bool {
    match want {
        Ok(Some(lowered)) => {
            &&& r matches Ok(Some(v)) && ctx.has(v) && v.meaning@ == lowered.value
            &&& new == old + lowered.needs
        },
        Ok(None) => {
            &&& r matches Ok(None)
            &&& new == old
        },
        Err(failure) => {
            &&& r matches Err(other) && other == failure
            &&& new == old
        },
    }
}

/// The bytes at an address, where it is plain memory.
pub open spec fn memory_at(program: Program, alloc: usize) -> Option<Memory> {
    if alloc < program.allocs@.len() {
        match program.allocs@[alloc as int] {
            Alloc::Memory(memory) => Some(memory),
            _ => None,
        }
    } else {
        None
    }
}

/// The bytes at an address, where it is plain memory.
pub fn memory_of(program: &Program, alloc: usize) -> (r: Option<&Memory>)
    ensures
        match r {
            Some(memory) => memory_at(*program, alloc) == Some(*memory),
            None => memory_at(*program, alloc) is None,
        },
{
    if alloc < program.allocs.len() {
        match &program.allocs[alloc] {
            Alloc::Memory(memory) => Some(memory),
            _ => None,
        }
    } else {
        None
    }
}

/// Whether the bytes in a range are initialized.
pub open spec fn all_init(memory: Memory, offset: int, len: int) -> bool {
    &&& offset + len <= memory.bytes@.len()
    &&& offset + len <= memory.init@.len()
    &&& forall|i: int| offset <= i < offset + len ==> #[trigger] memory.init@[i]
}

/// Bytes of an allocation, where all are initialized.
pub open spec fn bytes_at(program: Program, alloc: usize, offset: u64, len: u64) -> Option<
    Seq<u8>,
> {
    match memory_at(program, alloc) {
        Some(memory) => if all_init(memory, offset as int, len as int) {
            Some(memory.bytes@.subrange(offset as int, offset + len))
        } else {
            None
        },
        None => None,
    }
}

/// A copy of bytes from a position on.
pub fn copy_range(bytes: &Vec<u8>, from: usize, to: usize) -> (r: Vec<u8>)
    requires
        from <= to <= bytes@.len(),
    ensures
        r@ == bytes@.subrange(from as int, to as int),
{
    let mut r: Vec<u8> = Vec::new();
    let mut i: usize = from;
    while i < to
        invariant
            from <= i <= to <= bytes@.len(),
            r@ == bytes@.subrange(from as int, i as int),
        decreases to - i,
    {
        r.push(bytes[i]);
        assert(r@ =~= bytes@.subrange(from as int, i + 1));
        i = i + 1;
    }
    r
}

/// Bytes of an allocation, where all are initialized.
pub fn allocation_bytes(program: &Program, alloc: usize, offset: u64, len: u64) -> (r: Option<
    Vec<u8>,
>)
    ensures
        match r {
            Some(bytes) => bytes_at(*program, alloc, offset, len) == Some(bytes@),
            None => bytes_at(*program, alloc, offset, len) is None,
        },
{
    let memory: &Memory = match memory_of(program, alloc) {
        Some(memory) => memory,
        None => return None,
    };
    let total: usize = if memory.bytes.len() < memory.init.len() {
        memory.bytes.len()
    } else {
        memory.init.len()
    };
    if offset > total as u64 || len > total as u64 - offset {
        return None;
    }
    let from: usize = offset as usize;
    let to: usize = (offset + len) as usize;
    let mut i: usize = from;
    while i < to
        invariant
            from <= i <= to <= memory.init@.len(),
            from == offset,
            to == offset + len,
            memory_at(*program, alloc) == Some(*memory),
            forall|j: int| from <= j < i ==> #[trigger] memory.init@[j],
        decreases to - i,
    {
        if !memory.init[i] {
            assert(!memory.init@[i as int]);
            return None;
        }
        i = i + 1;
    }
    Some(copy_range(&memory.bytes, from, to))
}

/// The symbol of bytes without a name.
pub open spec fn byte_symbol(bytes: Seq<u8>) -> Seq<char> {
    names::legal_name(
        "L_crabbit_bytes_"@ + if bytes.len() == 0 {
            "empty"@
        } else {
            text::hex_of(bytes)
        },
    )
}

/// The symbol of bytes without a name.
pub fn byte_global_symbol(bytes: &Vec<u8>) -> (r: String)
    ensures
        r@ == byte_symbol(bytes@),
{
    let name: String = if bytes.len() == 0 {
        join("L_crabbit_bytes_", "empty")
    } else {
        let suffix: String = hex_suffix(bytes);
        join("L_crabbit_bytes_", suffix.as_str())
    };
    legal_identifier(name.as_str())
}

/// The symbol of an allocation.
pub open spec fn memory_symbol(memory: Memory) -> Seq<char> {
    names::legal_name("__crabbit_"@ + memory.name@)
}

/// The symbol of an allocation.
pub fn memory_symbol_of(memory: &Memory) -> (r: String)
    ensures
        r@ == memory_symbol(*memory),
{
    let name: String = join("__crabbit_", memory.name.as_str());
    legal_identifier(name.as_str())
}

/// The symbol of a static.
pub open spec fn static_symbol(program: Program, index: usize) -> Result<Seq<char>, Failure> {
    if index < program.statics@.len() {
        Ok(names::legal_name(program.statics@[index as int].mangled@))
    } else {
        Err(Failure::Malformed)
    }
}

/// The symbol of a static.
pub fn static_symbol_of(program: &Program, index: usize) -> (r: Result<String, Failure>)
    ensures
        match static_symbol(*program, index) {
            Ok(symbol) => r matches Ok(s) && s@ == symbol,
            Err(failure) => r matches Err(other) && other == failure,
        },
{
    if index < program.statics.len() {
        Ok(legal_identifier(program.statics[index].mangled.as_str()))
    } else {
        Err(Failure::Malformed)
    }
}

/// The symbol of a function.
pub open spec fn instance_symbol(instance: Instance) -> Seq<char> {
    names::legal_name(instance.mangled@)
}

/// The symbol of a function.
pub fn instance_symbol_of(instance: &Instance) -> (r: String)
    ensures
        r@ == instance_symbol(*instance),
{
    legal_identifier(instance.mangled.as_str())
}

/// The symbol of the function that forwards to another.
pub open spec fn thunk_symbol(instance: Instance) -> Seq<char> {
    names::legal_name(instance_symbol(instance) + "__crabbit_fnptr_thunk"@)
}

/// The symbol of the function that forwards to another.
pub fn thunk_symbol_of(instance: &Instance) -> (r: String)
    ensures
        r@ == thunk_symbol(*instance),
        r@.len() > instance_symbol(*instance).len(),
{
    proof {
        reveal_strlit("__crabbit_fnptr_thunk");
    }
    let symbol: String = instance_symbol_of(instance);
    let name: String = join(symbol.as_str(), "__crabbit_fnptr_thunk");
    legal_identifier(name.as_str())
}

/// Whether the body of an instance is imported: that of an item that has one
/// or is a constructor, and those that are made up for the purpose.
pub open spec fn is_importable(kind: InstanceKind) -> bool {
    match kind {
        InstanceKind::Item { has_body, is_ctor } => has_body || is_ctor,
        InstanceKind::DropGlue(any) => any,
        InstanceKind::ClosureOnceShim => true,
        InstanceKind::CloneShim => true,
        InstanceKind::FnPtrShim => true,
        InstanceKind::VTableShim => true,
        InstanceKind::ReifyShim => true,
        _ => false,
    }
}

/// Whether the body of an instance is imported.
pub fn should_import_instance(instance: &Instance) -> (r: bool)
    ensures
        r == is_importable(instance.kind),
{
    match instance.kind {
        InstanceKind::Item { has_body, is_ctor } => has_body || is_ctor,
        InstanceKind::DropGlue(any) => any,
        InstanceKind::ClosureOnceShim
        | InstanceKind::CloneShim
        | InstanceKind::FnPtrShim
        | InstanceKind::VTableShim
        | InstanceKind::ReifyShim => true,
        _ => false,
    }
}

/// The symbol whose address a function's address is.
pub open spec fn pointer_symbol(program: Program, index: usize) -> Result<Seq<char>, Failure> {
    if index < program.instances@.len() {
        let instance = program.instances@[index as int];
        Ok(
            if is_importable(instance.kind) {
                instance_symbol(instance)
            } else {
                thunk_symbol(instance)
            },
        )
    } else {
        Err(Failure::Malformed)
    }
}

/// The symbol whose address a function's address is.
pub fn pointer_symbol_of(program: &Program, index: usize) -> (r: Result<String, Failure>)
    ensures
        match pointer_symbol(*program, index) {
            Ok(symbol) => r matches Ok(s) && s@ == symbol,
            Err(failure) => r matches Err(other) && other == failure,
        },
{
    if index >= program.instances.len() {
        return Err(Failure::Malformed);
    }
    let instance: &Instance = &program.instances[index];
    if should_import_instance(instance) {
        Ok(instance_symbol_of(instance))
    } else {
        Ok(thunk_symbol_of(instance))
    }
}

/// The symbol at which an allocation lies.
pub open spec fn alloc_symbol(program: Program, alloc: usize) -> Result<Seq<char>, Failure> {
    if alloc < program.allocs@.len() {
        match program.allocs@[alloc as int] {
            Alloc::Memory(memory) => Ok(memory_symbol(memory)),
            Alloc::Static(index) => static_symbol(program, index),
            Alloc::Function(index) => pointer_symbol(program, index),
            Alloc::VTable(table, ty) => match memory_at(program, table) {
                Some(memory) => Ok(memory_symbol(memory)),
                None => Err(Failure::TableMemory(ty)),
            },
            Alloc::TypeId(ty) => Err(Failure::TypeIdAddress(ty)),
        }
    } else {
        Err(Failure::Malformed)
    }
}

/// The symbol at which an allocation lies.
pub fn alloc_symbol_of(program: &Program, alloc: usize) -> (r: Result<String, Failure>)
    ensures
        match alloc_symbol(*program, alloc) {
            Ok(symbol) => r matches Ok(s) && s@ == symbol,
            Err(failure) => r matches Err(other) && other == failure,
        },
{
    if alloc >= program.allocs.len() {
        return Err(Failure::Malformed);
    }
    match &program.allocs[alloc] {
        Alloc::Memory(memory) => Ok(memory_symbol_of(memory)),
        Alloc::Static(index) => static_symbol_of(program, *index),
        Alloc::Function(index) => pointer_symbol_of(program, *index),
        Alloc::VTable(table, ty) => match memory_of(program, *table) {
            Some(memory) => Ok(memory_symbol_of(memory)),
            None => Err(Failure::TableMemory(*ty)),
        },
        Alloc::TypeId(ty) => Err(Failure::TypeIdAddress(*ty)),
    }
}

} // verus!
