//! What came of providing symbols, and why.
//!
//! A trace is the tree of what was asked for, in order: each node says what
//! was to be provided, which symbols and how many blocks there were before and
//! after, and whether it failed. The rules say which failure comes of what.

use crate::error::Failure;
use crate::function;
use crate::globals;
use crate::ir;
use crate::ir::{BlockId, Inst, Linkage, World};
use crate::mir::{Alloc, Memory, Program};
use crate::module;
use crate::module::Origin;
use crate::need;
use crate::need::{Demand, Purpose};
use crate::thunk;
use vstd::prelude::*;

verus! {

/// What a symbol of a module is called, and whether it is only declared.
#[verifier::ext_equal]
pub struct Name {
    pub symbol: Option<Seq<char>>,
    pub declared: bool,
}

/// What decides whether a symbol can be provided: the symbols that are there,
/// and the number of blocks.
#[verifier::ext_equal]
pub struct State {
    pub names: Seq<Name>,
    pub blocks: nat,
}

/// What is to be provided.
pub enum Work {
    Need(Demand),
    Memory(Memory),
    Import(Origin, Seq<char>),
}

/// What came of providing something.
#[verifier::ext_equal]
pub struct Trace {
    pub work: Work,
    pub before: State,
    pub after: State,
    pub r: Result<(), Failure>,
    /// What came of what it needs itself.
    pub parts: Seq<Trace>,
}

/// The name of a symbol.
pub open spec fn name_of(inst: Inst) -> Name {
    Name { symbol: ir::symbol_of(inst), declared: inst is LlvmFunc }
}

/// The names of symbols.
pub open spec fn names_of(insts: Seq<Inst>) -> Seq<Name> {
    insts.map_values(|inst: Inst| name_of(inst))
}

/// The state of a module.
pub open spec fn state_of(world: World, module: BlockId) -> State {
    State { names: names_of(module::symbols(world, module)), blocks: world.effects.len() }
}

/// Whether a symbol is among names.
pub open spec fn is_there(names: Seq<Name>, symbol: Seq<char>) -> bool {
    exists|i: int| 0 <= i < names.len() && (#[trigger] names[i]).symbol == Some(symbol)
}

/// Whether a function is declared among names.
pub open spec fn is_declared(names: Seq<Name>, symbol: Seq<char>) -> bool {
    exists|i: int|
        0 <= i < names.len() && (#[trigger] names[i]).declared && names[i].symbol == Some(symbol)
}

impl State {
    /// The state with one more symbol that is defined.
    pub open spec fn with(self, symbol: Seq<char>) -> State {
        State {
            names: self.names.push(Name { symbol: Some(symbol), declared: false }),
            blocks: self.blocks,
        }
    }

    /// The state with a function declared, once.
    pub open spec fn declaring(self, symbol: Seq<char>) -> State {
        if is_declared(self.names, symbol) {
            self
        } else {
            State {
                names: self.names.push(Name { symbol: Some(symbol), declared: true }),
                blocks: self.blocks,
            }
        }
    }
}

impl Trace {
    /// Whether nothing changed, and this came of it.
    pub open spec fn stayed(self, r: Result<(), Failure>) -> bool {
        &&& self.parts == Seq::<Trace>::empty()
        &&& self.after == self.before
        &&& self.r == r
    }

    /// The state before what is needed was provided.
    pub open spec fn start(self) -> State {
        if self.parts.len() > 0 {
            self.parts[0].before
        } else {
            self.after
        }
    }
}

/// What came of providing all that is needed: the first failure, if any.
pub open spec fn outcome(parts: Seq<Trace>) -> Result<(), Failure> {
    if parts.len() == 0 {
        Ok(())
    } else {
        parts.last().r
    }
}

/// Whether needs were provided one after another, from one state to another,
/// up to the first that failed.
pub open spec fn serves(parts: Seq<Trace>, needs: Seq<Demand>, start: State, end: State) -> bool {
    &&& parts.len() <= needs.len()
    &&& outcome(parts) is Ok ==> parts.len() == needs.len()
    &&& forall|i: int|
        0 <= i < parts.len() ==> (#[trigger] parts[i]).work == Work::Need(needs[i])
    &&& forall|i: int| 0 <= i < parts.len() - 1 ==> (#[trigger] parts[i]).r is Ok
    &&& if parts.len() == 0 {
        end == start
    } else {
        parts[0].before == start && parts.last().after == end
    }
    &&& forall|i: int, j: int|
        #![trigger parts[i], parts[j]]
        0 <= i < parts.len() && j == i + 1 && j < parts.len() ==> parts[j].before
            == parts[i].after
}

/// Whether a global came of what it should: nothing where it is there already,
/// and else the global and then what it points to, up to what has no
/// counterpart. The first failure of that is reported, and where there is none
/// that of the global.
pub open spec fn global_rule(
    t: Trace,
    symbol: Seq<char>,
    made: Result<Inst, Failure>,
    targets: Seq<Demand>,
) -> bool {
    if is_there(t.before.names, symbol) {
        t.stayed(Ok(()))
    } else {
        &&& serves(t.parts, targets, t.before.with(symbol), t.after)
        &&& t.r == combined(outcome(t.parts), made)
    }
}

/// What comes of a symbol whose needs come to something: their failure, or its
/// own.
pub open spec fn combined<T>(nested: Result<(), Failure>, made: Result<T, Failure>) -> Result<
    (),
    Failure,
> {
    match (nested, made) {
        (Err(failure), _) => Err(failure),
        (_, Err(failure)) => Err(failure),
        _ => Ok(()),
    }
}

/// Whether memory came out as it should.
pub open spec fn memory_rule(program: Program, t: Trace, memory: Memory) -> bool {
    global_rule(
        t,
        need::memory_symbol(memory),
        globals::data_global(
            program,
            need::memory_symbol(memory),
            memory,
            Linkage::Internal,
            false,
            None,
        ),
        globals::targets(program, memory, memory.pointers@.len()),
    )
}

/// Whether a static came out as it should.
pub open spec fn static_rule(program: Program, t: Trace, index: usize, thread_local: bool) -> bool {
    match need::static_symbol(program, index) {
        Err(failure) => t.stayed(Err(failure)),
        Ok(symbol) => global_rule(
            t,
            symbol,
            globals::static_global(
                program,
                symbol,
                program.statics@[index as int],
                thread_local,
            ),
            globals::static_targets(program, program.statics@[index as int]),
        ),
    }
}

/// Whether a function that forwards to an instance came out as it should.
pub open spec fn thunk_rule(program: Program, t: Trace, index: usize) -> bool {
    let instance = program.instances@[index as int];
    if index >= program.instances@.len() {
        t.stayed(Err(Failure::Malformed))
    } else if is_there(t.before.names, need::thunk_symbol(instance)) {
        t.stayed(Ok(()))
    } else {
        match thunk::passed_signature(program.types, instance.signature) {
            Err(failure) => t.stayed(Err(failure)),
            Ok(_) => {
                let declared = t.before.declaring(need::instance_symbol(instance));
                &&& t.r is Ok
                &&& t.parts == Seq::<Trace>::empty()
                &&& t.after.names == declared.with(need::thunk_symbol(instance)).names
                &&& t.after.blocks == t.before.blocks + 1
            },
        }
    }
}

/// The failure of what an instance was needed for.
pub open spec fn nested(r: Result<(), Failure>, index: usize, purpose: Purpose) -> Result<
    (),
    Failure,
> {
    match r {
        Ok(_) => Ok(()),
        Err(failure) => Err(Failure::Nested { index, purpose, inner: Box::new(failure) }),
    }
}

/// Whether an instance came out as it should.
pub open spec fn instance_rule(program: Program, t: Trace, index: usize, purpose: Purpose) -> bool {
    if index >= program.instances@.len() {
        t.stayed(Err(Failure::Malformed))
    } else {
        &&& t.parts.len() == 1
        &&& t.parts[0].work == Work::Import(
            Origin::Instance(index),
            need::instance_symbol(program.instances@[index as int]),
        )
        &&& t.parts[0].before == t.before
        &&& t.parts[0].after == t.after
        &&& t.r == nested(t.parts[0].r, index, purpose)
    }
}

/// Whether what lies at an address came out as it should.
pub open spec fn alloc_rule(program: Program, t: Trace, alloc: usize) -> bool {
    if alloc >= program.allocs@.len() {
        t.stayed(Err(Failure::Malformed))
    } else {
        match program.allocs@[alloc as int] {
            Alloc::Memory(memory) => memory_rule(program, t, memory),
            Alloc::Static(index) => static_rule(program, t, index, false),
            Alloc::Function(index) => if index < program.instances@.len() && need::is_importable(
                program.instances@[index as int].kind,
            ) {
                instance_rule(program, t, index, Purpose::Data)
            } else {
                thunk_rule(program, t, index)
            },
            Alloc::VTable(table, ty) => match need::memory_at(program, table) {
                Some(memory) => memory_rule(program, t, memory),
                None => t.stayed(Err(Failure::TableMemory(ty))),
            },
            Alloc::TypeId(ty) => t.stayed(Err(Failure::TypeIdAddress(ty))),
        }
    }
}

/// Whether what was needed came out as it should.
pub open spec fn need_rule(program: Program, t: Trace, demand: Demand) -> bool {
    match demand {
        Demand::Bytes(bytes) => global_rule(
            t,
            need::byte_symbol(bytes),
            Ok(globals::byte_global(bytes)),
            Seq::empty(),
        ),
        Demand::Static(index) => static_rule(program, t, index, false),
        Demand::ThreadLocal(index) => static_rule(program, t, index, true),
        Demand::Alloc(alloc) => alloc_rule(program, t, alloc),
        Demand::Function(index, purpose) => instance_rule(program, t, index, purpose),
        Demand::Thunk(index) => thunk_rule(program, t, index),
        Demand::Declare { symbol, .. } => {
            &&& t.r is Ok
            &&& t.parts == Seq::<Trace>::empty()
            &&& t.after == t.before.declaring(symbol)
        },
    }
}

/// Whether a function came out as it should: nothing happens where its symbol
/// is there already or its signature has no counterpart. Else it is put in the
/// module, and then what its body needs, up to what fails in the body first.
/// The first failure of that is reported, and where there is none that of the
/// body.
pub open spec fn import_rule(program: Program, t: Trace, origin: Origin, symbol: Seq<char>) -> bool {
    let body = module::body_of(program, origin);
    if is_there(t.before.names, symbol) {
        t.stayed(Ok(()))
    } else {
        match function::sound_signature(program, body, module::is_kernel(program, origin)) {
            Err(failure) => t.stayed(Err(failure)),
            Ok((params, _)) => {
                let first = t.before.blocks;
                let lowered = function::function_body(program, body, params, first);
                &&& t.start().names == t.before.with(symbol).names
                &&& lowered is Ok ==> t.start().blocks == first + function::body_labels(
                    body,
                ).len()
                &&& serves(
                    t.parts,
                    function::body_needs(program, body, params, first),
                    t.start(),
                    t.after,
                )
                &&& t.r == combined(outcome(t.parts), lowered)
            },
        }
    }
}

/// Whether one node of a trace is as it should be.
#[verifier::opaque]
pub open spec fn rule(program: Program, t: Trace) -> bool {
    match t.work {
        Work::Need(demand) => need_rule(program, t, demand),
        Work::Memory(memory) => memory_rule(program, t, memory),
        Work::Import(origin, symbol) => import_rule(program, t, origin, symbol),
    }
}

/// Whether a whole trace is as it should be.
pub open spec fn is_trace(program: Program, t: Trace) -> bool
    decreases t, 0nat,
{
    rule(program, t) && first_are_traces(program, t.parts, t.parts.len())
}

/// Whether the first traces are as they should be.
pub open spec fn first_are_traces(program: Program, parts: Seq<Trace>, count: nat) -> bool
    decreases parts, count,
{
    count == 0 || (count <= parts.len() && first_are_traces(program, parts, (count - 1) as nat)
        && is_trace(program, parts[count - 1]))
}

proof fn lemma_first(program: Program, parts: Seq<Trace>, count: nat)
    requires
        count <= parts.len(),
    ensures
        first_are_traces(program, parts, count) <==> forall|i: int|
            0 <= i < count ==> #[trigger] is_trace(program, parts[i]),
    decreases count,
{
    if count > 0 {
        lemma_first(program, parts, (count - 1) as nat);
        assert(first_are_traces(program, parts, count) == (first_are_traces(
            program,
            parts,
            (count - 1) as nat,
        ) && is_trace(program, parts[count - 1])));
    }
}

/// Whether something was provided in a module as it should, with this outcome.
pub open spec fn happened(
    program: Program,
    work: Work,
    new: World,
    old: World,
    module: BlockId,
    r: Result<(), Failure>,
) -> bool {
    exists|t: Trace| #[trigger]
        is_trace(program, t) && t.work == work && t.before == state_of(old, module) && t.after
            == state_of(new, module) && t.r == r
}

/// Whether traces are as they should be.
pub open spec fn are_traces(program: Program, parts: Seq<Trace>) -> bool {
    forall|i: int| 0 <= i < parts.len() ==> #[trigger] is_trace(program, parts[i])
}

/// Whether needs were provided in a module as they should, one after another,
/// with this outcome.
pub open spec fn all_happened(
    program: Program,
    needs: Seq<Demand>,
    new: World,
    old: World,
    module: BlockId,
    r: Result<(), Failure>,
) -> bool {
    exists|parts: Seq<Trace>| #[trigger]
        are_traces(program, parts) && serves(
            parts,
            needs,
            state_of(old, module),
            state_of(new, module),
        ) && r == outcome(parts)
}

/// Names say what is there.
pub proof fn lemma_names(insts: Seq<Inst>, symbol: Seq<char>)
    ensures
        is_there(names_of(insts), symbol) == ir::has_symbol(insts, symbol),
        is_declared(names_of(insts), symbol) == ir::has_llvm_function(insts, symbol),
{
    let names = names_of(insts);
    ir::lemma_position(insts, symbol);
    if ir::has_symbol(insts, symbol) {
        let i = ir::position_of(insts, symbol)->0;
        assert(names[i].symbol == Some(symbol));
    }
    if is_there(names, symbol) {
        let i = choose|i: int|
            0 <= i < names.len() && (#[trigger] names[i]).symbol == Some(symbol);
        assert(ir::symbol_of(insts[i]) == Some(symbol));
    }
    if ir::has_llvm_function(insts, symbol) {
        let i = choose|i: int|
            0 <= i < insts.len() && (#[trigger] insts[i]) is LlvmFunc && ir::symbol_of(insts[i])
                == Some(symbol);
        assert(names[i].declared && names[i].symbol == Some(symbol));
    }
    if is_declared(names, symbol) {
        let i = choose|i: int|
            0 <= i < names.len() && (#[trigger] names[i]).declared && names[i].symbol == Some(
                symbol,
            );
        assert(insts[i] is LlvmFunc);
    }
}

/// A name more for a symbol more.
pub proof fn lemma_more_names(insts: Seq<Inst>, inst: Inst)
    ensures
        names_of(insts.push(inst)) == names_of(insts).push(name_of(inst)),
{
    assert(names_of(insts.push(inst)) =~= names_of(insts).push(name_of(inst)));
}

/// Linkages do not show in names.
pub proof fn lemma_same_names(new: World, old: World, module: BlockId)
    requires
        module::symbols(new, module).len() == module::symbols(old, module).len(),
        forall|k: int|
            0 <= k < module::symbols(old, module).len() ==> module::same_inst(
                #[trigger] module::symbols(new, module)[k],
                module::symbols(old, module)[k],
            ),
        new.effects.len() == old.effects.len(),
    ensures
        state_of(new, module) == state_of(old, module),
{
    let a = module::symbols(old, module);
    let b = module::symbols(new, module);
    assert forall|k: int| 0 <= k < a.len() implies names_of(b)[k] == names_of(a)[k] by {
        assert(module::same_inst(b[k], a[k]));
    }
    assert(names_of(b) =~= names_of(a));
}

/// Nothing changed.
pub proof fn lemma_stayed(
    program: Program,
    work: Work,
    new: World,
    old: World,
    module: BlockId,
    r: Result<(), Failure>,
)
    requires
        state_of(new, module) == state_of(old, module),
        rule(
            program,
            (Trace {
                work,
                before: state_of(old, module),
                after: state_of(old, module),
                r,
                parts: Seq::empty(),
            }),
        ),
    ensures
        happened(program, work, new, old, module, r),
{
    let t = Trace {
        work,
        before: state_of(old, module),
        after: state_of(old, module),
        r,
        parts: Seq::empty(),
    };
    lemma_first(program, t.parts, 0);
    assert(is_trace(program, t));
}

/// A node with what it needs.
pub proof fn lemma_node(
    program: Program,
    work: Work,
    new: World,
    old: World,
    module: BlockId,
    r: Result<(), Failure>,
    parts: Seq<Trace>,
)
    requires
        are_traces(program, parts),
        rule(
            program,
            (Trace {
                work,
                before: state_of(old, module),
                after: state_of(new, module),
                r,
                parts,
            }),
        ),
    ensures
        happened(program, work, new, old, module, r),
{
    let t = Trace {
        work,
        before: state_of(old, module),
        after: state_of(new, module),
        r,
        parts,
    };
    lemma_first(program, parts, parts.len());
    assert(is_trace(program, t));
}

/// The same was provided for another reason.
pub proof fn lemma_as(
    program: Program,
    first: Work,
    second: Work,
    new: World,
    old: World,
    module: BlockId,
    r: Result<(), Failure>,
)
    requires
        happened(program, first, new, old, module, r),
        forall|t: Trace|
            t.work == first && #[trigger] rule(program, t) ==> rule(
                program,
                (Trace { work: second, ..t }),
            ),
    ensures
        happened(program, second, new, old, module, r),
{
    let t = choose|t: Trace| #[trigger]
        is_trace(program, t) && t.work == first && t.before == state_of(old, module) && t.after
            == state_of(new, module) && t.r == r;
    assert(rule(program, t));
    lemma_first(program, t.parts, t.parts.len());
    lemma_node(program, second, new, old, module, r, t.parts);
}

/// An instance was imported that was needed for something.
pub proof fn lemma_nested(
    program: Program,
    demand: Demand,
    new: World,
    old: World,
    module: BlockId,
    index: usize,
    purpose: Purpose,
    r: Result<(), Failure>,
)
    requires
        index < program.instances@.len(),
        happened(
            program,
            Work::Import(
                Origin::Instance(index),
                need::instance_symbol(program.instances@[index as int]),
            ),
            new,
            old,
            module,
            r,
        ),
        forall|t: Trace| #[trigger]
            instance_rule(program, t, index, purpose) && t.work == Work::Need(demand) ==> need_rule(
                program,
                t,
                demand,
            ),
    ensures
        happened(program, Work::Need(demand), new, old, module, nested(r, index, purpose)),
{
    let work = Work::Import(
        Origin::Instance(index),
        need::instance_symbol(program.instances@[index as int]),
    );
    let part = choose|t: Trace| #[trigger]
        is_trace(program, t) && t.work == work && t.before == state_of(old, module) && t.after
            == state_of(new, module) && t.r == r;
    let t = Trace {
        work: Work::Need(demand),
        before: state_of(old, module),
        after: state_of(new, module),
        r: nested(r, index, purpose),
        parts: seq![part],
    };
    assert(instance_rule(program, t, index, purpose));
    assert(rule(program, t)) by {
        reveal(rule);
    }
    lemma_first(program, t.parts, 1);
    assert(is_trace(program, t));
}

/// Nothing was needed.
pub proof fn lemma_none(program: Program, world: World, module: BlockId)
    ensures
        all_happened(program, Seq::empty(), world, world, module, Ok(())),
{
    let parts = Seq::<Trace>::empty();
    assert(are_traces(program, parts));
    assert(serves(parts, Seq::empty(), state_of(world, module), state_of(world, module)));
}

/// One more need was provided after others.
pub proof fn lemma_one_more(
    program: Program,
    needs: Seq<Demand>,
    count: int,
    new: World,
    middle: World,
    old: World,
    module: BlockId,
    r: Result<(), Failure>,
)
    requires
        0 <= count < needs.len(),
        all_happened(program, needs.take(count), middle, old, module, Ok(())),
        happened(program, Work::Need(needs[count]), new, middle, module, r),
    ensures
        r is Ok ==> all_happened(program, needs.take(count + 1), new, old, module, Ok(())),
        r is Err ==> all_happened(program, needs, new, old, module, r),
{
    let parts = choose|parts: Seq<Trace>| #[trigger]
        are_traces(program, parts) && serves(
            parts,
            needs.take(count),
            state_of(old, module),
            state_of(middle, module),
        ) && Ok::<(), Failure>(()) == outcome(parts);
    let t = choose|t: Trace| #[trigger]
        is_trace(program, t) && t.work == Work::Need(needs[count]) && t.before == state_of(
            middle,
            module,
        ) && t.after == state_of(new, module) && t.r == r;
    let more = parts.push(t);
    assert(parts.len() == count);
    assert(are_traces(program, more)) by {
        assert forall|i: int| 0 <= i < more.len() implies #[trigger] is_trace(
            program,
            more[i],
        ) by {
            if i < count {
                assert(is_trace(program, parts[i]));
            }
        }
    }
    assert forall|i: int| 0 <= i < more.len() implies (#[trigger] more[i]).work == Work::Need(
        needs[i],
    ) by {
        if i < count {
            assert(parts[i].work == Work::Need(needs.take(count)[i]));
        }
    }
    assert forall|i: int| 0 <= i < more.len() - 1 implies (#[trigger] more[i]).r is Ok by {
        assert(more[i] == parts[i]);
        if i == count - 1 {
            assert(parts[i] == parts.last());
        } else {
            assert(parts[i].r is Ok);
        }
    }
    assert forall|i: int, j: int|
        #![trigger more[i], more[j]]
        0 <= i < more.len() && j == i + 1 && j < more.len() implies more[j].before
        == more[i].after by {
        assert(more[i] == parts[i]);
        if j < count {
            assert(more[j] == parts[j]);
        } else {
            assert(parts[i] == parts.last());
        }
    }
    if count > 0 {
        assert(more[0] == parts[0]);
    }
    assert(more.last() == t);
    if r is Ok {
        let list = needs.take(count + 1);
        assert forall|i: int| 0 <= i < more.len() implies (#[trigger] more[i]).work == Work::Need(
            list[i],
        ) by {}
        assert(serves(more, list, state_of(old, module), state_of(new, module)));
        assert(outcome(more) == r);
        assert(r->Ok_0 == ());
    } else {
        assert(serves(more, needs, state_of(old, module), state_of(new, module)));
    }
}

} // verus!
