//! A module holds nothing that is not needed.

use crate::error::Failure;
use crate::function;
use crate::globals;
use crate::ir;
use crate::ir::{BlockId, Inst, Linkage, RegionId, World};
use crate::mir::{Alloc, Memory, Program};
use crate::module;
use crate::module::Origin;
use crate::need;
use crate::need::Demand;
use crate::thunk;
use crate::types::TypeHandle;
use vstd::prelude::*;

verus! {

/// A symbol without its linkage.
pub open spec fn unlinked(inst: Inst) -> Inst {
    ir::relinked(inst, Linkage::External)
}

/// Whether a symbol is a function with a name.
pub open spec fn is_named(inst: Inst, symbol: Seq<char>) -> bool {
    inst is MirFunc && ir::symbol_of(inst) == Some(symbol)
}

/// Whether a symbol is the global that holds memory.
pub open spec fn holds(program: Program, inst: Inst, memory: Memory) -> bool {
    globals::data_global(
        program,
        need::memory_symbol(memory),
        memory,
        Linkage::Internal,
        false,
        None,
    ) == Ok::<Inst, Failure>(inst)
}

/// Whether a symbol is the global of a static.
pub open spec fn is_global(program: Program, inst: Inst, index: usize, thread_local: bool) -> bool {
    need::static_symbol(program, index) matches Ok(symbol) && globals::static_global(
        program,
        symbol,
        program.statics@[index as int],
        thread_local,
    ) == Ok::<Inst, Failure>(inst)
}

/// Whether a symbol forwards to an instance of another object, or declares
/// that instance.
pub open spec fn forwards(program: Program, inst: Inst, index: usize) -> bool {
    let instance = program.instances@[index as int];
    ||| is_named(inst, need::thunk_symbol(instance))
    ||| thunk::passed_signature(program.types, instance.signature) matches Ok((inputs, result))
        && inst == unlinked(
        globals::declaration(need::instance_symbol(instance), inputs, result),
    )
}

/// Whether a symbol, taken without its linkage, is one that is provided for a
/// need.
pub open spec fn answers(program: Program, demand: Demand, inst: Inst) -> bool {
    match demand {
        Demand::Bytes(bytes) => inst == globals::byte_global(bytes),
        Demand::Static(index) => is_global(program, inst, index, false),
        Demand::ThreadLocal(index) => is_global(program, inst, index, true),
        Demand::Alloc(alloc) => match program.allocs@[alloc as int] {
            Alloc::Memory(memory) => holds(program, inst, memory),
            Alloc::Static(index) => is_global(program, inst, index, false),
            Alloc::Function(index) => {
                let instance = program.instances@[index as int];
                if need::is_importable(instance.kind) {
                    is_named(inst, need::instance_symbol(instance))
                } else {
                    forwards(program, inst, index)
                }
            },
            Alloc::VTable(table, _) => need::memory_at(program, table) matches Some(memory)
                && holds(program, inst, memory),
            Alloc::TypeId(_) => false,
        },
        Demand::Function(index, _) => is_named(
            inst,
            need::instance_symbol(program.instances@[index as int]),
        ),
        Demand::Thunk(index) => forwards(program, inst, index),
        Demand::Declare { symbol, inputs, result } => inst == unlinked(
            globals::declaration(symbol, inputs, result),
        ),
    }
}

/// Whether a global holds memory that points to something.
pub open spec fn memory_calls(
    program: Program,
    insts: Seq<Inst>,
    inst: Inst,
    alloc: usize,
    demand: Demand,
) -> bool {
    &&& module::is_memory(program, insts, inst, false, alloc)
    &&& need::memory_at(program, alloc) matches Some(memory) && globals::targets(
        program,
        memory,
        memory.pointers@.len(),
    ).contains(demand)
}

/// Whether a global is a static that points to something.
pub open spec fn static_calls(
    program: Program,
    insts: Seq<Inst>,
    inst: Inst,
    index: usize,
    thread_local: bool,
    demand: Demand,
) -> bool {
    &&& module::is_static(program, insts, inst, false, index, thread_local)
    &&& globals::static_targets(program, program.statics@[index as int]).contains(demand)
}

/// Whether a function needs something.
pub open spec fn function_calls(
    program: Program,
    world: World,
    at: BlockId,
    ty: TypeHandle,
    region: RegionId,
    origin: Origin,
    demand: Demand,
) -> bool {
    let body = module::body_of(program, origin);
    &&& module::is_function(program, world, at, ty, region, false, origin)
    &&& function::sound_signature(program, body, module::is_kernel(program, origin)) matches Ok(
        (params, _),
    ) && function::function_body(
        program,
        body,
        params,
        module::first_of(world, region),
    ) matches Ok((needs, _)) && needs.contains(demand)
}

/// Whether a symbol of a module needs something.
pub open spec fn inst_calls(
    program: Program,
    world: World,
    at: BlockId,
    inst: Inst,
    demand: Demand,
) -> bool {
    match inst {
        Inst::Global { .. } => {
            ||| exists|alloc: usize| #[trigger]
                memory_calls(program, module::symbols(world, at), inst, alloc, demand)
            ||| exists|index: usize, thread_local: bool| #[trigger]
                static_calls(
                    program,
                    module::symbols(world, at),
                    inst,
                    index,
                    thread_local,
                    demand,
                )
        },
        Inst::MirFunc { ty, region: Some(region), .. } => exists|origin: Origin| #[trigger]
            function_calls(program, world, at, ty, region, origin, demand),
        _ => false,
    }
}

/// Whether a symbol is provided for something that another one needs.
pub open spec fn called_by(
    program: Program,
    world: World,
    at: BlockId,
    inst: Inst,
    j: int,
    demand: Demand,
) -> bool {
    inst_calls(program, world, at, module::symbols(world, at)[j], demand) && answers(
        program,
        demand,
        inst,
    )
}

/// Whether a symbol of a module is one of those asked for, or is needed by one
/// that came before it.
pub open spec fn called_for(
    program: Program,
    world: World,
    at: BlockId,
    from: int,
    roots: spec_fn(Inst) -> bool,
    k: int,
) -> bool {
    let inst = unlinked(module::symbols(world, at)[k]);
    roots(inst) || exists|j: int, demand: Demand|
        from <= j < k && #[trigger] called_by(program, world, at, inst, j, demand)
}

/// Whether a module only got what was asked for since an earlier state, and
/// what that needs.
pub open spec fn minimal(
    program: Program,
    new: World,
    old: World,
    at: BlockId,
    roots: spec_fn(Inst) -> bool,
) -> bool {
    forall|k: int|
        module::symbols(old, at).len() <= k < module::symbols(new, at).len()
            ==> #[trigger] called_for(
            program,
            new,
            at,
            module::symbols(old, at).len() as int,
            roots,
            k,
        )
}

/// The functions with a name.
pub open spec fn named(symbol: Seq<char>) -> spec_fn(Inst) -> bool {
    |inst: Inst| is_named(inst, symbol)
}

/// The global that holds memory.
pub open spec fn holding(program: Program, memory: Memory) -> spec_fn(Inst) -> bool {
    |inst: Inst| holds(program, inst, memory)
}

/// The symbols that are provided for a need.
pub open spec fn answer_to(program: Program, demand: Demand) -> spec_fn(Inst) -> bool {
    |inst: Inst| answers(program, demand, inst)
}

/// The symbols that are provided for needs.
pub open spec fn answers_to(program: Program, needs: Seq<Demand>) -> spec_fn(Inst) -> bool {
    |inst: Inst|
        exists|i: int| 0 <= i < needs.len() && answers(program, #[trigger] needs[i], inst)
}

/// What a symbol needs stays the same.
proof fn lemma_calls_stay(
    program: Program,
    new: World,
    old: World,
    at: BlockId,
    after: Inst,
    before: Inst,
    demand: Demand,
)
    requires
        module::module_grew(new, old, at),
        module::same_inst(after, before),
        inst_calls(program, old, at, before, demand),
    ensures
        inst_calls(program, new, at, after, demand),
{
    let a = module::symbols(old, at);
    let b = module::symbols(new, at);
    match before {
        Inst::Global { .. } => {
            assert(after == before);
            if exists|alloc: usize| #[trigger] memory_calls(program, a, before, alloc, demand) {
                let alloc = choose|alloc: usize| #[trigger]
                    memory_calls(program, a, before, alloc, demand);
                assert(memory_calls(program, b, after, alloc, demand));
            } else {
                let (index, thread_local) = choose|index: usize, thread_local: bool| #[trigger]
                    static_calls(program, a, before, index, thread_local, demand);
                assert(static_calls(program, b, after, index, thread_local, demand));
            }
        },
        Inst::MirFunc { ty, region: Some(region), .. } => {
            assert(after is MirFunc);
            let origin = choose|origin: Origin| #[trigger]
                function_calls(program, old, at, ty, region, origin, demand);
            module::lemma_function_stays(program, new, old, at, ty, region, false, origin);
            assert(new.regions[region.0 as int] == old.regions[region.0 as int]);
            assert(function_calls(program, new, at, ty, region, origin, demand));
        },
        _ => {},
    }
}

/// What a symbol is there for stays the same.
pub proof fn lemma_called_stays(
    program: Program,
    new: World,
    old: World,
    at: BlockId,
    from: int,
    roots: spec_fn(Inst) -> bool,
    k: int,
)
    requires
        module::module_grew(new, old, at),
        0 <= from,
        0 <= k < module::symbols(old, at).len(),
        called_for(program, old, at, from, roots, k),
    ensures
        called_for(program, new, at, from, roots, k),
{
    let a = module::symbols(old, at);
    let b = module::symbols(new, at);
    assert(module::same_inst(b[k], a[k]));
    let inst = unlinked(a[k]);
    if !roots(inst) {
        let (j, demand) = choose|j: int, demand: Demand|
            from <= j < k && #[trigger] called_by(program, old, at, inst, j, demand);
        assert(module::same_inst(b[j], a[j]));
        lemma_calls_stay(program, new, old, at, b[j], a[j], demand);
        assert(called_by(program, new, at, inst, j, demand));
    }
}

/// A symbol is also there for more, and from earlier on.
pub proof fn lemma_called_wider(
    program: Program,
    world: World,
    at: BlockId,
    late: int,
    early: int,
    few: spec_fn(Inst) -> bool,
    many: spec_fn(Inst) -> bool,
    k: int,
)
    requires
        early <= late,
        forall|inst: Inst| #[trigger] few(inst) ==> many(inst),
        called_for(program, world, at, late, few, k),
    ensures
        called_for(program, world, at, early, many, k),
{
    let inst = unlinked(module::symbols(world, at)[k]);
    if !few(inst) {
        let (j, demand) = choose|j: int, demand: Demand|
            late <= j < k && #[trigger] called_by(program, world, at, inst, j, demand);
        assert(called_by(program, world, at, inst, j, demand));
    }
}

/// A module got what was asked for in steps.
pub proof fn lemma_minimal_twice(
    program: Program,
    new: World,
    middle: World,
    old: World,
    at: BlockId,
    first: spec_fn(Inst) -> bool,
    second: spec_fn(Inst) -> bool,
    roots: spec_fn(Inst) -> bool,
)
    requires
        module::module_grew(middle, old, at),
        module::module_grew(new, middle, at),
        minimal(program, middle, old, at, first),
        minimal(program, new, middle, at, second),
        forall|inst: Inst| #[trigger] first(inst) ==> roots(inst),
        forall|inst: Inst| #[trigger] second(inst) ==> roots(inst),
    ensures
        minimal(program, new, old, at, roots),
{
    let a = module::symbols(old, at);
    let b = module::symbols(middle, at);
    let c = module::symbols(new, at);
    assert forall|k: int| a.len() <= k < c.len() implies #[trigger] called_for(
        program,
        new,
        at,
        a.len() as int,
        roots,
        k,
    ) by {
        if k < b.len() {
            assert(called_for(program, middle, at, a.len() as int, first, k));
            lemma_called_stays(program, new, middle, at, a.len() as int, first, k);
            lemma_called_wider(
                program,
                new,
                at,
                a.len() as int,
                a.len() as int,
                first,
                roots,
                k,
            );
        } else {
            assert(called_for(program, new, at, b.len() as int, second, k));
            lemma_called_wider(
                program,
                new,
                at,
                b.len() as int,
                a.len() as int,
                second,
                roots,
                k,
            );
        }
    }
}

/// A module that got what was asked for, where more was asked for.
pub proof fn lemma_minimal_wider(
    program: Program,
    new: World,
    old: World,
    at: BlockId,
    few: spec_fn(Inst) -> bool,
    many: spec_fn(Inst) -> bool,
)
    requires
        minimal(program, new, old, at, few),
        forall|inst: Inst| #[trigger] few(inst) ==> many(inst),
    ensures
        minimal(program, new, old, at, many),
{
    let from = module::symbols(old, at).len() as int;
    assert forall|k: int| from <= k < module::symbols(new, at).len() implies #[trigger] called_for(
        program,
        new,
        at,
        from,
        many,
        k,
    ) by {
        assert(called_for(program, new, at, from, few, k));
        lemma_called_wider(program, new, at, from, from, few, many, k);
    }
}

/// A module that got nothing.
pub proof fn lemma_minimal_same(
    program: Program,
    new: World,
    old: World,
    at: BlockId,
    roots: spec_fn(Inst) -> bool,
)
    requires
        module::symbols(new, at).len() == module::symbols(old, at).len(),
    ensures
        minimal(program, new, old, at, roots),
{
}

/// A module that got one symbol that was asked for.
pub proof fn lemma_minimal_one(
    program: Program,
    new: World,
    old: World,
    at: BlockId,
    roots: spec_fn(Inst) -> bool,
)
    requires
        module::symbols(new, at).len() == module::symbols(old, at).len() + 1,
        roots(unlinked(module::symbols(new, at).last())),
    ensures
        minimal(program, new, old, at, roots),
{
}

/// A module that got a symbol and then what that needs.
pub proof fn lemma_minimal_head(
    program: Program,
    new: World,
    middle: World,
    old: World,
    at: BlockId,
    wanted: spec_fn(Inst) -> bool,
    needs: Seq<Demand>,
)
    requires
        module::module_grew(middle, old, at),
        module::module_grew(new, middle, at),
        module::symbols(middle, at).len() == module::symbols(old, at).len() + 1,
        wanted(unlinked(module::symbols(middle, at).last())),
        forall|i: int|
            0 <= i < needs.len() ==> inst_calls(
                program,
                middle,
                at,
                module::symbols(middle, at).last(),
                #[trigger] needs[i],
            ),
        minimal(program, new, middle, at, answers_to(program, needs)),
    ensures
        minimal(program, new, old, at, wanted),
{
    let a = module::symbols(old, at);
    let b = module::symbols(middle, at);
    let c = module::symbols(new, at);
    let from = a.len() as int;
    assert forall|k: int| a.len() <= k < c.len() implies #[trigger] called_for(
        program,
        new,
        at,
        from,
        wanted,
        k,
    ) by {
        if k < b.len() {
            assert(module::same_inst(c[k], b[k]));
            assert(b[k] == b.last());
        } else {
            let roots = answers_to(program, needs);
            assert(called_for(program, new, at, b.len() as int, roots, k));
            let other = unlinked(c[k]);
            if roots(other) {
                let i = choose|i: int|
                    0 <= i < needs.len() && answers(program, #[trigger] needs[i], other);
                assert(module::same_inst(c[from], b[from]));
                assert(b[from] == b.last());
                lemma_calls_stay(program, new, middle, at, c[from], b[from], needs[i]);
                assert(called_by(program, new, at, other, from, needs[i]));
            } else {
                let (j, demand) = choose|j: int, demand: Demand|
                    b.len() <= j < k && #[trigger] called_by(program, new, at, other, j, demand);
                assert(called_by(program, new, at, other, j, demand));
            }
        }
    }
}

} // verus!
