//! Provides the symbols that functions need.
//!
//! What a function or a global refers to is provided after it, in the order in
//! which it was asked for. Where that fails, the function is cut back to where
//! it asked for what failed, and the global is left without contents.

use crate::error::Failure;
use crate::function;
use crate::function::{define_function, give_up};
use crate::globals;
use crate::globals::{
    declare_anonymous_byte_global, declare_external_function, define_data_global,
    define_static_global,
};
use crate::ir;
use crate::ir::{BlockId, Context, Inst, Linkage, RegionId, World};
use crate::kernel::is_kernel_def;
use crate::linkage;
use crate::meaning;
use crate::meaning::Step;
use crate::minimal;
use crate::mir::{Alloc, Body, Instance, Memory, Program, Static};
use crate::module;
use crate::module::Origin;
use crate::names;
use crate::need;
use crate::need::{
    instance_symbol_of, memory_of, memory_symbol_of, should_import_instance, static_symbol_of,
    thunk_symbol_of, Asked, Demand, Mark, Need, Needs, Purpose,
};
use crate::sem::Moment;
use crate::signature::Parameter;
use crate::thunk;
use crate::thunk::define_thunk;
use crate::trace;
use crate::trace::Work;
use crate::types;
use crate::types::TypeHandle;
use vstd::prelude::*;

verus! {

/// Whether memory can be provided: its pointers have counterparts, and what
/// they point to belongs to a set.
pub open spec fn clean_memory(program: Program, memory: Memory, good: Set<Demand>) -> bool {
    &&& globals::relocs(program, memory, memory.pointers@.len()) is Ok
    &&& all_in(globals::targets(program, memory, memory.pointers@.len()), good)
}

/// Whether all that is needed belongs to a set.
pub open spec fn all_in(needs: Seq<Demand>, good: Set<Demand>) -> bool {
    forall|i: int| 0 <= i < needs.len() ==> good.contains(#[trigger] needs[i])
}

/// Whether a static can be provided.
pub open spec fn clean_static(program: Program, index: usize, good: Set<Demand>) -> bool {
    let item = program.statics@[index as int];
    &&& index < program.statics@.len()
    &&& match (item.is_local, item.initializer) {
        (true, Some(memory)) => clean_memory(program, memory, good),
        _ => true,
    }
}

/// Whether a function can be provided whose blocks are numbered from one on.
pub open spec fn clean_function(
    program: Program,
    origin: Origin,
    first: nat,
    good: Set<Demand>,
) -> bool {
    let body = module::body_of(program, origin);
    &&& module::has_origin(program, origin)
    &&& function::sound_signature(program, body, module::is_kernel(program, origin)) matches Ok(
        (params, _),
    ) && function::function_body(program, body, params, first) matches Ok((needs, _)) && all_in(
        needs,
        good,
    )
}

/// Whether a function can be provided wherever its blocks stand.
pub open spec fn always_clean(program: Program, origin: Origin, good: Set<Demand>) -> bool {
    forall|first: nat| #[trigger] clean_function(program, origin, first, good)
}

/// Whether a function can be provided that forwards to an instance.
pub open spec fn clean_thunk(program: Program, index: usize) -> bool {
    index < program.instances@.len() && thunk::passed_signature(
        program.types,
        program.instances@[index as int].signature,
    ) is Ok
}

/// Whether what is needed can be provided: it has a counterpart, and all that
/// it needs itself belongs to a set.
pub open spec fn clean(program: Program, demand: Demand, first: nat, good: Set<Demand>) -> bool {
    match demand {
        Demand::Bytes(_) => true,
        Demand::Declare { .. } => true,
        Demand::Static(index) => clean_static(program, index, good),
        Demand::ThreadLocal(index) => clean_static(program, index, good),
        Demand::Function(index, _) => clean_function(
            program,
            Origin::Instance(index),
            first,
            good,
        ),
        Demand::Thunk(index) => clean_thunk(program, index),
        Demand::Alloc(alloc) => alloc < program.allocs@.len() && match program.allocs@[alloc as int] {
            Alloc::Memory(memory) => clean_memory(program, memory, good),
            Alloc::Static(index) => clean_static(program, index, good),
            Alloc::Function(index) => index < program.instances@.len() && if need::is_importable(
                program.instances@[index as int].kind,
            ) {
                clean_function(program, Origin::Instance(index), first, good)
            } else {
                clean_thunk(program, index)
            },
            Alloc::VTable(table, _) => need::memory_at(program, table) matches Some(memory)
                && clean_memory(program, memory, good),
            Alloc::TypeId(_) => false,
        },
    }
}

/// Whether everything in a set can be provided, with all that it needs.
pub open spec fn supported(program: Program, good: Set<Demand>) -> bool {
    forall|demand: Demand, first: nat|
        good.contains(demand) ==> #[trigger] clean(program, demand, first, good)
}

/// Whether symbols were provided as they should: the module only grew, by
/// symbols of the program; on success what was needed is there, and so is all
/// that the new symbols need.
pub open spec fn provided(
    program: Program,
    new: Context,
    old: Context,
    module: BlockId,
    r: Result<(), Failure>,
) -> bool {
    &&& module::extended(program, module::no_owner(), new, old, module, r is Ok)
    &&& linkage::linked_since(
        program,
        left_open(r, linkage::no_symbol()),
        new@,
        old@,
        module,
    )
}

/// The symbols that may keep the linkage they were made with: those given, or
/// any where something failed.
pub open spec fn left_open(
    r: Result<(), Failure>,
    kept: spec_fn(Seq<char>) -> bool,
) -> spec_fn(Seq<char>) -> bool {
    if r is Ok {
        kept
    } else {
        linkage::any_symbol()
    }
}

/// Puts a linkage on an imported function, unless all stay visible.
pub fn set_internal_linkage(program: &Program, ctx: &mut Context, module: BlockId, symbol: &String)
    requires
        old(ctx).wf(),
        old(ctx).has_block(module),
    ensures
        !ir::is_seen(module::symbols(old(ctx)@, module), symbol@) ==> module::extended(
            *program,
            module::no_owner(),
            *final(ctx),
            *old(ctx),
            module,
            true,
        ),
        final(ctx).grew(*old(ctx)),
        final(ctx).dialects == old(ctx).dialects,
        module::symbols(final(ctx)@, module).len() == module::symbols(old(ctx)@, module).len(),
        final(ctx)@ == if program.export_all {
            old(ctx)@
        } else {
            old(ctx)@.with_symbol(
                module,
                symbol@,
                |inst: Inst| ir::relinked(inst, Linkage::Internal),
            )
        },
{
    let ghost before = *ctx;
    if program.export_all {
        proof {
            module::lemma_extended_same(*program, module::no_owner(), before, module, true);
        }
        return;
    }
    ctx.set_function_linkage(module, symbol, Linkage::Internal);
    proof {
        if !ir::is_seen(module::symbols(before@, module), symbol@) {
            module::lemma_relinked(
                *program,
                module::no_owner(),
                *ctx,
                before,
                module,
                symbol@,
                Linkage::Internal,
            );
        }
        ir::lemma_position(module::symbols(before@, module), symbol@);
    }
}

/// Puts a linkage on an imported function, unless all stay visible or a linker
/// must see it, since its address stands in memory.
fn conceal(program: &Program, ctx: &mut Context, module: BlockId, symbol: &String)
    requires
        old(ctx).wf(),
        old(ctx).has_block(module),
    ensures
        module::extended(*program, module::no_owner(), *final(ctx), *old(ctx), module, true),
        module::symbols(final(ctx)@, module).len() == module::symbols(old(ctx)@, module).len(),
        trace::state_of(final(ctx)@, module) == trace::state_of(old(ctx)@, module),
        final(ctx)@ == if program.export_all || ir::is_seen(
            module::symbols(old(ctx)@, module),
            symbol@,
        ) {
            old(ctx)@
        } else {
            old(ctx)@.with_symbol(
                module,
                symbol@,
                |inst: Inst| ir::relinked(inst, Linkage::Internal),
            )
        },
{
    let ghost before = *ctx;
    if ctx.symbol_is_seen(module, symbol) {
        proof {
            module::lemma_extended_same(*program, module::no_owner(), before, module, true);
        }
        return;
    }
    set_internal_linkage(program, ctx, module, symbol);
    proof {
        ir::lemma_position(module::symbols(before@, module), symbol@);
        trace::lemma_same_names(ctx@, before@, module);
    }
}

fn set_linkage(
    program: &Program,
    ctx: &mut Context,
    module: BlockId,
    symbol: &String,
    linkage: Linkage,
)
    requires
        old(ctx).wf(),
        old(ctx).has_block(module),
        linkage == Linkage::WeakOdr || linkage == Linkage::External,
    ensures
        module::extended(*program, module::no_owner(), *final(ctx), *old(ctx), module, true),
        module::symbols(final(ctx)@, module).len() == module::symbols(old(ctx)@, module).len(),
        trace::state_of(final(ctx)@, module) == trace::state_of(old(ctx)@, module),
        final(ctx)@ == old(ctx)@.with_symbol(
            module,
            symbol@,
            |inst: Inst| ir::relinked(inst, linkage),
        ),
{
    let ghost before = *ctx;
    ctx.set_function_linkage(module, symbol, linkage);
    proof {
        module::lemma_relinked(
            *program,
            module::no_owner(),
            *ctx,
            before,
            module,
            symbol@,
            linkage,
        );
        ir::lemma_position(module::symbols(before@, module), symbol@);
        trace::lemma_same_names(ctx@, before@, module);
    }
}

/// The place of an instance's symbol in the list of symbols.
proof fn lemma_listed_instance(program: Program, index: usize)
    requires
        index < program.instances@.len(),
    ensures
        0 <= index < module::symbol_list(program).len(),
        module::symbol_list(program)[index as int] == need::instance_symbol(
            program.instances@[index as int],
        ),
{
}

/// The place of a static's symbol in the list of symbols.
proof fn lemma_listed_static(program: Program, index: usize)
    requires
        index < program.statics@.len(),
    ensures
        ({
            let k = 2 * program.instances@.len() + index;
            &&& 0 <= k < module::symbol_list(program).len()
            &&& module::symbol_list(program)[k] == names::legal_name(
                program.statics@[index as int].mangled@,
            )
        }),
{
}

/// The place of an allocation's symbol in the list of symbols.
proof fn lemma_listed_memory(program: Program, alloc: usize, memory: Memory)
    requires
        need::memory_at(program, alloc) == Some(memory),
    ensures
        ({
            let k = 2 * program.instances@.len() + program.statics@.len() + alloc;
            &&& 0 <= k < module::symbol_list(program).len()
            &&& module::symbol_list(program)[k] == need::memory_symbol(memory)
        }),
{
}

fn body_of<'a>(program: &'a Program, origin: Origin) -> (r: &'a Body)
    requires
        module::has_origin(*program, origin),
    ensures
        *r == module::body_of(*program, origin),
{
    match origin {
        Origin::Instance(index) => &program.instances[index].body,
        Origin::Owner(index) => &program.owners[index].body,
    }
}

fn origin_is_kernel(program: &Program, origin: Origin) -> (r: bool)
    requires
        module::has_origin(*program, origin),
    ensures
        r == module::is_kernel(*program, origin),
{
    match origin {
        Origin::Instance(_) => false,
        Origin::Owner(index) => is_kernel_def(&program.owners[index]),
    }
}

/// A function that was defined is one of the program.
proof fn lemma_defined(
    program: Program,
    new: Context,
    old: Context,
    module: BlockId,
    symbol: Seq<char>,
    r: Result<(), Failure>,
    origin: Origin,
    asked: (Seq<Asked>, Seq<Asked>),
)
    requires
        old.wf(),
        old.has_block(module),
        !ir::has_symbol(module::symbols(old@, module), symbol),
        module::has_origin(program, origin),
        module::has_name(program, module::owner_of(origin, symbol), symbol, origin),
        function::defines(
            (new, asked.1),
            (old, asked.0),
            module,
            symbol,
            r,
            program,
            module::body_of(program, origin),
            module::is_kernel(program, origin),
        ),
    ensures
        module::extended(program, module::owner_of(origin, symbol), new, old, module, false),
        linkage::linked_since(program, linkage::one_symbol(symbol), new@, old@, module),
        function::sound_signature(
            program,
            module::body_of(program, origin),
            module::is_kernel(program, origin),
        ) matches Ok((params, ty)) ==> {
            let region = RegionId(old@.regions.len() as usize);
            &&& module::symbols(new@, module).len() == module::symbols(old@, module).len() + 1
            &&& module::symbols(new@, module) == module::symbols(old@, module).push(
                module::symbols(new@, module).last(),
            )
            &&& function::function_body(
                program,
                module::body_of(program, origin),
                params,
                old@.effects.len(),
            ) is Ok ==> new@.effects.len() == old@.effects.len() + function::body_labels(
                module::body_of(program, origin),
            ).len()
            &&& ir::symbol_of(module::symbols(new@, module).last()) == Some(symbol)
            &&& module::symbols(new@, module).last() == (Inst::MirFunc {
                symbol,
                ty,
                linkage: None,
                region: Some(region),
            })
            &&& module::first_of(new@, region) == old@.effects.len()
            &&& module::is_function(program, new@, module, ty, region, false, origin)
            &&& ir::has_symbol(module::symbols(new@, module), symbol)
            &&& new@.regions.len() == old@.regions.len() + 1
            &&& function::block_count(module::body_of(program, origin))
                <= new@.regions[region.0 as int].len()
            &&& new@.effects.len() == old@.effects.len() + new@.regions[region.0 as int].len()
            &&& function::function_body(
                program,
                module::body_of(program, origin),
                params,
                old@.effects.len(),
            ) matches Ok((_, blocks)) ==> module::body_does(new@, region, blocks)
                && module::body_labelled(
                new@,
                region,
                function::body_labels(module::body_of(program, origin)),
            )
        },
{
    let own = module::owner_of(origin, symbol);
    old.lemma_sizes();
    let body = module::body_of(program, origin);
    match function::sound_signature(program, body, module::is_kernel(program, origin)) {
        Err(_) => {
            module::lemma_extended_same(program, own, old, module, false);
        },
        Ok((params, ty)) => {
            let region = RegionId(old@.regions.len() as usize);
            let first = old@.effects.len();
            match function::function_body(program, body, params, first) {
                Ok((_, blocks)) => {
                    module::lemma_function_added(new@, old@, module, symbol, ty, blocks.len());
                    assert forall|k: int| 0 <= k < blocks.len() implies #[trigger] module::body_steps(
                        new@,
                        region,
                        k,
                    ) == blocks[k] by {
                        assert(new.made_steps(old, k) == blocks[k]);
                    }
                    assert(module::body_does(new@, region, blocks));
                    let labels = function::body_labels(body);
                    assert forall|k: int| 0 <= k < labels.len() implies #[trigger] module::body_label(
                        new@,
                        region,
                        k,
                    ) == labels[k] by {
                        assert(new@.labels[first + k] == (old@.labels + labels)[first + k]);
                    }
                    assert(module::body_labelled(new@, region, labels));
                    module::lemma_begun(new@, region, blocks, labels);
                },
                Err(_) => {
                    let count = choose|count: nat| #[trigger]
                        new@.has_function(old@, module, symbol, ty, count);
                    module::lemma_function_added(new@, old@, module, symbol, ty, count);
                },
            }
            assert(module::is_function(program, new@, module, ty, region, false, origin));
            module::lemma_has_last(module::symbols(new@, module), symbol);
            let a = module::symbols(old@, module);
            let c = module::symbols(new@, module);
            assert(c =~= a.push(c.last()));
            module::lemma_one_fresh(a, c.last());
            linkage::lemma_linked_one(
                program,
                linkage::one_symbol(symbol),
                new@,
                old@,
                module,
                c.last(),
            );
            assert forall|k: int| a.len() <= k < c.len() implies module::sound_inst(
                program,
                own,
                new@,
                module,
                #[trigger] c[k],
                false,
            ) by {
                assert(c[k] == c.last());
                assert(c[k] == (Inst::MirFunc {
                    symbol,
                    ty,
                    linkage: None,
                    region: Some(region),
                }));
                module::lemma_sound_function(program, own, new@, module, c[k], false, origin);
            }
        },
    }
}

/// A function that is complete and whose needs are there is settled.
proof fn lemma_function_settled(
    program: Program,
    new: Context,
    middle: Context,
    old: Context,
    module: BlockId,
    symbol: Seq<char>,
    origin: Origin,
    params: Seq<Parameter>,
    ty: TypeHandle,
    needs: Seq<Demand>,
)
    requires
        old.wf(),
        old.has_block(module),
        module::has_name(program, module::owner_of(origin, symbol), symbol, origin),
        module::extended(program, module::owner_of(origin, symbol), middle, old, module, false),
        module::extended(program, module::no_owner(), new, middle, module, true),
        function::sound_signature(
            program,
            module::body_of(program, origin),
            module::is_kernel(program, origin),
        ) == Ok::<(Seq<Parameter>, TypeHandle), Failure>((params, ty)),
        function::function_body(
            program,
            module::body_of(program, origin),
            params,
            old@.effects.len(),
        ) matches Ok((asked, _)) && asked == needs,
        module::symbols(middle@, module).len() == module::symbols(old@, module).len() + 1,
        module::symbols(middle@, module).last() == (Inst::MirFunc {
            symbol,
            ty,
            linkage: None,
            region: Some(RegionId(old@.regions.len() as usize)),
        }),
        module::first_of(middle@, RegionId(old@.regions.len() as usize)) == old@.effects.len(),
        module::is_function(
            program,
            middle@,
            module,
            ty,
            RegionId(old@.regions.len() as usize),
            false,
            origin,
        ),
        function::function_body(
            program,
            module::body_of(program, origin),
            params,
            old@.effects.len(),
        ) matches Ok((_, blocks)) && module::body_does(
            middle@,
            RegionId(old@.regions.len() as usize),
            blocks,
        ),
        module::body_labelled(
            middle@,
            RegionId(old@.regions.len() as usize),
            function::body_labels(module::body_of(program, origin)),
        ),
        module::all_present(program, module::symbols(new@, module), needs),
        minimal::minimal(
            program,
            new@,
            middle@,
            module,
            minimal::answers_to(program, needs),
        ),
    ensures
        module::extended(program, module::owner_of(origin, symbol), new, old, module, true),
        minimal::minimal(program, new@, old@, module, minimal::named(symbol)),
        module::stands_at(
            program,
            new@,
            module,
            module::symbols(old@, module).len() as int,
            symbol,
            ty,
            true,
            origin,
        ),
{
    let own = module::owner_of(origin, symbol);
    module::lemma_extended_wider(
        program,
        module::no_owner(),
        own,
        new,
        middle,
        module,
        true,
    );
    let region = RegionId(old@.regions.len() as usize);
    module::lemma_extended_twice(program, own, new, middle, old, module, false, true);
    assert forall|i: int| 0 <= i < needs.len() implies minimal::inst_calls(
        program,
        middle@,
        module,
        module::symbols(middle@, module).last(),
        #[trigger] needs[i],
    ) by {
        assert(needs.contains(needs[i]));
        assert(minimal::function_calls(
            program,
            middle@,
            module,
            ty,
            region,
            origin,
            needs[i],
        ));
    }
    minimal::lemma_minimal_head(
        program,
        new@,
        middle@,
        old@,
        module,
        minimal::named(symbol),
        needs,
    );
    module::lemma_function_stays(program, new@, middle@, module, ty, region, false, origin);
    module::lemma_body_stays(new@, middle@, module, region, ty);
    let a = module::symbols(old@, module);
    let b = module::symbols(middle@, module);
    let c = module::symbols(new@, module);
    assert(new@.regions[region.0 as int] == middle@.regions[region.0 as int]);
    assert(module::is_function(program, new@, module, ty, region, true, origin));
    assert forall|k: int| a.len() <= k < c.len() implies module::sound_inst(
        program,
        own,
        new@,
        module,
        #[trigger] c[k],
        true,
    ) by {
        if k == a.len() {
            assert(module::same_inst(c[k], b[k]));
        } else {
            assert(module::sound_inst(program, own, new@, module, c[k], true));
        }
    }
}

/// What came of importing a function that is there, or whose signature has no
/// counterpart.
proof fn lemma_import_stayed(
    program: Program,
    origin: Origin,
    symbol: Seq<char>,
    world: World,
    module: BlockId,
    r: Result<(), Failure>,
)
    requires
        if ir::has_symbol(module::symbols(world, module), symbol) {
            r == Ok::<(), Failure>(())
        } else {
            function::sound_signature(
                program,
                module::body_of(program, origin),
                module::is_kernel(program, origin),
            ) matches Err(failure) && r == Err::<(), Failure>(failure)
        },
    ensures
        trace::happened(program, Work::Import(origin, symbol), world, world, module, r),
{
    reveal(trace::rule);
    trace::lemma_names(module::symbols(world, module), symbol);
    trace::lemma_stayed(program, Work::Import(origin, symbol), world, world, module, r);
}

/// What came of importing a function that was not there.
proof fn lemma_import_trace(
    program: Program,
    origin: Origin,
    symbol: Seq<char>,
    new: World,
    middle: World,
    old: World,
    module: BlockId,
    nested: Result<(), Failure>,
    r: Result<(), Failure>,
)
    requires
        !ir::has_symbol(module::symbols(old, module), symbol),
        function::sound_signature(
            program,
            module::body_of(program, origin),
            module::is_kernel(program, origin),
        ) matches Ok((params, _)) && {
            let body = module::body_of(program, origin);
            let lowered = function::function_body(program, body, params, old.effects.len());
            &&& lowered is Ok ==> middle.effects.len() == old.effects.len()
                + function::body_labels(body).len()
            &&& trace::all_happened(
                program,
                function::body_needs(program, body, params, old.effects.len()),
                new,
                middle,
                module,
                nested,
            )
            &&& r == trace::combined(nested, lowered)
        },
        module::symbols(middle, module) == module::symbols(old, module).push(
            module::symbols(middle, module).last(),
        ),
        module::symbols(middle, module).last() is MirFunc,
        ir::symbol_of(module::symbols(middle, module).last()) == Some(symbol),
    ensures
        trace::happened(program, Work::Import(origin, symbol), new, old, module, r),
{
    let body = module::body_of(program, origin);
    let (params, _) = function::sound_signature(
        program,
        body,
        module::is_kernel(program, origin),
    )->Ok_0;
    let needs = function::body_needs(program, body, params, old.effects.len());
    let start = trace::state_of(middle, module);
    let parts = choose|parts: Seq<trace::Trace>| #[trigger]
        trace::are_traces(program, parts) && trace::serves(
            parts,
            needs,
            start,
            trace::state_of(new, module),
        ) && nested == trace::outcome(parts);
    let t = trace::Trace {
        work: Work::Import(origin, symbol),
        before: trace::state_of(old, module),
        after: trace::state_of(new, module),
        r,
        parts,
    };
    trace::lemma_names(module::symbols(old, module), symbol);
    trace::lemma_more_names(module::symbols(old, module), module::symbols(middle, module).last());
    assert(t.start() == start);
    assert(start.names == t.before.with(symbol).names);
    assert(trace::rule(program, t)) by {
        reveal(trace::rule);
    }
    trace::lemma_node(program, t.work, new, old, module, r, parts);
}

/// What came of providing a global that was not there.
proof fn lemma_global_trace(
    program: Program,
    work: Work,
    symbol: Seq<char>,
    made: Result<Inst, Failure>,
    targets: Seq<Demand>,
    new: World,
    middle: World,
    old: World,
    module: BlockId,
    inst: Inst,
    nested: Result<(), Failure>,
)
    requires
        !ir::has_symbol(module::symbols(old, module), symbol),
        inst is Global && ir::symbol_of(inst) == Some(symbol) && module::symbols(middle, module)
            == module::symbols(old, module).push(inst),
        middle.effects.len() == old.effects.len(),
        trace::all_happened(program, targets, new, middle, module, nested),
        forall|t: trace::Trace| #[trigger]
            trace::global_rule(t, symbol, made, targets) && t.work == work ==> trace::rule(
                program,
                t,
            ),
    ensures
        trace::happened(
            program,
            work,
            new,
            old,
            module,
            trace::combined(nested, made),
        ),
{
    let start = trace::state_of(middle, module);
    let parts = choose|parts: Seq<trace::Trace>| #[trigger]
        trace::are_traces(program, parts) && trace::serves(
            parts,
            targets,
            start,
            trace::state_of(new, module),
        ) && nested == trace::outcome(parts);
    let t = trace::Trace {
        work,
        before: trace::state_of(old, module),
        after: trace::state_of(new, module),
        r: trace::combined(nested, made),
        parts,
    };
    trace::lemma_names(module::symbols(old, module), symbol);
    trace::lemma_more_names(module::symbols(old, module), inst);
    assert(start == t.before.with(symbol));
    assert(trace::global_rule(t, symbol, made, targets));
    trace::lemma_node(program, work, new, old, module, t.r, parts);
}

/// Whether a function was given up where it asked for one of the things that it
/// needs: those before are there.
pub open spec fn stopped_at(
    program: Program,
    origin: Origin,
    params: Seq<Parameter>,
    world: World,
    module: BlockId,
    region: RegionId,
    stop: int,
) -> bool {
    let body = module::body_of(program, origin);
    let first = module::first_of(world, region);
    let asked = function::body_asked(program, body, params, first);
    &&& 0 <= stop < asked.len()
    &&& function::function_body(program, body, params, first) matches Ok((needs, blocks))
        && module::body_does(
        world,
        region,
        function::given_up(body, first, blocks, asked[stop].at),
    ) && module::all_present(program, module::symbols(world, module), needs.take(stop))
}

/// A function that was given up has begun.
proof fn lemma_given_up(
    program: Program,
    origin: Origin,
    params: Seq<Parameter>,
    new: Context,
    old: Context,
    module: BlockId,
    region: RegionId,
    ty: TypeHandle,
    mark: Mark,
)
    requires
        region.0 < old@.regions.len(),
        module::has_origin(program, origin),
        module::has_body(old@, module, region, ty),
        module::is_function(program, old@, module, ty, region, false, origin),
        function::block_count(module::body_of(program, origin))
            <= old@.regions[region.0 as int].len(),
        function::sound_signature(
            program,
            module::body_of(program, origin),
            module::is_kernel(program, origin),
        ) == Ok::<(Seq<Parameter>, TypeHandle), Failure>((params, ty)),
        ({
            let body = module::body_of(program, origin);
            let first = module::first_of(old@, region);
            let count = function::block_count(body);
            let whole = old@.regions[region.0 as int].len();
            let kept = function::blocks_until(body, mark.block.0 - first);
            &&& function::function_body(program, body, params, first) matches Ok((_, blocks))
                ==> module::body_does(old@, region, blocks) && module::body_labelled(
                old@,
                region,
                function::body_labels(body),
            )
            &&& new@.args == old@.args
            &&& new@.labels == old@.labels
            &&& new@.effects.len() == old@.effects.len()
            &&& forall|b: int|
                0 <= b < old@.effects.len() && !(first <= b < first + count)
                    ==> #[trigger] new@.effects[b] == old@.effects[b]
            &&& forall|i: int|
                0 <= i < count ==> #[trigger] new.block_steps(first, i) == if first + i
                    < mark.block.0 {
                    old.block_steps(first, i)
                } else if first + i == mark.block.0 {
                    function::first_steps(old.block_steps(first, i), mark.time as nat)
                } else {
                    Seq::empty()
                }
            &&& new@.regions == old@.regions.update(
                region.0 as int,
                function::row(
                    first,
                    if kept <= whole {
                        kept
                    } else {
                        whole
                    },
                ),
            )
        }),
    ensures
        module::is_function(program, new@, module, ty, region, false, origin),
        module::first_of(new@, region) == module::first_of(old@, region),
        ({
            let body = module::body_of(program, origin);
            let first = module::first_of(old@, region);
            let at = Moment { block: mark.block.0 as int, time: mark.time as nat };
            function::function_body(program, body, params, first) matches Ok((_, blocks))
                ==> module::body_does(
                new@,
                region,
                function::given_up(body, first, blocks, at),
            )
        }),
{
    let body = module::body_of(program, origin);
    let first = module::first_of(old@, region);
    let count = function::block_count(body);
    let whole = old@.regions[region.0 as int].len();
    let index = mark.block.0 - first;
    let kept = function::blocks_until(body, index);
    let at = Moment { block: mark.block.0 as int, time: mark.time as nat };
    assert(old@.regions[region.0 as int][0] == new@.regions[region.0 as int][0]);
    if let Ok((_, blocks)) = function::function_body(program, body, params, first) {
        let labels = function::body_labels(body);
        let done = function::given_up(body, first, blocks, at);
        function::lemma_blocks_until(body, index);
        assert(kept <= whole);
        assert forall|k: int| 0 <= k < done.len() implies #[trigger] module::body_steps(
            new@,
            region,
            k,
        ) == done[k] by {
            assert(module::body_steps(old@, region, k) == blocks[k]);
            if k < count {
                assert(new.block_steps(first, k) == module::body_steps(new@, region, k));
                assert(old.block_steps(first, k) == module::body_steps(old@, region, k));
            } else {
                assert(new@.effects[first + k] == old@.effects[first + k]);
            }
        }
        assert(module::body_does(new@, region, done));
        assert forall|k: int| 0 <= k < done.len() implies (#[trigger] done[k]).len()
            <= blocks[k].len() && done[k] == blocks[k].take(done[k].len() as int) by {
            assert(blocks[k].take(blocks[k].len() as int) =~= blocks[k]);
            assert(blocks[k].take(0) =~= Seq::<Step>::empty());
        }
        assert(module::begins(done, blocks));
        let some = labels.take(done.len() as int);
        assert forall|k: int| 0 <= k < some.len() implies #[trigger] module::body_label(
            new@,
            region,
            k,
        ) == some[k] by {
            assert(module::body_label(old@, region, k) == labels[k]);
        }
        assert(module::body_labelled(new@, region, some));
    }
}

/// Imports a function with a body, unless its symbol is there already. What
/// its body needs is provided after it. Where that fails, the function is given
/// up at the place that asked for what cannot be provided.
#[verifier::rlimit(60)]
pub fn import_function(
    program: &Program,
    ctx: &mut Context,
    module: BlockId,
    symbol: &String,
    origin: Origin,
) -> (r: Result<(), Failure>)
    requires
        module::program_wf(*program),
        old(ctx).wf(),
        old(ctx).has_block(module),
        module::has_origin(*program, origin),
        module::has_name(*program, module::owner_of(origin, symbol@), symbol@, origin),
    ensures
        module::extended(
            *program,
            module::owner_of(origin, symbol@),
            *final(ctx),
            *old(ctx),
            module,
            r is Ok,
        ),
        linkage::linked_since(
            *program,
            left_open(r, linkage::one_symbol(symbol@)),
            final(ctx)@,
            old(ctx)@,
            module,
        ),
        r is Ok ==> ir::has_symbol(module::symbols(final(ctx)@, module), symbol@),
        ir::has_symbol(module::symbols(old(ctx)@, module), symbol@) ==> r is Ok && *final(ctx)
            == *old(ctx),
        !ir::has_symbol(module::symbols(old(ctx)@, module), symbol@)
            ==> match function::sound_signature(
            *program,
            module::body_of(*program, origin),
            module::is_kernel(*program, origin),
        ) {
            Err(failure) => r == Err::<(), Failure>(failure) && *final(ctx) == *old(ctx),
            Ok((params, ty)) => {
                &&& ir::has_symbol(module::symbols(final(ctx)@, module), symbol@)
                &&& module::stands_at(
                    *program,
                    final(ctx)@,
                    module,
                    module::symbols(old(ctx)@, module).len() as int,
                    symbol@,
                    ty,
                    r is Ok,
                    origin,
                )
                &&& module::no_repeats(module::symbols(old(ctx)@, module)) ==> linkage::is_own(
                    *program,
                    module::symbols(final(ctx)@, module)[module::symbols(
                        old(ctx)@,
                        module,
                    ).len() as int],
                )
                &&& function::function_body(
                    *program,
                    module::body_of(*program, origin),
                    params,
                    old(ctx)@.effects.len(),
                ) is Err ==> r is Err
                &&& function::function_body(
                    *program,
                    module::body_of(*program, origin),
                    params,
                    old(ctx)@.effects.len(),
                ) is Ok && r is Err ==> exists|stop: int| #[trigger]
                    stopped_at(
                        *program,
                        origin,
                        params,
                        final(ctx)@,
                        module,
                        RegionId(old(ctx)@.regions.len() as usize),
                        stop,
                    )
            },
        },
        r is Ok ==> minimal::minimal(
            *program,
            final(ctx)@,
            old(ctx)@,
            module,
            minimal::named(symbol@),
        ),
        trace::happened(
            *program,
            Work::Import(origin, symbol@),
            final(ctx)@,
            old(ctx)@,
            module,
            r,
        ),
        forall|good: Set<Demand>| #[trigger]
            supported(*program, good) && always_clean(*program, origin, good) ==> r is Ok,
    decreases
            module::pending(*program, old(ctx)@, module) + if origin is Owner {
                1nat
            } else {
                0nat
            },
            0nat,
{
    let ghost before = *ctx;
    let ghost own = module::owner_of(origin, symbol@);
    if ctx.symbol_exists(module, symbol) {
        proof {
            module::lemma_extended_same(*program, own, before, module, true);
            lemma_import_stayed(*program, origin, symbol@, before@, module, Ok(()));
        }
        return Ok(());
    }
    let body: &Body = body_of(program, origin);
    let is_kernel: bool = origin_is_kernel(program, origin);
    let (first, regions): (usize, usize) = ctx.totals();
    let mut needs: Needs = Needs::new();
    let r: Result<(), Failure> = define_function(
        program,
        ctx,
        module,
        symbol.clone(),
        body,
        is_kernel,
        &mut needs,
    );
    let ghost middle = *ctx;
    let ghost wanted = function::sound_signature(*program, *body, is_kernel);
    proof {
        if let Ok((params, _)) = wanted {
            let first = before@.effects.len();
            function::lemma_body_needs(*program, *body, params, first);
            assert(needs@ =~= function::body_asked(*program, *body, params, first));
        }
        lemma_defined(
            *program,
            middle,
            before,
            module,
            symbol@,
            r,
            origin,
            (Seq::empty(), needs@),
        );
        module::lemma_pending(*program, middle@, before@, module);
        if wanted is Ok {
            if let Origin::Instance(index) = origin {
                lemma_listed_instance(*program, index);
                module::lemma_pending_less(
                    *program,
                    middle@,
                    before@,
                    module,
                    index as int,
                );
            }
        } else {
            assert(needs@ =~= Seq::<Asked>::empty());
            assert(r is Err);
            assert(needs@.len() == needs.list@.len());
            assert forall|good: Set<Demand>| #[trigger]
                supported(*program, good) && always_clean(*program, origin, good) implies false by {
                assert(clean_function(*program, origin, 0, good));
            }
        }
    }
    if needs.list.len() == 0 && r.is_err() {
        proof {
            assert forall|good: Set<Demand>| #[trigger]
                supported(*program, good) && always_clean(*program, origin, good) implies false by {
                assert(clean_function(*program, origin, before@.effects.len(), good));
            }
        }
        proof {
            linkage::lemma_linked_wider(
                *program,
                linkage::one_symbol(symbol@),
                linkage::any_symbol(),
                ctx@,
                before@,
                module,
            );
            if wanted is Ok {
                trace::lemma_none(*program, ctx@, module);
                lemma_import_trace(
                    *program,
                    origin,
                    symbol@,
                    ctx@,
                    ctx@,
                    before@,
                    module,
                    Ok(()),
                    r,
                );
            } else {
                lemma_import_stayed(*program, origin, symbol@, before@, module, r);
            }
        }
        return r;
    }
    assert(wanted is Ok);
    let (nested, served): (Result<(), Failure>, usize) = provide_all(
        program,
        ctx,
        module,
        &needs,
    );
    let ghost last = *ctx;
    proof {
        let (params, ty) = wanted->Ok_0;
        let region = RegionId(before@.regions.len() as usize);
        let k = module::symbols(before@, module).len() as int;
        module::lemma_extended_wider(
            *program,
            module::no_owner(),
            own,
            last,
            middle,
            module,
            nested is Ok,
        );
        module::lemma_extended_twice(
            *program,
            own,
            last,
            middle,
            before,
            module,
            false,
            nested is Ok,
        );
        module::lemma_symbols_stay(last@, middle@, module, symbol@);
        module::lemma_function_stays(
            *program,
            last@,
            middle@,
            module,
            ty,
            region,
            false,
            origin,
        );
        assert(module::same_inst(
            module::symbols(last@, module)[k],
            module::symbols(middle@, module)[k],
        ));
        assert(needs@ =~= Seq::<Asked>::empty() + needs@);
        if nested is Ok {
            let all = need::demands(needs@);
            assert(all.take(all.len() as int) =~= all);
        }
        module::lemma_body_stays(last@, middle@, module, region, ty);
        if r is Ok && nested is Ok {
            lemma_function_settled(
                *program,
                last,
                middle,
                before,
                module,
                symbol@,
                origin,
                params,
                ty,
                need::demands(needs@),
            );
        }
        if r is Ok {
            assert(r->Ok_0 == ());
        }
        lemma_import_trace(
            *program,
            origin,
            symbol@,
            last@,
            middle@,
            before@,
            module,
            nested,
            if nested is Ok {
                r
            } else {
                nested
            },
        );
        linkage::lemma_linked_twice(
            *program,
            linkage::one_symbol(symbol@),
            left_open(nested, linkage::no_symbol()),
            if r is Ok && nested is Ok {
                linkage::one_symbol(symbol@)
            } else {
                linkage::any_symbol()
            },
            last@,
            middle@,
            before@,
            module,
        );
        assert forall|good: Set<Demand>| #[trigger]
            supported(*program, good) && always_clean(*program, origin, good) implies r is Ok
            && nested is Ok by {
            assert(clean_function(*program, origin, before@.effects.len(), good));
            assert(all_in(need::demands(needs@), good));
        }
    }
    if nested.is_err() {
        let region: RegionId = RegionId(regions);
        proof {
            assert(last@.regions[region.0 as int] == middle@.regions[region.0 as int]);
        }
        give_up(ctx, region, body, first, &needs.list[served].mark);
        proof {
            let (params, ty) = wanted->Ok_0;
            let k = module::symbols(before@, module).len() as int;
            let mark = needs.list@[served as int].mark;
            assert(needs@[served as int] == needs.list@[served as int]@);
            assert(ctx@.effects[module.0 as int] == last@.effects[module.0 as int]);
            assert(module::symbols(ctx@, module) == module::symbols(last@, module));
            lemma_given_up(
                *program,
                origin,
                params,
                *ctx,
                last,
                module,
                region,
                ty,
                mark,
            );
            module::lemma_sound_function(
                *program,
                own,
                ctx@,
                module,
                module::symbols(ctx@, module)[k],
                false,
                origin,
            );
            module::lemma_changed_first(*program, own, *ctx, last, middle, before, module);
            if function::function_body(*program, *body, params, before@.effects.len()) is Ok {
                assert(stopped_at(
                    *program,
                    origin,
                    params,
                    ctx@,
                    module,
                    region,
                    served as int,
                ));
            }
        }
    }
    match nested {
        Ok(()) => r,
        Err(failure) => Err(failure),
    }
}

/// Whether the symbol of a list has a linkage.
pub open spec fn is_linked(insts: Seq<Inst>, symbol: Seq<char>, linkage: Linkage) -> bool {
    ir::position_of(insts, symbol) matches Some(i) && ir::relinked(insts[i], linkage) == insts[i]
}

/// A symbol has the linkage that it was given.
proof fn lemma_linked(old: World, module: BlockId, symbol: Seq<char>, linkage: Linkage)
    requires
        module.0 < old.effects.len(),
        ir::has_symbol(module::symbols(old, module), symbol),
    ensures
        ({
            let new = old.with_symbol(
                module,
                symbol,
                |inst: Inst| ir::relinked(inst, linkage),
            );
            &&& ir::has_symbol(module::symbols(new, module), symbol)
            &&& is_linked(module::symbols(new, module), symbol, linkage)
        }),
{
    let insts = module::symbols(old, module);
    let new = old.with_symbol(module, symbol, |inst: Inst| ir::relinked(inst, linkage));
    let after = module::symbols(new, module);
    ir::lemma_position(insts, symbol);
    ir::lemma_position(after, symbol);
    let i = ir::position_of(insts, symbol)->0;
    assert(after[i] == ir::relinked(insts[i], linkage));
    assert forall|j: int| 0 <= j < i implies ir::symbol_of(#[trigger] after[j]) != Some(symbol) by {
        assert(after[j] == insts[j]);
    }
    assert(ir::symbol_of(after[i]) == Some(symbol));
    assert(ir::position_of(after, symbol) == Some(i));
}

/// Changing a linkage adds nothing.
proof fn lemma_relinked_minimal(
    program: Program,
    new: World,
    middle: World,
    old: World,
    module: BlockId,
    roots: spec_fn(Inst) -> bool,
)
    requires
        module::module_grew(middle, old, module),
        module::module_grew(new, middle, module),
        module::symbols(new, module).len() == module::symbols(middle, module).len(),
        minimal::minimal(program, middle, old, module, roots),
    ensures
        minimal::minimal(program, new, old, module, roots),
{
    minimal::lemma_minimal_same(program, new, middle, module, roots);
    minimal::lemma_minimal_twice(program, new, middle, old, module, roots, roots, roots);
}

/// Imports an instance, unless its symbol is there already. The copy is kept
/// internal, since other objects may hold one too.
pub fn import_upstream_instance(
    program: &Program,
    ctx: &mut Context,
    module: BlockId,
    index: usize,
) -> (r: Result<(), Failure>)
    requires
        module::program_wf(*program),
        old(ctx).wf(),
        old(ctx).has_block(module),
        index < program.instances@.len(),
    ensures
        provided(*program, *final(ctx), *old(ctx), module, r),
        ({
            let symbol = need::instance_symbol(program.instances@[index as int]);
            let there = ir::has_symbol(module::symbols(old(ctx)@, module), symbol);
            &&& r is Ok ==> ir::has_symbol(module::symbols(final(ctx)@, module), symbol)
            &&& there ==> r is Ok && *final(ctx) == *old(ctx)
            &&& !there && r is Ok && !program.export_all ==> is_linked(
                module::symbols(final(ctx)@, module),
                symbol,
                Linkage::Internal,
            ) || ir::is_seen(module::symbols(final(ctx)@, module), symbol)
        }),
        r is Ok ==> minimal::minimal(
            *program,
            final(ctx)@,
            old(ctx)@,
            module,
            minimal::named(need::instance_symbol(program.instances@[index as int])),
        ),
        trace::happened(
            *program,
            Work::Import(
                Origin::Instance(index),
                need::instance_symbol(program.instances@[index as int]),
            ),
            final(ctx)@,
            old(ctx)@,
            module,
            r,
        ),
        forall|good: Set<Demand>| #[trigger]
            supported(*program, good) && always_clean(*program, Origin::Instance(index), good) ==> r is Ok,
    decreases module::pending(*program, old(ctx)@, module), 1nat,
{
    let ghost before = *ctx;
    let symbol: String = instance_symbol_of(&program.instances[index]);
    if ctx.symbol_exists(module, &symbol) {
        proof {
            module::lemma_extended_same(*program, module::no_owner(), before, module, true);
            lemma_import_stayed(
                *program,
                Origin::Instance(index),
                symbol@,
                before@,
                module,
                Ok(()),
            );
        }
        return Ok(());
    }
    let r: Result<(), Failure> = import_function(
        program,
        ctx,
        module,
        &symbol,
        Origin::Instance(index),
    );
    let ghost middle = *ctx;
    proof {
        module::lemma_extended_wider(
            *program,
            module::owner_of(Origin::Instance(index), symbol@),
            module::no_owner(),
            middle,
            before,
            module,
            r is Ok,
        );
    }
    r?;
    conceal(program, ctx, module, &symbol);
    proof {
        module::lemma_extended_twice(
            *program,
            module::no_owner(),
            *ctx,
            middle,
            before,
            module,
            true,
            true,
        );
        lemma_linked(middle@, module, symbol@, Linkage::Internal);
        let k = module::symbols(before@, module).len() as int;
        assert(module::symbols(middle@, module)[k] is MirFunc);
        assert(linkage::is_brought_at(*program, symbol@, index));
        linkage::lemma_linked_internal(*program, ctx@, middle@, before@, module, symbol@);
        lemma_relinked_minimal(
            *program,
            ctx@,
            middle@,
            before@,
            module,
            minimal::named(symbol@),
        );
    }
    Ok(())
}

/// A global that cannot be completed is emptied.
proof fn lemma_emptied(
    program: Program,
    new: Context,
    last: Context,
    middle: Context,
    old: Context,
    module: BlockId,
    symbol: Seq<char>,
    inst: Inst,
)
    requires
        old.has_block(module),
        module::extended(program, module::no_owner(), middle, old, module, false),
        module::extended(program, module::no_owner(), last, middle, module, false),
        middle@ == old@.then_in(module, inst),
        !ir::has_symbol(module::symbols(old@, module), symbol),
        ir::symbol_of(inst) == Some(symbol),
        inst is Global,
        new.grew(last),
        new.dialects == last.dialects,
        new@ == last@.with_symbol(module, symbol, |other: Inst| ir::emptied(other)),
        module::sound_inst(
            program,
            module::no_owner(),
            new@,
            module,
            ir::emptied(inst),
            false,
        ),
    ensures
        module::extended(program, module::no_owner(), new, old, module, false),
        module::symbols(old@, module).len() < module::symbols(new@, module).len(),
        module::symbols(new@, module)[module::symbols(old@, module).len() as int]
            == ir::emptied(inst),
        forall|open: spec_fn(Seq<char>) -> bool|
            linkage::linked_since(program, open, last@, old@, module)
                ==> #[trigger] linkage::linked_since(program, open, new@, old@, module),
        trace::state_of(new@, module) == trace::state_of(last@, module),
{
    let a = module::symbols(old@, module);
    let c = module::symbols(last@, module);
    let d = module::symbols(new@, module);
    let k = a.len() as int;
    module::lemma_extended_twice(
        program,
        module::no_owner(),
        last,
        middle,
        old,
        module,
        false,
        false,
    );
    ir::lemma_position(a, symbol);
    ir::lemma_position(c, symbol);
    assert(module::symbols(middle@, module)[k] == inst);
    assert(module::same_inst(c[k], inst));
    assert(c[k] == inst);
    assert forall|j: int| 0 <= j < k implies ir::symbol_of(#[trigger] c[j]) != Some(symbol) by {
        assert(module::same_inst(c[j], a[j]));
        assert(ir::symbol_of(c[j]) == ir::symbol_of(a[j]));
    }
    assert(ir::position_of(c, symbol) == Some(k));
    assert(d == c.update(k, ir::emptied(inst)));
    assert forall|b: int| 0 <= b < last@.effects.len() && b != module.0 implies #[trigger] new@.effects[b]
        == last@.effects[b] by {}
    module::lemma_changed_first(
        program,
        module::no_owner(),
        new,
        last,
        middle,
        old,
        module,
    );
    assert(trace::names_of(d) =~= trace::names_of(c));
    assert forall|open: spec_fn(Seq<char>) -> bool|
        linkage::linked_since(
            program,
            open,
            last@,
            old@,
            module,
        ) implies #[trigger] linkage::linked_since(program, open, new@, old@, module) by {
        if module::no_repeats(a) {
            assert forall|i: int| 0 <= i < a.len() implies linkage::is_kept(
                program,
                #[trigger] d[i],
                a[i],
            ) by {
                assert(linkage::is_kept(program, c[i], a[i]));
            }
            assert forall|i: int| a.len() <= i < d.len() implies linkage::is_linked(
                program,
                open,
                #[trigger] d[i],
            ) by {
                assert(linkage::is_linked(program, open, c[i]));
            }
        }
    }
}

/// A global that was added is settled once what it points to is there.
proof fn lemma_global_settled(
    program: Program,
    new: Context,
    middle: Context,
    old: Context,
    module: BlockId,
    inst: Inst,
)
    requires
        old.wf(),
        old.has_block(module),
        middle.grew(old),
        middle.dialects == old.dialects,
        middle@ == old@.then_in(module, inst),
        module::sound_inst(program, module::no_owner(), middle@, module, inst, false),
        module::extended(program, module::no_owner(), new, middle, module, true),
        inst is Global,
        module::is_fresh(module::symbols(old@, module), inst),
        module::sound_inst(program, module::no_owner(), new@, module, inst, true),
    ensures
        module::extended(program, module::no_owner(), new, old, module, true),
{
    module::lemma_added(program, module::no_owner(), middle, old, module, inst, false);
    module::lemma_extended_twice(program, module::no_owner(), new, middle, old, module, false, true);
    let a = module::symbols(old@, module);
    let b = module::symbols(middle@, module);
    let c = module::symbols(new@, module);
    assert forall|k: int| a.len() <= k < c.len() implies module::sound_inst(
        program,
        module::no_owner(),
        new@,
        module,
        #[trigger] c[k],
        true,
    ) by {
        if k == a.len() {
            assert(b[k] == inst);
            assert(module::same_inst(c[k], b[k]));
            assert(c[k] == inst);
        } else {
            assert(module::sound_inst(program, module::no_owner(), new@, module, c[k], true));
        }
    }
}

/// Makes the global that holds memory, unless its symbol is there already, and
/// provides what the memory points to. Where that fails, the global stays
/// without contents.
pub fn emit_allocation_global(
    program: &Program,
    ctx: &mut Context,
    module: BlockId,
    alloc: usize,
    memory: &Memory,
) -> (r: Result<(), Failure>)
    requires
        module::program_wf(*program),
        old(ctx).wf(),
        old(ctx).has_block(module),
        need::memory_at(*program, alloc) == Some(*memory),
    ensures
        provided(*program, *final(ctx), *old(ctx), module, r),
        r is Ok ==> ir::has_symbol(
            module::symbols(final(ctx)@, module),
            need::memory_symbol(*memory),
        ),
        r is Ok ==> minimal::minimal(
            *program,
            final(ctx)@,
            old(ctx)@,
            module,
            minimal::holding(*program, *memory),
        ),
        trace::happened(
            *program,
            Work::Memory(*memory),
            final(ctx)@,
            old(ctx)@,
            module,
            r,
        ),
        ir::has_symbol(
            module::symbols(old(ctx)@, module),
            need::memory_symbol(*memory),
        ) ==> r is Ok && *final(ctx) == *old(ctx),
        r is Err ==> {
            let k = module::symbols(old(ctx)@, module).len() as int;
            &&& k < module::symbols(final(ctx)@, module).len()
            &&& module::symbols(final(ctx)@, module)[k] == globals::empty_global(
                need::memory_symbol(*memory),
                *memory,
                Linkage::Internal,
                false,
            )
        },
        forall|good: Set<Demand>| #[trigger]
            supported(*program, good) && clean_memory(*program, *memory, good) ==> r is Ok,
    decreases module::pending(*program, old(ctx)@, module), 1nat,
{
    let ghost before = *ctx;
    let symbol: String = memory_symbol_of(memory);
    proof {
        trace::lemma_names(module::symbols(before@, module), symbol@);
        reveal(trace::rule);
    }
    if ctx.symbol_exists(module, &symbol) {
        proof {
            module::lemma_extended_same(*program, module::no_owner(), before, module, true);
            trace::lemma_stayed(
                *program,
                Work::Memory(*memory),
                before@,
                before@,
                module,
                Ok(()),
            );
        }
        return Ok(());
    }
    let ghost made = globals::data_global(
        *program,
        symbol@,
        *memory,
        Linkage::Internal,
        false,
        None,
    );
    let ghost empty = globals::empty_global(symbol@, *memory, Linkage::Internal, false);
    let none: Option<String> = None;
    let (complete, needs): (Result<(), Failure>, Needs) = define_data_global(
        program,
        ctx,
        module,
        &symbol,
        memory,
        Linkage::Internal,
        false,
        &none,
    );
    let ghost middle = *ctx;
    let ghost inst = if made is Ok {
        made->Ok_0
    } else {
        empty
    };
    proof {
        let k = 2 * program.instances@.len() + program.statics@.len() + alloc;
        assert(module::is_memory(
            *program,
            module::symbols(middle@, module),
            inst,
            false,
            alloc,
        ));
        module::lemma_added(*program, module::no_owner(), middle, before, module, inst, false);
        module::lemma_has_last(module::symbols(middle@, module), symbol@);
        lemma_listed_memory(*program, alloc, *memory);
        module::lemma_pending_less(*program, middle@, before@, module, k as int);
    }
    let (nested, _): (Result<(), Failure>, usize) = provide_all(program, ctx, module, &needs);
    let ghost last = *ctx;
    if nested.is_err() {
        ctx.empty_global(module, &symbol);
    }
    let r: Result<(), Failure> = match nested {
        Ok(()) => complete,
        Err(failure) => Err(failure),
    };
    proof {
        module::lemma_extended_twice(
            *program,
            module::no_owner(),
            last,
            middle,
            before,
            module,
            false,
            nested is Ok,
        );
        module::lemma_symbols_stay(last@, middle@, module, symbol@);
        if complete is Ok {
            assert(complete->Ok_0 == ());
        }
        lemma_global_trace(
            *program,
            Work::Memory(*memory),
            symbol@,
            made,
            globals::targets(*program, *memory, memory.pointers@.len()),
            last@,
            middle@,
            before@,
            module,
            inst,
            nested,
        );
        linkage::lemma_linked_one(
            *program,
            linkage::no_symbol(),
            middle@,
            before@,
            module,
            inst,
        );
        linkage::lemma_linked_twice(
            *program,
            linkage::no_symbol(),
            left_open(nested, linkage::no_symbol()),
            left_open(r, linkage::no_symbol()),
            last@,
            middle@,
            before@,
            module,
        );
        let k = module::symbols(before@, module).len() as int;
        assert(module::symbols(middle@, module)[k] == inst);
        assert(k < module::symbols(last@, module).len());
        assert(module::same_inst(module::symbols(last@, module)[k], inst));
        assert(module::symbols(last@, module)[k] == inst);
        if nested is Err {
            globals::lemma_emptied(
                *program,
                symbol@,
                *memory,
                Linkage::Internal,
                false,
                None,
            );
            assert(module::is_memory(
                *program,
                module::symbols(ctx@, module),
                empty,
                false,
                alloc,
            ));
            lemma_emptied(*program, *ctx, last, middle, before, module, symbol@, inst);
        }
        if r is Ok {
            let all = need::demands(needs@);
            assert(all.take(all.len() as int) =~= all);
            assert(module::is_memory(
                *program,
                module::symbols(ctx@, module),
                inst,
                true,
                alloc,
            ));
            lemma_global_settled(*program, *ctx, middle, before, module, inst);
            let wants = need::demands(needs@);
            assert forall|i: int| 0 <= i < wants.len() implies minimal::inst_calls(
                *program,
                middle@,
                module,
                module::symbols(middle@, module).last(),
                #[trigger] wants[i],
            ) by {
                assert(wants.contains(wants[i]));
                assert(minimal::memory_calls(
                    *program,
                    module::symbols(middle@, module),
                    inst,
                    alloc,
                    wants[i],
                ));
            }
            minimal::lemma_minimal_head(
                *program,
                ctx@,
                middle@,
                before@,
                module,
                minimal::holding(*program, *memory),
                wants,
            );
        }
    }
    r
}

/// The need of a static, which each thread may have for itself.
pub open spec fn static_demand(index: usize, thread_local: bool) -> Demand {
    if thread_local {
        Demand::ThreadLocal(index)
    } else {
        Demand::Static(index)
    }
}

/// Whether a static that was asked for stands at the end of what was there,
/// without contents, unless the program has none.
pub open spec fn unfinished(
    program: Program,
    new: Seq<Inst>,
    old: Seq<Inst>,
    index: usize,
    thread_local: bool,
) -> bool {
    need::static_symbol(program, index) matches Ok(symbol) ==> {
        &&& old.len() < new.len()
        &&& new[old.len() as int] == globals::empty_static(
            symbol,
            program.statics@[index as int],
            thread_local,
        )
    }
}

/// Makes a static, unless its symbol is there already, and provides what it
/// points to. Where that fails, the static stays without contents.
fn provide_static(
    program: &Program,
    ctx: &mut Context,
    module: BlockId,
    index: usize,
    thread_local: bool,
) -> (r: Result<(), Failure>)
    requires
        module::program_wf(*program),
        old(ctx).wf(),
        old(ctx).has_block(module),
    ensures
        provided(*program, *final(ctx), *old(ctx), module, r),
        r is Ok ==> (need::static_symbol(*program, index) matches Ok(symbol) && ir::has_symbol(
            module::symbols(final(ctx)@, module),
            symbol,
        )),
        need::static_symbol(*program, index) matches Err(failure) ==> r == Err::<(), Failure>(
            failure,
        ),
        r is Ok ==> minimal::minimal(
            *program,
            final(ctx)@,
            old(ctx)@,
            module,
            minimal::answer_to(*program, static_demand(index, thread_local)),
        ),
        trace::happened(
            *program,
            Work::Need(static_demand(index, thread_local)),
            final(ctx)@,
            old(ctx)@,
            module,
            r,
        ),
        need::static_symbol(*program, index) matches Ok(symbol) && ir::has_symbol(
            module::symbols(old(ctx)@, module),
            symbol,
        ) ==> r is Ok && *final(ctx) == *old(ctx),
        r is Err ==> unfinished(
            *program,
            module::symbols(final(ctx)@, module),
            module::symbols(old(ctx)@, module),
            index,
            thread_local,
        ),
        forall|good: Set<Demand>| #[trigger]
            supported(*program, good) && clean_static(*program, index, good) ==> r is Ok,
    decreases module::pending(*program, old(ctx)@, module), 1nat,
{
    let ghost before = *ctx;
    proof {
        module::lemma_extended_same(*program, module::no_owner(), before, module, true);
        module::lemma_extended_same(*program, module::no_owner(), before, module, false);
    }
    let ghost work = Work::Need(static_demand(index, thread_local));
    proof {
        reveal(trace::rule);
        if let Err(failure) = need::static_symbol(*program, index) {
            trace::lemma_stayed(*program, work, before@, before@, module, Err(failure));
        }
    }
    let symbol: String = static_symbol_of(program, index)?;
    proof {
        trace::lemma_names(module::symbols(before@, module), symbol@);
    }
    if ctx.symbol_exists(module, &symbol) {
        proof {
            trace::lemma_stayed(*program, work, before@, before@, module, Ok(()));
        }
        return Ok(());
    }
    let item: &Static = &program.statics[index];
    let ghost made = globals::static_global(*program, symbol@, *item, thread_local);
    let ghost empty = globals::empty_static(symbol@, *item, thread_local);
    let (complete, needs): (Result<(), Failure>, Needs) = define_static_global(
        program,
        ctx,
        module,
        &symbol,
        item,
        thread_local,
    );
    let ghost middle = *ctx;
    let ghost inst = if made is Ok {
        made->Ok_0
    } else {
        empty
    };
    proof {
        let k = 2 * program.instances@.len() + index;
        assert(module::is_static(
            *program,
            module::symbols(middle@, module),
            inst,
            false,
            index,
            thread_local,
        ));
        module::lemma_added(*program, module::no_owner(), middle, before, module, inst, false);
        module::lemma_has_last(module::symbols(middle@, module), symbol@);
        lemma_listed_static(*program, index);
        module::lemma_pending_less(*program, middle@, before@, module, k as int);
    }
    let (nested, _): (Result<(), Failure>, usize) = provide_all(program, ctx, module, &needs);
    let ghost last = *ctx;
    if nested.is_err() {
        ctx.empty_global(module, &symbol);
    }
    let r: Result<(), Failure> = match nested {
        Ok(()) => complete,
        Err(failure) => Err(failure),
    };
    proof {
        module::lemma_extended_twice(
            *program,
            module::no_owner(),
            last,
            middle,
            before,
            module,
            false,
            nested is Ok,
        );
        module::lemma_symbols_stay(last@, middle@, module, symbol@);
        if complete is Ok {
            assert(complete->Ok_0 == ());
        }
        lemma_global_trace(
            *program,
            work,
            symbol@,
            made,
            globals::static_targets(*program, *item),
            last@,
            middle@,
            before@,
            module,
            inst,
            nested,
        );
        linkage::lemma_linked_one(
            *program,
            linkage::no_symbol(),
            middle@,
            before@,
            module,
            inst,
        );
        linkage::lemma_linked_twice(
            *program,
            linkage::no_symbol(),
            left_open(nested, linkage::no_symbol()),
            left_open(r, linkage::no_symbol()),
            last@,
            middle@,
            before@,
            module,
        );
        let k = module::symbols(before@, module).len() as int;
        assert(module::symbols(middle@, module)[k] == inst);
        assert(k < module::symbols(last@, module).len());
        assert(module::same_inst(module::symbols(last@, module)[k], inst));
        assert(module::symbols(last@, module)[k] == inst);
        if nested is Err {
            if item.initializer is Some {
                globals::lemma_emptied(
                    *program,
                    symbol@,
                    item.initializer->0,
                    Linkage::External,
                    thread_local,
                    globals::section_of(*item, thread_local),
                );
            }
            assert(module::is_static(
                *program,
                module::symbols(ctx@, module),
                empty,
                false,
                index,
                thread_local,
            ));
            lemma_emptied(*program, *ctx, last, middle, before, module, symbol@, inst);
        }
        if r is Ok {
            let all = need::demands(needs@);
            assert(all.take(all.len() as int) =~= all);
            assert(module::is_static(
                *program,
                module::symbols(ctx@, module),
                inst,
                true,
                index,
                thread_local,
            ));
            lemma_global_settled(*program, *ctx, middle, before, module, inst);
            let wants = need::demands(needs@);
            assert forall|i: int| 0 <= i < wants.len() implies minimal::inst_calls(
                *program,
                middle@,
                module,
                module::symbols(middle@, module).last(),
                #[trigger] wants[i],
            ) by {
                assert(wants.contains(wants[i]));
                assert(minimal::static_calls(
                    *program,
                    module::symbols(middle@, module),
                    inst,
                    index,
                    thread_local,
                    wants[i],
                ));
            }
            minimal::lemma_minimal_head(
                *program,
                ctx@,
                middle@,
                before@,
                module,
                minimal::answer_to(*program, static_demand(index, thread_local)),
                wants,
            );
        }
    }
    r
}

/// Makes a static, unless its symbol is there already.
pub fn declare_static_global(
    program: &Program,
    ctx: &mut Context,
    module: BlockId,
    index: usize,
) -> (r: Result<(), Failure>)
    requires
        module::program_wf(*program),
        old(ctx).wf(),
        old(ctx).has_block(module),
    ensures
        provided(*program, *final(ctx), *old(ctx), module, r),
        r is Ok ==> module::present(
            *program,
            module::symbols(final(ctx)@, module),
            Demand::Static(index),
        ),
        need::static_symbol(*program, index) matches Err(failure) ==> r == Err::<(), Failure>(
            failure,
        ),
        r is Ok ==> minimal::minimal(
            *program,
            final(ctx)@,
            old(ctx)@,
            module,
            minimal::answer_to(*program, Demand::Static(index)),
        ),
        trace::happened(
            *program,
            Work::Need(Demand::Static(index)),
            final(ctx)@,
            old(ctx)@,
            module,
            r,
        ),
        need::static_symbol(*program, index) matches Ok(symbol) && ir::has_symbol(
            module::symbols(old(ctx)@, module),
            symbol,
        ) ==> r is Ok && *final(ctx) == *old(ctx),
        r is Err ==> unfinished(
            *program,
            module::symbols(final(ctx)@, module),
            module::symbols(old(ctx)@, module),
            index,
            false,
        ),
        forall|good: Set<Demand>| #[trigger]
            supported(*program, good) && clean_static(*program, index, good) ==> r is Ok,
    decreases module::pending(*program, old(ctx)@, module), 2nat,
{
    provide_static(program, ctx, module, index, false)
}

/// Makes a static of each thread, unless its symbol is there already.
pub fn declare_thread_local_global(
    program: &Program,
    ctx: &mut Context,
    module: BlockId,
    index: usize,
) -> (r: Result<(), Failure>)
    requires
        module::program_wf(*program),
        old(ctx).wf(),
        old(ctx).has_block(module),
    ensures
        provided(*program, *final(ctx), *old(ctx), module, r),
        r is Ok ==> module::present(
            *program,
            module::symbols(final(ctx)@, module),
            Demand::ThreadLocal(index),
        ),
        need::static_symbol(*program, index) matches Err(failure) ==> r == Err::<(), Failure>(
            failure,
        ),
        r is Ok ==> minimal::minimal(
            *program,
            final(ctx)@,
            old(ctx)@,
            module,
            minimal::answer_to(*program, Demand::ThreadLocal(index)),
        ),
        trace::happened(
            *program,
            Work::Need(Demand::ThreadLocal(index)),
            final(ctx)@,
            old(ctx)@,
            module,
            r,
        ),
        need::static_symbol(*program, index) matches Ok(symbol) && ir::has_symbol(
            module::symbols(old(ctx)@, module),
            symbol,
        ) ==> r is Ok && *final(ctx) == *old(ctx),
        r is Err ==> unfinished(
            *program,
            module::symbols(final(ctx)@, module),
            module::symbols(old(ctx)@, module),
            index,
            true,
        ),
        forall|good: Set<Demand>| #[trigger]
            supported(*program, good) && clean_static(*program, index, good) ==> r is Ok,
    decreases module::pending(*program, old(ctx)@, module), 2nat,
{
    provide_static(program, ctx, module, index, true)
}

/// A declaration stands in the module.
proof fn lemma_declared(
    program: Program,
    new: Context,
    old: Context,
    module: BlockId,
    symbol: Seq<char>,
    inputs: Seq<TypeHandle>,
    result: Option<TypeHandle>,
)
    requires
        old.wf(),
        old.has_block(module),
        new.grew(old),
        new.dialects == old.dialects,
        new@ == thunk::with_declaration(old@, module, symbol, inputs, result),
    ensures
        module::extended(program, module::no_owner(), new, old, module, true),
        ir::has_llvm_function(module::symbols(new@, module), symbol),
{
    old.lemma_sizes();
    if !ir::has_llvm_function(module::symbols(old@, module), symbol) {
        let inst = globals::declaration(symbol, inputs, result);
        assert(inst->LlvmFunc_ty == globals::declared_type(inputs, result));
        assert(module::sound_inst(program, module::no_owner(), new@, module, inst, true));
        module::lemma_added(program, module::no_owner(), new, old, module, inst, true);
        let list = module::symbols(new@, module);
        assert(list[list.len() - 1] == inst);
    }
}

/// Makes the function that forwards to an instance of another object, unless
/// its symbol is there already.
pub fn emit_fn_ptr_thunk(program: &Program, ctx: &mut Context, module: BlockId, index: usize) -> (r:
    Result<(), Failure>)
    requires
        module::program_wf(*program),
        old(ctx).wf(),
        old(ctx).has_block(module),
        index < program.instances@.len(),
    ensures
        provided(*program, *final(ctx), *old(ctx), module, r),
        r is Ok ==> ir::has_symbol(
            module::symbols(final(ctx)@, module),
            need::thunk_symbol(program.instances@[index as int]),
        ),
        r is Ok ==> minimal::minimal(
            *program,
            final(ctx)@,
            old(ctx)@,
            module,
            minimal::answer_to(*program, Demand::Thunk(index)),
        ),
        trace::happened(
            *program,
            Work::Need(Demand::Thunk(index)),
            final(ctx)@,
            old(ctx)@,
            module,
            r,
        ),
        ir::has_symbol(
            module::symbols(old(ctx)@, module),
            need::thunk_symbol(program.instances@[index as int]),
        ) ==> r is Ok && *final(ctx) == *old(ctx),
        clean_thunk(*program, index) ==> r is Ok,
{
    let ghost before = *ctx;
    let ghost instance = program.instances@[index as int];
    proof {
        module::lemma_extended_same(*program, module::no_owner(), before, module, true);
        module::lemma_extended_same(*program, module::no_owner(), before, module, false);
        before.lemma_sizes();
    }
    let symbol: String = thunk_symbol_of(&program.instances[index]);
    let ghost work = Work::Need(Demand::Thunk(index));
    proof {
        reveal(trace::rule);
        trace::lemma_names(module::symbols(before@, module), symbol@);
        trace::lemma_names(module::symbols(before@, module), need::instance_symbol(instance));
    }
    if ctx.symbol_exists(module, &symbol) {
        proof {
            trace::lemma_stayed(*program, work, before@, before@, module, Ok(()));
        }
        return Ok(());
    }
    proof {
        let parts = thunk::passed_signature(program.types, instance.signature);
        if let Err(failure) = parts {
            trace::lemma_stayed(*program, work, before@, before@, module, Err(failure));
        }
    }
    define_thunk(program, ctx, module, &program.instances[index])?;
    let ghost middle = *ctx;
    proof {
        let (inputs, result) = thunk::passed_signature(
            program.types,
            instance.signature,
        )->Ok_0;
        let ty = types::function_of(inputs, result);
        let declared = thunk::with_declaration(
            before@,
            module,
            need::instance_symbol(instance),
            inputs,
            result,
        );
        let region = RegionId(before@.regions.len() as usize);
        lemma_thunk_added(
            *program,
            middle,
            before,
            declared,
            module,
            index,
            inputs,
            result,
        );
        module::lemma_has_last(module::symbols(middle@, module), symbol@);
        trace::lemma_node(
            *program,
            work,
            middle@,
            before@,
            module,
            Ok(()),
            Seq::empty(),
        );
    }
    conceal(program, ctx, module, &symbol);
    proof {
        module::lemma_extended_twice(
            *program,
            module::no_owner(),
            *ctx,
            middle,
            before,
            module,
            true,
            true,
        );
        module::lemma_symbols_stay(ctx@, middle@, module, symbol@);
        let last = module::symbols(middle@, module).len() - 1;
        assert(module::symbols(middle@, module)[last] is MirFunc);
        assert(linkage::is_brought_at(*program, symbol@, index));
        linkage::lemma_linked_internal(*program, ctx@, middle@, before@, module, symbol@);
    }
    Ok(())
}

/// A function that forwards to another is added, after the declaration of
/// that one.
proof fn lemma_thunk_added(
    program: Program,
    new: Context,
    old: Context,
    declared: World,
    module: BlockId,
    index: usize,
    inputs: Seq<TypeHandle>,
    result: Option<TypeHandle>,
)
    requires
        old.wf(),
        old.has_block(module),
        index < program.instances@.len(),
        !ir::has_symbol(
            module::symbols(old@, module),
            need::thunk_symbol(program.instances@[index as int]),
        ),
        need::thunk_symbol(program.instances@[index as int]) != need::instance_symbol(
            program.instances@[index as int],
        ),
        new.grew(old),
        new.dialects == old.dialects,
        thunk::passed_signature(
            program.types,
            program.instances@[index as int].signature,
        ) == Ok::<(Seq<TypeHandle>, Option<TypeHandle>), Failure>((inputs, result)),
        declared == thunk::with_declaration(
            old@,
            module,
            need::instance_symbol(program.instances@[index as int]),
            inputs,
            result,
        ),
        new@.has_function(
            declared,
            module,
            need::thunk_symbol(program.instances@[index as int]),
            types::function_of(inputs, result),
            1,
        ),
        meaning::steps_of(new@.effects[old@.effects.len() as int]) == thunk::forwarding(
            old@.effects.len(),
            need::instance_symbol(program.instances@[index as int]),
            inputs,
            result,
        ),
    ensures
        module::extended(program, module::no_owner(), new, old, module, true),
        linkage::linked_since(
            program,
            linkage::one_symbol(need::thunk_symbol(program.instances@[index as int])),
            new@,
            old@,
            module,
        ),
        module::symbols(new@, module).len() > 0,
        module::symbols(new@, module).last() is MirFunc,
        trace::state_of(new@, module) == ({
            let instance = program.instances@[index as int];
            let before = trace::state_of(old@, module);
            let declared = before.declaring(need::instance_symbol(instance));
            trace::State {
                names: declared.with(need::thunk_symbol(instance)).names,
                blocks: before.blocks + 1,
            }
        }),
        ir::symbol_of(module::symbols(new@, module).last()) == Some(
            need::thunk_symbol(program.instances@[index as int]),
        ),
{
    old.lemma_sizes();
    let instance = program.instances@[index as int];
    let symbol = need::instance_symbol(instance);
    let thunk_symbol = need::thunk_symbol(instance);
    let ty = types::function_of(inputs, result);
    let region = RegionId(old@.regions.len() as usize);
    let a = module::symbols(old@, module);
    let b = module::symbols(declared, module);
    let c = module::symbols(new@, module);
    module::lemma_function_added(new@, declared, module, thunk_symbol, ty, 1);
    let inst = globals::declaration(symbol, inputs, result);
    assert(module::module_grew(declared, old@, module)) by {
        if !ir::has_llvm_function(a, symbol) {
            assert(b == a.push(inst));
        }
    }
    module::lemma_grew_twice(new@, declared, old@, module);
    assert(ir::has_llvm_function(b, symbol)) by {
        if !ir::has_llvm_function(a, symbol) {
            assert(b[b.len() - 1] == inst);
        }
    }
    module::lemma_symbols_stay(new@, declared, module, symbol);
    assert(module::no_repeats(a) ==> module::no_repeats(b)) by {
        if !ir::has_llvm_function(a, symbol) {
            module::lemma_one_fresh(a, inst);
        }
    }
    assert(c =~= b.push(c.last()));
    ir::lemma_position(a, thunk_symbol);
    ir::lemma_position(b, thunk_symbol);
    module::lemma_one_fresh(b, c.last());
    let kept = linkage::one_symbol(thunk_symbol);
    if ir::has_llvm_function(a, symbol) {
        linkage::lemma_linked_same(program, kept, declared, old@, module);
    } else {
        linkage::lemma_linked_one(program, kept, declared, old@, module, inst);
    }
    linkage::lemma_linked_one(program, kept, new@, declared, module, c.last());
    linkage::lemma_linked_twice(program, kept, kept, kept, new@, declared, old@, module);
    trace::lemma_names(a, symbol);
    trace::lemma_more_names(a, inst);
    trace::lemma_more_names(b, c.last());
    let steps = thunk::forwarding(old@.effects.len(), symbol, inputs, result);
    assert(module::body_steps(new@, region, 0) == steps);
    assert(module::body_does(new@, region, seq![steps]));
    assert(module::body_label(new@, region, 0) == "entry"@);
    assert(module::body_labelled(new@, region, seq!["entry"@]));
    assert(module::is_thunk(program, new@, module, thunk_symbol, ty, region, true, index));
    assert forall|k: int| a.len() <= k < c.len() implies module::sound_inst(
        program,
        module::no_owner(),
        new@,
        module,
        #[trigger] c[k],
        true,
    ) by {
        if k == c.len() - 1 {
            assert(c[k] == (Inst::MirFunc {
                symbol: thunk_symbol,
                ty,
                linkage: None,
                region: Some(region),
            }));
            module::lemma_sound_thunk(program, module::no_owner(), new@, module, c[k], true, index);
        } else {
            assert(k == a.len());
            assert(b[k] == inst);
            assert(c[k] == b[k]);
            assert(inst->LlvmFunc_ty == globals::declared_type(inputs, result));
            assert(module::sound_inst(program, module::no_owner(), new@, module, inst, true));
        }
    }
}

/// Provides what lies at an address, with all that it points to. A function
/// whose address stands in memory is found by its symbol, so it must be
/// visible there; another object may hold a copy, so it is weak.
pub fn data_global_for_alloc(
    program: &Program,
    ctx: &mut Context,
    module: BlockId,
    alloc: usize,
) -> (r: Result<(), Failure>)
    requires
        module::program_wf(*program),
        old(ctx).wf(),
        old(ctx).has_block(module),
    ensures
        provided(*program, *final(ctx), *old(ctx), module, r),
        r is Ok ==> module::present(
            *program,
            module::symbols(final(ctx)@, module),
            Demand::Alloc(alloc),
        ),
        r is Ok ==> (program.allocs@[alloc as int] matches Alloc::Function(index) ==> {
            let instance = program.instances@[index as int];
            if need::is_importable(instance.kind) {
                is_linked(
                    module::symbols(final(ctx)@, module),
                    need::instance_symbol(instance),
                    Linkage::WeakOdr,
                )
            } else {
                is_linked(
                    module::symbols(final(ctx)@, module),
                    need::thunk_symbol(instance),
                    Linkage::External,
                )
            }
        }),
        need::alloc_symbol(*program, alloc) matches Err(failure) ==> r == Err::<(), Failure>(
            failure,
        ),
        r is Ok ==> minimal::minimal(
            *program,
            final(ctx)@,
            old(ctx)@,
            module,
            minimal::answer_to(*program, Demand::Alloc(alloc)),
        ),
        trace::happened(
            *program,
            Work::Need(Demand::Alloc(alloc)),
            final(ctx)@,
            old(ctx)@,
            module,
            r,
        ),
        forall|good: Set<Demand>| #[trigger]
            supported(*program, good) && good.contains(Demand::Alloc(alloc)) ==> r is Ok,
    decreases module::pending(*program, old(ctx)@, module), 3nat,
{
    let ghost before = *ctx;
    let ghost demand = Demand::Alloc(alloc);
    proof {
        module::lemma_extended_same(*program, module::no_owner(), before, module, false);
        assert forall|good: Set<Demand>| #[trigger]
            supported(*program, good) && good.contains(demand) implies (forall|first: nat|
            clean(*program, demand, first, good)) by {}
        assert forall|good: Set<Demand>| #[trigger]
            supported(*program, good) && good.contains(demand) implies clean(
            *program,
            demand,
            0,
            good,
        ) by {}
    }
    let ghost work = Work::Need(demand);
    proof {
        reveal(trace::rule);
    }
    if alloc >= program.allocs.len() {
        proof {
            trace::lemma_stayed(
                *program,
                work,
                before@,
                before@,
                module,
                Err(Failure::Malformed),
            );
        }
        return Err(Failure::Malformed);
    }
    match &program.allocs[alloc] {
        Alloc::Memory(memory) => {
            let r: Result<(), Failure> = emit_allocation_global(
                program,
                ctx,
                module,
                alloc,
                memory,
            );
            proof {
                trace::lemma_as(
                    *program,
                    Work::Memory(*memory),
                    work,
                    ctx@,
                    before@,
                    module,
                    r,
                );
                if r is Ok {
                    minimal::lemma_minimal_wider(
                        *program,
                        ctx@,
                        before@,
                        module,
                        minimal::holding(*program, *memory),
                        minimal::answer_to(*program, demand),
                    );
                }
            }
            r
        },
        Alloc::Static(index) => {
            let r: Result<(), Failure> = declare_static_global(program, ctx, module, *index);
            proof {
                trace::lemma_as(
                    *program,
                    Work::Need(Demand::Static(*index)),
                    work,
                    ctx@,
                    before@,
                    module,
                    r,
                );
                if r is Ok {
                    minimal::lemma_minimal_wider(
                        *program,
                        ctx@,
                        before@,
                        module,
                        minimal::answer_to(*program, Demand::Static(*index)),
                        minimal::answer_to(*program, demand),
                    );
                }
            }
            r
        },
        Alloc::Function(index) => {
            if *index >= program.instances.len() {
                proof {
                    trace::lemma_stayed(
                        *program,
                        work,
                        before@,
                        before@,
                        module,
                        Err(Failure::Malformed),
                    );
                }
                return Err(Failure::Malformed);
            }
            let instance: &Instance = &program.instances[*index];
            if should_import_instance(instance) {
                let nested: Result<(), Failure> = import_upstream_instance(
                    program,
                    ctx,
                    module,
                    *index,
                );
                proof {
                    trace::lemma_nested(
                        *program,
                        demand,
                        ctx@,
                        before@,
                        module,
                        *index,
                        Purpose::Data,
                        nested,
                    );
                    assert forall|good: Set<Demand>| #[trigger]
                        supported(*program, good) && good.contains(demand) implies nested is Ok by {
                        assert forall|first: nat| clean_function(
                            *program,
                            Origin::Instance(*index),
                            first,
                            good,
                        ) by {
                            assert(clean(*program, demand, first, good));
                        }
                    }
                }
                match nested {
                    Ok(()) => {},
                    Err(failure) => {
                        return Err(
                            Failure::Nested {
                                index: *index,
                                purpose: Purpose::Data,
                                inner: Box::new(failure),
                            },
                        );
                    },
                }
                let ghost middle = *ctx;
                let symbol: String = instance_symbol_of(instance);
                set_linkage(program, ctx, module, &symbol, Linkage::WeakOdr);
                proof {
                    module::lemma_extended_twice(
                        *program,
                        module::no_owner(),
                        *ctx,
                        middle,
                        before,
                        module,
                        true,
                        true,
                    );
                    lemma_linked(middle@, module, symbol@, Linkage::WeakOdr);
                    assert(linkage::is_imported_at(*program, symbol@, *index));
                    linkage::lemma_linked_data(
                        *program,
                        linkage::no_symbol(),
                        ctx@,
                        middle@,
                        module,
                        symbol@,
                        Linkage::WeakOdr,
                    );
                    linkage::lemma_linked_twice(
                        *program,
                        linkage::no_symbol(),
                        linkage::no_symbol(),
                        linkage::no_symbol(),
                        ctx@,
                        middle@,
                        before@,
                        module,
                    );
                    lemma_relinked_minimal(
                        *program,
                        ctx@,
                        middle@,
                        before@,
                        module,
                        minimal::named(symbol@),
                    );
                    minimal::lemma_minimal_wider(
                        *program,
                        ctx@,
                        before@,
                        module,
                        minimal::named(symbol@),
                        minimal::answer_to(*program, demand),
                    );
                }
                Ok(())
            } else {
                let made: Result<(), Failure> = emit_fn_ptr_thunk(program, ctx, module, *index);
                let ghost middle = *ctx;
                proof {
                    trace::lemma_as(
                        *program,
                        Work::Need(Demand::Thunk(*index)),
                        work,
                        middle@,
                        before@,
                        module,
                        made,
                    );
                }
                made?;
                let symbol: String = thunk_symbol_of(instance);
                set_linkage(program, ctx, module, &symbol, Linkage::External);
                proof {
                    module::lemma_extended_twice(
                        *program,
                        module::no_owner(),
                        *ctx,
                        middle,
                        before,
                        module,
                        true,
                        true,
                    );
                    lemma_linked(middle@, module, symbol@, Linkage::External);
                    assert(linkage::is_forwarded_at(*program, symbol@, *index));
                    linkage::lemma_linked_data(
                        *program,
                        linkage::no_symbol(),
                        ctx@,
                        middle@,
                        module,
                        symbol@,
                        Linkage::External,
                    );
                    linkage::lemma_linked_twice(
                        *program,
                        linkage::no_symbol(),
                        linkage::no_symbol(),
                        linkage::no_symbol(),
                        ctx@,
                        middle@,
                        before@,
                        module,
                    );
                    lemma_relinked_minimal(
                        *program,
                        ctx@,
                        middle@,
                        before@,
                        module,
                        minimal::answer_to(*program, Demand::Thunk(*index)),
                    );
                    minimal::lemma_minimal_wider(
                        *program,
                        ctx@,
                        before@,
                        module,
                        minimal::answer_to(*program, Demand::Thunk(*index)),
                        minimal::answer_to(*program, demand),
                    );
                }
                Ok(())
            }
        },
        Alloc::VTable(table, ty) => match memory_of(program, *table) {
            Some(memory) => {
                let r: Result<(), Failure> = emit_allocation_global(
                    program,
                    ctx,
                    module,
                    *table,
                    memory,
                );
                proof {
                    trace::lemma_as(
                        *program,
                        Work::Memory(*memory),
                        work,
                        ctx@,
                        before@,
                        module,
                        r,
                    );
                    if r is Ok {
                        minimal::lemma_minimal_wider(
                            *program,
                            ctx@,
                            before@,
                            module,
                            minimal::holding(*program, *memory),
                            minimal::answer_to(*program, demand),
                        );
                    }
                }
                r
            },
            None => {
                proof {
                    trace::lemma_stayed(
                        *program,
                        work,
                        before@,
                        before@,
                        module,
                        Err(Failure::TableMemory(*ty)),
                    );
                }
                Err(Failure::TableMemory(*ty))
            },
        },
        Alloc::TypeId(ty) => {
            proof {
                trace::lemma_stayed(
                    *program,
                    work,
                    before@,
                    before@,
                    module,
                    Err(Failure::TypeIdAddress(*ty)),
                );
            }
            Err(Failure::TypeIdAddress(*ty))
        },
    }
}

/// Provides one symbol that is needed.
pub fn provide(program: &Program, ctx: &mut Context, module: BlockId, need: &Need) -> (r: Result<
    (),
    Failure,
>)
    requires
        module::program_wf(*program),
        old(ctx).wf(),
        old(ctx).has_block(module),
    ensures
        provided(*program, *final(ctx), *old(ctx), module, r),
        r is Ok ==> module::present(*program, module::symbols(final(ctx)@, module), need@),
        r is Ok ==> minimal::minimal(
            *program,
            final(ctx)@,
            old(ctx)@,
            module,
            minimal::answer_to(*program, need@),
        ),
        trace::happened(
            *program,
            Work::Need(need@),
            final(ctx)@,
            old(ctx)@,
            module,
            r,
        ),
        forall|good: Set<Demand>| #[trigger]
            supported(*program, good) && good.contains(need@) ==> r is Ok,
    decreases module::pending(*program, old(ctx)@, module), 4nat,
{
    let ghost before = *ctx;
    proof {
        module::lemma_extended_same(*program, module::no_owner(), before, module, true);
        module::lemma_extended_same(*program, module::no_owner(), before, module, false);
        assert forall|good: Set<Demand>| #[trigger]
            supported(*program, good) && good.contains(need@) implies clean(
            *program,
            need@,
            0,
            good,
        ) by {}
    }
    let ghost work = Work::Need(need@);
    proof {
        reveal(trace::rule);
    }
    match need {
        Need::Bytes(bytes) => {
            declare_anonymous_byte_global(ctx, module, bytes);
            proof {
                let symbol = need::byte_symbol(bytes@);
                trace::lemma_names(module::symbols(before@, module), symbol);
                if ir::has_symbol(module::symbols(before@, module), symbol) {
                    trace::lemma_stayed(*program, work, before@, before@, module, Ok(()));
                } else {
                    trace::lemma_none(*program, ctx@, module);
                    lemma_global_trace(
                        *program,
                        work,
                        symbol,
                        Ok(globals::byte_global(bytes@)),
                        Seq::empty(),
                        ctx@,
                        ctx@,
                        before@,
                        module,
                        globals::byte_global(bytes@),
                        Ok(()),
                    );
                }
                if !ir::has_symbol(module::symbols(before@, module), symbol) {
                    let inst = globals::byte_global(bytes@);
                    module::lemma_added(*program, module::no_owner(), *ctx, before, module, inst, true);
                    module::lemma_has_last(module::symbols(ctx@, module), symbol);
                    linkage::lemma_linked_one(
                        *program,
                        linkage::no_symbol(),
                        ctx@,
                        before@,
                        module,
                        inst,
                    );
                    minimal::lemma_minimal_one(
                        *program,
                        ctx@,
                        before@,
                        module,
                        minimal::answer_to(*program, need@),
                    );
                }
            }
            Ok(())
        },
        Need::Static(index) => declare_static_global(program, ctx, module, *index),
        Need::ThreadLocal(index) => declare_thread_local_global(program, ctx, module, *index),
        Need::Alloc(alloc) => data_global_for_alloc(program, ctx, module, *alloc),
        Need::Function(index, purpose) => {
            if *index >= program.instances.len() {
                proof {
                    trace::lemma_stayed(
                        *program,
                        work,
                        before@,
                        before@,
                        module,
                        Err(Failure::Malformed),
                    );
                }
                return Err(Failure::Malformed);
            }
            let nested: Result<(), Failure> = import_upstream_instance(
                program,
                ctx,
                module,
                *index,
            );
            proof {
                assert forall|good: Set<Demand>| #[trigger]
                    supported(*program, good) && good.contains(need@) implies nested is Ok by {
                    assert forall|first: nat| clean_function(
                        *program,
                        Origin::Instance(*index),
                        first,
                        good,
                    ) by {
                        assert(clean(*program, need@, first, good));
                    }
                }
            }
            proof {
                trace::lemma_nested(
                    *program,
                    need@,
                    ctx@,
                    before@,
                    module,
                    *index,
                    *purpose,
                    nested,
                );
                if nested is Ok {
                    minimal::lemma_minimal_wider(
                        *program,
                        ctx@,
                        before@,
                        module,
                        minimal::named(
                            need::instance_symbol(program.instances@[*index as int]),
                        ),
                        minimal::answer_to(*program, need@),
                    );
                }
            }
            match nested {
                Ok(()) => Ok(()),
                Err(failure) => Err(
                    Failure::Nested {
                        index: *index,
                        purpose: *purpose,
                        inner: Box::new(failure),
                    },
                ),
            }
        },
        Need::Thunk(index) => {
            if *index >= program.instances.len() {
                proof {
                    trace::lemma_stayed(
                        *program,
                        work,
                        before@,
                        before@,
                        module,
                        Err(Failure::Malformed),
                    );
                }
                return Err(Failure::Malformed);
            }
            emit_fn_ptr_thunk(program, ctx, module, *index)
        },
        Need::Declare { symbol, inputs, result } => {
            declare_external_function(ctx, module, symbol.clone(), inputs, result);
            proof {
                lemma_declared(
                    *program,
                    *ctx,
                    before,
                    module,
                    symbol@,
                    inputs@,
                    *result,
                );
                let inst = globals::declaration(symbol@, inputs@, *result);
                trace::lemma_names(module::symbols(before@, module), symbol@);
                trace::lemma_more_names(module::symbols(before@, module), inst);
                trace::lemma_node(
                    *program,
                    work,
                    ctx@,
                    before@,
                    module,
                    Ok(()),
                    Seq::empty(),
                );
                if !ir::has_llvm_function(module::symbols(before@, module), symbol@) {
                    linkage::lemma_linked_one(
                        *program,
                        linkage::no_symbol(),
                        ctx@,
                        before@,
                        module,
                        globals::declaration(symbol@, inputs@, *result),
                    );
                    minimal::lemma_minimal_one(
                        *program,
                        ctx@,
                        before@,
                        module,
                        minimal::answer_to(*program, need@),
                    );
                }
            }
            Ok(())
        },
    }
}

/// Provides all symbols that are needed, in order, up to the first that cannot
/// be. Tells how many were provided.
pub fn provide_all(program: &Program, ctx: &mut Context, module: BlockId, needs: &Needs) -> (r: (
    Result<(), Failure>,
    usize,
))
    requires
        module::program_wf(*program),
        old(ctx).wf(),
        old(ctx).has_block(module),
    ensures
        provided(*program, *final(ctx), *old(ctx), module, r.0),
        if r.0 is Ok {
            r.1 == needs@.len()
        } else {
            r.1 < needs@.len()
        },
        module::all_present(
            *program,
            module::symbols(final(ctx)@, module),
            need::demands(needs@).take(r.1 as int),
        ),
        r.0 is Ok ==> minimal::minimal(
            *program,
            final(ctx)@,
            old(ctx)@,
            module,
            minimal::answers_to(*program, need::demands(needs@)),
        ),
        trace::all_happened(*program, need::demands(needs@), final(ctx)@, old(ctx)@, module, r.0),
        forall|good: Set<Demand>| #[trigger]
            supported(*program, good) && all_in(need::demands(needs@), good) ==> r.0 is Ok,
    decreases module::pending(*program, old(ctx)@, module), 5nat,
{
    let ghost before = *ctx;
    let ghost wants = need::demands(needs@);
    let mut i: usize = 0;
    proof {
        module::lemma_extended_same(*program, module::no_owner(), before, module, true);
        trace::lemma_none(*program, before@, module);
        assert(wants.take(0) =~= Seq::<Demand>::empty());
    }
    while i < needs.list.len()
        invariant
            i <= needs.list@.len(),
            wants == need::demands(needs@),
            before == *old(ctx),
            module::program_wf(*program),
            ctx.wf(),
            ctx.has_block(module),
            module::extended(*program, module::no_owner(), *ctx, before, module, true),
            linkage::linked_since(
                *program,
                linkage::no_symbol(),
                ctx@,
                before@,
                module,
            ),
            module::all_present(
                *program,
                module::symbols(ctx@, module),
                wants.take(i as int),
            ),
            trace::all_happened(
                *program,
                wants.take(i as int),
                ctx@,
                before@,
                module,
                Ok(()),
            ),
            minimal::minimal(
                *program,
                ctx@,
                before@,
                module,
                minimal::answers_to(*program, wants),
            ),
        decreases needs.list@.len() - i,
    {
        let ghost middle = *ctx;
        proof {
            module::lemma_pending(*program, middle@, before@, module);
            assert(wants[i as int] == needs.list@[i as int].need@);
        }
        let r: Result<(), Failure> = provide(program, ctx, module, &needs.list[i].need);
        proof {
            trace::lemma_one_more(
                *program,
                wants,
                i as int,
                ctx@,
                middle@,
                before@,
                module,
                r,
            );
            module::lemma_extended_twice(
                *program,
                module::no_owner(),
                *ctx,
                middle,
                before,
                module,
                true,
                r is Ok,
            );
            linkage::lemma_linked_twice(
                *program,
                linkage::no_symbol(),
                left_open(r, linkage::no_symbol()),
                left_open(r, linkage::no_symbol()),
                ctx@,
                middle@,
                before@,
                module,
            );
            module::lemma_present_stays(
                *program,
                ctx@,
                middle@,
                module,
                wants.take(i as int),
            );
        }
        match r {
            Ok(()) => {
                proof {
                    let roots = minimal::answers_to(*program, wants);
                    let next = minimal::answer_to(*program, wants[i as int]);
                    assert forall|inst: Inst| #[trigger] next(inst) implies roots(inst) by {
                        assert(minimal::answers(*program, wants[i as int], inst));
                    }
                    minimal::lemma_minimal_twice(
                        *program,
                        ctx@,
                        middle@,
                        before@,
                        module,
                        roots,
                        next,
                        roots,
                    );
                    let list = wants.take(i + 1);
                    assert forall|k: int| 0 <= k < list.len() implies module::present(
                        *program,
                        module::symbols(ctx@, module),
                        #[trigger] list[k],
                    ) by {
                        if k < i {
                            assert(wants.take(i as int)[k] == list[k]);
                        }
                    }
                }
            },
            Err(failure) => {
                proof {
                    assert forall|good: Set<Demand>| #[trigger]
                        supported(*program, good) && all_in(wants, good) implies false by {
                        assert(good.contains(wants[i as int]));
                    }
                }
                return (Err(failure), i);
            },
        }
        i = i + 1;
    }
    assert(wants.take(i as int) =~= wants);
    (Ok(()), i)
}

} // verus!
