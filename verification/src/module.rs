//! What a module holds.
//!
//! Every symbol of a module comes from the program, and is what the program
//! says it is. A module only grows: symbols that are there stay, but for their
//! linkage.

use crate::error::Failure;
use crate::function;
use crate::globals;
use crate::ir;
use crate::ir::{BlockId, Context, Inst, Linkage, RegionId, World};
use crate::kernel;
use crate::meaning;
use crate::meaning::Step;
use crate::mir::{Alloc, Body, Memory, Program};
use crate::names;
use crate::need;
use crate::need::Demand;
use crate::ox;
use crate::thunk;
use crate::types;
use crate::types::TypeHandle;
use vstd::prelude::*;

verus! {

/// Where a function with a body comes from.
#[derive(Clone, Copy, PartialEq, Eq, Debug, Structural)]
pub enum Origin {
    /// A function with all its generic arguments, by its index.
    Instance(usize),
    /// A function of the crate itself, by its index.
    Owner(usize),
}

/// Whether the program has a function.
pub open spec fn has_origin(program: Program, origin: Origin) -> bool {
    match origin {
        Origin::Instance(index) => index < program.instances@.len(),
        Origin::Owner(index) => index < program.owners@.len(),
    }
}

/// The body of a function of the program.
pub open spec fn body_of(program: Program, origin: Origin) -> Body {
    match origin {
        Origin::Instance(index) => program.instances@[index as int].body,
        Origin::Owner(index) => program.owners@[index as int].body,
    }
}

/// Whether a function of the program is a kernel.
pub open spec fn is_kernel(program: Program, origin: Origin) -> bool {
    match origin {
        Origin::Instance(_) => false,
        Origin::Owner(index) => kernel::is_kernel_owner(program.owners@[index as int]),
    }
}

/// Whether all that the program refers to is there.
pub open spec fn program_wf(program: Program) -> bool {
    &&& function::lists_wf(program)
    &&& forall|i: int|
        0 <= i < program.instances@.len() ==> function::body_wf(
            program,
            (#[trigger] program.instances@[i]).body,
        ) && thunk::signature_wf(program.types, program.instances@[i].signature)
    &&& forall|i: int|
        0 <= i < program.owners@.len() ==> function::body_wf(
            program,
            (#[trigger] program.owners@[i]).body,
        )
}

/// Whether two symbols are the same but for their linkage.
pub open spec fn same_inst(a: Inst, b: Inst) -> bool {
    ir::relinked(a, Linkage::External) == ir::relinked(b, Linkage::External)
}

/// The symbols of a module.
pub open spec fn symbols(world: World, module: BlockId) -> Seq<Inst> {
    world.effects[module.0 as int]
}

/// Whether a world only grew: a module by symbols, and otherwise by blocks and
/// regions. What a linker can see stays so.
pub open spec fn module_grew(new: World, old: World, module: BlockId) -> bool {
    &&& module.0 < old.effects.len() <= new.effects.len()
    &&& old.args.len() == old.effects.len()
    &&& new.args.len() == new.effects.len()
    &&& symbols(old, module).len() <= symbols(new, module).len()
    &&& forall|k: int|
        0 <= k < symbols(old, module).len() ==> same_inst(
            #[trigger] symbols(new, module)[k],
            symbols(old, module)[k],
        ) && (ir::is_visible(symbols(old, module)[k]) ==> ir::is_visible(symbols(new, module)[k]))
    &&& forall|b: int|
        0 <= b < old.effects.len() && b != module.0 ==> #[trigger] new.effects[b] == old.effects[b]
    &&& forall|b: int| 0 <= b < old.effects.len() ==> #[trigger] new.args[b] == old.args[b]
    &&& old.labels.len() == old.effects.len()
    &&& new.labels.len() == new.effects.len()
    &&& new.keeps_labels(old)
    &&& old.regions.len() <= new.regions.len()
    &&& forall|r: int| 0 <= r < old.regions.len() ==> #[trigger] new.regions[r] == old.regions[r]
}

/// The number of the first block of a body.
pub open spec fn first_of(world: World, region: RegionId) -> nat {
    world.regions[region.0 as int][0].0 as nat
}

/// Whether a region is the body of a function: blocks in a row, the first of
/// which has the arguments of the function.
pub open spec fn has_body(world: World, module: BlockId, region: RegionId, ty: TypeHandle) -> bool {
    let list = world.regions[region.0 as int];
    let first = first_of(world, region);
    let inputs = ox::function_inputs(ty);
    &&& region.0 < world.regions.len()
    &&& list.len() > 0
    &&& module.0 < first
    &&& first + list.len() <= world.effects.len()
    &&& world.args.len() == world.effects.len()
    &&& list == function::row(first, list.len())
    &&& world.args[first as int].len() == inputs.len()
    &&& forall|i: int|
        0 <= i < inputs.len() ==> (#[trigger] world.args[first as int][i]).ty() == inputs[i]
}

/// What a block of a body does.
pub open spec fn body_steps(world: World, region: RegionId, k: int) -> Seq<Step> {
    meaning::steps_of(world.effects[first_of(world, region) + k])
}

/// Whether a body does what it should.
pub open spec fn body_does(world: World, region: RegionId, blocks: Seq<Seq<Step>>) -> bool {
    &&& world.regions[region.0 as int].len() == blocks.len()
    &&& forall|k: int|
        0 <= k < blocks.len() ==> #[trigger] body_steps(world, region, k) == blocks[k]
}

/// The label of a block of a body.
pub open spec fn body_label(world: World, region: RegionId, k: int) -> Seq<char> {
    world.labels[first_of(world, region) + k]
}

/// Whether the blocks of a body have the labels that they should.
pub open spec fn body_labelled(world: World, region: RegionId, labels: Seq<Seq<char>>) -> bool {
    &&& world.regions[region.0 as int].len() == labels.len()
    &&& forall|k: int|
        0 <= k < labels.len() ==> #[trigger] body_label(world, region, k) == labels[k]
}

/// Whether blocks do the beginning of what they should, as far as they are there.
pub open spec fn begins(done: Seq<Seq<Step>>, blocks: Seq<Seq<Step>>) -> bool {
    &&& done.len() <= blocks.len()
    &&& forall|k: int|
        0 <= k < done.len() ==> (#[trigger] done[k]).len() <= blocks[k].len() && done[k]
            == blocks[k].take(done[k].len() as int)
}

/// Whether a body does the beginning of what it should, and its blocks have the
/// labels that they should.
pub open spec fn body_begun(
    world: World,
    region: RegionId,
    blocks: Seq<Seq<Step>>,
    labels: Seq<Seq<char>>,
) -> bool {
    exists|done: Seq<Seq<Step>>| #[trigger]
        body_does(world, region, done) && begins(done, blocks) && body_labelled(
            world,
            region,
            labels.take(done.len() as int),
        )
}

/// A complete body is begun.
pub proof fn lemma_begun(
    world: World,
    region: RegionId,
    blocks: Seq<Seq<Step>>,
    labels: Seq<Seq<char>>,
)
    requires
        body_does(world, region, blocks),
        body_labelled(world, region, labels),
    ensures
        body_begun(world, region, blocks, labels),
{
    assert(labels.take(blocks.len() as int) =~= labels);
    assert forall|k: int| 0 <= k < blocks.len() implies (#[trigger] blocks[k]).len()
        <= blocks[k].len() && blocks[k] == blocks[k].take(blocks[k].len() as int) by {
        assert(blocks[k].take(blocks[k].len() as int) =~= blocks[k]);
    }
    assert(begins(blocks, blocks));
}

/// Whether a symbol is there that is needed. A function whose address stands in
/// memory must be one that a linker can see.
pub open spec fn present(program: Program, insts: Seq<Inst>, demand: Demand) -> bool {
    match demand {
        Demand::Bytes(bytes) => ir::has_symbol(insts, need::byte_symbol(bytes)),
        Demand::Static(index) => need::static_symbol(program, index) matches Ok(symbol)
            && ir::has_symbol(insts, symbol),
        Demand::ThreadLocal(index) => need::static_symbol(program, index) matches Ok(symbol)
            && ir::has_symbol(insts, symbol),
        Demand::Alloc(alloc) => need::alloc_symbol(program, alloc) matches Ok(symbol)
            && ir::has_symbol(insts, symbol) && (program.allocs@[alloc as int] is Function
            ==> ir::is_seen(insts, symbol)),
        Demand::Function(index, _) => index < program.instances@.len() && ir::has_symbol(
            insts,
            need::instance_symbol(program.instances@[index as int]),
        ),
        Demand::Thunk(index) => index < program.instances@.len() && ir::has_symbol(
            insts,
            need::thunk_symbol(program.instances@[index as int]),
        ),
        Demand::Declare { symbol, .. } => ir::has_llvm_function(insts, symbol),
    }
}

/// Whether all symbols are there that are needed.
pub open spec fn all_present(program: Program, insts: Seq<Inst>, needs: Seq<Demand>) -> bool {
    forall|i: int| 0 <= i < needs.len() ==> present(program, insts, #[trigger] needs[i])
}

/// Whether a function of a module is a function of the program: it has its
/// type, and it does what that does. A function is settled where its body is
/// complete and all that it needs is there. One that is not does the beginning
/// of what it should, unless its body has no counterpart.
pub open spec fn is_function(
    program: Program,
    world: World,
    module: BlockId,
    ty: TypeHandle,
    region: RegionId,
    settled: bool,
    origin: Origin,
) -> bool {
    let body = body_of(program, origin);
    &&& has_origin(program, origin)
    &&& has_body(world, module, region, ty)
    &&& function::sound_signature(program, body, is_kernel(program, origin)) matches Ok(
        (params, fn_ty),
    ) && fn_ty == ty && match function::function_body(
        program,
        body,
        params,
        first_of(world, region),
    ) {
        Ok((needs, blocks)) => if settled {
            body_does(world, region, blocks) && body_labelled(
                world,
                region,
                function::body_labels(body),
            ) && all_present(program, symbols(world, module), needs)
        } else {
            body_begun(world, region, blocks, function::body_labels(body))
        },
        Err(_) => !settled,
    }
}

/// Whether a function stands under the symbol that it has. The symbols of the
/// crate's own functions are those that were chosen for them.
pub open spec fn has_name(
    program: Program,
    own: spec_fn(usize, Seq<char>) -> bool,
    symbol: Seq<char>,
    origin: Origin,
) -> bool {
    match origin {
        Origin::Instance(index) => symbol == need::instance_symbol(
            program.instances@[index as int],
        ),
        Origin::Owner(index) => own(index, symbol),
    }
}

/// No functions of the crate.
pub open spec fn no_owner() -> spec_fn(usize, Seq<char>) -> bool {
    |index: usize, symbol: Seq<char>| false
}

/// A function of the crate under its symbol, or nothing for an instance.
pub open spec fn owner_of(origin: Origin, symbol: Seq<char>) -> spec_fn(usize, Seq<char>) -> bool {
    |index: usize, name: Seq<char>| origin == Origin::Owner(index) && name == symbol
}

/// Whether a function of a module forwards to an instance of another object.
pub open spec fn is_thunk(
    program: Program,
    world: World,
    module: BlockId,
    symbol: Seq<char>,
    ty: TypeHandle,
    region: RegionId,
    settled: bool,
    index: usize,
) -> bool {
    let instance = program.instances@[index as int];
    &&& index < program.instances@.len()
    &&& symbol == need::thunk_symbol(instance)
    &&& has_body(world, module, region, ty)
    &&& thunk::passed_signature(program.types, instance.signature) matches Ok((inputs, result))
        && ty == types::function_of(inputs, result) && body_does(
        world,
        region,
        seq![
            thunk::forwarding(
                first_of(world, region),
                need::instance_symbol(instance),
                inputs,
                result,
            ),
        ],
    )
    &&& body_labelled(world, region, seq!["entry"@])
    &&& settled ==> ir::has_llvm_function(
        symbols(world, module),
        need::instance_symbol(instance),
    )
}

/// Whether a global holds memory of the program. One that is not settled may be
/// without contents.
pub open spec fn is_memory(
    program: Program,
    insts: Seq<Inst>,
    inst: Inst,
    settled: bool,
    alloc: usize,
) -> bool {
    need::memory_at(program, alloc) matches Some(memory) && {
        let symbol = need::memory_symbol(memory);
        let made = globals::data_global(program, symbol, memory, Linkage::Internal, false, None);
        if settled {
            &&& made == Ok::<Inst, Failure>(inst)
            &&& all_present(
                program,
                insts,
                globals::targets(program, memory, memory.pointers@.len()),
            )
        } else {
            ||| made == Ok::<Inst, Failure>(inst)
            ||| inst == globals::empty_global(symbol, memory, Linkage::Internal, false)
        }
    }
}

/// Whether a global is a static of the program. One that is not settled may be
/// without contents.
pub open spec fn is_static(
    program: Program,
    insts: Seq<Inst>,
    inst: Inst,
    settled: bool,
    index: usize,
    thread_local: bool,
) -> bool {
    need::static_symbol(program, index) matches Ok(symbol) && {
        let item = program.statics@[index as int];
        let made = globals::static_global(program, symbol, item, thread_local);
        if settled {
            &&& made == Ok::<Inst, Failure>(inst)
            &&& all_present(program, insts, globals::static_targets(program, item))
        } else {
            ||| made == Ok::<Inst, Failure>(inst)
            ||| inst == globals::empty_static(symbol, item, thread_local)
        }
    }
}

/// Whether a symbol of a module comes from the program and is what the program
/// says it is. One is settled where all that it needs is there too.
pub open spec fn sound_inst(
    program: Program,
    own: spec_fn(usize, Seq<char>) -> bool,
    world: World,
    module: BlockId,
    inst: Inst,
    settled: bool,
) -> bool {
    match inst {
        Inst::Global { .. } => {
            ||| exists|bytes: Seq<u8>| inst == #[trigger] globals::byte_global(bytes)
            ||| exists|alloc: usize| #[trigger]
                is_memory(program, symbols(world, module), inst, settled, alloc)
            ||| exists|index: usize, thread_local: bool| #[trigger]
                is_static(
                    program,
                    symbols(world, module),
                    inst,
                    settled,
                    index,
                    thread_local,
                )
        },
        Inst::LlvmFunc { ty, region, .. } => region is None && exists|
            inputs: Seq<TypeHandle>,
            result: Option<TypeHandle>,
        |
            ty == #[trigger] globals::declared_type(inputs, result),
        Inst::MirFunc { symbol, ty, region: Some(region), .. } => {
            ||| exists|origin: Origin| #[trigger]
                is_function(program, world, module, ty, region, settled, origin) && has_name(
                    program,
                    own,
                    symbol,
                    origin,
                )
            ||| exists|index: usize| #[trigger]
                is_thunk(program, world, module, symbol, ty, region, settled, index)
        },
        _ => false,
    }
}

/// Whether a function of the program stands at a place of a module under a
/// symbol, with a type.
pub open spec fn stands_at(
    program: Program,
    world: World,
    module: BlockId,
    k: int,
    symbol: Seq<char>,
    ty: TypeHandle,
    settled: bool,
    origin: Origin,
) -> bool {
    &&& 0 <= k < symbols(world, module).len()
    &&& symbols(world, module)[k] matches Inst::MirFunc {
        symbol: name,
        ty: fn_ty,
        region: Some(region),
        ..
    } && name == symbol && fn_ty == ty && is_function(
        program,
        world,
        module,
        ty,
        region,
        settled,
        origin,
    )
}

/// Whether a function's blocks are numbered from one on.
pub open spec fn starts_from(world: World, inst: Inst, floor: nat) -> bool {
    inst matches Inst::MirFunc { region: Some(region), .. } ==> first_of(world, region) >= floor
}

/// Whether each symbol stands once, but for declarations of functions that
/// stand there already.
pub open spec fn no_repeats(insts: Seq<Inst>) -> bool {
    forall|i: int, j: int|
        #![trigger insts[i], insts[j]]
        0 <= i < j < insts.len() && ir::symbol_of(insts[j]) is Some && ir::symbol_of(insts[i])
            == ir::symbol_of(insts[j]) ==> insts[j] is LlvmFunc && !(insts[i] is LlvmFunc)
}

/// Whether a symbol is not there yet. A declaration only minds others.
pub open spec fn is_fresh(insts: Seq<Inst>, inst: Inst) -> bool {
    ir::symbol_of(inst) matches Some(symbol) && if inst is LlvmFunc {
        !ir::has_llvm_function(insts, symbol)
    } else {
        !ir::has_symbol(insts, symbol)
    }
}

/// Whether a module only grew since an earlier state, by symbols of the
/// program with blocks of their own, which are settled if that is asked. No
/// symbol stands there that stood there before.
pub open spec fn extended(
    program: Program,
    own: spec_fn(usize, Seq<char>) -> bool,
    new: Context,
    old: Context,
    module: BlockId,
    settled: bool,
) -> bool {
    &&& new.grew(old)
    &&& new.dialects == old.dialects
    &&& module_grew(new@, old@, module)
    &&& no_repeats(symbols(old@, module)) ==> no_repeats(symbols(new@, module))
    &&& forall|k: int|
        symbols(old@, module).len() <= k < symbols(new@, module).len() ==> sound_inst(
            program,
            own,
            new@,
            module,
            #[trigger] symbols(new@, module)[k],
            settled,
        ) && starts_from(new@, symbols(new@, module)[k], old@.effects.len())
}

/// A function of the program is sound.
pub proof fn lemma_sound_function(
    program: Program,
    own: spec_fn(usize, Seq<char>) -> bool,
    world: World,
    module: BlockId,
    inst: Inst,
    settled: bool,
    origin: Origin,
)
    requires
        inst matches Inst::MirFunc { symbol, ty, region: Some(region), .. } && is_function(
            program,
            world,
            module,
            ty,
            region,
            settled,
            origin,
        ) && has_name(program, own, symbol, origin),
    ensures
        sound_inst(program, own, world, module, inst, settled),
{
}

/// A function that forwards to an instance of the program is sound.
pub proof fn lemma_sound_thunk(
    program: Program,
    own: spec_fn(usize, Seq<char>) -> bool,
    world: World,
    module: BlockId,
    inst: Inst,
    settled: bool,
    index: usize,
)
    requires
        inst matches Inst::MirFunc { symbol, ty, region: Some(region), .. } && is_thunk(
            program,
            world,
            module,
            symbol,
            ty,
            region,
            settled,
            index,
        ),
    ensures
        sound_inst(program, own, world, module, inst, settled),
{
}

/// The same symbol but for its linkage has the same name and is of the same
/// kind.
proof fn lemma_same_inst(a: Inst, b: Inst)
    requires
        same_inst(a, b),
    ensures
        ir::symbol_of(a) == ir::symbol_of(b),
        a is LlvmFunc == b is LlvmFunc,
        a is Global ==> a == b,
{
}

/// Symbols stay.
pub proof fn lemma_symbols_stay(new: World, old: World, module: BlockId, symbol: Seq<char>)
    requires
        module_grew(new, old, module),
    ensures
        ir::has_symbol(symbols(old, module), symbol) ==> ir::has_symbol(
            symbols(new, module),
            symbol,
        ),
        ir::has_llvm_function(symbols(old, module), symbol) ==> ir::has_llvm_function(
            symbols(new, module),
            symbol,
        ),
        ir::is_seen(symbols(old, module), symbol) ==> ir::is_seen(symbols(new, module), symbol),
{
    let a = symbols(old, module);
    let b = symbols(new, module);
    ir::lemma_position(a, symbol);
    ir::lemma_position(b, symbol);
    if ir::has_symbol(a, symbol) {
        let i = ir::position_of(a, symbol)->0;
        lemma_same_inst(b[i], a[i]);
        assert(ir::position_of(b, symbol) == Some(i)) by {
            let j = ir::position_of(b, symbol)->0;
            assert(ir::symbol_of(b[i]) == Some(symbol));
            if j < i {
                lemma_same_inst(b[j], a[j]);
            }
        }
    }
    if ir::has_llvm_function(a, symbol) {
        let i = choose|i: int|
            0 <= i < a.len() && (#[trigger] a[i]) is LlvmFunc && ir::symbol_of(a[i]) == Some(
                symbol,
            );
        lemma_same_inst(b[i], a[i]);
    }
}

/// What is needed stays there.
pub proof fn lemma_present_stays(
    program: Program,
    new: World,
    old: World,
    module: BlockId,
    needs: Seq<Demand>,
)
    requires
        module_grew(new, old, module),
        all_present(program, symbols(old, module), needs),
    ensures
        all_present(program, symbols(new, module), needs),
{
    assert forall|i: int| 0 <= i < needs.len() implies present(
        program,
        symbols(new, module),
        #[trigger] needs[i],
    ) by {
        assert(present(program, symbols(old, module), needs[i]));
        match needs[i] {
            Demand::Bytes(bytes) => lemma_symbols_stay(
                new,
                old,
                module,
                need::byte_symbol(bytes),
            ),
            Demand::Static(index) => lemma_symbols_stay(
                new,
                old,
                module,
                need::static_symbol(program, index)->Ok_0,
            ),
            Demand::ThreadLocal(index) => lemma_symbols_stay(
                new,
                old,
                module,
                need::static_symbol(program, index)->Ok_0,
            ),
            Demand::Alloc(alloc) => lemma_symbols_stay(
                new,
                old,
                module,
                need::alloc_symbol(program, alloc)->Ok_0,
            ),
            Demand::Function(index, _) => lemma_symbols_stay(
                new,
                old,
                module,
                need::instance_symbol(program.instances@[index as int]),
            ),
            Demand::Thunk(index) => lemma_symbols_stay(
                new,
                old,
                module,
                need::thunk_symbol(program.instances@[index as int]),
            ),
            Demand::Declare { symbol, .. } => lemma_symbols_stay(new, old, module, symbol),
        }
    }
}

/// A body stays whose blocks stay.
pub proof fn lemma_body_kept(
    new: World,
    old: World,
    module: BlockId,
    region: RegionId,
    ty: TypeHandle,
)
    requires
        has_body(old, module, region, ty),
        region.0 < new.regions.len(),
        new.regions[region.0 as int] == old.regions[region.0 as int],
        old.effects.len() <= new.effects.len(),
        new.args.len() == new.effects.len(),
        new.args[first_of(old, region) as int] == old.args[first_of(old, region) as int],
        forall|b: int|
            first_of(old, region) <= b < first_of(old, region)
                + old.regions[region.0 as int].len() ==> #[trigger] new.effects[b]
                == old.effects[b],
        forall|b: int|
            first_of(old, region) <= b < first_of(old, region)
                + old.regions[region.0 as int].len() ==> #[trigger] new.labels[b] == old.labels[b],
    ensures
        has_body(new, module, region, ty),
        first_of(new, region) == first_of(old, region),
        forall|blocks: Seq<Seq<Step>>|
            body_does(old, region, blocks) ==> #[trigger] body_does(new, region, blocks),
        forall|labels: Seq<Seq<char>>|
            body_labelled(old, region, labels) ==> #[trigger] body_labelled(new, region, labels),
        forall|blocks: Seq<Seq<Step>>, labels: Seq<Seq<char>>|
            body_begun(old, region, blocks, labels) ==> #[trigger] body_begun(
                new,
                region,
                blocks,
                labels,
            ),
{
    let first = first_of(old, region);
    assert forall|blocks: Seq<Seq<Step>>| body_does(old, region, blocks) implies #[trigger] body_does(
        new,
        region,
        blocks,
    ) by {
        assert forall|k: int| 0 <= k < blocks.len() implies #[trigger] body_steps(
            new,
            region,
            k,
        ) == blocks[k] by {
            assert(body_steps(old, region, k) == blocks[k]);
            assert(new.effects[first + k] == old.effects[first + k]);
        }
    }
    assert forall|labels: Seq<Seq<char>>|
        body_labelled(old, region, labels) implies #[trigger] body_labelled(
        new,
        region,
        labels,
    ) by {
        assert forall|k: int| 0 <= k < labels.len() implies #[trigger] body_label(
            new,
            region,
            k,
        ) == labels[k] by {
            assert(body_label(old, region, k) == labels[k]);
            assert(new.labels[first + k] == old.labels[first + k]);
        }
    }
    assert forall|blocks: Seq<Seq<Step>>, labels: Seq<Seq<char>>|
        body_begun(old, region, blocks, labels) implies #[trigger] body_begun(
        new,
        region,
        blocks,
        labels,
    ) by {
        let done = choose|done: Seq<Seq<Step>>| #[trigger]
            body_does(old, region, done) && begins(done, blocks) && body_labelled(
                old,
                region,
                labels.take(done.len() as int),
            );
        assert(body_does(new, region, done));
        assert(body_labelled(new, region, labels.take(done.len() as int)));
    }
}

/// Bodies stay.
pub proof fn lemma_body_stays(
    new: World,
    old: World,
    module: BlockId,
    region: RegionId,
    ty: TypeHandle,
)
    requires
        module_grew(new, old, module),
        has_body(old, module, region, ty),
    ensures
        has_body(new, module, region, ty),
        first_of(new, region) == first_of(old, region),
        forall|blocks: Seq<Seq<Step>>|
            body_does(old, region, blocks) ==> #[trigger] body_does(new, region, blocks),
        forall|labels: Seq<Seq<char>>|
            body_labelled(old, region, labels) ==> #[trigger] body_labelled(new, region, labels),
        forall|blocks: Seq<Seq<Step>>, labels: Seq<Seq<char>>|
            body_begun(old, region, blocks, labels) ==> #[trigger] body_begun(
                new,
                region,
                blocks,
                labels,
            ),
{
    lemma_body_kept(new, old, module, region, ty);
}

/// Symbols stay what they are.
pub proof fn lemma_sound_stays(
    program: Program,
    own: spec_fn(usize, Seq<char>) -> bool,
    new: World,
    old: World,
    module: BlockId,
    after: Inst,
    before: Inst,
    settled: bool,
)
    requires
        module_grew(new, old, module),
        same_inst(after, before),
        sound_inst(program, own, old, module, before, settled),
    ensures
        sound_inst(program, own, new, module, after, settled),
{
    let a = symbols(old, module);
    let b = symbols(new, module);
    match before {
        Inst::Global { .. } => {
            assert(after == before);
            if exists|alloc: usize| #[trigger] is_memory(program, a, before, settled, alloc) {
                let alloc = choose|alloc: usize| #[trigger]
                    is_memory(program, a, before, settled, alloc);
                let memory = need::memory_at(program, alloc)->0;
                if settled {
                    lemma_present_stays(
                        program,
                        new,
                        old,
                        module,
                        globals::targets(program, memory, memory.pointers@.len()),
                    );
                }
                assert(is_memory(program, b, after, settled, alloc));
            } else if exists|index: usize, thread_local: bool| #[trigger]
                is_static(program, a, before, settled, index, thread_local) {
                let (index, thread_local) = choose|index: usize, thread_local: bool| #[trigger]
                    is_static(program, a, before, settled, index, thread_local);
                if settled {
                    lemma_present_stays(
                        program,
                        new,
                        old,
                        module,
                        globals::static_targets(program, program.statics@[index as int]),
                    );
                }
                assert(is_static(program, b, after, settled, index, thread_local));
            }
        },
        Inst::LlvmFunc { ty, region, .. } => {
            assert(after is LlvmFunc);
        },
        Inst::MirFunc { symbol, ty, region: Some(region), .. } => {
            assert(after is MirFunc);
            if exists|origin: Origin| #[trigger]
                is_function(program, old, module, ty, region, settled, origin) && has_name(
                    program,
                    own,
                    symbol,
                    origin,
                ) {
                let origin = choose|origin: Origin| #[trigger]
                    is_function(program, old, module, ty, region, settled, origin) && has_name(
                        program,
                        own,
                        symbol,
                        origin,
                    );
                lemma_function_stays(program, new, old, module, ty, region, settled, origin);
            } else {
                let index = choose|index: usize| #[trigger]
                    is_thunk(program, old, module, symbol, ty, region, settled, index);
                lemma_body_stays(new, old, module, region, ty);
                if settled {
                    lemma_symbols_stay(
                        new,
                        old,
                        module,
                        need::instance_symbol(program.instances@[index as int]),
                    );
                }
                assert(is_thunk(program, new, module, symbol, ty, region, settled, index));
            }
        },
        _ => {},
    }
}

/// Functions stay what they are.
pub proof fn lemma_function_stays(
    program: Program,
    new: World,
    old: World,
    module: BlockId,
    ty: TypeHandle,
    region: RegionId,
    settled: bool,
    origin: Origin,
)
    requires
        module_grew(new, old, module),
        is_function(program, old, module, ty, region, settled, origin),
    ensures
        is_function(program, new, module, ty, region, settled, origin),
{
    lemma_body_stays(new, old, module, region, ty);
    let body = body_of(program, origin);
    let (params, fn_ty) = function::sound_signature(
        program,
        body,
        is_kernel(program, origin),
    )->Ok_0;
    match function::function_body(program, body, params, first_of(old, region)) {
        Ok((needs, blocks)) => {
            if settled {
                lemma_present_stays(program, new, old, module, needs);
            }
        },
        Err(_) => {},
    }
}

/// A module grows in steps.
pub proof fn lemma_grew_twice(new: World, middle: World, old: World, module: BlockId)
    requires
        module_grew(middle, old, module),
        module_grew(new, middle, module),
    ensures
        module_grew(new, old, module),
{
    assert forall|k: int| 0 <= k < symbols(old, module).len() implies same_inst(
        #[trigger] symbols(new, module)[k],
        symbols(old, module)[k],
    ) && (ir::is_visible(symbols(old, module)[k]) ==> ir::is_visible(
        symbols(new, module)[k],
    )) by {
        assert(same_inst(symbols(middle, module)[k], symbols(old, module)[k]));
    }
    assert forall|b: int| 0 <= b < old.effects.len() && b != module.0 implies #[trigger] new.effects[b]
        == old.effects[b] by {
        assert(middle.effects[b] == old.effects[b]);
    }
    assert forall|b: int| 0 <= b < old.effects.len() implies #[trigger] new.args[b]
        == old.args[b] by {
        assert(middle.args[b] == old.args[b]);
    }
    assert forall|b: int| 0 <= b < old.labels.len() implies #[trigger] new.labels[b]
        == old.labels[b] by {
        assert(middle.labels[b] == old.labels[b]);
    }
    assert forall|r: int| 0 <= r < old.regions.len() implies #[trigger] new.regions[r]
        == old.regions[r] by {
        assert(middle.regions[r] == old.regions[r]);
    }
}

/// A symbol that is settled is sound.
pub proof fn lemma_settled(
    program: Program,
    own: spec_fn(usize, Seq<char>) -> bool,
    world: World,
    module: BlockId,
    inst: Inst,
)
    requires
        sound_inst(program, own, world, module, inst, true),
    ensures
        sound_inst(program, own, world, module, inst, false),
{
    let list = symbols(world, module);
    match inst {
        Inst::Global { .. } => {
            if exists|alloc: usize| #[trigger] is_memory(program, list, inst, true, alloc) {
                let alloc = choose|alloc: usize| #[trigger]
                    is_memory(program, list, inst, true, alloc);
                assert(is_memory(program, list, inst, false, alloc));
            } else if exists|index: usize, thread_local: bool| #[trigger]
                is_static(program, list, inst, true, index, thread_local) {
                let (index, thread_local) = choose|index: usize, thread_local: bool| #[trigger]
                    is_static(program, list, inst, true, index, thread_local);
                assert(is_static(program, list, inst, false, index, thread_local));
            }
        },
        Inst::MirFunc { symbol, ty, region: Some(region), .. } => {
            if exists|origin: Origin| #[trigger]
                is_function(program, world, module, ty, region, true, origin) && has_name(
                    program,
                    own,
                    symbol,
                    origin,
                ) {
                let origin = choose|origin: Origin| #[trigger]
                    is_function(program, world, module, ty, region, true, origin) && has_name(
                        program,
                        own,
                        symbol,
                        origin,
                    );
                let body = body_of(program, origin);
                let params = function::sound_signature(
                    program,
                    body,
                    is_kernel(program, origin),
                )->Ok_0.0;
                let lowered = function::function_body(
                    program,
                    body,
                    params,
                    first_of(world, region),
                )->Ok_0;
                lemma_begun(world, region, lowered.1, function::body_labels(body));
                assert(is_function(program, world, module, ty, region, false, origin));
            } else {
                let index = choose|index: usize| #[trigger]
                    is_thunk(program, world, module, symbol, ty, region, true, index);
                assert(is_thunk(program, world, module, symbol, ty, region, false, index));
            }
        },
        _ => {},
    }
}

/// The blocks of a function stay where they are.
pub proof fn lemma_start_stays(
    program: Program,
    own: spec_fn(usize, Seq<char>) -> bool,
    new: World,
    old: World,
    module: BlockId,
    after: Inst,
    before: Inst,
    settled: bool,
)
    requires
        module_grew(new, old, module),
        same_inst(after, before),
        sound_inst(program, own, old, module, before, settled),
    ensures
        forall|floor: nat|
            starts_from(old, before, floor) ==> #[trigger] starts_from(new, after, floor),
{
    if let Inst::MirFunc { symbol, ty, region: Some(region), .. } = before {
        assert(after is MirFunc);
        assert(region.0 < old.regions.len()) by {
            if exists|origin: Origin| #[trigger]
                is_function(program, old, module, ty, region, settled, origin) && has_name(
                    program,
                    own,
                    symbol,
                    origin,
                ) {
            }
        }
        assert(new.regions[region.0 as int] == old.regions[region.0 as int]);
    }
}

/// A symbol is also sound where more functions of the crate may stand.
pub proof fn lemma_sound_wider(
    program: Program,
    few: spec_fn(usize, Seq<char>) -> bool,
    many: spec_fn(usize, Seq<char>) -> bool,
    world: World,
    module: BlockId,
    inst: Inst,
    settled: bool,
)
    requires
        forall|index: usize, symbol: Seq<char>| #[trigger]
            few(index, symbol) ==> many(index, symbol),
        sound_inst(program, few, world, module, inst, settled),
    ensures
        sound_inst(program, many, world, module, inst, settled),
{
    if let Inst::MirFunc { symbol, ty, region: Some(region), .. } = inst {
        if exists|origin: Origin| #[trigger]
            is_function(program, world, module, ty, region, settled, origin) && has_name(
                program,
                few,
                symbol,
                origin,
            ) {
            let origin = choose|origin: Origin| #[trigger]
                is_function(program, world, module, ty, region, settled, origin) && has_name(
                    program,
                    few,
                    symbol,
                    origin,
                );
            assert(has_name(program, many, symbol, origin));
            lemma_sound_function(program, many, world, module, inst, settled, origin);
        }
    }
}

/// A module is also extended where more functions of the crate may stand.
pub proof fn lemma_extended_wider(
    program: Program,
    few: spec_fn(usize, Seq<char>) -> bool,
    many: spec_fn(usize, Seq<char>) -> bool,
    new: Context,
    old: Context,
    module: BlockId,
    settled: bool,
)
    requires
        forall|index: usize, symbol: Seq<char>| #[trigger]
            few(index, symbol) ==> many(index, symbol),
        extended(program, few, new, old, module, settled),
    ensures
        extended(program, many, new, old, module, settled),
{
    let a = symbols(old@, module);
    let c = symbols(new@, module);
    assert forall|k: int| a.len() <= k < c.len() implies sound_inst(
        program,
        many,
        new@,
        module,
        #[trigger] c[k],
        settled,
    ) by {
        lemma_sound_wider(program, few, many, new@, module, c[k], settled);
    }
}

/// A module is extended in steps.
pub proof fn lemma_extended_twice(
    program: Program,
    own: spec_fn(usize, Seq<char>) -> bool,
    new: Context,
    middle: Context,
    old: Context,
    module: BlockId,
    first: bool,
    second: bool,
)
    requires
        extended(program, own, middle, old, module, first),
        extended(program, own, new, middle, module, second),
    ensures
        extended(program, own, new, old, module, first && second),
        extended(program, own, new, old, module, false),
{
    lemma_grew_twice(new@, middle@, old@, module);
    let a = symbols(old@, module);
    let b = symbols(middle@, module);
    let c = symbols(new@, module);
    assert forall|k: int| a.len() <= k < c.len() implies sound_inst(
        program,
        own,
        new@,
        module,
        #[trigger] c[k],
        first && second,
    ) && sound_inst(program, own, new@, module, c[k], false) && starts_from(
        new@,
        c[k],
        old@.effects.len(),
    ) by {
        if k < b.len() {
            assert(sound_inst(program, own, middle@, module, b[k], first));
            lemma_sound_stays(program, own, new@, middle@, module, c[k], b[k], first);
            lemma_start_stays(program, own, new@, middle@, module, c[k], b[k], first);
        } else {
            assert(sound_inst(program, own, new@, module, c[k], second));
        }
        if sound_inst(program, own, new@, module, c[k], true) {
            lemma_settled(program, own, new@, module, c[k]);
        }
    }
}

/// Nothing happened.
pub proof fn lemma_extended_same(
    program: Program,
    own: spec_fn(usize, Seq<char>) -> bool,
    ctx: Context,
    module: BlockId,
    settled: bool,
)
    requires
        ctx.wf(),
        ctx.has_block(module),
    ensures
        extended(program, own, ctx, ctx, module, settled),
{
    ctx.lemma_sizes();
}

/// A symbol without a body is added.
pub proof fn lemma_added(
    program: Program,
    own: spec_fn(usize, Seq<char>) -> bool,
    new: Context,
    old: Context,
    module: BlockId,
    inst: Inst,
    settled: bool,
)
    requires
        old.wf(),
        old.has_block(module),
        new.grew(old),
        new.dialects == old.dialects,
        new@ == old@.then_in(module, inst),
        sound_inst(program, own, new@, module, inst, settled),
        !(inst is MirFunc),
        is_fresh(symbols(old@, module), inst),
    ensures
        extended(program, own, new, old, module, settled),
        symbols(new@, module) == symbols(old@, module).push(inst),
{
    old.lemma_sizes();
    lemma_one_fresh(symbols(old@, module), inst);
}

/// A symbol that is not there yet repeats none.
pub proof fn lemma_one_fresh(insts: Seq<Inst>, inst: Inst)
    requires
        is_fresh(insts, inst),
    ensures
        no_repeats(insts) ==> no_repeats(insts.push(inst)),
{
    let symbol = ir::symbol_of(inst)->0;
    ir::lemma_position(insts, symbol);
}

/// Symbols that are the same but for their linkage repeat none either.
proof fn lemma_same_repeats(a: Seq<Inst>, b: Seq<Inst>)
    requires
        a.len() == b.len(),
        forall|k: int| 0 <= k < a.len() ==> same_inst(#[trigger] b[k], a[k]),
        no_repeats(a),
    ensures
        no_repeats(b),
{
    assert forall|i: int, j: int|
        #![trigger b[i], b[j]]
        0 <= i < j < b.len() && ir::symbol_of(b[j]) is Some && ir::symbol_of(b[i])
            == ir::symbol_of(b[j]) implies b[j] is LlvmFunc && !(b[i] is LlvmFunc) by {
        lemma_same_inst(b[i], a[i]);
        lemma_same_inst(b[j], a[j]);
    }
}

/// A function is added.
pub proof fn lemma_function_added(
    new: World,
    old: World,
    module: BlockId,
    symbol: Seq<char>,
    ty: TypeHandle,
    count: nat,
)
    requires
        module.0 < old.effects.len(),
        old.args.len() == old.effects.len(),
        old.labels.len() == old.effects.len(),
        old.effects.len() <= usize::MAX,
        old.regions.len() <= usize::MAX,
        new.has_function(old, module, symbol, ty, count),
    ensures
        module_grew(new, old, module),
        has_body(new, module, RegionId(old.regions.len() as usize), ty),
        first_of(new, RegionId(old.regions.len() as usize)) == old.effects.len(),
        new.regions[old.regions.len() as int].len() == count,
        symbols(new, module).len() == symbols(old, module).len() + 1,
{
    let region = RegionId(old.regions.len() as usize);
    assert(new.regions[region.0 as int] == function::row(old.effects.len(), count));
    assert(new.regions[region.0 as int][0] == BlockId(old.effects.len() as usize));
}

/// A symbol gets another linkage.
pub proof fn lemma_relinked(
    program: Program,
    own: spec_fn(usize, Seq<char>) -> bool,
    new: Context,
    old: Context,
    module: BlockId,
    symbol: Seq<char>,
    linkage: Linkage,
)
    requires
        old.wf(),
        old.has_block(module),
        new.grew(old),
        new.dialects == old.dialects,
        new@ == old@.with_symbol(module, symbol, |inst: Inst| ir::relinked(inst, linkage)),
        linkage == Linkage::WeakOdr || linkage == Linkage::External || !ir::is_seen(
            symbols(old@, module),
            symbol,
        ),
    ensures
        extended(program, own, new, old, module, true),
        symbols(new@, module).len() == symbols(old@, module).len(),
{
    old.lemma_sizes();
    let insts = symbols(old@, module);
    ir::lemma_position(insts, symbol);
    assert(module_grew(new@, old@, module));
    if no_repeats(insts) {
        lemma_same_repeats(insts, symbols(new@, module));
    }
}

/// The symbols that the program's functions, statics and memory have.
pub open spec fn symbol_list(program: Program) -> Seq<Seq<char>> {
    Seq::new(
        program.instances@.len(),
        |i: int| need::instance_symbol(program.instances@[i]),
    ) + Seq::new(program.instances@.len(), |i: int| need::thunk_symbol(program.instances@[i]))
        + Seq::new(program.statics@.len(), |i: int| names::legal_name(program.statics@[i].mangled@))
        + Seq::new(
        program.allocs@.len(),
        |i: int|
            match program.allocs@[i] {
                Alloc::Memory(memory) => need::memory_symbol(memory),
                _ => Seq::empty(),
            },
    )
}

/// How many of a list of symbols are not there.
pub open spec fn absent(list: Seq<Seq<char>>, insts: Seq<Inst>) -> nat
    decreases list.len(),
{
    if list.len() == 0 {
        0
    } else {
        absent(list.drop_last(), insts) + if ir::has_symbol(insts, list.last()) {
            0nat
        } else {
            1nat
        }
    }
}

/// How many of the program's symbols a module lacks.
pub open spec fn pending(program: Program, world: World, module: BlockId) -> nat {
    absent(symbol_list(program), symbols(world, module))
}

proof fn lemma_absent(list: Seq<Seq<char>>, new: Seq<Inst>, old: Seq<Inst>, k: int)
    requires
        forall|symbol: Seq<char>|
            ir::has_symbol(old, symbol) ==> #[trigger] ir::has_symbol(new, symbol),
    ensures
        absent(list, new) <= absent(list, old),
        0 <= k < list.len() && !ir::has_symbol(old, list[k]) && ir::has_symbol(new, list[k])
            ==> absent(list, new) < absent(list, old),
    decreases list.len(),
{
    if list.len() > 0 {
        lemma_absent(list.drop_last(), new, old, k);
        if 0 <= k < list.len() - 1 {
            assert(list.drop_last()[k] == list[k]);
        }
    }
}

/// A module that grows lacks no more than before.
pub proof fn lemma_pending(program: Program, new: World, old: World, module: BlockId)
    requires
        module_grew(new, old, module),
    ensures
        pending(program, new, module) <= pending(program, old, module),
{
    assert forall|symbol: Seq<char>| ir::has_symbol(symbols(old, module), symbol) implies #[trigger] ir::has_symbol(
        symbols(new, module),
        symbol,
    ) by {
        lemma_symbols_stay(new, old, module, symbol);
    }
    lemma_absent(symbol_list(program), symbols(new, module), symbols(old, module), -1);
}

/// A module that got a symbol of the program lacks fewer.
pub proof fn lemma_pending_less(
    program: Program,
    new: World,
    old: World,
    module: BlockId,
    k: int,
)
    requires
        module_grew(new, old, module),
        0 <= k < symbol_list(program).len(),
        !ir::has_symbol(symbols(old, module), symbol_list(program)[k]),
        ir::has_symbol(symbols(new, module), symbol_list(program)[k]),
    ensures
        pending(program, new, module) < pending(program, old, module),
{
    assert forall|symbol: Seq<char>| ir::has_symbol(symbols(old, module), symbol) implies #[trigger] ir::has_symbol(
        symbols(new, module),
        symbol,
    ) by {
        lemma_symbols_stay(new, old, module, symbol);
    }
    lemma_absent(symbol_list(program), symbols(new, module), symbols(old, module), k);
}

/// A list holds the symbol that was added last.
pub proof fn lemma_has_last(insts: Seq<Inst>, symbol: Seq<char>)
    requires
        insts.len() > 0,
        ir::symbol_of(insts.last()) == Some(symbol),
    ensures
        ir::has_symbol(insts, symbol),
{
    ir::lemma_position(insts, symbol);
}

/// What a symbol that is not settled is does not depend on the others, and not
/// on blocks and regions that are not its own.
proof fn lemma_sound_apart(
    program: Program,
    own: spec_fn(usize, Seq<char>) -> bool,
    new: World,
    old: World,
    module: BlockId,
    inst: Inst,
    floor: nat,
)
    requires
        sound_inst(program, own, old, module, inst, false),
        starts_from(old, inst, floor),
        new.effects.len() == old.effects.len(),
        new.args == old.args,
        new.labels == old.labels,
        new.regions.len() == old.regions.len(),
        forall|b: int|
            floor <= b < old.effects.len() && b != module.0 ==> #[trigger] new.effects[b]
                == old.effects[b],
        forall|r: int|
            0 <= r < old.regions.len() && old.regions[r][0].0 >= floor
                ==> #[trigger] new.regions[r] == old.regions[r],
    ensures
        sound_inst(program, own, new, module, inst, false),
        starts_from(new, inst, floor),
{
    let a = symbols(old, module);
    let b = symbols(new, module);
    match inst {
        Inst::Global { .. } => {
            if exists|alloc: usize| #[trigger] is_memory(program, a, inst, false, alloc) {
                let alloc = choose|alloc: usize| #[trigger]
                    is_memory(program, a, inst, false, alloc);
                assert(is_memory(program, b, inst, false, alloc));
            } else if exists|index: usize, thread_local: bool| #[trigger]
                is_static(program, a, inst, false, index, thread_local) {
                let (index, thread_local) = choose|index: usize, thread_local: bool| #[trigger]
                    is_static(program, a, inst, false, index, thread_local);
                assert(is_static(program, b, inst, false, index, thread_local));
            }
        },
        Inst::MirFunc { symbol, ty, region: Some(region), .. } => {
            if exists|origin: Origin| #[trigger]
                is_function(program, old, module, ty, region, false, origin) && has_name(
                    program,
                    own,
                    symbol,
                    origin,
                ) {
                let origin = choose|origin: Origin| #[trigger]
                    is_function(program, old, module, ty, region, false, origin) && has_name(
                        program,
                        own,
                        symbol,
                        origin,
                    );
                assert(new.regions[region.0 as int] == old.regions[region.0 as int]);
                lemma_body_kept(new, old, module, region, ty);
                assert(is_function(program, new, module, ty, region, false, origin));
            } else {
                let index = choose|index: usize| #[trigger]
                    is_thunk(program, old, module, symbol, ty, region, false, index);
                assert(new.regions[region.0 as int] == old.regions[region.0 as int]);
                lemma_body_kept(new, old, module, region, ty);
                assert(is_thunk(program, new, module, symbol, ty, region, false, index));
            }
        },
        _ => {},
    }
}

/// A module is extended though the first symbol that came was changed
/// afterwards, in itself and in its own blocks.
pub proof fn lemma_changed_first(
    program: Program,
    own: spec_fn(usize, Seq<char>) -> bool,
    new: Context,
    last: Context,
    middle: Context,
    old: Context,
    module: BlockId,
)
    requires
        extended(program, own, middle, old, module, false),
        extended(program, own, last, middle, module, false),
        symbols(middle@, module).len() == symbols(old@, module).len() + 1,
        new.grew(old),
        new.dialects == old.dialects,
        new@.effects.len() == last@.effects.len(),
        new@.args == last@.args,
        new@.labels == last@.labels,
        new@.regions.len() == last@.regions.len(),
        symbols(new@, module).len() == symbols(last@, module).len(),
        forall|i: int|
            0 <= i < symbols(last@, module).len() && i != symbols(old@, module).len()
                ==> #[trigger] symbols(new@, module)[i] == symbols(last@, module)[i],
        ({
            let k = symbols(old@, module).len() as int;
            let inst = symbols(new@, module)[k];
            &&& ir::symbol_of(inst) == ir::symbol_of(symbols(last@, module)[k])
            &&& inst is LlvmFunc == symbols(last@, module)[k] is LlvmFunc
            &&& sound_inst(program, own, new@, module, inst, false)
            &&& starts_from(new@, inst, old@.effects.len())
        }),
        forall|b: int|
            0 <= b < last@.effects.len() && b != module.0 && !(old@.effects.len() <= b
                < middle@.effects.len()) ==> #[trigger] new@.effects[b] == last@.effects[b],
        forall|r: int|
            0 <= r < last@.regions.len() && !(old@.regions.len() <= r < middle@.regions.len())
                ==> #[trigger] new@.regions[r] == last@.regions[r],
        forall|r: int|
            old@.regions.len() <= r < middle@.regions.len() ==> (
            #[trigger] last@.regions[r])[0].0 < middle@.effects.len(),
    ensures
        extended(program, own, new, old, module, false),
{
    lemma_extended_twice(program, own, last, middle, old, module, false, false);
    let a = symbols(old@, module);
    let b = symbols(middle@, module);
    let c = symbols(last@, module);
    let d = symbols(new@, module);
    assert forall|k: int| 0 <= k < a.len() implies same_inst(#[trigger] d[k], a[k]) && (
    ir::is_visible(a[k]) ==> ir::is_visible(d[k])) by {
        assert(same_inst(c[k], a[k]));
    }
    assert forall|n: int| 0 <= n < old@.effects.len() && n != module.0 implies #[trigger] new@.effects[n]
        == old@.effects[n] by {
        assert(last@.effects[n] == old@.effects[n]);
    }
    assert forall|r: int| 0 <= r < old@.regions.len() implies #[trigger] new@.regions[r]
        == old@.regions[r] by {
        assert(last@.regions[r] == old@.regions[r]);
    }
    assert(module_grew(new@, old@, module));
    if no_repeats(a) {
        assert forall|i: int, j: int|
            #![trigger d[i], d[j]]
            0 <= i < j < d.len() && ir::symbol_of(d[j]) is Some && ir::symbol_of(d[i])
                == ir::symbol_of(d[j]) implies d[j] is LlvmFunc && !(d[i] is LlvmFunc) by {
            assert(ir::symbol_of(c[j]) == ir::symbol_of(d[j]));
            assert(ir::symbol_of(c[i]) == ir::symbol_of(d[i]));
        }
        assert(no_repeats(d));
    }
    assert forall|k: int| a.len() <= k < d.len() implies sound_inst(
        program,
        own,
        new@,
        module,
        #[trigger] d[k],
        false,
    ) && starts_from(new@, d[k], old@.effects.len()) by {
        if k > a.len() {
            assert(sound_inst(program, own, last@, module, c[k], false));
            lemma_sound_apart(
                program,
                own,
                new@,
                last@,
                module,
                c[k],
                middle@.effects.len(),
            );
        }
    }
}

} // verus!
