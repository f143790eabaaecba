//! Imports a crate.

use crate::allocator;
use crate::allocator::declare_default_allocator_shims;
use crate::error::Failure;
use crate::function;
use crate::ir;
use crate::ir::{BlockId, Context, Inst, OpId, OpKind, RegionId, World};
use crate::kernel;
use crate::kernel::{is_kernel_def, kernel_entry_name};
use crate::linkage;
use crate::meaning;
use crate::minimal;
use crate::mir::{Owner, Program};
use crate::module;
use crate::module::Origin;
use crate::names;
use crate::names::Names;
use crate::need::Demand;
use crate::provide;
use crate::provide::import_function;
use crate::thunk;
use crate::thunk::import_entry_wrapper;
use crate::trace;
use crate::trace::Work;
use crate::types::TypeHandle;
use vstd::prelude::*;

verus! {

/// A function that could not be imported, and why.
pub struct ImportError {
    pub item: String,
    pub reason: Failure,
}

/// An imported crate: a module of its functions and one of its kernels.
pub struct ImportedCrate {
    pub ctx: Context,
    pub module: OpId,
    pub kernel_module: OpId,
    pub kernel_count: usize,
    pub unsupported: Vec<ImportError>,
}

/// The dialects of a context.
pub open spec fn dialect_names(ctx: Context) -> Seq<Seq<char>> {
    ctx.dialects@.map_values(|name: String| name@)
}

/// The dialects that an imported crate may use.
pub open spec fn known_dialects() -> Seq<Seq<char>> {
    seq!["aarch64"@, "x86_64"@, "mir"@, "macho"@]
}

/// A context that knows all dialects that an imported crate may use.
pub fn create_context() -> (r: Context)
    ensures
        r.wf(),
        r@ == (World {
            effects: Seq::empty(),
            args: Seq::empty(),
            labels: Seq::empty(),
            regions: Seq::empty(),
        }),
        dialect_names(r) == known_dialects(),
{
    let mut ctx: Context = Context::new();
    ctx.register_dialect("aarch64".to_owned());
    ctx.register_dialect("x86_64".to_owned());
    ctx.register_dialect("mir".to_owned());
    ctx.register_dialect("macho".to_owned());
    assert(dialect_names(ctx) =~= known_dialects());
    ctx
}

/// Whether a function of the crate is imported on its own. One with generic
/// arguments is imported where it is used.
pub open spec fn is_selected(owner: Owner) -> bool {
    owner.is_codegen && !owner.is_generic
}

/// The name that a function of the crate's symbol is made of.
pub open spec fn owner_name(owner: Owner) -> Seq<char> {
    if kernel::is_kernel_owner(owner) {
        kernel::kernel_name(owner)
    } else {
        owner.mangled@
    }
}

/// The block of the functions' module.
pub open spec fn host() -> BlockId {
    BlockId(0)
}

/// The block of the kernels' module.
pub open spec fn device() -> BlockId {
    BlockId(1)
}

/// The module that a function of the crate goes to.
pub open spec fn home(owner: Owner) -> BlockId {
    if kernel::is_kernel_owner(owner) {
        device()
    } else {
        host()
    }
}

/// How many of the first functions of the crate are kernels.
pub open spec fn kernels_among(owners: Seq<Owner>, count: nat) -> nat
    decreases count,
{
    if count == 0 {
        0
    } else {
        kernels_among(owners, (count - 1) as nat) + if is_selected(owners[count - 1])
            && kernel::is_kernel_owner(owners[count - 1]) {
            1nat
        } else {
            0nat
        }
    }
}

/// The reports of the first functions of the crate that failed.
pub open spec fn reports(owners: Seq<Owner>, failed: Seq<Option<Failure>>, count: nat) -> Seq<
    (Seq<char>, Failure),
>
    decreases count,
{
    if count == 0 {
        Seq::empty()
    } else {
        let before = reports(owners, failed, (count - 1) as nat);
        match failed[count - 1] {
            Some(failure) => before.push((owners[count - 1].path@, failure)),
            None => before,
        }
    }
}

/// What errors say.
pub open spec fn errors_view(errors: Seq<ImportError>) -> Seq<(Seq<char>, Failure)> {
    errors.map_values(|error: ImportError| (error.item@, error.reason))
}

/// Whether the names of all imported functions stay apart as identifiers.
pub open spec fn names_apart(owners: Seq<Owner>) -> bool {
    forall|i: int, j: int|
        0 <= i < owners.len() && 0 <= j < owners.len() && is_selected(#[trigger] owners[i])
            && is_selected(#[trigger] owners[j]) && names::legal_name(owner_name(owners[i]))
            == names::legal_name(owner_name(owners[j])) ==> owner_name(owners[i]) == owner_name(
            owners[j],
        )
}

/// Whether an identifier belongs to a name: the name's own, or that with a
/// number behind it.
pub open spec fn belongs_to(id: Seq<char>, name: Seq<char>) -> bool {
    ||| id == names::legal_name(name)
    ||| exists|k: nat| id == #[trigger] names::numbered(names::legal_name(name), k)
}

/// Whether symbols were chosen for functions as they should: a symbol belongs
/// to the name, functions of one name share a symbol, others do not, and the
/// symbol is the name's own identifier where all names have different ones.
pub open spec fn well_chosen(owners: Seq<Owner>, chosen: Seq<Seq<char>>) -> bool {
    &&& chosen.len() == owners.len()
    &&& forall|i: int|
        0 <= i < owners.len() && is_selected(owners[i]) ==> belongs_to(
            #[trigger] chosen[i],
            owner_name(owners[i]),
        )
    &&& forall|i: int, j: int|
        0 <= i < owners.len() && 0 <= j < owners.len() && is_selected(owners[i]) && is_selected(
            owners[j],
        ) ==> (#[trigger] chosen[i] == #[trigger] chosen[j] <==> owner_name(owners[i])
            == owner_name(owners[j]))
    &&& names_apart(owners) ==> forall|i: int|
        0 <= i < owners.len() && is_selected(owners[i]) ==> #[trigger] chosen[i]
            == names::legal_name(owner_name(owners[i]))
}

/// The first functions of the crate that go to a module, under the symbols that
/// were chosen for them.
pub open spec fn named_by(
    owners: Seq<Owner>,
    chosen: Seq<Seq<char>>,
    at: BlockId,
    count: nat,
) -> spec_fn(usize, Seq<char>) -> bool {
    |index: usize, symbol: Seq<char>|
        index < count && is_selected(owners[index as int]) && home(owners[index as int]) == at
            && chosen[index as int] == symbol
}

/// Whether a module holds only what the program says, in blocks after those of
/// the modules.
pub open spec fn module_sound(
    program: Program,
    own: spec_fn(usize, Seq<char>) -> bool,
    world: World,
    at: BlockId,
    settled: bool,
) -> bool {
    &&& at.0 < world.effects.len()
    &&& forall|k: int|
        0 <= k < module::symbols(world, at).len() ==> module::sound_inst(
            program,
            own,
            world,
            at,
            #[trigger] module::symbols(world, at)[k],
            settled,
        ) && module::starts_from(world, module::symbols(world, at)[k], 2)
}

/// What became of the crate's functions: their symbols, which of them failed
/// and why, the worlds before each and after the last, and the world that holds
/// them.
pub struct Outcome {
    pub chosen: Seq<Seq<char>>,
    pub failed: Seq<Option<Failure>>,
    pub worlds: Seq<World>,
    pub done: World,
}

/// What came of the import of a function.
pub open spec fn result_of(failed: Option<Failure>) -> Result<(), Failure> {
    match failed {
        None => Ok(()),
        Some(failure) => Err(failure),
    }
}

/// Whether the symbols in a range of a module are those that a function of the
/// crate and what it needs bring in, with all that they need themselves, and
/// have linkages that they may have.
pub open spec fn is_brought(
    program: Program,
    world: World,
    at: BlockId,
    range: (int, int),
    symbol: Seq<char>,
    index: usize,
) -> bool {
    &&& 0 <= range.0 <= range.1 <= module::symbols(world, at).len()
    &&& forall|k: int|
        range.0 <= k < range.1 ==> module::sound_inst(
            program,
            module::owner_of(Origin::Owner(index), symbol),
            world,
            at,
            #[trigger] module::symbols(world, at)[k],
            true,
        ) && minimal::called_for(program, world, at, range.0, minimal::named(symbol), k)
            && linkage::is_linked(
            program,
            linkage::one_symbol(symbol),
            module::symbols(world, at)[k],
        )
}

/// Whether a function of the crate stands at a place of a module, with the
/// linkage that it was made with, unless its address stands in memory.
pub open spec fn is_placed(
    program: Program,
    world: World,
    at: BlockId,
    k: int,
    symbol: Seq<char>,
    ty: TypeHandle,
    settled: bool,
    index: usize,
) -> bool {
    &&& module::stands_at(program, world, at, k, symbol, ty, settled, Origin::Owner(index))
    &&& linkage::is_own(program, module::symbols(world, at)[k])
}

/// Whether no function failed among the first.
pub open spec fn none_failed(failed: Seq<Option<Failure>>, count: nat) -> bool {
    forall|i: int| 0 <= i < count ==> #[trigger] failed[i] is None
}

/// Whether the world holds what came of a function of the crate: where it was
/// not there before and its signature has a counterpart, it stands in its
/// module; where it did not fail, so does all that it needs.
pub open spec fn is_kept(program: Program, outcome: Outcome, i: int) -> bool {
    let owner = program.owners@[i];
    let at = home(owner);
    let old = module::symbols(outcome.worlds[i], at);
    let new = module::symbols(outcome.worlds[i + 1], at);
    &&& outcome.failed[i] is None ==> ir::has_symbol(
        module::symbols(outcome.done, at),
        outcome.chosen[i],
    ) && is_brought(
        program,
        outcome.done,
        at,
        (old.len() as int, new.len() as int),
        outcome.chosen[i],
        i as usize,
    )
    &&& !ir::has_symbol(old, outcome.chosen[i]) ==> match function::sound_signature(
        program,
        owner.body,
        kernel::is_kernel_owner(owner),
    ) {
        Err(_) => true,
        Ok((_, ty)) => is_placed(
            program,
            outcome.done,
            at,
            old.len() as int,
            outcome.chosen[i],
            ty,
            outcome.failed[i] is None,
            i as usize,
        ),
    }
}

/// Whether a function of the crate was imported as it should: it came out as
/// the rules say, what came of it is kept, and it does not fail where all that
/// it needs can be provided.
pub open spec fn accounted(program: Program, outcome: Outcome, i: int) -> bool {
    let owner = program.owners@[i];
    if is_selected(owner) {
        &&& trace::happened(
            program,
            Work::Import(Origin::Owner(i as usize), outcome.chosen[i]),
            outcome.worlds[i + 1],
            outcome.worlds[i],
            home(owner),
            result_of(outcome.failed[i]),
        )
        &&& is_kept(program, outcome, i)
        &&& forall|good: Set<Demand>| #[trigger]
            provide::supported(program, good) && provide::always_clean(
                program,
                Origin::Owner(i as usize),
                good,
            )
                ==> outcome.failed[i] is None
    } else {
        outcome.failed[i] is None && outcome.worlds[i + 1] == outcome.worlds[i]
    }
}

/// The functions under the symbols that were chosen for the first functions of
/// the crate that go to a module.
pub open spec fn owner_symbols(
    owners: Seq<Owner>,
    chosen: Seq<Seq<char>>,
    at: BlockId,
    count: nat,
) -> spec_fn(Inst) -> bool {
    |inst: Inst|
        exists|i: int|
            0 <= i < count && is_selected(owners[i]) && home(owners[i]) == at
                && minimal::is_named(inst, #[trigger] chosen[i])
}

/// Whether all that a module holds is a function of the crate or needed by
/// something that came before it.
pub open spec fn module_needed(program: Program, outcome: Outcome, at: BlockId, count: nat) -> bool {
    forall|k: int|
        0 <= k < module::symbols(outcome.done, at).len() ==> #[trigger] minimal::called_for(
            program,
            outcome.done,
            at,
            0,
            owner_symbols(program.owners@, outcome.chosen, at, count),
            k,
        )
}

/// The symbols of a module that may keep the linkage they were made with: those
/// chosen for the first functions of the crate, or any where something failed.
pub open spec fn keep_linkage(
    program: Program,
    outcome: Outcome,
    at: BlockId,
    count: nat,
) -> spec_fn(Seq<char>) -> bool {
    if none_failed(outcome.failed, count) {
        |symbol: Seq<char>|
            exists|index: usize| #[trigger]
                named_by(program.owners@, outcome.chosen, at, count)(index, symbol)
    } else {
        linkage::any_symbol()
    }
}

/// Whether the symbols of a module have linkages that they may have.
pub open spec fn module_linked(program: Program, outcome: Outcome, at: BlockId, count: nat) -> bool {
    forall|k: int|
        0 <= k < module::symbols(outcome.done, at).len() ==> linkage::is_linked(
            program,
            keep_linkage(program, outcome, at, count),
            #[trigger] module::symbols(outcome.done, at)[k],
        )
}

/// Whether the functions of a crate were imported as they should: both modules
/// hold only what the program says, each symbol once and visible where it
/// should be, and where nothing failed they hold all that it needs and nothing
/// else.
pub open spec fn functions_imported(program: Program, outcome: Outcome, count: nat) -> bool {
    let owners = program.owners@;
    &&& outcome.failed.len() == outcome.chosen.len() == count
    &&& outcome.worlds.len() == count + 1
    &&& outcome.worlds[0].effects == seq![Seq::<Inst>::empty(), Seq::<Inst>::empty()]
    &&& outcome.worlds[count as int] == outcome.done
    &&& outcome.done.effects.len() >= 2
    &&& module_sound(
        program,
        named_by(owners, outcome.chosen, host(), count),
        outcome.done,
        host(),
        none_failed(outcome.failed, count),
    )
    &&& module_sound(
        program,
        named_by(owners, outcome.chosen, device(), count),
        outcome.done,
        device(),
        none_failed(outcome.failed, count),
    )
    &&& module_linked(program, outcome, host(), count)
    &&& module_linked(program, outcome, device(), count)
    &&& module::no_repeats(module::symbols(outcome.done, host()))
    &&& module::no_repeats(module::symbols(outcome.done, device()))
    &&& none_failed(outcome.failed, count) ==> module_needed(program, outcome, host(), count)
        && module_needed(program, outcome, device(), count)
    &&& forall|i: int| 0 <= i < count ==> #[trigger] accounted(program, outcome, i)
}

/// A module that was extended stays sound.
proof fn lemma_module_extended(
    program: Program,
    own: spec_fn(usize, Seq<char>) -> bool,
    new: Context,
    old: Context,
    at: BlockId,
    settled: bool,
    ok: bool,
)
    requires
        old@.effects.len() >= 2,
        module_sound(program, own, old@, at, settled),
        module::extended(program, own, new, old, at, ok),
    ensures
        module_sound(program, own, new@, at, settled && ok),
{
    let a = module::symbols(old@, at);
    let c = module::symbols(new@, at);
    assert forall|k: int| 0 <= k < c.len() implies module::sound_inst(
        program,
        own,
        new@,
        at,
        #[trigger] c[k],
        settled && ok,
    ) && module::starts_from(new@, c[k], 2) by {
        if k < a.len() {
            assert(module::sound_inst(program, own, old@, at, a[k], settled));
            module::lemma_sound_stays(program, own, new@, old@, at, c[k], a[k], settled);
            module::lemma_start_stays(program, own, new@, old@, at, c[k], a[k], settled);
        } else {
            assert(module::sound_inst(program, own, new@, at, c[k], ok));
        }
        if module::sound_inst(program, own, new@, at, c[k], true) {
            module::lemma_settled(program, own, new@, at, c[k]);
        }
    }
}

/// A symbol stays what it is where another module grows.
proof fn lemma_sound_other(
    program: Program,
    own: spec_fn(usize, Seq<char>) -> bool,
    new: World,
    old: World,
    grown: BlockId,
    at: BlockId,
    inst: Inst,
    settled: bool,
)
    requires
        module::sound_inst(program, own, old, at, inst, settled),
        module::starts_from(old, inst, 2),
        module::module_grew(new, old, grown),
        at.0 < old.effects.len(),
        grown != at,
        grown.0 < 2,
    ensures
        module::sound_inst(program, own, new, at, inst, settled),
        module::starts_from(new, inst, 2),
{
    assert(module::symbols(new, at) == module::symbols(old, at));
    if let Inst::MirFunc { symbol, ty, region: Some(region), .. } = inst {
        if exists|origin: Origin| #[trigger]
            module::is_function(program, old, at, ty, region, settled, origin)
                && module::has_name(program, own, symbol, origin) {
            let origin = choose|origin: Origin| #[trigger]
                module::is_function(program, old, at, ty, region, settled, origin)
                    && module::has_name(program, own, symbol, origin);
            lemma_body_other(new, old, grown, at, region, ty);
            assert(module::is_function(program, new, at, ty, region, settled, origin));
            module::lemma_sound_function(program, own, new, at, inst, settled, origin);
        } else {
            let index = choose|index: usize| #[trigger]
                module::is_thunk(program, old, at, symbol, ty, region, settled, index);
            lemma_body_other(new, old, grown, at, region, ty);
            assert(module::is_thunk(program, new, at, symbol, ty, region, settled, index));
            module::lemma_sound_thunk(program, own, new, at, inst, settled, index);
        }
    }
}

/// What a symbol is there for stays the same where another module grows.
proof fn lemma_called_other(
    program: Program,
    new: World,
    old: World,
    grown: BlockId,
    at: BlockId,
    from: int,
    roots: spec_fn(Inst) -> bool,
    k: int,
)
    requires
        module::module_grew(new, old, grown),
        grown != at,
        grown.0 < 2,
        at.0 < old.effects.len(),
        0 <= from,
        k <= module::symbols(old, at).len(),
        forall|j: int|
            0 <= j < module::symbols(old, at).len() ==> module::starts_from(
                old,
                #[trigger] module::symbols(old, at)[j],
                2,
            ),
        minimal::called_for(program, old, at, from, roots, k),
    ensures
        minimal::called_for(program, new, at, from, roots, k),
{
    let list = module::symbols(old, at);
    assert(module::symbols(new, at) == list);
    let inst = minimal::unlinked(list[k]);
    if !roots(inst) {
        let (j, demand) = choose|j: int, demand: Demand|
            from <= j < k && #[trigger] minimal::called_by(
                program,
                old,
                at,
                inst,
                j,
                demand,
            );
        assert(module::starts_from(old, list[j], 2));
        if let Inst::MirFunc { ty, region: Some(region), .. } = list[j] {
            let origin = choose|origin: Origin| #[trigger]
                minimal::function_calls(program, old, at, ty, region, origin, demand);
            lemma_body_other(new, old, grown, at, region, ty);
            assert(module::is_function(program, new, at, ty, region, false, origin));
            assert(minimal::function_calls(
                program,
                new,
                at,
                ty,
                region,
                origin,
                demand,
            ));
        }
        assert(minimal::inst_calls(program, new, at, list[j], demand));
        assert(minimal::called_by(program, new, at, inst, j, demand));
    }
}

/// What a function of the crate brought in stays where its module grows.
proof fn lemma_brought_here(
    program: Program,
    new: World,
    old: World,
    at: BlockId,
    range: (int, int),
    symbol: Seq<char>,
    index: usize,
    kept: spec_fn(Seq<char>) -> bool,
)
    requires
        module::module_grew(new, old, at),
        module::no_repeats(module::symbols(old, at)),
        linkage::linked_since(program, kept, new, old, at),
        is_brought(program, old, at, range, symbol, index),
    ensures
        is_brought(program, new, at, range, symbol, index),
{
    let a = module::symbols(old, at);
    let c = module::symbols(new, at);
    let own = module::owner_of(Origin::Owner(index), symbol);
    let one = linkage::one_symbol(symbol);
    assert forall|k: int| range.0 <= k < range.1 implies module::sound_inst(
        program,
        own,
        new,
        at,
        #[trigger] c[k],
        true,
    ) && minimal::called_for(program, new, at, range.0, minimal::named(symbol), k)
        && linkage::is_linked(program, one, c[k]) by {
        assert(module::sound_inst(program, own, old, at, a[k], true));
        assert(module::same_inst(c[k], a[k]));
        module::lemma_sound_stays(program, own, new, old, at, c[k], a[k], true);
        minimal::lemma_called_stays(
            program,
            new,
            old,
            at,
            range.0,
            minimal::named(symbol),
            k,
        );
        linkage::lemma_kept(program, one, one, c[k], a[k]);
    }
}

/// What a function of the crate brought in stays where another module grows.
proof fn lemma_brought_there(
    program: Program,
    new: World,
    old: World,
    grown: BlockId,
    at: BlockId,
    range: (int, int),
    symbol: Seq<char>,
    index: usize,
)
    requires
        module::module_grew(new, old, grown),
        grown != at,
        grown.0 < 2,
        at.0 < old.effects.len(),
        forall|j: int|
            0 <= j < module::symbols(old, at).len() ==> module::starts_from(
                old,
                #[trigger] module::symbols(old, at)[j],
                2,
            ),
        is_brought(program, old, at, range, symbol, index),
    ensures
        is_brought(program, new, at, range, symbol, index),
{
    let list = module::symbols(old, at);
    let own = module::owner_of(Origin::Owner(index), symbol);
    assert(module::symbols(new, at) == list);
    assert forall|k: int| range.0 <= k < range.1 implies module::sound_inst(
        program,
        own,
        new,
        at,
        #[trigger] list[k],
        true,
    ) && minimal::called_for(program, new, at, range.0, minimal::named(symbol), k) by {
        assert(module::starts_from(old, list[k], 2));
        lemma_sound_other(program, own, new, old, grown, at, list[k], true);
        lemma_called_other(
            program,
            new,
            old,
            grown,
            at,
            range.0,
            minimal::named(symbol),
            k,
        );
    }
}

/// A function of the crate stays where it stands where its module grows.
proof fn lemma_placed_here(
    program: Program,
    new: World,
    old: World,
    at: BlockId,
    k: int,
    symbol: Seq<char>,
    ty: TypeHandle,
    settled: bool,
    index: usize,
    kept: spec_fn(Seq<char>) -> bool,
)
    requires
        module::module_grew(new, old, at),
        module::no_repeats(module::symbols(old, at)),
        linkage::linked_since(program, kept, new, old, at),
        is_placed(program, old, at, k, symbol, ty, settled, index),
    ensures
        is_placed(program, new, at, k, symbol, ty, settled, index),
{
    let a = module::symbols(old, at)[k];
    let c = module::symbols(new, at)[k];
    assert(module::same_inst(c, a));
    if let Inst::MirFunc { region: Some(region), .. } = a {
        module::lemma_function_stays(
            program,
            new,
            old,
            at,
            ty,
            region,
            settled,
            Origin::Owner(index),
        );
    }
    linkage::lemma_own(program, c, a);
}

/// A function of the crate stays where it stands where another module grows.
proof fn lemma_placed_there(
    program: Program,
    new: World,
    old: World,
    grown: BlockId,
    at: BlockId,
    k: int,
    symbol: Seq<char>,
    ty: TypeHandle,
    settled: bool,
    index: usize,
)
    requires
        module::module_grew(new, old, grown),
        grown != at,
        grown.0 < 2,
        at.0 < old.effects.len(),
        module::starts_from(old, module::symbols(old, at)[k], 2),
        is_placed(program, old, at, k, symbol, ty, settled, index),
    ensures
        is_placed(program, new, at, k, symbol, ty, settled, index),
{
    assert(module::symbols(new, at) == module::symbols(old, at));
    if let Inst::MirFunc { region: Some(region), .. } = module::symbols(old, at)[k] {
        lemma_body_other(new, old, grown, at, region, ty);
        assert(module::is_function(
            program,
            new,
            at,
            ty,
            region,
            settled,
            Origin::Owner(index),
        ));
    }
}

/// A module stays as it is where another grows.
proof fn lemma_module_other(
    program: Program,
    own: spec_fn(usize, Seq<char>) -> bool,
    new: World,
    old: World,
    grown: BlockId,
    at: BlockId,
    settled: bool,
)
    requires
        module_sound(program, own, old, at, settled),
        module::module_grew(new, old, grown),
        grown != at,
        grown.0 < 2,
    ensures
        module_sound(program, own, new, at, settled),
        module::symbols(new, at) == module::symbols(old, at),
{
    let list = module::symbols(old, at);
    assert(module::symbols(new, at) == list);
    assert forall|k: int| 0 <= k < list.len() implies module::sound_inst(
        program,
        own,
        new,
        at,
        #[trigger] list[k],
        settled,
    ) && module::starts_from(new, list[k], 2) by {
        assert(module::sound_inst(program, own, old, at, list[k], settled));
        assert(module::starts_from(old, list[k], 2));
        lemma_sound_other(program, own, new, old, grown, at, list[k], settled);
    }
}

/// A body stays as it is where another module grows.
proof fn lemma_body_other(
    new: World,
    old: World,
    grown: BlockId,
    at: BlockId,
    region: RegionId,
    ty: TypeHandle,
)
    requires
        module::module_grew(new, old, grown),
        module::has_body(old, at, region, ty),
        module::first_of(old, region) > grown.0,
    ensures
        module::has_body(new, at, region, ty),
        module::first_of(new, region) == module::first_of(old, region),
        forall|blocks: Seq<Seq<meaning::Step>>|
            module::body_does(old, region, blocks) ==> #[trigger] module::body_does(
                new,
                region,
                blocks,
            ),
        forall|labels: Seq<Seq<char>>|
            module::body_labelled(old, region, labels) ==> #[trigger] module::body_labelled(
                new,
                region,
                labels,
            ),
        forall|blocks: Seq<Seq<meaning::Step>>, labels: Seq<Seq<char>>|
            module::body_begun(old, region, blocks, labels) ==> #[trigger] module::body_begun(
                new,
                region,
                blocks,
                labels,
            ),
{
    module::lemma_body_kept(new, old, at, region, ty);
}

/// Whether a table of identifiers fits the symbols chosen for the first
/// functions of the crate.
spec fn names_fit(
    owners: Seq<Owner>,
    given: Map<Seq<char>, Seq<char>>,
    chosen: Seq<Seq<char>>,
    count: int,
) -> bool {
    &&& forall|i: int|
        0 <= i < count && is_selected(#[trigger] owners[i]) ==> given.contains_key(
            owner_name(owners[i]),
        ) && given[owner_name(owners[i])] == chosen[i]
    &&& forall|a: Seq<char>, b: Seq<char>|
        given.contains_key(a) && given.contains_key(b) && #[trigger] given[a] == #[trigger] given[b]
            ==> a == b
    &&& forall|a: Seq<char>| #[trigger]
        given.contains_key(a) ==> exists|i: int|
            0 <= i < count && is_selected(#[trigger] owners[i]) && owner_name(owners[i]) == a
    &&& forall|a: Seq<char>| #[trigger]
        given.contains_key(a) ==> belongs_to(given[a], a)
    &&& names_apart(owners) ==> forall|a: Seq<char>| #[trigger]
        given.contains_key(a) ==> given[a] == names::legal_name(a)
}

/// A table still fits once one more symbol was chosen.
proof fn lemma_names_fit(
    owners: Seq<Owner>,
    old: Map<Seq<char>, Seq<char>>,
    new: Map<Seq<char>, Seq<char>>,
    chosen: Seq<Seq<char>>,
    symbol: Seq<char>,
    i: int,
)
    requires
        0 <= i < owners.len(),
        chosen.len() == i,
        is_selected(owners[i]),
        names_fit(owners, old, chosen, i),
        names::gives(new, old, owner_name(owners[i]), symbol),
    ensures
        names_fit(owners, new, chosen.push(symbol), i + 1),
{
    let name = owner_name(owners[i]);
    let more = chosen.push(symbol);
    assert forall|j: int| 0 <= j < i + 1 && is_selected(#[trigger] owners[j]) implies new.contains_key(
        owner_name(owners[j]),
    ) && new[owner_name(owners[j])] == more[j] by {
        if j < i {
            assert(old.contains_key(owner_name(owners[j])));
        }
    }
    assert forall|a: Seq<char>, b: Seq<char>|
        new.contains_key(a) && new.contains_key(b) && #[trigger] new[a] == #[trigger] new[b] implies a
        == b by {
        if !old.contains_key(name) {
            if a == name && b != name {
                assert(old.contains_key(b) && old[b] == symbol);
                assert(old.contains_value(symbol));
            }
            if b == name && a != name {
                assert(old.contains_key(a) && old[a] == symbol);
                assert(old.contains_value(symbol));
            }
        }
        if a != name && b != name {
            assert(old[a] == old[b]);
        } else if old.contains_key(name) {
            assert(old[a] == old[b]);
        }
    }
    assert forall|a: Seq<char>| #[trigger] new.contains_key(a) implies exists|j: int|
        0 <= j < i + 1 && is_selected(#[trigger] owners[j]) && owner_name(owners[j]) == a by {
        if a == name {
            assert(is_selected(owners[i]));
        } else {
            assert(old.contains_key(a));
            let j = choose|j: int|
                0 <= j < i && is_selected(#[trigger] owners[j]) && owner_name(owners[j]) == a;
            assert(is_selected(owners[j]));
        }
    }
    assert forall|a: Seq<char>| #[trigger] new.contains_key(a) implies belongs_to(new[a], a) by {
        if a != name {
            assert(old.contains_key(a));
        }
    }
    if names_apart(owners) {
        assert forall|a: Seq<char>| #[trigger] new.contains_key(a) implies new[a]
            == names::legal_name(a) by {
            if a == name && !old.contains_key(name) {
                if old.contains_value(names::legal_name(name)) {
                    let b = choose|b: Seq<char>| #[trigger]
                        old.contains_key(b) && old[b] == names::legal_name(name);
                    assert(old.contains_key(b));
                    let j = choose|j: int|
                        0 <= j < i && is_selected(#[trigger] owners[j]) && owner_name(owners[j])
                            == b;
                    assert(is_selected(owners[j]) && is_selected(owners[i]));
                    assert(b == name);
                }
            } else {
                assert(old.contains_key(a));
            }
        }
    }
}

proof fn lemma_well_chosen(
    owners: Seq<Owner>,
    given: Map<Seq<char>, Seq<char>>,
    chosen: Seq<Seq<char>>,
)
    requires
        chosen.len() == owners.len(),
        names_fit(owners, given, chosen, owners.len() as int),
    ensures
        well_chosen(owners, chosen),
{
    assert forall|i: int, j: int|
        0 <= i < owners.len() && 0 <= j < owners.len() && is_selected(owners[i]) && is_selected(
            owners[j],
        ) implies (#[trigger] chosen[i] == #[trigger] chosen[j] <==> owner_name(owners[i])
        == owner_name(owners[j])) by {
        assert(is_selected(owners[i]) && is_selected(owners[j]));
        let a = owner_name(owners[i]);
        let b = owner_name(owners[j]);
        assert(given[a] == chosen[i] && given[b] == chosen[j]);
    }
    assert forall|i: int| 0 <= i < owners.len() && is_selected(owners[i]) implies belongs_to(
        #[trigger] chosen[i],
        owner_name(owners[i]),
    ) by {
        assert(is_selected(owners[i]));
        assert(given.contains_key(owner_name(owners[i])));
    }
    if names_apart(owners) {
        assert forall|i: int| 0 <= i < owners.len() && is_selected(owners[i]) implies #[trigger] chosen[i]
            == names::legal_name(owner_name(owners[i])) by {
            assert(is_selected(owners[i]));
            assert(given.contains_key(owner_name(owners[i])));
        }
    }
}

/// The symbol of a function of the crate.
fn owner_symbol(names: &mut Names, owner: &Owner) -> (r: String)
    ensures
        names::gives(final(names)@, old(names)@, owner_name(*owner), r@),
{
    if is_kernel_def(owner) {
        kernel_symbol(names, owner)
    } else {
        function_symbol(names, owner)
    }
}

/// The symbol of a function: the identifier of its mangled name.
pub fn function_symbol(names: &mut Names, owner: &Owner) -> (r: String)
    ensures
        names::gives(final(names)@, old(names)@, owner.mangled@, r@),
{
    names.legal_identifier(owner.mangled.as_str())
}

/// The symbol of a kernel: the identifier of its entry's name.
pub fn kernel_symbol(names: &mut Names, owner: &Owner) -> (r: String)
    ensures
        names::gives(final(names)@, old(names)@, kernel::kernel_name(*owner), r@),
{
    let name: String = kernel_entry_name(owner);
    names.legal_identifier(name.as_str())
}

/// The failure of an import that failed.
pub open spec fn verdict(r: Result<(), Failure>) -> Option<Failure> {
    match r {
        Ok(_) => None,
        Err(failure) => Some(failure),
    }
}

/// More functions of the crate stand under the symbols chosen for them.
proof fn lemma_more_named(
    owners: Seq<Owner>,
    few: Seq<Seq<char>>,
    many: Seq<Seq<char>>,
    at: BlockId,
    count: nat,
)
    requires
        count <= few.len(),
        count < many.len(),
        forall|i: int| 0 <= i < count ==> #[trigger] many[i] == few[i],
    ensures
        forall|index: usize, symbol: Seq<char>| #[trigger]
            named_by(owners, few, at, count)(index, symbol) ==> named_by(
                owners,
                many,
                at,
                count + 1,
            )(index, symbol),
{
    assert forall|index: usize, symbol: Seq<char>| #[trigger]
        named_by(owners, few, at, count)(index, symbol) implies named_by(
        owners,
        many,
        at,
        count + 1,
    )(index, symbol) by {
        assert(many[index as int] == few[index as int]);
    }
}

/// A module is also sound where more functions of the crate may stand.
proof fn lemma_module_wider(
    program: Program,
    few: spec_fn(usize, Seq<char>) -> bool,
    many: spec_fn(usize, Seq<char>) -> bool,
    world: World,
    at: BlockId,
    settled: bool,
)
    requires
        forall|index: usize, symbol: Seq<char>| #[trigger]
            few(index, symbol) ==> many(index, symbol),
        module_sound(program, few, world, at, settled),
    ensures
        module_sound(program, many, world, at, settled),
{
    let list = module::symbols(world, at);
    assert forall|k: int| 0 <= k < list.len() implies module::sound_inst(
        program,
        many,
        world,
        at,
        #[trigger] list[k],
        settled,
    ) && module::starts_from(world, list[k], 2) by {
        module::lemma_sound_wider(program, few, many, world, at, list[k], settled);
    }
}

/// More symbols may keep their linkage once more functions were imported.
proof fn lemma_more_kept(
    program: Program,
    before: Outcome,
    after: Outcome,
    at: BlockId,
    count: nat,
)
    requires
        count <= before.chosen.len(),
        count < after.chosen.len(),
        forall|i: int| 0 <= i < count ==> #[trigger] after.chosen[i] == before.chosen[i],
        none_failed(after.failed, count + 1) ==> none_failed(before.failed, count),
    ensures
        forall|symbol: Seq<char>| #[trigger]
            keep_linkage(program, before, at, count)(symbol) ==> keep_linkage(
                program,
                after,
                at,
                count + 1,
            )(symbol),
{
    let few = named_by(program.owners@, before.chosen, at, count);
    let many = named_by(program.owners@, after.chosen, at, count + 1);
    lemma_more_named(program.owners@, before.chosen, after.chosen, at, count);
    assert forall|symbol: Seq<char>| #[trigger]
        keep_linkage(program, before, at, count)(symbol) implies keep_linkage(
        program,
        after,
        at,
        count + 1,
    )(symbol) by {
        if none_failed(after.failed, count + 1) {
            let index = choose|index: usize| #[trigger] few(index, symbol);
            assert(many(index, symbol));
        }
    }
}

/// The symbols of a module that stayed as it is have linkages that they may
/// have.
proof fn lemma_linked_there(
    program: Program,
    before: Outcome,
    after: Outcome,
    at: BlockId,
    count: nat,
)
    requires
        forall|symbol: Seq<char>| #[trigger]
            keep_linkage(program, before, at, count)(symbol) ==> keep_linkage(
                program,
                after,
                at,
                count + 1,
            )(symbol),
        module::symbols(after.done, at) == module::symbols(before.done, at),
        module_linked(program, before, at, count),
    ensures
        module_linked(program, after, at, count + 1),
{
    let few = keep_linkage(program, before, at, count);
    let many = keep_linkage(program, after, at, count + 1);
    let list = module::symbols(after.done, at);
    assert forall|k: int| 0 <= k < list.len() implies linkage::is_linked(
        program,
        many,
        #[trigger] list[k],
    ) by {
        linkage::lemma_kept(program, few, many, list[k], list[k]);
    }
}

/// One more function was imported.
#[verifier::rlimit(60)]
proof fn lemma_one_more(
    program: Program,
    new: Context,
    old: Context,
    before: Outcome,
    i: int,
    symbol: Seq<char>,
    r: Result<(), Failure>,
)
    requires
        0 <= i < program.owners@.len(),
        functions_imported(program, before, i as nat),
        before.done == old@,
        is_selected(program.owners@[i]),
        module::extended(
            program,
            module::owner_of(Origin::Owner(i as usize), symbol),
            new,
            old,
            home(program.owners@[i]),
            r is Ok,
        ),
        linkage::linked_since(
            program,
            provide::left_open(r, linkage::one_symbol(symbol)),
            new@,
            old@,
            home(program.owners@[i]),
        ),
        r is Ok ==> ir::has_symbol(
            module::symbols(new@, home(program.owners@[i])),
            symbol,
        ),
        r is Ok ==> minimal::minimal(
            program,
            new@,
            old@,
            home(program.owners@[i]),
            minimal::named(symbol),
        ),
        trace::happened(
            program,
            Work::Import(Origin::Owner(i as usize), symbol),
            new@,
            old@,
            home(program.owners@[i]),
            r,
        ),
        !ir::has_symbol(module::symbols(old@, home(program.owners@[i])), symbol)
            ==> match function::sound_signature(
            program,
            program.owners@[i].body,
            kernel::is_kernel_owner(program.owners@[i]),
        ) {
            Err(_) => true,
            Ok((_, ty)) => is_placed(
                program,
                new@,
                home(program.owners@[i]),
                module::symbols(old@, home(program.owners@[i])).len() as int,
                symbol,
                ty,
                r is Ok,
                i as usize,
            ),
        },
        forall|good: Set<Demand>| #[trigger]
            provide::supported(program, good) && provide::always_clean(
                program,
                Origin::Owner(i as usize),
                good,
            ) ==> r is Ok,
    ensures
        functions_imported(
            program,
            (Outcome {
                chosen: before.chosen.push(symbol),
                failed: before.failed.push(verdict(r)),
                worlds: before.worlds.push(new@),
                done: new@,
            }),
            (i + 1) as nat,
        ),
{
    let owner = program.owners@[i];
    let at = home(owner);
    let other = if at == host() {
        device()
    } else {
        host()
    };
    let after = Outcome {
        chosen: before.chosen.push(symbol),
        failed: before.failed.push(verdict(r)),
        worlds: before.worlds.push(new@),
        done: new@,
    };
    let clean = none_failed(before.failed, i as nat);
    let still = none_failed(after.failed, (i + 1) as nat);
    assert(still == (clean && r is Ok)) by {
        if still {
            assert(after.failed[i] is None);
            assert forall|k: int| 0 <= k < i implies #[trigger] before.failed[k] is None by {
                assert(after.failed[k] is None);
            }
        }
        if clean && r is Ok {
            assert forall|k: int| 0 <= k < i + 1 implies #[trigger] after.failed[k] is None by {
                if k < i {
                    assert(before.failed[k] is None);
                }
            }
        }
    }
    let few_here = named_by(program.owners@, before.chosen, at, i as nat);
    let few_there = named_by(program.owners@, before.chosen, other, i as nat);
    let here = named_by(program.owners@, after.chosen, at, (i + 1) as nat);
    let there = named_by(program.owners@, after.chosen, other, (i + 1) as nat);
    let one = module::owner_of(Origin::Owner(i as usize), symbol);
    lemma_more_named(program.owners@, before.chosen, after.chosen, at, i as nat);
    lemma_more_named(program.owners@, before.chosen, after.chosen, other, i as nat);
    assert forall|index: usize, name: Seq<char>| #[trigger] one(index, name) implies here(
        index,
        name,
    ) by {
        assert(i < program.owners.len());
        assert(index == i && after.chosen[i] == symbol);
    }
    module::lemma_extended_wider(program, one, here, new, old, at, r is Ok);
    lemma_module_wider(program, few_here, here, old@, at, clean);
    lemma_module_wider(program, few_there, there, old@, other, clean);
    lemma_module_extended(program, here, new, old, at, clean, r is Ok);
    lemma_module_other(program, there, new@, old@, at, other, clean);
    if clean && !still {
        lemma_unsettle(program, there, new@, other);
    }
    let few_kept = keep_linkage(program, before, at, i as nat);
    let kept = keep_linkage(program, after, at, (i + 1) as nat);
    let one_kept = provide::left_open(r, linkage::one_symbol(symbol));
    lemma_more_kept(program, before, after, at, i as nat);
    lemma_more_kept(program, before, after, other, i as nat);
    assert forall|name: Seq<char>| #[trigger] one_kept(name) implies kept(name) by {
        if still {
            assert(i < program.owners.len());
            assert(here(i as usize, name));
        }
    }
    assert(module_linked(program, after, at, (i + 1) as nat)) by {
        let a = module::symbols(old@, at);
        let c = module::symbols(new@, at);
        assert forall|k: int| 0 <= k < c.len() implies linkage::is_linked(
            program,
            kept,
            #[trigger] c[k],
        ) by {
            if k < a.len() {
                linkage::lemma_kept(program, few_kept, kept, c[k], a[k]);
            } else {
                linkage::lemma_kept(program, one_kept, kept, c[k], c[k]);
            }
        }
    }
    lemma_linked_there(program, before, after, other, i as nat);
    if still {
        lemma_needed_here(program, new@, old@, before, after, at, i);
        lemma_needed_there(program, few_there, new@, old@, before, after, at, other, i);
    }
    assert forall|k: int| 0 <= k < i + 1 implies #[trigger] accounted(program, after, k) by {
        if k < i {
            assert(accounted(program, before, k));
            assert(after.failed[k] == before.failed[k]);
            assert(after.chosen[k] == before.chosen[k]);
            assert(after.worlds[k] == before.worlds[k]);
            assert(after.worlds[k + 1] == before.worlds[k + 1]);
            module::lemma_symbols_stay(new@, old@, at, before.chosen[k]);
            if is_selected(program.owners@[k]) {
                lemma_kept_on(
                    program,
                    few_there,
                    new@,
                    old@,
                    before,
                    after,
                    at,
                    other,
                    clean,
                    one_kept,
                    k,
                );
            }
        } else {
            assert(after.failed[i] == verdict(r));
            assert(result_of(verdict(r)) == r) by {
                if r is Ok {
                    assert(r->Ok_0 == ());
                }
            }
            assert(after.chosen[i] == symbol);
            assert(after.worlds[i] == old@);
            assert(after.worlds[i + 1] == new@);
            lemma_just_brought(program, new, old, at, i, symbol, r);
        }
    }
}

/// What came of a function of the crate is kept once another was imported.
proof fn lemma_kept_on(
    program: Program,
    own: spec_fn(usize, Seq<char>) -> bool,
    new: World,
    old: World,
    before: Outcome,
    after: Outcome,
    at: BlockId,
    other: BlockId,
    clean: bool,
    kept: spec_fn(Seq<char>) -> bool,
    k: int,
)
    requires
        0 <= k < before.chosen.len(),
        before.done == old,
        after.done == new,
        after.failed[k] == before.failed[k],
        after.chosen[k] == before.chosen[k],
        after.worlds[k] == before.worlds[k],
        after.worlds[k + 1] == before.worlds[k + 1],
        is_kept(program, before, k),
        at == host() && other == device() || at == device() && other == host(),
        module::module_grew(new, old, at),
        other.0 < old.effects.len(),
        module::no_repeats(module::symbols(old, at)),
        linkage::linked_since(program, kept, new, old, at),
        module_sound(program, own, old, other, clean),
    ensures
        is_kept(program, after, k),
{
    let owner = program.owners@[k];
    let mine = home(owner);
    let a = module::symbols(before.worlds[k], mine).len() as int;
    let b = module::symbols(before.worlds[k + 1], mine).len() as int;
    let symbol = before.chosen[k];
    let index = k as usize;
    let list = module::symbols(old, other);
    assert forall|j: int| 0 <= j < list.len() implies module::starts_from(
        old,
        #[trigger] list[j],
        2,
    ) by {}
    if before.failed[k] is None {
        if mine == at {
            module::lemma_symbols_stay(new, old, at, symbol);
            lemma_brought_here(program, new, old, at, (a, b), symbol, index, kept);
        } else {
            assert(module::symbols(new, other) == list);
            lemma_brought_there(program, new, old, at, other, (a, b), symbol, index);
        }
    }
    if !ir::has_symbol(module::symbols(before.worlds[k], mine), symbol) {
        let wanted = function::sound_signature(
            program,
            owner.body,
            kernel::is_kernel_owner(owner),
        );
        if let Ok((_, ty)) = wanted {
            let settled = before.failed[k] is None;
            if mine == at {
                lemma_placed_here(program, new, old, at, a, symbol, ty, settled, index, kept);
            } else {
                lemma_placed_there(program, new, old, at, other, a, symbol, ty, settled, index);
            }
        }
    }
}

/// What a function of the crate has just brought in.
proof fn lemma_just_brought(
    program: Program,
    new: Context,
    old: Context,
    at: BlockId,
    i: int,
    symbol: Seq<char>,
    r: Result<(), Failure>,
)
    requires
        0 <= i < program.owners@.len(),
        module::extended(
            program,
            module::owner_of(Origin::Owner(i as usize), symbol),
            new,
            old,
            at,
            r is Ok,
        ),
        module::no_repeats(module::symbols(old@, at)),
        linkage::linked_since(
            program,
            provide::left_open(r, linkage::one_symbol(symbol)),
            new@,
            old@,
            at,
        ),
        r is Ok ==> minimal::minimal(program, new@, old@, at, minimal::named(symbol)),
    ensures
        r is Ok ==> is_brought(
            program,
            new@,
            at,
            (
                module::symbols(old@, at).len() as int,
                module::symbols(new@, at).len() as int,
            ),
            symbol,
            i as usize,
        ),
{
    let a = module::symbols(old@, at).len() as int;
    let c = module::symbols(new@, at);
    if r is Ok {
        assert forall|k: int| a <= k < c.len() implies module::sound_inst(
            program,
            module::owner_of(Origin::Owner(i as usize), symbol),
            new@,
            at,
            #[trigger] c[k],
            true,
        ) && minimal::called_for(program, new@, at, a, minimal::named(symbol), k)
            && linkage::is_linked(program, linkage::one_symbol(symbol), c[k]) by {
            assert(minimal::called_for(program, new@, at, a, minimal::named(symbol), k));
        }
    }
}

/// The symbols of more functions of the crate.
proof fn lemma_more_symbols(
    owners: Seq<Owner>,
    few: Seq<Seq<char>>,
    many: Seq<Seq<char>>,
    at: BlockId,
    count: nat,
    inst: Inst,
)
    requires
        count <= few.len(),
        count < many.len(),
        forall|i: int| 0 <= i < count ==> #[trigger] many[i] == few[i],
        owner_symbols(owners, few, at, count)(inst),
    ensures
        owner_symbols(owners, many, at, count + 1)(inst),
{
    let i = choose|i: int|
        0 <= i < count && is_selected(owners[i]) && home(owners[i]) == at && minimal::is_named(
            inst,
            #[trigger] few[i],
        );
    assert(many[i] == few[i]);
}

/// A module that got one more function holds nothing that is not needed.
proof fn lemma_needed_here(
    program: Program,
    new: World,
    old: World,
    before: Outcome,
    after: Outcome,
    at: BlockId,
    i: int,
)
    requires
        0 <= i < program.owners@.len(),
        before.done == old,
        after.done == new,
        before.chosen.len() == i,
        after.chosen.len() == i + 1,
        forall|k: int| 0 <= k < i ==> #[trigger] after.chosen[k] == before.chosen[k],
        is_selected(program.owners@[i]),
        home(program.owners@[i]) == at,
        module::module_grew(new, old, at),
        minimal::minimal(program, new, old, at, minimal::named(after.chosen[i])),
        module_needed(program, before, at, i as nat),
    ensures
        module_needed(program, after, at, (i + 1) as nat),
{
    let few = owner_symbols(program.owners@, before.chosen, at, i as nat);
    let many = owner_symbols(program.owners@, after.chosen, at, (i + 1) as nat);
    let one = minimal::named(after.chosen[i]);
    assert forall|inst: Inst| #[trigger] few(inst) implies many(inst) by {
        lemma_more_symbols(
            program.owners@,
            before.chosen,
            after.chosen,
            at,
            i as nat,
            inst,
        );
    }
    assert forall|inst: Inst| #[trigger] one(inst) implies many(inst) by {
        assert(minimal::is_named(inst, after.chosen[i]));
    }
    let from = module::symbols(old, at).len() as int;
    assert forall|k: int| 0 <= k < module::symbols(new, at).len() implies #[trigger] minimal::called_for(
        program,
        new,
        at,
        0,
        many,
        k,
    ) by {
        if k < from {
            assert(minimal::called_for(program, old, at, 0, few, k));
            minimal::lemma_called_stays(program, new, old, at, 0, few, k);
            minimal::lemma_called_wider(program, new, at, 0, 0, few, many, k);
        } else {
            assert(minimal::called_for(program, new, at, from, one, k));
            minimal::lemma_called_wider(program, new, at, from, 0, one, many, k);
        }
    }
}

/// A module still holds nothing that is not needed where another grew.
proof fn lemma_needed_there(
    program: Program,
    own: spec_fn(usize, Seq<char>) -> bool,
    new: World,
    old: World,
    before: Outcome,
    after: Outcome,
    grown: BlockId,
    at: BlockId,
    i: int,
)
    requires
        before.done == old,
        after.done == new,
        before.chosen.len() == i,
        after.chosen.len() == i + 1,
        forall|k: int| 0 <= k < i ==> #[trigger] after.chosen[k] == before.chosen[k],
        module::module_grew(new, old, grown),
        module_sound(program, own, old, at, true),
        grown != at,
        grown.0 < 2,
        module_needed(program, before, at, i as nat),
    ensures
        module_needed(program, after, at, (i + 1) as nat),
{
    let few = owner_symbols(program.owners@, before.chosen, at, i as nat);
    let many = owner_symbols(program.owners@, after.chosen, at, (i + 1) as nat);
    assert forall|inst: Inst| #[trigger] few(inst) implies many(inst) by {
        lemma_more_symbols(
            program.owners@,
            before.chosen,
            after.chosen,
            at,
            i as nat,
            inst,
        );
    }
    let list = module::symbols(old, at);
    assert(module::symbols(new, at) == list);
    assert forall|j: int| 0 <= j < list.len() implies module::starts_from(
        old,
        #[trigger] list[j],
        2,
    ) by {}
    assert forall|k: int| 0 <= k < list.len() implies #[trigger] minimal::called_for(
        program,
        new,
        at,
        0,
        many,
        k,
    ) by {
        assert(minimal::called_for(program, old, at, 0, few, k));
        lemma_called_other(program, new, old, grown, at, 0, few, k);
        minimal::lemma_called_wider(program, new, at, 0, 0, few, many, k);
    }
}

/// A module that is settled is sound.
proof fn lemma_unsettle(
    program: Program,
    own: spec_fn(usize, Seq<char>) -> bool,
    world: World,
    at: BlockId,
)
    requires
        module_sound(program, own, world, at, true),
    ensures
        module_sound(program, own, world, at, false),
{
    let list = module::symbols(world, at);
    assert forall|k: int| 0 <= k < list.len() implies module::sound_inst(
        program,
        own,
        world,
        at,
        #[trigger] list[k],
        false,
    ) && module::starts_from(world, list[k], 2) by {
        assert(module::sound_inst(program, own, world, at, list[k], true));
        module::lemma_settled(program, own, world, at, list[k]);
    }
}

/// A function that is not imported on its own was passed over.
proof fn lemma_one_passed(program: Program, before: Outcome, i: int)
    requires
        0 <= i < program.owners@.len(),
        functions_imported(program, before, i as nat),
        !is_selected(program.owners@[i]),
    ensures
        functions_imported(
            program,
            (Outcome {
                chosen: before.chosen.push(Seq::empty()),
                failed: before.failed.push(None),
                worlds: before.worlds.push(before.done),
                done: before.done,
            }),
            (i + 1) as nat,
        ),
{
    let after = Outcome {
        chosen: before.chosen.push(Seq::empty()),
        failed: before.failed.push(None),
        worlds: before.worlds.push(before.done),
        done: before.done,
    };
    assert(none_failed(after.failed, (i + 1) as nat) == none_failed(before.failed, i as nat)) by {
        if none_failed(after.failed, (i + 1) as nat) {
            assert forall|k: int| 0 <= k < i implies #[trigger] before.failed[k] is None by {
                assert(after.failed[k] is None);
            }
        }
        if none_failed(before.failed, i as nat) {
            assert forall|k: int| 0 <= k < i + 1 implies #[trigger] after.failed[k] is None by {
                if k < i {
                    assert(before.failed[k] is None);
                }
            }
        }
    }
    let owners = program.owners@;
    let clean = none_failed(before.failed, i as nat);
    lemma_more_named(owners, before.chosen, after.chosen, host(), i as nat);
    lemma_more_named(owners, before.chosen, after.chosen, device(), i as nat);
    lemma_module_wider(
        program,
        named_by(owners, before.chosen, host(), i as nat),
        named_by(owners, after.chosen, host(), (i + 1) as nat),
        before.done,
        host(),
        clean,
    );
    lemma_module_wider(
        program,
        named_by(owners, before.chosen, device(), i as nat),
        named_by(owners, after.chosen, device(), (i + 1) as nat),
        before.done,
        device(),
        clean,
    );
    lemma_more_kept(program, before, after, host(), i as nat);
    lemma_more_kept(program, before, after, device(), i as nat);
    lemma_linked_there(program, before, after, host(), i as nat);
    lemma_linked_there(program, before, after, device(), i as nat);
    if clean {
        lemma_needed_still(program, before, after, host(), i);
        lemma_needed_still(program, before, after, device(), i);
    }
    assert forall|k: int| 0 <= k < i + 1 implies #[trigger] accounted(program, after, k) by {
        if k < i {
            assert(accounted(program, before, k));
            assert(after.failed[k] == before.failed[k]);
            assert(after.chosen[k] == before.chosen[k]);
            assert(after.worlds[k] == before.worlds[k]);
            assert(after.worlds[k + 1] == before.worlds[k + 1]);
        }
    }
}

/// A module still holds nothing that is not needed where nothing happened.
proof fn lemma_needed_still(program: Program, before: Outcome, after: Outcome, at: BlockId, i: int)
    requires
        before.done == after.done,
        before.chosen.len() == i,
        after.chosen.len() == i + 1,
        forall|k: int| 0 <= k < i ==> #[trigger] after.chosen[k] == before.chosen[k],
        module_needed(program, before, at, i as nat),
    ensures
        module_needed(program, after, at, (i + 1) as nat),
{
    let few = owner_symbols(program.owners@, before.chosen, at, i as nat);
    let many = owner_symbols(program.owners@, after.chosen, at, (i + 1) as nat);
    let world = before.done;
    assert forall|inst: Inst| #[trigger] few(inst) implies many(inst) by {
        lemma_more_symbols(
            program.owners@,
            before.chosen,
            after.chosen,
            at,
            i as nat,
            inst,
        );
    }
    assert forall|k: int| 0 <= k < module::symbols(world, at).len() implies #[trigger] minimal::called_for(
        program,
        world,
        at,
        0,
        many,
        k,
    ) by {
        assert(minimal::called_for(program, world, at, 0, few, k));
        minimal::lemma_called_wider(program, world, at, 0, 0, few, many, k);
    }
}

/// The reports of the first functions do not depend on later ones.
proof fn lemma_reports(
    owners: Seq<Owner>,
    first: Seq<Option<Failure>>,
    second: Seq<Option<Failure>>,
    count: nat,
)
    requires
        count <= first.len(),
        count <= second.len(),
        forall|i: int| 0 <= i < count ==> #[trigger] first[i] == second[i],
    ensures
        reports(owners, first, count) == reports(owners, second, count),
    decreases count,
{
    if count > 0 {
        lemma_reports(owners, first, second, (count - 1) as nat);
        assert(first[count - 1] == second[count - 1]);
    }
}

/// Imports the functions of the crate one after another.
fn import_owners(program: &Program, ctx: &mut Context, names: &mut Names) -> (r: (
    usize,
    Vec<ImportError>,
    Ghost<Outcome>,
))
    requires
        module::program_wf(*program),
        old(ctx).wf(),
        old(ctx)@.effects == seq![Seq::<Inst>::empty(), Seq::<Inst>::empty()],
        old(ctx)@.regions.len() == 2,
        old(names)@ == names::no_names(),
    ensures
        final(ctx).wf(),
        final(ctx).dialects == old(ctx).dialects,
        final(ctx)@ == r.2@.done,
        functions_imported(*program, r.2@, program.owners@.len()),
        well_chosen(program.owners@, r.2@.chosen),
        names_fit(
            program.owners@,
            final(names)@,
            r.2@.chosen,
            program.owners@.len() as int,
        ),
        r.0 == kernels_among(program.owners@, program.owners@.len()),
        errors_view(r.1@) == reports(program.owners@, r.2@.failed, program.owners@.len()),
        final(ctx)@.regions.len() >= 2,
        final(ctx)@.regions[0] == old(ctx)@.regions[0],
        final(ctx)@.regions[1] == old(ctx)@.regions[1],
{
    let ghost before = *ctx;
    let ghost owners = program.owners@;
    let ghost mut outcome = Outcome {
        chosen: Seq::empty(),
        failed: Seq::empty(),
        worlds: seq![ctx@],
        done: ctx@,
    };
    let mut unsupported: Vec<ImportError> = Vec::new();
    let mut kernel_count: usize = 0;
    let mut i: usize = 0;
    let host_block: BlockId = BlockId(0);
    let device_block: BlockId = BlockId(1);
    proof {
        assert(errors_view(unsupported@) =~= Seq::empty());
        assert(module::symbols(ctx@, host()) =~= Seq::<Inst>::empty());
        assert(module::symbols(ctx@, device()) =~= Seq::<Inst>::empty());
    }
    while i < program.owners.len()
        invariant
            i <= owners.len(),
            owners == program.owners@,
            before == *old(ctx),
            before@.regions.len() == 2,
            host_block == host(),
            device_block == device(),
            module::program_wf(*program),
            ctx.wf(),
            ctx.dialects == before.dialects,
            ctx@ == outcome.done,
            functions_imported(*program, outcome, i as nat),
            names_fit(owners, names@, outcome.chosen, i as int),
            kernel_count == kernels_among(owners, i as nat),
            kernel_count <= i,
            errors_view(unsupported@) == reports(owners, outcome.failed, i as nat),
            ctx@.regions.len() >= 2,
            ctx@.regions[0] == before@.regions[0],
            ctx@.regions[1] == before@.regions[1],
        decreases owners.len() - i,
    {
        let ghost old_outcome = outcome;
        let owner: &Owner = &program.owners[i];
        if owner.is_codegen && !owner.is_generic {
            let ghost given = names@;
            let symbol: String = owner_symbol(names, owner);
            proof {
                lemma_names_fit(
                    owners,
                    given,
                    names@,
                    outcome.chosen,
                    symbol@,
                    i as int,
                );
            }
            let at: BlockId = if is_kernel_def(owner) {
                kernel_count = kernel_count + 1;
                device_block
            } else {
                host_block
            };
            let ghost middle = *ctx;
            let r: Result<(), Failure> = import_function(
                program,
                ctx,
                at,
                &symbol,
                Origin::Owner(i),
            );
            proof {
                lemma_one_more(
                    *program,
                    *ctx,
                    middle,
                    outcome,
                    i as int,
                    symbol@,
                    r,
                );
                outcome = Outcome {
                    chosen: outcome.chosen.push(symbol@),
                    failed: outcome.failed.push(verdict(r)),
                    worlds: outcome.worlds.push(ctx@),
                    done: ctx@,
                };
                lemma_reports(owners, old_outcome.failed, outcome.failed, i as nat);
            }
            if let Err(reason) = r {
                let ghost listed = unsupported@;
                let ghost said = (owner.path@, reason);
                unsupported.push(ImportError { item: owner.path.clone(), reason });
                assert(errors_view(unsupported@) =~= errors_view(listed).push(said));
            }
        } else {
            proof {
                lemma_one_passed(*program, outcome, i as int);
                outcome = Outcome {
                    chosen: outcome.chosen.push(Seq::empty()),
                    failed: outcome.failed.push(None),
                    worlds: outcome.worlds.push(outcome.done),
                    done: outcome.done,
                };
                lemma_reports(owners, old_outcome.failed, outcome.failed, i as nat);
                assert(names_fit(owners, names@, outcome.chosen, i + 1)) by {
                    assert forall|a: Seq<char>| #[trigger] names@.contains_key(a) implies exists|
                        j: int,
                    |
                        0 <= j < i + 1 && is_selected(#[trigger] owners[j]) && owner_name(
                            owners[j],
                        ) == a by {
                        let j = choose|j: int|
                            0 <= j < i && is_selected(#[trigger] owners[j]) && owner_name(
                                owners[j],
                            ) == a;
                        assert(is_selected(owners[j]));
                    }
                }
            }
        }
        i = i + 1;
    }
    proof {
        lemma_well_chosen(owners, names@, outcome.chosen);
    }
    (kernel_count, unsupported, Ghost(outcome))
}

/// Whether all that a crate refers to is there.
pub open spec fn crate_wf(program: Program) -> bool {
    &&& module::program_wf(program)
    &&& program.allocator@.len() == 5
    &&& program.entry matches Some(entry) ==> entry < program.owners@.len() && is_selected(
        program.owners@[entry as int],
    )
}

/// Whether the entry point of a crate is a kernel, which it must not be.
pub open spec fn has_kernel_entry(program: Program) -> bool {
    program.entry matches Some(entry) && kernel::is_kernel_owner(program.owners@[entry as int])
}

/// Whether the entry point was added that calls a symbol.
pub open spec fn has_entry(new: World, old: World, rust_main: Seq<char>) -> bool {
    &&& new.has_function(old, host(), "main"@, thunk::entry_type(), 1)
    &&& meaning::steps_of(new.effects[old.effects.len() as int]) == thunk::entry_steps(rust_main)
}

/// Whether the allocator's functions were added.
pub open spec fn has_allocator(program: Program, new: World, old: World) -> bool {
    exists|worlds: Seq<World>| #[trigger]
        allocator::has_shims(program, worlds, host()) && worlds[0] == allocator::with_library(
            old,
            host(),
        ) && worlds[5] == new
}

/// Whether a world holds a crate's functions and what follows them: the entry
/// point where there is one, and the allocator's functions. Nothing follows
/// where the entry point is a kernel.
pub open spec fn is_finished(program: Program, outcome: Outcome, world: World) -> bool {
    match program.entry {
        None => has_allocator(program, world, outcome.done),
        Some(entry) => if has_kernel_entry(program) {
            world == outcome.done
        } else {
            exists|started: World| #[trigger]
                has_entry(started, outcome.done, outcome.chosen[entry as int]) && has_allocator(
                    program,
                    world,
                    started,
                )
        },
    }
}

/// The errors that the import of a crate reports.
pub open spec fn all_reports(program: Program, outcome: Outcome) -> Seq<(Seq<char>, Failure)> {
    let list = reports(program.owners@, outcome.failed, program.owners@.len());
    match program.entry {
        Some(entry) => if has_kernel_entry(program) {
            list.push((program.owners@[entry as int].path@, Failure::KernelEntry))
        } else {
            list
        },
        None => list,
    }
}

/// Whether an operation is a module whose body is a region.
pub open spec fn is_module(ctx: Context, op: OpId, name: Seq<char>, region: RegionId) -> bool {
    &&& ctx.is_loose(op)
    &&& ir::inst_of(ctx.op(op)) == Some(Inst::Module { symbol: name, region: Some(region) })
}

/// Whether a crate was imported as it should.
pub open spec fn is_imported(program: Program, r: ImportedCrate, outcome: Outcome) -> bool {
    &&& functions_imported(program, outcome, program.owners@.len())
    &&& well_chosen(program.owners@, outcome.chosen)
    &&& is_finished(program, outcome, r.ctx@)
    &&& r.kernel_count == kernels_among(program.owners@, program.owners@.len())
    &&& errors_view(r.unsupported@) == all_reports(program, outcome)
    &&& outcome.done.regions.len() >= 2
    &&& outcome.done.regions[0] == seq![host()]
    &&& outcome.done.regions[1] == seq![device()]
    &&& is_module(r.ctx, r.module, "rust_crate"@, RegionId(0))
    &&& is_module(r.ctx, r.kernel_module, "rust_kernels"@, RegionId(1))
}

/// A context with two empty modules.
fn create_modules() -> (r: Context)
    ensures
        r.wf(),
        dialect_names(r) == known_dialects(),
        r@.effects == seq![Seq::<Inst>::empty(), Seq::<Inst>::empty()],
        r@.regions == seq![seq![host()], seq![device()]],
{
    let mut ctx: Context = create_context();
    let first: BlockId = ctx.new_block("rust_crate".to_owned(), Vec::new());
    let first_body: Vec<BlockId> = vec![first];
    assert(first_body@ =~= seq![host()]);
    ctx.new_region(first_body);
    let second: BlockId = ctx.new_block("rust_kernels".to_owned(), Vec::new());
    let second_body: Vec<BlockId> = vec![second];
    assert(second_body@ =~= seq![device()]);
    ctx.new_region(second_body);
    assert(ctx@.effects =~= seq![Seq::<Inst>::empty(), Seq::<Inst>::empty()]);
    assert(ctx@.regions =~= seq![seq![host()], seq![device()]]);
    ctx
}

/// Makes the operations of both modules.
fn close_modules(ctx: &mut Context) -> (r: (OpId, OpId))
    requires
        old(ctx).wf(),
    ensures
        final(ctx).wf(),
        final(ctx)@ == old(ctx)@,
        final(ctx).dialects == old(ctx).dialects,
        is_module(*final(ctx), r.0, "rust_crate"@, RegionId(0)),
        is_module(*final(ctx), r.1, "rust_kernels"@, RegionId(1)),
{
    let host_op: OpId = ctx.add_op(
        OpKind::Module { symbol: "rust_crate".to_owned() },
        Vec::new(),
        None,
        Vec::new(),
    );
    ctx.set_region(host_op, RegionId(0));
    let device_op: OpId = ctx.add_op(
        OpKind::Module { symbol: "rust_kernels".to_owned() },
        Vec::new(),
        None,
        Vec::new(),
    );
    ctx.set_region(device_op, RegionId(1));
    (host_op, device_op)
}

/// Imports a crate: its functions, which report where they fail, its entry
/// point and its allocator.
pub fn import_crate(program: &Program) -> (r: ImportedCrate)
    requires
        crate_wf(*program),
    ensures
        r.ctx.wf(),
        dialect_names(r.ctx) == known_dialects(),
        exists|outcome: Outcome| #[trigger] is_imported(*program, r, outcome),
{
    let mut ctx: Context = create_modules();
    let mut names: Names = Names::new();
    let (kernel_count, mut unsupported, Ghost(outcome)): (
        usize,
        Vec<ImportError>,
        Ghost<Outcome>,
    ) = import_owners(program, &mut ctx, &mut names);
    let host_block: BlockId = BlockId(0);
    if let Some(entry) = program.entry {
        let owner: &Owner = &program.owners[entry];
        proof {
            assert(is_selected(program.owners@[entry as int]));
        }
        if is_kernel_def(owner) {
            let ghost listed = unsupported@;
            unsupported.push(
                ImportError { item: owner.path.clone(), reason: Failure::KernelEntry },
            );
            assert(errors_view(unsupported@) =~= errors_view(listed).push(
                (owner.path@, Failure::KernelEntry),
            ));
            let (module, kernel_module): (OpId, OpId) = close_modules(&mut ctx);
            let r: ImportedCrate = ImportedCrate {
                ctx,
                module,
                kernel_module,
                kernel_count,
                unsupported,
            };
            assert(is_imported(*program, r, outcome));
            return r;
        }
        let rust_main: String = function_symbol(&mut names, owner);
        let ghost chosen = rust_main@;
        proof {
            assert(owner_name(*owner) == owner.mangled@);
            assert(chosen == outcome.chosen[entry as int]);
        }
        import_entry_wrapper(&mut ctx, host_block, rust_main);
        proof {
            assert(has_entry(ctx@, outcome.done, chosen));
        }
    }
    let ghost started = ctx@;
    declare_default_allocator_shims(program, &mut ctx, host_block);
    proof {
        assert(has_allocator(*program, ctx@, started));
        assert(is_finished(*program, outcome, ctx@));
    }
    let (module, kernel_module): (OpId, OpId) = close_modules(&mut ctx);
    let r: ImportedCrate = ImportedCrate {
        ctx,
        module,
        kernel_module,
        kernel_count,
        unsupported,
    };
    assert(is_imported(*program, r, outcome));
    r
}

} // verus!
