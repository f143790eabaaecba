//! Which linkage the symbols of a module have.

use crate::ir;
use crate::ir::{BlockId, Inst, Linkage, World};
use crate::mir::Program;
use crate::module;
use crate::need;
use vstd::prelude::*;

verus! {

/// No symbol.
pub open spec fn no_symbol() -> spec_fn(Seq<char>) -> bool {
    |symbol: Seq<char>| false
}

/// Any symbol.
pub open spec fn any_symbol() -> spec_fn(Seq<char>) -> bool {
    |symbol: Seq<char>| true
}

/// One symbol.
pub open spec fn one_symbol(symbol: Seq<char>) -> spec_fn(Seq<char>) -> bool {
    |other: Seq<char>| other == symbol
}

/// Whether a symbol is that of an instance that is imported.
pub open spec fn is_imported_at(program: Program, symbol: Seq<char>, index: usize) -> bool {
    let instance = program.instances@[index as int];
    &&& index < program.instances@.len()
    &&& need::is_importable(instance.kind)
    &&& symbol == need::instance_symbol(instance)
}

/// Whether a symbol is that of a function that forwards to an instance of
/// another object.
pub open spec fn is_forwarded_at(program: Program, symbol: Seq<char>, index: usize) -> bool {
    let instance = program.instances@[index as int];
    &&& index < program.instances@.len()
    &&& !need::is_importable(instance.kind)
    &&& symbol == need::thunk_symbol(instance)
}

/// Whether a function whose address stands in memory has this linkage: an
/// imported instance is weak, one that forwards is visible.
pub open spec fn is_data_linkage(program: Program, symbol: Seq<char>, linkage: Linkage) -> bool {
    ||| linkage == Linkage::WeakOdr && exists|index: usize| #[trigger]
        is_imported_at(program, symbol, index)
    ||| linkage == Linkage::External && exists|index: usize| #[trigger]
        is_forwarded_at(program, symbol, index)
}

/// Whether a symbol is that of an instance, or of a function that forwards to
/// one.
pub open spec fn is_brought_at(program: Program, symbol: Seq<char>, index: usize) -> bool {
    let instance = program.instances@[index as int];
    &&& index < program.instances@.len()
    &&& symbol == need::instance_symbol(instance) || symbol == need::thunk_symbol(instance)
}

/// Whether a symbol is a function that has the linkage it was made with, or
/// one that it has because its address stands in memory.
pub open spec fn is_own(program: Program, inst: Inst) -> bool {
    inst matches Inst::MirFunc { symbol, linkage, .. } && (linkage matches Some(linkage)
        ==> is_data_linkage(program, symbol, linkage))
}

/// Whether a symbol has a linkage that it may have. Instances are internal
/// unless all stay visible or their address stands in memory; other functions
/// keep the linkage they were made with; declarations are visible.
pub open spec fn is_linked(
    program: Program,
    kept: spec_fn(Seq<char>) -> bool,
    inst: Inst,
) -> bool {
    match inst {
        Inst::MirFunc { symbol, linkage, .. } => match linkage {
            None => program.export_all || kept(symbol),
            Some(linkage) => linkage == Linkage::Internal && !program.export_all && (
            exists|index: usize| #[trigger] is_brought_at(program, symbol, index))
                || is_data_linkage(program, symbol, linkage),
        },
        Inst::LlvmFunc { symbol, linkage, .. } => linkage == Linkage::External
            || is_data_linkage(program, symbol, linkage),
        _ => true,
    }
}

/// Whether a symbol stayed as it was, but that its address came to stand in
/// memory.
pub open spec fn is_kept(program: Program, after: Inst, before: Inst) -> bool {
    ||| after == before
    ||| exists|linkage: Linkage|
        after == #[trigger] ir::relinked(before, linkage) && (ir::symbol_of(before) matches Some(
            symbol,
        ) && is_data_linkage(program, symbol, linkage))
}

/// Whether the symbols of a module kept their linkage since an earlier state,
/// and new ones have one that they may have.
pub open spec fn linked_since(
    program: Program,
    kept: spec_fn(Seq<char>) -> bool,
    new: World,
    old: World,
    module: BlockId,
) -> bool {
    let a = module::symbols(old, module);
    let c = module::symbols(new, module);
    module::no_repeats(a) ==> {
        &&& a.len() <= c.len()
        &&& forall|k: int| 0 <= k < a.len() ==> is_kept(program, #[trigger] c[k], a[k])
        &&& forall|k: int| a.len() <= k < c.len() ==> is_linked(program, kept, #[trigger] c[k])
    }
}

/// A symbol that stays has a linkage that it may have if it had one before.
pub proof fn lemma_kept(
    program: Program,
    few: spec_fn(Seq<char>) -> bool,
    many: spec_fn(Seq<char>) -> bool,
    after: Inst,
    before: Inst,
)
    requires
        forall|symbol: Seq<char>| #[trigger] few(symbol) ==> many(symbol),
        is_kept(program, after, before),
        is_linked(program, few, before),
    ensures
        is_linked(program, many, after),
{
}

/// A function that stays keeps the linkage it was made with, or has one because
/// its address stands in memory.
pub proof fn lemma_own(program: Program, after: Inst, before: Inst)
    requires
        is_kept(program, after, before),
        is_own(program, before),
    ensures
        is_own(program, after),
{
}

/// A symbol that stays twice stays.
proof fn lemma_kept_twice(program: Program, last: Inst, after: Inst, before: Inst)
    requires
        is_kept(program, after, before),
        is_kept(program, last, after),
    ensures
        is_kept(program, last, before),
{
    if last != after && after != before {
        let linkage = choose|linkage: Linkage|
            last == #[trigger] ir::relinked(after, linkage) && (ir::symbol_of(
                after,
            ) matches Some(symbol) && is_data_linkage(program, symbol, linkage));
        assert(last == ir::relinked(before, linkage));
    }
}

/// Nothing happened.
pub proof fn lemma_linked_same(
    program: Program,
    kept: spec_fn(Seq<char>) -> bool,
    new: World,
    old: World,
    module: BlockId,
)
    requires
        module::symbols(new, module) == module::symbols(old, module),
    ensures
        linked_since(program, kept, new, old, module),
{
}

/// Symbols came in steps.
pub proof fn lemma_linked_twice(
    program: Program,
    first: spec_fn(Seq<char>) -> bool,
    second: spec_fn(Seq<char>) -> bool,
    kept: spec_fn(Seq<char>) -> bool,
    new: World,
    middle: World,
    old: World,
    module: BlockId,
)
    requires
        forall|symbol: Seq<char>| #[trigger] first(symbol) ==> kept(symbol),
        forall|symbol: Seq<char>| #[trigger] second(symbol) ==> kept(symbol),
        module::no_repeats(module::symbols(old, module)) ==> module::no_repeats(
            module::symbols(middle, module),
        ),
        linked_since(program, first, middle, old, module),
        linked_since(program, second, new, middle, module),
    ensures
        linked_since(program, kept, new, old, module),
{
    let a = module::symbols(old, module);
    let b = module::symbols(middle, module);
    let c = module::symbols(new, module);
    if module::no_repeats(a) {
        assert forall|k: int| 0 <= k < a.len() implies is_kept(program, #[trigger] c[k], a[k]) by {
            lemma_kept_twice(program, c[k], b[k], a[k]);
        }
        assert forall|k: int| a.len() <= k < c.len() implies is_linked(
            program,
            kept,
            #[trigger] c[k],
        ) by {
            if k < b.len() {
                lemma_kept(program, first, kept, c[k], b[k]);
            } else {
                lemma_kept(program, second, kept, c[k], c[k]);
            }
        }
    }
}

/// More symbols may keep their linkage.
pub proof fn lemma_linked_wider(
    program: Program,
    few: spec_fn(Seq<char>) -> bool,
    many: spec_fn(Seq<char>) -> bool,
    new: World,
    old: World,
    module: BlockId,
)
    requires
        forall|symbol: Seq<char>| #[trigger] few(symbol) ==> many(symbol),
        linked_since(program, few, new, old, module),
    ensures
        linked_since(program, many, new, old, module),
{
    lemma_linked_same(program, few, old, old, module);
    lemma_linked_twice(program, few, few, many, new, old, old, module);
}

/// One symbol came.
pub proof fn lemma_linked_one(
    program: Program,
    kept: spec_fn(Seq<char>) -> bool,
    new: World,
    old: World,
    module: BlockId,
    inst: Inst,
)
    requires
        module::symbols(new, module) == module::symbols(old, module).push(inst),
        is_linked(program, kept, inst),
    ensures
        linked_since(program, kept, new, old, module),
{
}

/// The address of a function came to stand in memory.
pub proof fn lemma_linked_data(
    program: Program,
    kept: spec_fn(Seq<char>) -> bool,
    new: World,
    old: World,
    module: BlockId,
    symbol: Seq<char>,
    linkage: Linkage,
)
    requires
        module.0 < old.effects.len(),
        new == old.with_symbol(module, symbol, |inst: Inst| ir::relinked(inst, linkage)),
        is_data_linkage(program, symbol, linkage),
    ensures
        linked_since(program, kept, new, old, module),
{
    let a = module::symbols(old, module);
    let c = module::symbols(new, module);
    ir::lemma_position(a, symbol);
    assert forall|k: int| 0 <= k < a.len() implies is_kept(program, #[trigger] c[k], a[k]) by {
        if c[k] != a[k] {
            assert(c[k] == ir::relinked(a[k], linkage));
        }
    }
}

/// A function that came was made internal, unless all stay visible.
pub proof fn lemma_linked_internal(
    program: Program,
    new: World,
    middle: World,
    old: World,
    module: BlockId,
    symbol: Seq<char>,
)
    requires
        module.0 < middle.effects.len(),
        module::module_grew(middle, old, module),
        module::no_repeats(module::symbols(old, module)) ==> module::no_repeats(
            module::symbols(middle, module),
        ),
        linked_since(program, one_symbol(symbol), middle, old, module),
        !ir::has_symbol(module::symbols(old, module), symbol),
        exists|k: int|
            0 <= k < module::symbols(middle, module).len() && (#[trigger] module::symbols(
                middle,
                module,
            )[k]) is MirFunc && ir::symbol_of(module::symbols(middle, module)[k]) == Some(symbol),
        exists|index: usize| #[trigger] is_brought_at(program, symbol, index),
        new == if program.export_all || ir::is_seen(module::symbols(middle, module), symbol) {
            middle
        } else {
            middle.with_symbol(
                module,
                symbol,
                |inst: Inst| ir::relinked(inst, Linkage::Internal),
            )
        },
    ensures
        linked_since(program, no_symbol(), new, old, module),
{
    let a = module::symbols(old, module);
    let b = module::symbols(middle, module);
    let c = module::symbols(new, module);
    ir::lemma_position(a, symbol);
    ir::lemma_position(b, symbol);
    let at = choose|k: int|
        0 <= k < b.len() && (#[trigger] b[k]) is MirFunc && ir::symbol_of(b[k]) == Some(symbol);
    let i = ir::position_of(b, symbol)->0;
    if module::no_repeats(a) {
        assert(at == i) by {
            if i < at {
                assert(b[at] is LlvmFunc);
            }
        }
        assert(a.len() <= i) by {
            if i < a.len() {
                assert(module::same_inst(b[i], a[i]));
            }
        }
        assert forall|k: int| a.len() <= k < c.len() implies is_linked(
            program,
            no_symbol(),
            #[trigger] c[k],
        ) by {
            assert(is_linked(program, one_symbol(symbol), b[k]));
            if k != i && b[k] is MirFunc && ir::symbol_of(b[k]) == Some(symbol) {
                assert(i < k);
                assert(b[k] is LlvmFunc);
            }
        }
    }
}

} // verus!
