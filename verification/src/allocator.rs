//! The allocator's functions, in terms of those of the C library.

use crate::convert::{llvm_ptr_ty, usize_ty};
use crate::function;
use crate::globals::new_llvm_func_decl;
use crate::ir::{BlockId, Context, Inst, Linkage, Meaning, OpId, OpKind, RegionId, Value, World};
use crate::meaning;
use crate::meaning::{copy_args, put_llvm_call, put_llvm_return, put_size, Step};
use crate::mir::Program;
use crate::ox;
use crate::ox::inputs_of;
use crate::passing;
use crate::sem::Moment;
use crate::types;
use crate::types::{TypeHandle, TypeList};
use std::rc::Rc;
use vstd::prelude::*;

verus! {

/// The type of an `llvm` function.
pub open spec fn llvm_type(inputs: Seq<TypeHandle>, result: Option<TypeHandle>) -> TypeHandle {
    TypeHandle::LlvmFunction {
        result: Rc::new(
            match result {
                Some(ty) => ty,
                None => TypeHandle::Void,
            },
        ),
        inputs: Rc::new(TypeList::of(inputs)),
        variadic: false,
    }
}

fn llvm_ty(inputs: &Vec<TypeHandle>, result: &Option<TypeHandle>) -> (r: TypeHandle)
    ensures
        r == llvm_type(inputs@, *result),
{
    let handed_back: TypeHandle = match result {
        Some(ty) => ty.clone(),
        None => TypeHandle::Void,
    };
    TypeHandle::llvm_function(handed_back, inputs)
}

impl World {
    /// Whether an `llvm` function of one block was added to a block since an
    /// earlier state.
    pub open spec fn has_llvm_definition(
        self,
        old: World,
        module: BlockId,
        symbol: Seq<char>,
        ty: TypeHandle,
        linkage: Linkage,
    ) -> bool {
        let first = old.effects.len();
        &&& self.effects.len() == first + 1
        &&& self.effects[module.0 as int] == old.effects[module.0 as int].push(
            Inst::LlvmFunc {
                symbol,
                ty,
                linkage,
                region: Some(RegionId(old.regions.len() as usize)),
            },
        )
        &&& forall|b: int|
            0 <= b < first && b != module.0 ==> #[trigger] self.effects[b] == old.effects[b]
        &&& self.regions == old.regions.push(function::row(first, 1))
        &&& self.args.len() == first + 1
        &&& forall|b: int| 0 <= b < first ==> #[trigger] self.args[b] == old.args[b]
        &&& self.args[first as int].len() == ox::function_inputs(ty).len()
        &&& forall|i: int|
            0 <= i < self.args[first as int].len() ==> (#[trigger] self.args[first as int][i]).ty()
                == ox::function_inputs(ty)[i]
        &&& self.labels == old.labels.push("entry"@)
    }
}

/// An `llvm` function with a body of one block, which has the arguments of the
/// function and no instructions yet.
pub fn new_llvm_func_def(
    ctx: &mut Context,
    module: BlockId,
    symbol: String,
    ty: TypeHandle,
    linkage: Linkage,
) -> (r: BlockId)
    requires
        old(ctx).wf(),
        old(ctx).has_block(module),
    ensures
        final(ctx).grew(*old(ctx)),
        final(ctx).dialects == old(ctx).dialects,
        final(ctx)@.has_llvm_definition(old(ctx)@, module, symbol@, ty, linkage),
        r.0 == old(ctx)@.effects.len(),
        final(ctx).has_block(r),
        final(ctx).steps(r) == Seq::<Step>::empty(),
        final(ctx).kinds(r) == Seq::<OpKind>::empty(),
        meaning::meanings(final(ctx)@.args[r.0 as int]) == passing::arguments(
            r,
            ox::function_inputs(ty),
        ),
{
    let ghost before = *ctx;
    let ghost name = symbol@;
    let ghost fn_ty = ty;
    proof {
        before.lemma_sizes();
    }
    let inputs: Vec<TypeHandle> = inputs_of(&ty);
    let entry: BlockId = ctx.new_block("entry".to_owned(), inputs);
    let ghost args = ctx@.args.last();
    let body: Vec<BlockId> = vec![entry];
    assert(body@ =~= seq![entry]);
    let region: RegionId = ctx.new_region(body);
    let ghost bare = *ctx;
    let op: OpId = ctx.add_op(
        OpKind::LlvmFunc { symbol, ty, linkage },
        Vec::new(),
        None,
        Vec::new(),
    );
    proof {
        ctx.lemma_kept_kinds(bare, entry);
    }
    ctx.set_region(op, region);
    let ghost loose = *ctx;
    ctx.insert_at_back(op, module);
    proof {
        ctx.lemma_other_kinds(loose, module, entry);
        let first = before@.effects.len();
        assert(function::row(first, 1) =~= seq![entry]);
        assert(ctx@.effects[entry.0 as int] =~= Seq::<Inst>::empty());
        assert(ctx.steps(entry) =~= Seq::<Step>::empty());
        assert(ctx@.args[first as int] == args);
        passing::lemma_arguments(*ctx, entry, ox::function_inputs(fn_ty));
    }
    entry
}

/// An argument of a call that a shim makes.
#[derive(Clone, Copy, PartialEq, Eq, Debug, Structural)]
pub enum Pick {
    /// An argument of the shim.
    Arg(usize),
    /// The number one.
    One,
}

/// The arguments that a shim hands on.
pub open spec fn picked(args: Seq<Meaning>, picks: Seq<Pick>) -> Seq<Meaning> {
    picks.map_values(
        |pick: Pick|
            match pick {
                Pick::Arg(index) => args[index as int],
                Pick::One => meaning::constant(types::unsigned(64), 1),
            },
    )
}

/// What a shim does: it calls a function of the C library.
pub open spec fn shim_steps(
    first: nat,
    inputs: Seq<TypeHandle>,
    callee: Seq<char>,
    picks: Seq<Pick>,
    result: Option<TypeHandle>,
) -> Seq<Step> {
    seq![
        meaning::llvm_call_step(
            callee,
            picked(passing::arguments(BlockId(first as usize), inputs), picks),
            result,
        ),
        meaning::llvm_return_step(
            meaning::reply_of(Moment { block: first as int, time: 0 }, result),
        ),
    ]
}

impl World {
    /// Whether a shim was added to a block since an earlier state.
    pub open spec fn has_shim(
        self,
        old: World,
        module: BlockId,
        symbol: Seq<char>,
        inputs: Seq<TypeHandle>,
        result: Option<TypeHandle>,
        steps: Seq<Step>,
    ) -> bool {
        &&& self.has_llvm_definition(
            old,
            module,
            symbol,
            llvm_type(inputs, result),
            Linkage::External,
        )
        &&& meaning::steps_of(self.effects[old.effects.len() as int]) == steps
    }
}

/// A definition that gets instructions stays one.
proof fn lemma_same_definition(
    new: World,
    started: World,
    old: World,
    module: BlockId,
    symbol: Seq<char>,
    ty: TypeHandle,
)
    requires
        module.0 < old.effects.len(),
        started.has_llvm_definition(old, module, symbol, ty, Linkage::External),
        new.args == started.args,
        new.labels == started.labels,
        new.regions == started.regions,
        new.effects.len() == started.effects.len(),
        forall|b: int|
            0 <= b < started.effects.len() && b != old.effects.len() ==> #[trigger] new.effects[b]
                == started.effects[b],
    ensures
        new.has_llvm_definition(old, module, symbol, ty, Linkage::External),
{
    assert(new.effects[module.0 as int] == started.effects[module.0 as int]);
    assert forall|b: int| 0 <= b < old.effects.len() && b != module.0 implies #[trigger] new.effects[b]
        == old.effects[b] by {
        assert(new.effects[b] == started.effects[b]);
    }
}

fn pick_values(args: &Vec<Value>, one: Value, picks: &Vec<Pick>) -> (r: Vec<Value>)
    requires
        forall|i: int|
            0 <= i < picks@.len() ==> (#[trigger] picks@[i] matches Pick::Arg(index) ==> index
                < args@.len()),
        one.meaning@ == meaning::constant(types::unsigned(64), 1),
    ensures
        meaning::meanings(r@) == picked(meaning::meanings(args@), picks@),
        forall|i: int| 0 <= i < r@.len() ==> #[trigger] r@[i] == one || args@.contains(r@[i]),
{
    let mut r: Vec<Value> = Vec::new();
    let mut i: usize = 0;
    while i < picks.len()
        invariant
            i <= picks@.len(),
            forall|k: int|
                0 <= k < picks@.len() ==> (#[trigger] picks@[k] matches Pick::Arg(index) ==> index
                    < args@.len()),
            r@.len() == i,
            forall|k: int| 0 <= k < i ==> #[trigger] r@[k] == one || args@.contains(r@[k]),
            forall|k: int|
                0 <= k < i ==> #[trigger] r@[k] == match picks@[k] {
                    Pick::Arg(index) => args@[index as int],
                    Pick::One => one,
                },
        decreases picks@.len() - i,
    {
        assert(picks@[i as int] == picks@[i as int]);
        let v: Value = match picks[i] {
            Pick::Arg(index) => args[index],
            Pick::One => one,
        };
        r.push(v);
        i = i + 1;
    }
    assert(meaning::meanings(r@) =~= picked(meaning::meanings(args@), picks@));
    r
}

/// Defines a function of the allocator that calls one of the C library with
/// some of its arguments.
pub fn define_allocator_call(
    ctx: &mut Context,
    module: BlockId,
    symbol: String,
    callee: &str,
    inputs: &Vec<TypeHandle>,
    picks: &Vec<Pick>,
    result: Option<TypeHandle>,
)
    requires
        old(ctx).wf(),
        old(ctx).has_block(module),
        forall|i: int|
            0 <= i < picks@.len() ==> (#[trigger] picks@[i] matches Pick::Arg(index) ==> index
                < inputs@.len()),
    ensures
        final(ctx).grew(*old(ctx)),
        final(ctx).dialects == old(ctx).dialects,
        final(ctx)@.has_shim(
            old(ctx)@,
            module,
            symbol@,
            inputs@,
            result,
            shim_steps(old(ctx)@.effects.len(), inputs@, callee@, picks@, result),
        ),
{
    let ghost before = *ctx;
    let ghost name = symbol@;
    let ty: TypeHandle = llvm_ty(inputs, &result);
    let ghost fn_ty = ty;
    proof {
        TypeList::seq_of(inputs@);
    }
    let entry: BlockId = new_llvm_func_def(ctx, module, symbol, ty, Linkage::External);
    let ghost started = *ctx;
    let args: Vec<Value> = copy_args(ctx, entry);
    let one: Value = put_size(ctx, entry, 1);
    let ghost counted = *ctx;
    proof {
        assert(meaning::meanings(args@).len() == args@.len());
    }
    let given: Vec<Value> = pick_values(&args, one, picks);
    let ghost list = picked(passing::arguments(entry, inputs@), picks@);
    let reply: Option<Value> = put_llvm_call(ctx, entry, callee.to_owned(), given, result);
    let ghost called = *ctx;
    let ghost call = meaning::llvm_call_step(callee@, list, result);
    proof {
        assert(started.steps(entry).len() == started@.time(entry));
        called.lemma_computed_ran(counted, started, entry, seq![call]);
        called.lemma_time(started, entry, seq![call]);
    }
    put_llvm_return(ctx, entry, reply);
    proof {
        let last = meaning::llvm_return_step(meaning::meaning_of(reply));
        ctx.lemma_left(called, started, entry, seq![call], seq![last]);
        assert(Seq::<Step>::empty() + (seq![call] + seq![last]) =~= shim_steps(
            before@.effects.len(),
            inputs@,
            callee@,
            picks@,
            result,
        ));
        lemma_same_definition(ctx@, started@, before@, module, name, fn_ty);
    }
}

/// What an allocator's function takes and hands back, and how it calls the C
/// library.
pub struct Shim {
    pub inputs: Seq<TypeHandle>,
    pub result: Option<TypeHandle>,
    pub callee: Seq<char>,
    pub picks: Seq<Pick>,
}

/// The functions of the allocator that call the C library: to allocate, to
/// free, to resize and to allocate zeroed.
pub open spec fn shims() -> Seq<Shim> {
    let word = types::unsigned(64);
    let ptr = types::pointer();
    seq![
        Shim {
            inputs: seq![word, word],
            result: Some(ptr),
            callee: "malloc"@,
            picks: seq![Pick::Arg(0)],
        },
        Shim {
            inputs: seq![ptr, word, word],
            result: None,
            callee: "free"@,
            picks: seq![Pick::Arg(0)],
        },
        Shim {
            inputs: seq![ptr, word, word, word],
            result: Some(ptr),
            callee: "realloc"@,
            picks: seq![Pick::Arg(0), Pick::Arg(3)],
        },
        Shim {
            inputs: seq![word, word],
            result: Some(ptr),
            callee: "calloc"@,
            picks: seq![Pick::One, Pick::Arg(0)],
        },
    ]
}

/// The declarations of the C library's functions.
pub open spec fn library() -> Seq<Inst> {
    let word = types::unsigned(64);
    let ptr = types::pointer();
    seq![
        library_function("malloc"@, seq![word], Some(ptr)),
        library_function("free"@, seq![ptr], None),
        library_function("realloc"@, seq![ptr, word], Some(ptr)),
        library_function("calloc"@, seq![word, word], Some(ptr)),
    ]
}

/// The declaration of a function of the C library.
pub open spec fn library_function(
    symbol: Seq<char>,
    inputs: Seq<TypeHandle>,
    result: Option<TypeHandle>,
) -> Inst {
    Inst::LlvmFunc {
        symbol,
        ty: llvm_type(inputs, result),
        linkage: Linkage::External,
        region: None,
    }
}

/// The world with the C library's functions declared in a block.
pub open spec fn with_library(world: World, module: BlockId) -> World {
    World {
        effects: world.effects.update(
            module.0 as int,
            world.effects[module.0 as int] + library(),
        ),
        ..world
    }
}

/// Whether the allocator's functions were added to a block since an earlier
/// state, one after another.
pub open spec fn has_shims(
    program: Program,
    worlds: Seq<World>,
    module: BlockId,
) -> bool {
    &&& worlds.len() == 6
    &&& forall|k: int|
        0 <= k < 4 ==> #[trigger] shim_added(program, worlds[k], worlds[k + 1], module, k)
    &&& worlds[5].has_shim(
        worlds[4],
        module,
        program.allocator@[4]@,
        Seq::empty(),
        None,
        seq![meaning::llvm_return_step(None)],
    )
}

/// Whether one of the allocator's functions was added.
pub open spec fn shim_added(program: Program, old: World, new: World, module: BlockId, k: int) -> bool {
    let shim = shims()[k];
    new.has_shim(
        old,
        module,
        program.allocator@[k]@,
        shim.inputs,
        shim.result,
        shim_steps(old.effects.len(), shim.inputs, shim.callee, shim.picks, shim.result),
    )
}

fn declare_library(ctx: &mut Context, module: BlockId)
    requires
        old(ctx).wf(),
        old(ctx).has_block(module),
    ensures
        final(ctx).grew(*old(ctx)),
        final(ctx).dialects == old(ctx).dialects,
        final(ctx)@ == with_library(old(ctx)@, module),
{
    let ghost before = *ctx;
    let word_list: Vec<TypeHandle> = vec![usize_ty()];
    assert(word_list@ =~= seq![types::unsigned(64)]);
    let ptr_list: Vec<TypeHandle> = vec![llvm_ptr_ty()];
    assert(ptr_list@ =~= seq![types::pointer()]);
    let resize_list: Vec<TypeHandle> = vec![llvm_ptr_ty(), usize_ty()];
    assert(resize_list@ =~= seq![types::pointer(), types::unsigned(64)]);
    let pair_list: Vec<TypeHandle> = vec![usize_ty(), usize_ty()];
    assert(pair_list@ =~= seq![types::unsigned(64), types::unsigned(64)]);
    let ptr: Option<TypeHandle> = Some(llvm_ptr_ty());
    let none: Option<TypeHandle> = None;
    new_llvm_func_decl(
        ctx,
        module,
        "malloc".to_owned(),
        llvm_ty(&word_list, &ptr),
        Linkage::External,
    );
    new_llvm_func_decl(
        ctx,
        module,
        "free".to_owned(),
        llvm_ty(&ptr_list, &none),
        Linkage::External,
    );
    new_llvm_func_decl(
        ctx,
        module,
        "realloc".to_owned(),
        llvm_ty(&resize_list, &ptr),
        Linkage::External,
    );
    new_llvm_func_decl(
        ctx,
        module,
        "calloc".to_owned(),
        llvm_ty(&pair_list, &ptr),
        Linkage::External,
    );
    proof {
        let insts = before@.effects[module.0 as int];
        let list = library();
        assert(insts.push(list[0]).push(list[1]).push(list[2]).push(list[3]) =~= insts + list);
        assert(ctx@.effects =~= with_library(before@, module).effects);
        assert(ctx@ =~= with_library(before@, module));
    }
}

/// Defines the allocator's functions, and the one that does nothing.
pub fn declare_default_allocator_shims(program: &Program, ctx: &mut Context, module: BlockId)
    requires
        program.allocator@.len() == 5,
        old(ctx).wf(),
        old(ctx).has_block(module),
    ensures
        final(ctx).grew(*old(ctx)),
        final(ctx).dialects == old(ctx).dialects,
        exists|worlds: Seq<World>| #[trigger]
            has_shims(*program, worlds, module) && worlds[0] == with_library(old(ctx)@, module)
                && worlds[5] == final(ctx)@,
{
    declare_library(ctx, module);
    let ghost w0 = ctx@;
    let ptr: TypeHandle = llvm_ptr_ty();
    let alloc_list: Vec<TypeHandle> = vec![usize_ty(), usize_ty()];
    assert(alloc_list@ =~= shims()[0].inputs);
    let free_list: Vec<TypeHandle> = vec![llvm_ptr_ty(), usize_ty(), usize_ty()];
    assert(free_list@ =~= shims()[1].inputs);
    let resize_list: Vec<TypeHandle> = vec![llvm_ptr_ty(), usize_ty(), usize_ty(), usize_ty()];
    assert(resize_list@ =~= shims()[2].inputs);
    let first: Vec<Pick> = vec![Pick::Arg(0)];
    assert(first@ =~= shims()[0].picks);
    let resized: Vec<Pick> = vec![Pick::Arg(0), Pick::Arg(3)];
    assert(resized@ =~= shims()[2].picks);
    let zeroed: Vec<Pick> = vec![Pick::One, Pick::Arg(0)];
    assert(zeroed@ =~= shims()[3].picks);
    define_allocator_call(
        ctx,
        module,
        program.allocator[0].clone(),
        "malloc",
        &alloc_list,
        &first,
        Some(llvm_ptr_ty()),
    );
    let ghost w1 = ctx@;
    assert(shim_added(*program, w0, w1, module, 0));
    define_allocator_call(
        ctx,
        module,
        program.allocator[1].clone(),
        "free",
        &free_list,
        &first,
        None,
    );
    let ghost w2 = ctx@;
    assert(shim_added(*program, w1, w2, module, 1));
    define_allocator_call(
        ctx,
        module,
        program.allocator[2].clone(),
        "realloc",
        &resize_list,
        &resized,
        Some(llvm_ptr_ty()),
    );
    let ghost w3 = ctx@;
    assert(shim_added(*program, w2, w3, module, 2));
    define_allocator_call(
        ctx,
        module,
        program.allocator[3].clone(),
        "calloc",
        &alloc_list,
        &zeroed,
        Some(llvm_ptr_ty()),
    );
    let ghost w4 = ctx@;
    assert(shim_added(*program, w3, w4, module, 3));
    let ghost before = *ctx;
    let none: Vec<TypeHandle> = Vec::new();
    assert(none@ =~= Seq::<TypeHandle>::empty());
    let ty: TypeHandle = llvm_ty(&none, &None);
    let ghost fn_ty = ty;
    let entry: BlockId = new_llvm_func_def(
        ctx,
        module,
        program.allocator[4].clone(),
        ty,
        Linkage::External,
    );
    let ghost started = *ctx;
    put_llvm_return(ctx, entry, None);
    proof {
        let last = meaning::llvm_return_step(None);
        assert(Seq::<Step>::empty() + seq![last] =~= seq![last]);
        lemma_same_definition(
            ctx@,
            started@,
            before@,
            module,
            program.allocator@[4]@,
            fn_ty,
        );
        let worlds = seq![w0, w1, w2, w3, w4, ctx@];
        assert forall|k: int| 0 <= k < 4 implies #[trigger] shim_added(
            *program,
            worlds[k],
            worlds[k + 1],
            module,
            k,
        ) by {
            assert(worlds[k] == seq![w0, w1, w2, w3][k]);
            assert(worlds[k + 1] == seq![w1, w2, w3, w4][k]);
        }
        assert(has_shims(*program, worlds, module));
    }
}

} // verus!
