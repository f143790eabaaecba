//! Casts.

use crate::convert;
use crate::convert::{convert_immediate_ty, convert_ty, llvm_ptr_ty};
use crate::error::Failure;
use crate::foreign;
use crate::foreign::load_value_from_real_layout;
use crate::ir::{BlockId, Context, Meaning, Value};
use crate::layout;
use crate::layout::rustc_layout_size_of_ty;
use crate::meaning;
use crate::meaning::{
    ptr_offset_const, put_address_of, put_alloca, put_as_type, put_cast, put_load, put_pair,
    put_size, put_store, Step,
};
use crate::mir::{CastKind, Operand, Program};
use crate::need;
use crate::need::{
    memory_of, memory_symbol_of, pointer_symbol_of, should_import_instance, Asked, Demand, Lost,
    Lowered, Need, Needs, Purpose,
};
use crate::operand;
use crate::operand::{import_operand, Scene, Site};
use crate::sem::Moment;
use crate::ty::{IntTy, TyId, TyKind, TyTable, UintTy};
use crate::types;
use crate::types::{Signedness, TypeHandle};
use crate::wide;
use crate::wide::{lower_float_to_i128_sat, lower_i128_to_float};
use vstd::prelude::*;

verus! {

/// A function item as a pointer to it.
pub open spec fn reified(program: Program, at: Moment, ty: TyId) -> Result<Lowered, Failure> {
    match program.types.kind(ty) {
        TyKind::FnDef(item) => if item >= program.items@.len() {
            Err(Failure::Malformed)
        } else {
            match program.items@[item as int].pointed {
                None => Err(Failure::ReifyTarget(ty)),
                Some(instance) => match need::pointer_symbol(program, instance) {
                    Err(failure) => Err(failure),
                    Ok(symbol) => Ok(
                        need::needing(
                            at,
                            meaning::symbol_address(symbol),
                            pointed(program, instance),
                        ),
                    ),
                },
            }
        },
        _ => Err(Failure::ReifySource(ty)),
    }
}

/// What the address of a function needs.
pub open spec fn pointed(program: Program, instance: usize) -> Demand {
    if need::is_importable(program.instances@[instance as int].kind) {
        Demand::Function(instance, Purpose::Address)
    } else {
        Demand::Thunk(instance)
    }
}

/// Turns a function item into a pointer to it.
pub fn reify_fn_pointer(
    program: &Program,
    ctx: &mut Context,
    block: BlockId,
    needs: &mut Needs,
    ty: TyId,
) -> (r: Result<Value, Failure>)
    requires
        program.types.has(ty),
        old(ctx).wf(),
        old(ctx).has_block(block),
    ensures
        final(ctx).computed_since(*old(ctx), block),
        need::supplies(
            *final(ctx),
            final(needs)@,
            old(needs)@,
            r,
            reified(*program, old(ctx)@.now(block), ty),
        ),
{
    match &program.types.types[ty.0].kind {
        TyKind::FnDef(item) => {
            if *item >= program.items.len() {
                return Err(Failure::Malformed);
            }
            let instance: usize = match program.items[*item].pointed {
                Some(instance) => instance,
                None => return Err(Failure::ReifyTarget(ty)),
            };
            let symbol: String = pointer_symbol_of(program, instance)?;
            if should_import_instance(&program.instances[instance]) {
                needs.ask(ctx, block, Need::Function(instance, Purpose::Address));
            } else {
                needs.ask(ctx, block, Need::Thunk(instance));
            }
            Ok(put_address_of(ctx, block, symbol))
        },
        _ => Err(Failure::ReifySource(ty)),
    }
}

/// Whether values of a type fit a register.
pub open spec fn is_scalar(ty: TypeHandle) -> bool {
    ty is Integer || ty is Pointer || ty.is_float()
}

fn is_scalar_ty(ty: &TypeHandle) -> (r: bool)
    ensures
        r == is_scalar(*ty),
{
    match ty {
        TypeHandle::Integer { .. }
        | TypeHandle::Pointer { .. }
        | TypeHandle::Fp32
        | TypeHandle::Fp64 => true,
        _ => false,
    }
}

/// The number of words that hold as many bytes.
pub open spec fn words_for(bytes: u64) -> u64 {
    if bytes % 8 == 0 {
        bytes / 8
    } else {
        (bytes / 8 + 1) as u64
    }
}

/// The number of words that hold as many bytes.
pub fn word_count(bytes: u64) -> (r: u64)
    ensures
        r == words_for(bytes),
{
    if bytes % 8 == 0 {
        bytes / 8
    } else {
        bytes / 8 + 1
    }
}

/// The memory in which the bytes of a type are seen as another.
pub open spec fn spill_type(src: u64, dst: u64) -> TypeHandle {
    let bytes = if src > dst {
        src
    } else {
        dst
    };
    let words = words_for(bytes);
    types::array_of(
        types::unsigned(64),
        if words == 0 {
            1
        } else {
            words
        },
    )
}

/// What storing a value in a new slot does.
pub open spec fn spilled(at: Moment, elem: TypeHandle, value: Meaning) -> Seq<Step> {
    seq![
        Step::Alloca { elem },
        Step::Store { addr: meaning::slot_at(at, elem), value },
    ]
}

/// Stores a value in a new slot.
pub fn spill(ctx: &mut Context, block: BlockId, elem: &TypeHandle, value: Value) -> (r: Value)
    requires
        old(ctx).wf(),
        old(ctx).has_block(block),
        old(ctx).has(value),
    ensures
        final(ctx).ran_since(
            *old(ctx),
            block,
            spilled(old(ctx)@.now(block), *elem, value.meaning@),
        ),
        final(ctx)@.now(block) == meaning::later(old(ctx)@.now(block), 2),
        final(ctx).has_block(block),
        final(ctx).has(r),
        r.meaning@ == meaning::slot_at(old(ctx)@.now(block), *elem),
{
    let ghost before = *ctx;
    let slot: Value = put_alloca(ctx, block, elem);
    let ghost middle = *ctx;
    proof {
        ctx.lemma_time(before, block, seq![Step::Alloca { elem: *elem }]);
    }
    put_store(ctx, block, value, slot);
    proof {
        let first = seq![Step::Alloca { elem: *elem }];
        let second = seq![Step::Store { addr: slot.meaning@, value: value.meaning@ }];
        ctx.lemma_ran(middle, before, block, first, second);
        assert(first + second =~= spilled(before@.now(block), *elem, value.meaning@));
        ctx.lemma_time(before, block, first + second);
    }
    slot
}

/// The bytes of a value seen as another type, through memory.
pub open spec fn reread(table: TyTable, at: Moment, src: TyId, dst: TyId, value: Meaning) -> Result<
    Lowered,
    Failure,
> {
    match layout::real_size(table, src) {
        Err(failure) => Err(failure),
        Ok(src_size) => match layout::real_size(table, dst) {
            Err(failure) => Err(failure),
            Ok(dst_size) => {
                let elem = spill_type(src_size, dst_size);
                match foreign::real_value(
                    table,
                    dst,
                    meaning::later(at, 2),
                    meaning::slot_at(at, elem),
                ) {
                    Err(failure) => Err(failure),
                    Ok(result) => Ok(
                        Lowered {
                            value: result,
                            needs: Seq::empty(),
                            steps: spilled(at, elem, value),
                        },
                    ),
                }
            },
        },
    }
}

/// A value with its bytes seen as another type.
pub open spec fn transmuted(
    table: TyTable,
    at: Moment,
    src: TyId,
    dst: TyId,
    value: Meaning,
) -> Result<Lowered, Failure> {
    if table.is_enum(src) || table.is_enum(dst) {
        reread(table, at, src, dst, value)
    } else {
        match convert::immediate(table, dst) {
            Err(failure) => Err(failure),
            Ok(ty) => if value.ty == ty {
                Ok(need::plain(value))
            } else if is_scalar(value.ty) && is_scalar(ty) {
                Ok(need::plain(meaning::cast(value, ty)))
            } else {
                reread(table, at, src, dst, value)
            },
        }
    }
}

/// Reinterprets a value through memory.
fn reread_value(
    table: &TyTable,
    ctx: &mut Context,
    block: BlockId,
    src: TyId,
    dst: TyId,
    value: Value,
) -> (r: Result<Value, Failure>)
    requires
        table.wf(),
        table.has(src),
        table.has(dst),
        old(ctx).wf(),
        old(ctx).has_block(block),
        old(ctx).has(value),
    ensures
        match reread(*table, old(ctx)@.now(block), src, dst, value.meaning@) {
            Ok(lowered) => {
                &&& r matches Ok(v) && final(ctx).has(v) && v.meaning@ == lowered.value
                &&& final(ctx).ran_since(*old(ctx), block, lowered.steps)
            },
            Err(failure) => {
                &&& r matches Err(other) && other == failure
                &&& final(ctx).touched_since(*old(ctx), block)
            },
        },
{
    let ghost before = *ctx;
    let src_size: u64 = rustc_layout_size_of_ty(table, src)?;
    let dst_size: u64 = rustc_layout_size_of_ty(table, dst)?;
    let bytes: u64 = if src_size > dst_size {
        src_size
    } else {
        dst_size
    };
    let words: u64 = word_count(bytes);
    let words: u64 = if words == 0 {
        1
    } else {
        words
    };
    let elem: TypeHandle = TypeHandle::array(
        TypeHandle::integer(64, Signedness::Unsigned),
        words,
    );
    assert(elem == spill_type(src_size, dst_size));
    let slot: Value = spill(ctx, block, &elem, value);
    let ghost middle = *ctx;
    let ghost steps = spilled(before@.now(block), elem, value.meaning@);
    let r: Result<Value, Failure> = load_value_from_real_layout(table, ctx, block, dst, slot);
    proof {
        ctx.lemma_ran_computed(middle, before, block, steps);
    }
    r
}

/// Reinterprets the bytes of a value.
pub fn import_transmute(
    table: &TyTable,
    ctx: &mut Context,
    block: BlockId,
    src: TyId,
    dst: TyId,
    value: Value,
) -> (r: Result<Value, Failure>)
    requires
        table.wf(),
        table.has(src),
        table.has(dst),
        old(ctx).wf(),
        old(ctx).has_block(block),
        old(ctx).has(value),
    ensures
        match transmuted(*table, old(ctx)@.now(block), src, dst, value.meaning@) {
            Ok(lowered) => {
                &&& r matches Ok(v) && final(ctx).has(v) && v.meaning@ == lowered.value
                &&& final(ctx).ran_since(*old(ctx), block, lowered.steps)
                &&& lowered.needs == Seq::<Asked>::empty()
            },
            Err(failure) => {
                &&& r matches Err(other) && other == failure
                &&& final(ctx).touched_since(*old(ctx), block)
            },
        },
{
    let ghost before = *ctx;
    if table.is_enum_ty(src) || table.is_enum_ty(dst) {
        return reread_value(table, ctx, block, src, dst, value);
    }
    let ty: TypeHandle = convert_immediate_ty(table, dst)?;
    let value_ty: TypeHandle = ctx.type_of(value);
    if value_ty.same(&ty) {
        proof {
            ctx.lemma_computed(before, block);
        }
        return Ok(value);
    }
    if is_scalar_ty(&value_ty) && is_scalar_ty(&ty) {
        let r: Value = put_cast(ctx, block, value, &ty);
        proof {
            ctx.lemma_computed(before, block);
        }
        return Ok(r);
    }
    reread_value(table, ctx, block, src, dst, value)
}

/// What the second word of a pointer is once what it points to has lost its
/// size.
pub enum UnsizeMetadata {
    /// The number of elements.
    SliceLen(u64),
    /// The table of a type's methods for a trait.
    Vtable { concrete: TyId, principal: Option<usize> },
    /// What it was before.
    ReuseSource,
}

/// What two pointers point to.
pub open spec fn pointees(table: TyTable, source: TyId, target: TyId) -> Option<(TyId, TyId)> {
    let (a, b) = (table.runtime(source), table.runtime(target));
    match (table.kind(a), table.kind(b)) {
        (TyKind::Ref(x), TyKind::Ref(y)) => Some((x, y)),
        (TyKind::RawPtr(x), TyKind::RawPtr(y)) => Some((x, y)),
        _ => match (table.info(a).boxed, table.info(b).boxed) {
            (Some(x), Some(y)) => Some((x, y)),
            _ => None,
        },
    }
}

fn pointees_of(table: &TyTable, source: TyId, target: TyId) -> (r: Option<(TyId, TyId)>)
    requires
        table.wf(),
        table.has(source),
        table.has(target),
    ensures
        r == pointees(*table, source, target),
        r matches Some((x, y)) ==> table.has(x) && table.has(y),
{
    let a: TyId = table.runtime_ty(source);
    let b: TyId = table.runtime_ty(target);
    proof {
        assert(table.ty_wf(a));
        assert(table.ty_wf(b));
    }
    match (&table.types[a.0].kind, &table.types[b.0].kind) {
        (TyKind::Ref(x), TyKind::Ref(y)) => Some((*x, *y)),
        (TyKind::RawPtr(x), TyKind::RawPtr(y)) => Some((*x, *y)),
        _ => match (table.types[a.0].boxed, table.types[b.0].boxed) {
            (Some(x), Some(y)) => Some((x, y)),
            _ => None,
        },
    }
}

/// The first of the known tails for two types.
pub open spec fn tails_for(program: Program, source: TyId, target: TyId, count: nat) -> Option<
    (TyId, TyId),
>
    decreases count,
{
    if count == 0 {
        None
    } else {
        match tails_for(program, source, target, (count - 1) as nat) {
            Some(found) => Some(found),
            None => {
                let tails = program.tails@[count - 1];
                if tails.source == source && tails.target == target {
                    Some((tails.source_tail, tails.target_tail))
                } else {
                    None
                }
            },
        }
    }
}

/// Whether the types that the program's lists name stand in it.
pub open spec fn lists_wf(program: Program) -> bool {
    forall|i: int|
        0 <= i < program.tails@.len() ==> program.types.has(
            (#[trigger] program.tails@[i]).source_tail,
        ) && program.types.has(program.tails@[i].target_tail)
}

fn find_tails(program: &Program, source: TyId, target: TyId) -> (r: Option<(TyId, TyId)>)
    requires
        lists_wf(*program),
    ensures
        r == tails_for(*program, source, target, program.tails@.len()),
        r matches Some((x, y)) ==> program.types.has(x) && program.types.has(y),
{
    let mut found: Option<(TyId, TyId)> = None;
    let mut i: usize = 0;
    while i < program.tails.len()
        invariant
            i <= program.tails@.len(),
            lists_wf(*program),
            found == tails_for(*program, source, target, i as nat),
            found matches Some((x, y)) ==> program.types.has(x) && program.types.has(y),
        decreases program.tails@.len() - i,
    {
        if found.is_none() && program.tails[i].source == source && program.tails[i].target
            == target {
            found = Some((program.tails[i].source_tail, program.tails[i].target_tail));
        }
        i = i + 1;
    }
    found
}

/// What the second word of a pointer is after a coercion; nothing where the
/// coercion changes no pointer.
pub open spec fn metadata_for(program: Program, source: TyId, target: TyId) -> Result<
    Option<UnsizeMetadata>,
    Failure,
> {
    let table = program.types;
    match pointees(table, source, target) {
        None => Ok(None),
        Some((source_inner, target_inner)) => match tails_for(
            program,
            table.runtime(source_inner),
            table.runtime(target_inner),
            program.tails@.len(),
        ) {
            None => Err(Failure::Malformed),
            Some((source_tail, target_tail)) => {
                let (a, b) = (table.runtime(source_tail), table.runtime(target_tail));
                match (table.kind(a), table.kind(b)) {
                    (TyKind::Array(_, len), TyKind::Slice(_)) => match len {
                        Some(len) => Ok(Some(UnsizeMetadata::SliceLen(len))),
                        None => Err(Failure::ArrayLength(a)),
                    },
                    (TyKind::Dynamic(x), TyKind::Dynamic(y)) => if x == y || y is None {
                        Ok(Some(UnsizeMetadata::ReuseSource))
                    } else {
                        Err(Failure::Upcast(source_tail, target_tail))
                    },
                    (_, TyKind::Dynamic(y)) => Ok(
                        Some(UnsizeMetadata::Vtable { concrete: a, principal: y }),
                    ),
                    _ => Ok(None),
                }
            },
        },
    }
}

fn same_trait(a: Option<usize>, b: Option<usize>) -> (r: bool)
    ensures
        r == (a == b),
{
    match (a, b) {
        (Some(x), Some(y)) => x == y,
        (None, None) => true,
        _ => false,
    }
}

/// What the second word of a pointer is after a coercion.
pub fn unsize_metadata(program: &Program, source: TyId, target: TyId) -> (r: Result<
    Option<UnsizeMetadata>,
    Failure,
>)
    requires
        program.types.wf(),
        lists_wf(*program),
        program.types.has(source),
        program.types.has(target),
    ensures
        r == metadata_for(*program, source, target),
{
    let table: &TyTable = &program.types;
    let (source_inner, target_inner): (TyId, TyId) = match pointees_of(table, source, target) {
        Some(found) => found,
        None => return Ok(None),
    };
    let source_inner: TyId = table.runtime_ty(source_inner);
    let target_inner: TyId = table.runtime_ty(target_inner);
    let (source_tail, target_tail): (TyId, TyId) = match find_tails(
        program,
        source_inner,
        target_inner,
    ) {
        Some(found) => found,
        None => return Err(Failure::Malformed),
    };
    let a: TyId = table.runtime_ty(source_tail);
    let b: TyId = table.runtime_ty(target_tail);
    match (&table.types[a.0].kind, &table.types[b.0].kind) {
        (TyKind::Array(_, len), TyKind::Slice(_)) => match len {
            Some(len) => Ok(Some(UnsizeMetadata::SliceLen(*len))),
            None => Err(Failure::ArrayLength(a)),
        },
        (TyKind::Dynamic(x), TyKind::Dynamic(y)) => {
            if same_trait(*x, *y) || y.is_none() {
                Ok(Some(UnsizeMetadata::ReuseSource))
            } else {
                Err(Failure::Upcast(source_tail, target_tail))
            }
        },
        (_, TyKind::Dynamic(y)) => Ok(
            Some(UnsizeMetadata::Vtable { concrete: a, principal: *y }),
        ),
        _ => Ok(None),
    }
}

/// The first of the known method tables of a type for a trait.
pub open spec fn table_for(
    program: Program,
    concrete: TyId,
    principal: Option<usize>,
    count: nat,
) -> Option<usize>
    decreases count,
{
    if count == 0 {
        None
    } else {
        match table_for(program, concrete, principal, (count - 1) as nat) {
            Some(found) => Some(found),
            None => {
                let entry = program.tables@[count - 1];
                if entry.concrete == concrete && entry.principal == principal {
                    Some(entry.alloc)
                } else {
                    None
                }
            },
        }
    }
}

fn find_table(program: &Program, concrete: TyId, principal: Option<usize>) -> (r: Option<usize>)
    ensures
        r == table_for(*program, concrete, principal, program.tables@.len()),
{
    let mut found: Option<usize> = None;
    let mut i: usize = 0;
    while i < program.tables.len()
        invariant
            i <= program.tables@.len(),
            found == table_for(*program, concrete, principal, i as nat),
        decreases program.tables@.len() - i,
    {
        if found.is_none() && program.tables[i].concrete == concrete && same_trait(
            program.tables[i].principal,
            principal,
        ) {
            found = Some(program.tables[i].alloc);
        }
        i = i + 1;
    }
    found
}

/// The address of a method table.
pub open spec fn table_address(
    program: Program,
    at: Moment,
    concrete: TyId,
    principal: Option<usize>,
) -> Result<Lowered, Failure> {
    match table_for(program, concrete, principal, program.tables@.len()) {
        None => Err(Failure::Malformed),
        Some(alloc) => match need::memory_at(program, alloc) {
            None => Err(Failure::TableMemory(concrete)),
            Some(memory) => Ok(
                need::needing(
                    at,
                    meaning::symbol_address(need::memory_symbol(memory)),
                    Demand::Alloc(alloc),
                ),
            ),
        },
    }
}

fn put_table(
    program: &Program,
    ctx: &mut Context,
    block: BlockId,
    needs: &mut Needs,
    concrete: TyId,
    principal: Option<usize>,
) -> (r: Result<Value, Failure>)
    requires
        old(ctx).wf(),
        old(ctx).has_block(block),
    ensures
        final(ctx).computed_since(*old(ctx), block),
        need::supplies(
            *final(ctx),
            final(needs)@,
            old(needs)@,
            r,
            table_address(*program, old(ctx)@.now(block), concrete, principal),
        ),
{
    let alloc: usize = match find_table(program, concrete, principal) {
        Some(alloc) => alloc,
        None => return Err(Failure::Malformed),
    };
    let symbol: String = match memory_of(program, alloc) {
        Some(memory) => memory_symbol_of(memory),
        None => return Err(Failure::TableMemory(concrete)),
    };
    needs.ask(ctx, block, Need::Alloc(alloc));
    Ok(put_address_of(ctx, block, symbol))
}

/// A box with a second word: the pointer in it is taken out and put together
/// with the word in memory.
pub open spec fn boxed_pair(at: Moment, input: Meaning, word: Meaning, ty: TypeHandle) -> Lowered {
    let data = meaning::loaded(
        meaning::later(at, 2),
        meaning::slot_at(at, input.ty),
        types::pointer(),
    );
    let out = meaning::slot_at(meaning::later(at, 2), ty);
    let second = meaning::moved(out, meaning::constant(types::unsigned(64), 8));
    Lowered {
        value: meaning::loaded(meaning::later(at, 5), out, ty),
        needs: Seq::empty(),
        steps: spilled(at, input.ty, input) + (spilled(meaning::later(at, 2), ty, data) + seq![
            Step::Store { addr: second, value: word },
        ]),
    }
}

fn put_boxed_pair(ctx: &mut Context, block: BlockId, input: Value, word: Value, ty: &TypeHandle) -> (r:
    Value)
    requires
        old(ctx).wf(),
        old(ctx).has_block(block),
        old(ctx).has(input),
        old(ctx).has(word),
    ensures
        ({
            let want = boxed_pair(old(ctx)@.now(block), input.meaning@, word.meaning@, *ty);
            &&& final(ctx).ran_since(*old(ctx), block, want.steps)
            &&& final(ctx).has(r)
            &&& r.meaning@ == want.value
        }),
{
    let ghost before = *ctx;
    let ghost at = ctx@.now(block);
    let input_ty: TypeHandle = ctx.type_of(input);
    let slot: Value = spill(ctx, block, &input_ty, input);
    let ghost first = *ctx;
    let ptr_ty: TypeHandle = llvm_ptr_ty();
    let data: Value = put_load(ctx, block, slot, &ptr_ty);
    let ghost second = *ctx;
    let out: Value = spill(ctx, block, ty, data);
    let ghost third = *ctx;
    let place: Value = ptr_offset_const(ctx, block, out, 8);
    let ghost fourth = *ctx;
    put_store(ctx, block, word, place);
    let ghost fifth = *ctx;
    proof {
        let s1 = spilled(at, input_ty, input.meaning@);
        let s2 = spilled(meaning::later(at, 2), *ty, data.meaning@);
        let s3 = seq![Step::Store { addr: place.meaning@, value: word.meaning@ }];
        second.lemma_ran_computed(first, before, block, s1);
        fourth.lemma_ran_computed(third, second, block, s2);
        fifth.lemma_ran(fourth, second, block, s2, s3);
        fifth.lemma_ran(second, before, block, s1, s2 + s3);
        fifth.lemma_time(before, block, s1 + (s2 + s3));
    }
    let r: Value = put_load(ctx, block, out, ty);
    proof {
        let want = boxed_pair(at, input.meaning@, word.meaning@, *ty);
        ctx.lemma_ran_computed(fifth, before, block, want.steps);
    }
    r
}

/// A pointer of a type after a coercion that reuses both of its words.
pub open spec fn renamed(at: Moment, input: Meaning, ty: TypeHandle) -> Lowered {
    if input.ty == ty {
        need::plain(input)
    } else {
        Lowered {
            value: meaning::loaded(
                meaning::later(at, 2),
                meaning::slot_at(at, input.ty),
                ty,
            ),
            needs: Seq::empty(),
            steps: spilled(at, input.ty, input),
        }
    }
}

fn put_renamed(ctx: &mut Context, block: BlockId, input: Value, ty: &TypeHandle) -> (r: Value)
    requires
        old(ctx).wf(),
        old(ctx).has_block(block),
        old(ctx).has(input),
    ensures
        ({
            let want = renamed(old(ctx)@.now(block), input.meaning@, *ty);
            &&& final(ctx).ran_since(*old(ctx), block, want.steps)
            &&& final(ctx).has(r)
            &&& r.meaning@ == want.value
        }),
{
    let ghost before = *ctx;
    let input_ty: TypeHandle = ctx.type_of(input);
    if input_ty.same(ty) {
        proof {
            ctx.lemma_computed(before, block);
        }
        return input;
    }
    let slot: Value = spill(ctx, block, &input_ty, input);
    let ghost middle = *ctx;
    let r: Value = put_load(ctx, block, slot, ty);
    proof {
        let want = renamed(before@.now(block), input.meaning@, *ty);
        ctx.lemma_ran_computed(middle, before, block, want.steps);
    }
    r
}

/// A pointer with a second word of its own.
pub open spec fn fattened(
    program: Program,
    at: Moment,
    source: TyId,
    target: TyId,
    input: Meaning,
    word: Meaning,
) -> Result<Lowered, Failure> {
    match convert::converted(program.types, target) {
        Err(failure) => Err(failure),
        Ok(ty) => if program.types.info(program.types.runtime(source)).boxed is Some {
            Ok(boxed_pair(at, input, word, ty))
        } else {
            Ok(need::plain(meaning::pair(ty, meaning::as_type(input, types::pointer()), word)))
        },
    }
}

fn put_fattened(
    program: &Program,
    ctx: &mut Context,
    block: BlockId,
    source: TyId,
    target: TyId,
    input: Value,
    word: Value,
) -> (r: Result<Value, Failure>)
    requires
        program.types.wf(),
        program.types.has(source),
        program.types.has(target),
        old(ctx).wf(),
        old(ctx).has_block(block),
        old(ctx).has(input),
        old(ctx).has(word),
    ensures
        match fattened(
            *program,
            old(ctx)@.now(block),
            source,
            target,
            input.meaning@,
            word.meaning@,
        ) {
            Ok(lowered) => {
                &&& r matches Ok(v) && final(ctx).has(v) && v.meaning@ == lowered.value
                &&& final(ctx).ran_since(*old(ctx), block, lowered.steps)
                &&& lowered.needs == Seq::<Asked>::empty()
            },
            Err(failure) => {
                &&& r matches Err(other) && other == failure
                &&& final(ctx).touched_since(*old(ctx), block)
            },
        },
{
    let ghost before = *ctx;
    let ty: TypeHandle = convert_ty(&program.types, target)?;
    let runtime: TyId = program.types.runtime_ty(source);
    if program.types.types[runtime.0].boxed.is_some() {
        return Ok(put_boxed_pair(ctx, block, input, word, &ty));
    }
    let ptr_ty: TypeHandle = llvm_ptr_ty();
    let data: Value = put_as_type(ctx, block, input, &ptr_ty);
    let r: Value = put_pair(ctx, block, &ty, data, word);
    proof {
        ctx.lemma_computed(before, block);
    }
    Ok(r)
}

/// A pointer after a coercion to one whose target has no size.
pub open spec fn unsized_pointer(
    program: Program,
    at: Moment,
    source: TyId,
    target: TyId,
    input: Meaning,
    metadata: UnsizeMetadata,
) -> Result<Lowered, Lost> {
    match metadata {
        UnsizeMetadata::SliceLen(len) => need::unasked(
            fattened(
                program,
                at,
                source,
                target,
                input,
                meaning::constant(types::unsigned(64), len as u128),
            ),
        ),
        UnsizeMetadata::Vtable { concrete, principal } => match table_address(
            program,
            at,
            concrete,
            principal,
        ) {
            Err(failure) => Err(failure.at_once()),
            Ok(word) => operand::behind(
                word.needs,
                need::unasked(fattened(program, at, source, target, input, word.value)),
            ),
        },
        UnsizeMetadata::ReuseSource => match convert::converted(program.types, target) {
            Err(failure) => Err(failure.at_once()),
            Ok(ty) => Ok(renamed(at, input, ty)),
        },
    }
}

/// Coerces a pointer to one whose target has no size.
pub fn lower_pointer_unsize_cast(
    program: &Program,
    ctx: &mut Context,
    block: BlockId,
    needs: &mut Needs,
    source: TyId,
    target: TyId,
    input: Value,
    metadata: UnsizeMetadata,
) -> (r: Result<Value, Failure>)
    requires
        program.types.wf(),
        program.types.has(source),
        program.types.has(target),
        old(ctx).wf(),
        old(ctx).has_block(block),
        old(ctx).has(input),
    ensures
        need::lowers_past(
            (*final(ctx), final(needs)@),
            (*old(ctx), old(needs)@),
            block,
            r,
            unsized_pointer(
                *program,
                old(ctx)@.now(block),
                source,
                target,
                input.meaning@,
                metadata,
            ),
        ),
{
    let ghost before = *ctx;
    proof {
        assert(needs@ =~= old(needs)@ + Seq::<Asked>::empty());
    }
    let word: Value = match metadata {
        UnsizeMetadata::SliceLen(len) => put_size(ctx, block, len),
        UnsizeMetadata::Vtable { concrete, principal } => put_table(
            program,
            ctx,
            block,
            needs,
            concrete,
            principal,
        )?,
        UnsizeMetadata::ReuseSource => {
            let ty: TypeHandle = convert_ty(&program.types, target)?;
            return Ok(put_renamed(ctx, block, input, &ty));
        },
    };
    let ghost middle = *ctx;
    let r: Result<Value, Failure> = put_fattened(
        program,
        ctx,
        block,
        source,
        target,
        input,
        word,
    );
    proof {
        let want = fattened(
            *program,
            before@.now(block),
            source,
            target,
            input.meaning@,
            word.meaning@,
        );
        if want is Ok {
            ctx.lemma_computed_ran(middle, before, block, want->Ok_0.steps);
            if let UnsizeMetadata::Vtable { concrete, principal } = metadata {
                let table = table_address(*program, before@.now(block), concrete, principal)->Ok_0;
                assert(table.needs + Seq::<Asked>::empty() =~= table.needs);
            }
        }
    }
    r
}

/// Whether a type is a 128-bit integer.
pub open spec fn is_wide(table: TyTable, ty: TyId) -> bool {
    table.kind(table.runtime(ty)) matches TyKind::Int(IntTy::I128) || table.kind(
        table.runtime(ty),
    ) matches TyKind::Uint(UintTy::U128)
}

/// Whether a type is a float.
pub open spec fn is_float(table: TyTable, ty: TyId) -> bool {
    let kind = table.kind(table.runtime(ty));
    kind is F32 || kind is F64 || kind is OtherFloat
}

fn is_wide_ty(table: &TyTable, ty: TyId) -> (r: bool)
    requires
        table.wf(),
        table.has(ty),
    ensures
        r == is_wide(*table, ty),
{
    let runtime: TyId = table.runtime_ty(ty);
    match &table.types[runtime.0].kind {
        TyKind::Int(IntTy::I128) | TyKind::Uint(UintTy::U128) => true,
        _ => false,
    }
}

fn is_float_ty(table: &TyTable, ty: TyId) -> (r: bool)
    requires
        table.wf(),
        table.has(ty),
    ensures
        r == is_float(*table, ty),
{
    let runtime: TyId = table.runtime_ty(ty);
    match &table.types[runtime.0].kind {
        TyKind::F32 | TyKind::F64 | TyKind::OtherFloat => true,
        _ => false,
    }
}

/// A value after a cast of its type to another.
pub open spec fn numeric_cast(
    table: TyTable,
    at: Moment,
    src: TyId,
    dst: TyId,
    input: Meaning,
) -> Result<Lowered, Failure> {
    match convert::immediate(table, dst) {
        Err(failure) => Err(failure),
        Ok(ty) => if is_wide(table, src) && is_float(table, dst) {
            wide::floated(at, input, ty)
        } else if is_float(table, src) && is_wide(table, dst) {
            if wide::is_wide(ty) {
                wide::truncated(at, input, ty)
            } else {
                Err(Failure::Malformed)
            }
        } else {
            Ok(need::plain(meaning::cast(input, ty)))
        },
    }
}

/// Casts a value. Floats and 128-bit integers are turned into each other by
/// functions of another object.
pub fn lower_numeric_cast(
    table: &TyTable,
    ctx: &mut Context,
    block: BlockId,
    needs: &mut Needs,
    src: TyId,
    dst: TyId,
    input: Value,
) -> (r: Result<Value, Failure>)
    requires
        table.wf(),
        table.has(src),
        table.has(dst),
        old(ctx).wf(),
        old(ctx).has_block(block),
        old(ctx).has(input),
    ensures
        need::lowers(
            (*final(ctx), final(needs)@),
            (*old(ctx), old(needs)@),
            block,
            r,
            numeric_cast(*table, old(ctx)@.now(block), src, dst, input.meaning@),
        ),
{
    let ghost before = *ctx;
    let ty: TypeHandle = convert_immediate_ty(table, dst)?;
    if is_wide_ty(table, src) && is_float_ty(table, dst) {
        return lower_i128_to_float(ctx, block, needs, input, &ty);
    }
    if is_float_ty(table, src) && is_wide_ty(table, dst) {
        return match &ty {
            TypeHandle::Integer { width: 128, .. } => {
                lower_float_to_i128_sat(ctx, block, needs, input, &ty)
            },
            _ => Err(Failure::Malformed),
        };
    }
    let r: Value = put_cast(ctx, block, input, &ty);
    proof {
        ctx.lemma_computed(before, block);
        assert(needs@ =~= old(needs)@ + Seq::<Asked>::empty());
    }
    Ok(r)
}

/// What a cast of an operand is, once the operand is known.
pub open spec fn cast_of(
    program: Program,
    at: Moment,
    kind: CastKind,
    src: TyId,
    dst: TyId,
    input: Meaning,
) -> Result<Lowered, Lost> {
    match kind {
        CastKind::Transmute => need::unasked(transmuted(program.types, at, src, dst, input)),
        CastKind::Unsize => match metadata_for(program, src, dst) {
            Err(failure) => Err(failure.at_once()),
            Ok(Some(metadata)) => unsized_pointer(program, at, src, dst, input, metadata),
            Ok(None) => need::unasked(numeric_cast(program.types, at, src, dst, input)),
        },
        _ => need::unasked(numeric_cast(program.types, at, src, dst, input)),
    }
}

/// What a cast is.
pub open spec fn cast_value(
    scene: Scene,
    at: Moment,
    kind: CastKind,
    operand: Operand,
    dst: TyId,
) -> Result<Lowered, Lost> {
    if kind == CastKind::ReifyFnPointer {
        need::unasked(reified(scene.program, at, operand.ty()))
    } else if kind == CastKind::Unsize && metadata_for(scene.program, operand.ty(), dst) is Err {
        Err(metadata_for(scene.program, operand.ty(), dst)->Err_0.at_once())
    } else {
        match operand::operand_value(scene, at, operand) {
            Err(failure) => Err(failure.at_once()),
            Ok(input) => operand::behind(
                input.needs,
                cast_of(scene.program, at, kind, operand.ty(), dst, input.value),
            ),
        }
    }
}

/// Imports a cast.
pub fn import_cast(
    site: &Site,
    ctx: &mut Context,
    block: BlockId,
    needs: &mut Needs,
    kind: CastKind,
    operand: &Operand,
    dst: TyId,
) -> (r: Result<Value, Failure>)
    requires
        site.ready(*old(ctx), block),
        lists_wf(*site.program),
        operand::operand_wf(*site.program, *operand),
        site.program.types.has(dst),
    ensures
        need::lowers_past(
            (*final(ctx), final(needs)@),
            (*old(ctx), old(needs)@),
            block,
            r,
            cast_value(site.scene(), old(ctx)@.now(block), kind, *operand, dst),
        ),
{
    let ghost before = *ctx;
    let ghost at = ctx@.now(block);
    let src: TyId = operand.type_of();
    if let CastKind::ReifyFnPointer = kind {
        let r: Result<Value, Failure> = reify_fn_pointer(site.program, ctx, block, needs, src);
        proof {
            ctx.lemma_computed(before, block);
        }
        return r;
    }
    let metadata: Option<UnsizeMetadata> = match kind {
        CastKind::Unsize => unsize_metadata(site.program, src, dst)?,
        _ => None,
    };
    let input: Value = import_operand(site, ctx, block, needs, operand)?;
    let ghost middle = *ctx;
    let ghost asked = needs@;
    let table: &TyTable = &site.program.types;
    let r: Result<Value, Failure> = match kind {
        CastKind::Transmute => {
            let r: Result<Value, Failure> = import_transmute(table, ctx, block, src, dst, input);
            assert(needs@ =~= asked + Seq::<Asked>::empty());
            r
        },
        _ => match metadata {
            Some(metadata) => lower_pointer_unsize_cast(
                site.program,
                ctx,
                block,
                needs,
                src,
                dst,
                input,
                metadata,
            ),
            None => lower_numeric_cast(table, ctx, block, needs, src, dst, input),
        },
    };
    proof {
        let first = operand::operand_value(site.scene(), at, *operand)->Ok_0;
        let want = cast_of(*site.program, at, kind, src, dst, input.meaning@);
        if want is Ok {
            let lowered = want->Ok_0;
            ctx.lemma_computed_ran(middle, before, block, lowered.steps);
            assert(needs@ =~= old(needs)@ + (first.needs + lowered.needs));
        }
    }
    r
}

} // verus!
