//! Globals and declarations in a module.

use crate::constant;
use crate::constant::read_word;
use crate::convert::llvm_ptr_ty;
use crate::error::Failure;
use crate::ir;
use crate::ir::{
    clone_bytes, BlockId, Context, DataReloc, GlobalInit, InitView, Inst, Linkage, OpId, OpKind,
    RelocView, World,
};
use crate::mir::{Alloc, Memory, Program, Static};
use crate::need;
use crate::need::{alloc_symbol_of, byte_global_symbol, Demand, Need, Needs};
use crate::types;
use crate::types::{NameId, Signedness, StructBody, TypeHandle, TypeList};
use std::rc::Rc;
use vstd::prelude::*;

verus! {

/// The name of a struct in declarations.
pub open spec fn mirrored(name: NameId) -> NameId {
    NameId {
        ty: name.ty,
        mirrored: if name.mirrored < u32::MAX {
            (name.mirrored + 1) as u32
        } else {
            name.mirrored
        },
    }
}

/// A type as it stands in declarations: pointers are opaque there, and named
/// structs have names of their own.
pub open spec fn declared(ty: TypeHandle) -> TypeHandle
    decreases ty,
{
    match ty {
        TypeHandle::MirPtr { .. } => types::pointer(),
        TypeHandle::Array { elem, size } => TypeHandle::Array {
            elem: Rc::new(declared(*elem)),
            size,
        },
        TypeHandle::Struct { name, body } => match (name, body) {
            (Some(name), StructBody::Opaque) => TypeHandle::Struct {
                name: Some(mirrored(name)),
                body: StructBody::Opaque,
            },
            (None, StructBody::Opaque) => TypeHandle::Struct {
                name: None,
                body: StructBody::Fields(Rc::new(TypeList::Nil)),
            },
            (Some(name), StructBody::Fields(fields)) => TypeHandle::Struct {
                name: Some(mirrored(name)),
                body: StructBody::Fields(Rc::new(declared_list(*fields))),
            },
            (None, StructBody::Fields(fields)) => TypeHandle::Struct {
                name: None,
                body: StructBody::Fields(Rc::new(declared_list(*fields))),
            },
        },
        _ => ty,
    }
}

/// Types as they stand in declarations.
pub open spec fn declared_list(list: TypeList) -> TypeList
    decreases list,
{
    match list {
        TypeList::Nil => TypeList::Nil,
        TypeList::Cons(head, rest) => TypeList::Cons(
            declared(head),
            Rc::new(declared_list(*rest)),
        ),
    }
}

/// A type as it stands in declarations.
pub fn llvm_decl_type(ty: &TypeHandle) -> (r: TypeHandle)
    ensures
        r == declared(*ty),
    decreases *ty,
{
    match ty {
        TypeHandle::MirPtr { .. } => llvm_ptr_ty(),
        TypeHandle::Array { elem, size } => TypeHandle::Array {
            elem: Rc::new(llvm_decl_type(elem)),
            size: *size,
        },
        TypeHandle::Struct { name, body } => {
            let new_name: Option<NameId> = match name {
                Some(name) => Some(
                    NameId {
                        ty: name.ty,
                        mirrored: if name.mirrored < u32::MAX {
                            name.mirrored + 1
                        } else {
                            name.mirrored
                        },
                    },
                ),
                None => None,
            };
            match body {
                StructBody::Opaque => match new_name {
                    Some(name) => TypeHandle::Struct {
                        name: Some(name),
                        body: StructBody::Opaque,
                    },
                    None => TypeHandle::Struct {
                        name: None,
                        body: StructBody::Fields(Rc::new(TypeList::Nil)),
                    },
                },
                StructBody::Fields(fields) => TypeHandle::Struct {
                    name: new_name,
                    body: StructBody::Fields(Rc::new(llvm_decl_types(fields))),
                },
            }
        },
        _ => ty.clone(),
    }
}

fn llvm_decl_types(list: &TypeList) -> (r: TypeList)
    ensures
        r == declared_list(*list),
    decreases *list,
{
    match list {
        TypeList::Nil => TypeList::Nil,
        TypeList::Cons(head, rest) => TypeList::Cons(
            llvm_decl_type(head),
            Rc::new(llvm_decl_types(rest)),
        ),
    }
}

/// The type of a declared function.
pub open spec fn declared_type(inputs: Seq<TypeHandle>, result: Option<TypeHandle>) -> TypeHandle {
    TypeHandle::LlvmFunction {
        result: Rc::new(
            match result {
                Some(ty) => declared(ty),
                None => TypeHandle::Void,
            },
        ),
        inputs: Rc::new(TypeList::of(inputs.map_values(|ty: TypeHandle| declared(ty)))),
        variadic: false,
    }
}

/// The declaration of a function of another object.
pub open spec fn declaration(
    symbol: Seq<char>,
    inputs: Seq<TypeHandle>,
    result: Option<TypeHandle>,
) -> Inst {
    Inst::LlvmFunc {
        symbol,
        ty: declared_type(inputs, result),
        linkage: Linkage::External,
        region: None,
    }
}

/// Appends a symbol without a body to a block.
fn put_symbol(ctx: &mut Context, module: BlockId, kind: OpKind, Ghost(inst): Ghost<Inst>)
    requires
        old(ctx).wf(),
        old(ctx).has_block(module),
        forall|op: ir::Operation|
            op.kind == kind && op.region is None ==> #[trigger] ir::inst_of(op) == Some(inst),
    ensures
        final(ctx).grew(*old(ctx)),
        final(ctx).dialects == old(ctx).dialects,
        final(ctx)@ == old(ctx)@.then_in(module, inst),
{
    let op: OpId = ctx.add_op(kind, Vec::new(), None, Vec::new());
    proof {
        assert(ir::inst_of(ctx.op(op)) == Some(inst));
    }
    ctx.insert_at_back(op, module);
}

/// An `llvm` function without a body.
pub fn new_llvm_func_decl(
    ctx: &mut Context,
    module: BlockId,
    symbol: String,
    ty: TypeHandle,
    linkage: Linkage,
)
    requires
        old(ctx).wf(),
        old(ctx).has_block(module),
    ensures
        final(ctx).grew(*old(ctx)),
        final(ctx).dialects == old(ctx).dialects,
        final(ctx)@ == old(ctx)@.then_in(
            module,
            (Inst::LlvmFunc { symbol: symbol@, ty, linkage, region: None }),
        ),
{
    let ghost inst = Inst::LlvmFunc { symbol: symbol@, ty, linkage, region: None };
    put_symbol(ctx, module, OpKind::LlvmFunc { symbol, ty, linkage }, Ghost(inst));
}

/// Declares a function of another object, unless the block holds a function of
/// that name already.
pub fn declare_external_function(
    ctx: &mut Context,
    module: BlockId,
    symbol: String,
    args: &Vec<TypeHandle>,
    result: &Option<TypeHandle>,
)
    requires
        old(ctx).wf(),
        old(ctx).has_block(module),
    ensures
        final(ctx).grew(*old(ctx)),
        final(ctx).dialects == old(ctx).dialects,
        final(ctx)@ == if ir::has_llvm_function(old(ctx)@.effects[module.0 as int], symbol@) {
            old(ctx)@
        } else {
            old(ctx)@.then_in(module, declaration(symbol@, args@, *result))
        },
{
    if ctx.module_has_llvm_function(module, &symbol) {
        return;
    }
    let handed_back: TypeHandle = match result {
        Some(ty) => llvm_decl_type(ty),
        None => TypeHandle::Void,
    };
    let mut inputs: Vec<TypeHandle> = Vec::new();
    let mut i: usize = 0;
    while i < args.len()
        invariant
            i <= args@.len(),
            inputs@.len() == i,
            forall|k: int| 0 <= k < i ==> #[trigger] inputs@[k] == declared(args@[k]),
        decreases args@.len() - i,
    {
        inputs.push(llvm_decl_type(&args[i]));
        i = i + 1;
    }
    assert(inputs@ =~= args@.map_values(|ty: TypeHandle| declared(ty)));
    let ty: TypeHandle = TypeHandle::llvm_function(handed_back, &inputs);
    new_llvm_func_decl(ctx, module, symbol, ty, Linkage::External);
}

/// The type of so many bytes.
pub open spec fn bytes_type(count: nat) -> TypeHandle {
    types::array_of(types::unsigned(8), count as u64)
}

fn bytes_ty(count: usize) -> (r: TypeHandle)
    ensures
        r == bytes_type(count as nat),
{
    TypeHandle::array(
        TypeHandle::Integer { width: 8, signedness: Signedness::Unsigned },
        count as u64,
    )
}

/// A global that holds bytes without a name.
pub open spec fn byte_global(bytes: Seq<u8>) -> Inst {
    Inst::Global {
        symbol: need::byte_symbol(bytes),
        ty: bytes_type(bytes.len()),
        linkage: Linkage::Private,
        thread_local: false,
        section: None,
        init: InitView::Bytes(bytes),
    }
}

/// Makes a global that holds bytes without a name, unless its symbol is there
/// already.
pub fn declare_anonymous_byte_global(ctx: &mut Context, module: BlockId, bytes: &Vec<u8>)
    requires
        old(ctx).wf(),
        old(ctx).has_block(module),
    ensures
        final(ctx).grew(*old(ctx)),
        final(ctx).dialects == old(ctx).dialects,
        final(ctx)@ == if ir::has_symbol(
            old(ctx)@.effects[module.0 as int],
            need::byte_symbol(bytes@),
        ) {
            old(ctx)@
        } else {
            old(ctx)@.then_in(module, byte_global(bytes@))
        },
{
    let symbol: String = byte_global_symbol(bytes);
    if ctx.symbol_exists(module, &symbol) {
        return;
    }
    let kind: OpKind = OpKind::Global {
        symbol,
        ty: bytes_ty(bytes.len()),
        linkage: Linkage::Private,
        thread_local: false,
        section: None,
        init: GlobalInit::Bytes(clone_bytes(bytes)),
    };
    put_symbol(ctx, module, kind, Ghost(byte_global(bytes@)));
}

/// A word as a signed number.
pub open spec fn as_signed(word: u64) -> i64 {
    if word < 0x8000_0000_0000_0000 {
        word as i64
    } else {
        (word - 0x1_0000_0000_0000_0000) as i64
    }
}

fn signed_word(word: u64) -> (r: i64)
    ensures
        r == as_signed(word),
{
    if word < 0x8000_0000_0000_0000 {
        word as i64
    } else {
        -((0xffff_ffff_ffff_ffff - word) as i64) - 1
    }
}

/// Whether an allocation has no address, only an identity.
pub open spec fn is_type_id(program: Program, alloc: usize) -> bool {
    alloc < program.allocs@.len() && program.allocs@[alloc as int] is TypeId
}

fn has_type_id(program: &Program, alloc: usize) -> (r: bool)
    ensures
        r == is_type_id(*program, alloc),
{
    alloc < program.allocs.len() && matches!(program.allocs[alloc], Alloc::TypeId(_))
}

/// The pointer slots of memory: each holds the address of what it points to,
/// moved by the number that stands in it.
pub open spec fn relocs(program: Program, memory: Memory, count: nat) -> Result<
    Seq<RelocView>,
    Failure,
>
    decreases count,
{
    if count == 0 {
        Ok(Seq::empty())
    } else {
        match relocs(program, memory, (count - 1) as nat) {
            Err(failure) => Err(failure),
            Ok(list) => {
                let pointer = memory.pointers@[count - 1];
                if pointer.offset + 8 > memory.bytes@.len() {
                    Err(Failure::Malformed)
                } else if is_type_id(program, pointer.target) {
                    Ok(list)
                } else {
                    match need::alloc_symbol(program, pointer.target) {
                        Err(failure) => Err(failure),
                        Ok(symbol) => Ok(
                            list.push(
                                RelocView {
                                    offset: pointer.offset,
                                    symbol,
                                    addend: as_signed(
                                        constant::word_at(memory.bytes@, pointer.offset as int),
                                    ),
                                },
                            ),
                        ),
                    }
                }
            },
        }
    }
}

/// What the pointer slots of memory point to, up to the first that has no
/// counterpart.
pub open spec fn targets(program: Program, memory: Memory, count: nat) -> Seq<Demand>
    decreases count,
{
    if count == 0 {
        Seq::empty()
    } else {
        let list = targets(program, memory, (count - 1) as nat);
        let target = memory.pointers@[count - 1].target;
        if is_type_id(program, target) || relocs(program, memory, count) is Err {
            list
        } else {
            list.push(Demand::Alloc(target))
        }
    }
}

proof fn lemma_relocs_fail(program: Program, memory: Memory, from: nat, to: nat)
    requires
        from <= to,
        relocs(program, memory, from) is Err,
    ensures
        relocs(program, memory, to) == relocs(program, memory, from),
        targets(program, memory, to) == targets(program, memory, from),
    decreases to,
{
    if from < to {
        lemma_relocs_fail(program, memory, from, (to - 1) as nat);
    }
}

fn relocs_of(program: &Program, memory: &Memory) -> (r: (Result<Vec<DataReloc>, Failure>, Needs))
    ensures
        match relocs(*program, *memory, memory.pointers@.len()) {
            Ok(want) => r.0 matches Ok(found) && ir::relocs_view(found@) == want,
            Err(failure) => r.0 matches Err(other) && other == failure,
        },
        need::demands(r.1@) == targets(*program, *memory, memory.pointers@.len()),
{
    let mut found: Vec<DataReloc> = Vec::new();
    let mut needs: Needs = Needs::new();
    let mut i: usize = 0;
    assert(ir::relocs_view(found@) =~= Seq::empty());
    assert(need::demands(needs@) =~= Seq::<Demand>::empty());
    while i < memory.pointers.len()
        invariant
            i <= memory.pointers@.len(),
            relocs(*program, *memory, i as nat) == Ok::<Seq<RelocView>, Failure>(
                ir::relocs_view(found@),
            ),
            need::demands(needs@) == targets(*program, *memory, i as nat),
        decreases memory.pointers@.len() - i,
    {
        let ghost so_far = ir::relocs_view(found@);
        proof {
            if relocs(*program, *memory, (i + 1) as nat) is Err {
                lemma_relocs_fail(*program, *memory, (i + 1) as nat, memory.pointers@.len());
            }
        }
        let offset: u64 = memory.pointers[i].offset;
        let target: usize = memory.pointers[i].target;
        if memory.bytes.len() < 8 || offset > (memory.bytes.len() - 8) as u64 {
            return (Err(Failure::Malformed), needs);
        }
        let addend: i64 = signed_word(read_word(&memory.bytes, offset as usize));
        if !has_type_id(program, target) {
            let symbol: String = match alloc_symbol_of(program, target) {
                Ok(symbol) => symbol,
                Err(failure) => return (Err(failure), needs),
            };
            needs.ask_for(Need::Alloc(target));
            let ghost next = RelocView { offset, symbol: symbol@, addend };
            found.push(DataReloc { offset, symbol, addend });
            assert(ir::relocs_view(found@) =~= so_far.push(next));
        }
        i = i + 1;
    }
    (Ok(found), needs)
}

/// A global that is to hold memory, without its contents.
pub open spec fn empty_global(
    symbol: Seq<char>,
    memory: Memory,
    linkage: Linkage,
    thread_local: bool,
) -> Inst {
    Inst::Global {
        symbol,
        ty: bytes_type(memory.bytes@.len()),
        linkage,
        thread_local,
        section: None,
        init: InitView::Declared,
    }
}

/// A global that holds memory.
pub open spec fn data_global(
    program: Program,
    symbol: Seq<char>,
    memory: Memory,
    linkage: Linkage,
    thread_local: bool,
    section: Option<Seq<char>>,
) -> Result<Inst, Failure> {
    match relocs(program, memory, memory.pointers@.len()) {
        Err(failure) => Err(failure),
        Ok(relocs) => Ok(
            Inst::Global {
                symbol,
                ty: bytes_type(memory.bytes@.len()),
                linkage,
                thread_local,
                section,
                init: InitView::Data {
                    bytes: memory.bytes@,
                    align: memory.align,
                    mutable: memory.mutable,
                    relocs,
                },
            },
        ),
    }
}

/// A symbol that is new in a list stands at its end.
pub proof fn lemma_new_symbol(insts: Seq<Inst>, inst: Inst, symbol: Seq<char>)
    requires
        !ir::has_symbol(insts, symbol),
        ir::symbol_of(inst) == Some(symbol),
    ensures
        ir::position_of(insts.push(inst), symbol) == Some(insts.len() as int),
{
    assert(insts.push(inst).drop_last() =~= insts);
}

/// Changing the symbol that was added last.
proof fn lemma_changed(old: World, module: BlockId, symbol: Seq<char>, first: Inst, change: spec_fn(
    Inst,
) -> Inst)
    requires
        module.0 < old.effects.len(),
        !ir::has_symbol(old.effects[module.0 as int], symbol),
        ir::symbol_of(first) == Some(symbol),
    ensures
        old.then_in(module, first).with_symbol(module, symbol, change) == old.then_in(
            module,
            change(first),
        ),
{
    let insts = old.effects[module.0 as int];
    lemma_new_symbol(insts, first, symbol);
    assert(insts.push(first).update(insts.len() as int, change(first)) =~= insts.push(
        change(first),
    ));
    assert(old.then_in(module, first).with_symbol(module, symbol, change).effects
        =~= old.then_in(module, change(first)).effects);
}

/// Makes a global that holds memory, and tells what the memory points to.
/// Where a pointer in it has no counterpart it stays without contents.
pub fn define_data_global(
    program: &Program,
    ctx: &mut Context,
    module: BlockId,
    symbol: &String,
    memory: &Memory,
    linkage: Linkage,
    thread_local: bool,
    section: &Option<String>,
) -> (r: (Result<(), Failure>, Needs))
    requires
        old(ctx).wf(),
        old(ctx).has_block(module),
        !ir::has_symbol(old(ctx)@.effects[module.0 as int], symbol@),
    ensures
        need::demands(r.1@) == targets(*program, *memory, memory.pointers@.len()),
        final(ctx).grew(*old(ctx)),
        final(ctx).dialects == old(ctx).dialects,
        match data_global(
            *program,
            symbol@,
            *memory,
            linkage,
            thread_local,
            ir::text(*section),
        ) {
            Ok(inst) => {
                &&& r.0 is Ok
                &&& final(ctx)@ == old(ctx)@.then_in(module, inst)
            },
            Err(failure) => {
                &&& r.0 == Err::<(), Failure>(failure)
                &&& final(ctx)@ == old(ctx)@.then_in(
                    module,
                    empty_global(symbol@, *memory, linkage, thread_local),
                )
            },
        },
{
    let ghost before = *ctx;
    let (found, needs): (Result<Vec<DataReloc>, Failure>, Needs) = relocs_of(program, memory);
    let kind: OpKind = OpKind::Global {
        symbol: symbol.clone(),
        ty: bytes_ty(memory.bytes.len()),
        linkage,
        thread_local,
        section: None,
        init: GlobalInit::Declared,
    };
    let ghost first = empty_global(symbol@, *memory, linkage, thread_local);
    put_symbol(ctx, module, kind, Ghost(first));
    let relocs: Vec<DataReloc> = match found {
        Ok(relocs) => relocs,
        Err(failure) => return (Err(failure), needs),
    };
    let init: GlobalInit = GlobalInit::Data {
        bytes: clone_bytes(&memory.bytes),
        align: memory.align,
        mutable: memory.mutable,
        relocs,
    };
    let ghost filling = init@;
    ctx.set_global_init(module, symbol, init);
    let ghost second = ir::refilled(first, filling);
    proof {
        lemma_changed(
            before@,
            module,
            symbol@,
            first,
            |inst: Inst| ir::refilled(inst, filling),
        );
        assert(ctx@ == before@.then_in(module, second));
    }
    if let Some(section) = section {
        let name: String = section.clone();
        let ghost text = name@;
        ctx.set_global_section_by_symbol(module, symbol, name);
        proof {
            lemma_changed(
                before@,
                module,
                symbol@,
                second,
                |inst: Inst| ir::resectioned(inst, text),
            );
        }
    }
    (Ok(()), needs)
}

/// A global that another object defines.
pub open spec fn declared_global(symbol: Seq<char>, thread_local: bool) -> Inst {
    Inst::Global {
        symbol,
        ty: bytes_type(0),
        linkage: Linkage::External,
        thread_local,
        section: None,
        init: InitView::Declared,
    }
}

/// Declares a global that another object defines.
pub fn declare_global(ctx: &mut Context, module: BlockId, symbol: String, thread_local: bool)
    requires
        old(ctx).wf(),
        old(ctx).has_block(module),
    ensures
        final(ctx).grew(*old(ctx)),
        final(ctx).dialects == old(ctx).dialects,
        final(ctx)@ == old(ctx)@.then_in(module, declared_global(symbol@, thread_local)),
{
    let ghost inst = declared_global(symbol@, thread_local);
    let kind: OpKind = OpKind::Global {
        symbol,
        ty: bytes_ty(0),
        linkage: Linkage::External,
        thread_local,
        section: None,
        init: GlobalInit::Declared,
    };
    put_symbol(ctx, module, kind, Ghost(inst));
}

/// The section that a static is put into, where it is defined here and is not
/// one of each thread.
pub open spec fn section_of(item: Static, thread_local: bool) -> Option<Seq<char>> {
    if thread_local {
        None
    } else {
        ir::text(item.link_section)
    }
}

/// A static: defined where it is of this crate and its value is known, and
/// declared else.
pub open spec fn static_global(
    program: Program,
    symbol: Seq<char>,
    item: Static,
    thread_local: bool,
) -> Result<Inst, Failure> {
    match (item.is_local, item.initializer) {
        (true, Some(memory)) => data_global(
            program,
            symbol,
            memory,
            Linkage::External,
            thread_local,
            section_of(item, thread_local),
        ),
        _ => Ok(declared_global(symbol, thread_local)),
    }
}

/// What a static points to.
pub open spec fn static_targets(program: Program, item: Static) -> Seq<Demand> {
    match (item.is_local, item.initializer) {
        (true, Some(memory)) => targets(program, memory, memory.pointers@.len()),
        _ => Seq::empty(),
    }
}

/// A static that could not be completed: without contents.
pub open spec fn empty_static(symbol: Seq<char>, item: Static, thread_local: bool) -> Inst {
    match (item.is_local, item.initializer) {
        (true, Some(memory)) => empty_global(symbol, memory, Linkage::External, thread_local),
        _ => declared_global(symbol, thread_local),
    }
}

/// A global that could not be completed keeps its symbol, type and linkage.
pub proof fn lemma_emptied(
    program: Program,
    symbol: Seq<char>,
    memory: Memory,
    linkage: Linkage,
    thread_local: bool,
    section: Option<Seq<char>>,
)
    ensures
        data_global(program, symbol, memory, linkage, thread_local, section) matches Ok(inst)
            ==> ir::emptied(inst) == empty_global(symbol, memory, linkage, thread_local),
        ir::emptied(empty_global(symbol, memory, linkage, thread_local)) == empty_global(
            symbol,
            memory,
            linkage,
            thread_local,
        ),
{
}

/// Makes a static, and tells what it points to. Where a pointer in it has no
/// counterpart it stays without contents.
pub fn define_static_global(
    program: &Program,
    ctx: &mut Context,
    module: BlockId,
    symbol: &String,
    item: &Static,
    thread_local: bool,
) -> (r: (Result<(), Failure>, Needs))
    requires
        old(ctx).wf(),
        old(ctx).has_block(module),
        !ir::has_symbol(old(ctx)@.effects[module.0 as int], symbol@),
    ensures
        need::demands(r.1@) == static_targets(*program, *item),
        final(ctx).grew(*old(ctx)),
        final(ctx).dialects == old(ctx).dialects,
        match static_global(*program, symbol@, *item, thread_local) {
            Ok(inst) => {
                &&& r.0 is Ok
                &&& final(ctx)@ == old(ctx)@.then_in(module, inst)
            },
            Err(failure) => {
                &&& r.0 == Err::<(), Failure>(failure)
                &&& final(ctx)@ == old(ctx)@.then_in(
                    module,
                    empty_static(symbol@, *item, thread_local),
                )
            },
        },
{
    if item.is_local {
        if let Some(memory) = &item.initializer {
            let none: Option<String> = None;
            let section: &Option<String> = if thread_local {
                &none
            } else {
                &item.link_section
            };
            return define_data_global(
                program,
                ctx,
                module,
                symbol,
                memory,
                Linkage::External,
                thread_local,
                section,
            );
        }
    }
    declare_global(ctx, module, symbol.clone(), thread_local);
    let needs: Needs = Needs::new();
    assert(need::demands(needs@) =~= Seq::<Demand>::empty());
    (Ok(()), needs)
}

} // verus!
