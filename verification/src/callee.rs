//! What a call calls.

use crate::error::Failure;
use crate::ir::{BlockId, Context, Meaning, OpKind, Value};
use crate::kernel;
use crate::kernel::is_kernel_item;
use crate::meaning;
use crate::meaning::put_field;
use crate::mir::{Body, FnItem, Instance, Operand, Program, Terminator};
use crate::names;
use crate::names::legal_identifier;
use crate::ox;
use crate::text;
use crate::text::{contains, has_suffix};
use crate::ty::{TyId, TyKind};
use crate::types::{StructBody, TypeHandle, TypeList};
use vstd::prelude::*;

verus! {

/// The function item that a type is.
pub open spec fn item_of(program: Program, ty: TyId) -> Option<FnItem> {
    match program.types.kind(ty) {
        TyKind::FnDef(index) => if index < program.items@.len() {
            Some(program.items@[index as int])
        } else {
            None
        },
        _ => None,
    }
}

fn find_item(program: &Program, ty: TyId) -> (r: Option<&FnItem>)
    requires
        program.types.has(ty),
    ensures
        match r {
            Some(item) => item_of(*program, ty) == Some(*item),
            None => item_of(*program, ty) is None,
        },
{
    match &program.types.types[ty.0].kind {
        TyKind::FnDef(index) => {
            if *index < program.items.len() {
                Some(&program.items[*index])
            } else {
                None
            }
        },
        _ => None,
    }
}

/// The function item that is called, by a constant or by a value of its type.
pub open spec fn called_item(program: Program, func: Operand) -> Option<FnItem> {
    item_of(program, program.types.runtime(func.ty()))
}

/// The function item that is called.
pub fn call_fn_def<'a>(program: &'a Program, func: &Operand) -> (r: Option<&'a FnItem>)
    requires
        program.types.wf(),
        program.types.has(func.ty()),
    ensures
        match r {
            Some(item) => called_item(*program, *func) == Some(*item),
            None => called_item(*program, *func) is None,
        },
{
    let runtime: TyId = program.types.runtime_ty(func.type_of());
    find_item(program, runtime)
}

/// The instance that a call of an item calls.
pub open spec fn instance_index(program: Program, item: FnItem) -> Option<usize> {
    match item.instance {
        Some(index) => if index < program.instances@.len() {
            Some(index)
        } else {
            None
        },
        None => None,
    }
}

/// The instance that a call calls.
pub open spec fn called_index(program: Program, func: Operand) -> Option<usize> {
    match called_item(program, func) {
        Some(item) => instance_index(program, item),
        None => None,
    }
}

/// The instance that a call calls.
pub fn call_instance(program: &Program, func: &Operand) -> (r: Option<usize>)
    requires
        program.types.wf(),
        program.types.has(func.ty()),
    ensures
        r == called_index(*program, *func),
        r matches Some(index) ==> index < program.instances@.len(),
{
    let item: &FnItem = match call_fn_def(program, func) {
        Some(item) => item,
        None => return None,
    };
    match item.instance {
        Some(index) => {
            if index < program.instances.len() {
                Some(index)
            } else {
                None
            }
        },
        None => None,
    }
}

/// The symbol that an instance has whatever its name.
pub open spec fn fixed_symbol(instance: Instance) -> Option<Seq<char>> {
    if text::occurs(instance.path@, "compare_bytes"@) {
        Some("memcmp"@)
    } else {
        None
    }
}

/// The symbol that an instance has whatever its name.
pub fn known_codegen_symbol(instance: &Instance) -> (r: Option<&'static str>)
    ensures
        match r {
            Some(symbol) => fixed_symbol(*instance) == Some(symbol@),
            None => fixed_symbol(*instance) is None,
        },
{
    if contains(instance.path.as_str(), "compare_bytes") {
        Some("memcmp")
    } else {
        None
    }
}

/// The symbol that a call calls.
pub open spec fn called_symbol(program: Program, func: Operand) -> Result<Seq<char>, Failure> {
    match called_item(program, func) {
        None => Err(Failure::Callee),
        Some(item) => Ok(
            names::legal_name(
                match instance_index(program, item) {
                    Some(index) => {
                        let instance = program.instances@[index as int];
                        match fixed_symbol(instance) {
                            Some(symbol) => symbol,
                            None => instance.mangled@,
                        }
                    },
                    None => item.path@,
                },
            ),
        ),
    }
}

/// The symbol that a call calls.
pub fn call_symbol(program: &Program, func: &Operand) -> (r: Result<String, Failure>)
    requires
        program.types.wf(),
        program.types.has(func.ty()),
    ensures
        match called_symbol(*program, *func) {
            Ok(symbol) => r matches Ok(s) && s@ == symbol,
            Err(failure) => r matches Err(other) && other == failure,
        },
{
    let item: &FnItem = match call_fn_def(program, func) {
        Some(item) => item,
        None => return Err(Failure::Callee),
    };
    match call_instance(program, func) {
        Some(index) => {
            let instance: &Instance = &program.instances[index];
            match known_codegen_symbol(instance) {
                Some(symbol) => Ok(legal_identifier(symbol)),
                None => Ok(legal_identifier(instance.mangled.as_str())),
            }
        },
        None => Ok(legal_identifier(item.path.as_str())),
    }
}

/// Whether a call calls a function of another crate.
pub open spec fn is_upstream(program: Program, func: Operand) -> bool {
    called_item(program, func) matches Some(item) && !item.is_local
}

/// Whether a call calls a function of another crate.
pub fn is_upstream_call(program: &Program, func: &Operand) -> (r: bool)
    requires
        program.types.wf(),
        program.types.has(func.ty()),
    ensures
        r == is_upstream(*program, *func),
{
    match call_fn_def(program, func) {
        Some(item) => !item.is_local,
        None => false,
    }
}

/// The function item that a constant is.
pub open spec fn constant_item(program: Program, func: Operand) -> Option<FnItem> {
    match func {
        Operand::Constant(constant) => item_of(program, constant.ty),
        _ => None,
    }
}

fn find_constant_item<'a>(program: &'a Program, func: &Operand) -> (r: Option<&'a FnItem>)
    requires
        program.types.has(func.ty()),
    ensures
        match r {
            Some(item) => constant_item(*program, *func) == Some(*item),
            None => constant_item(*program, *func) is None,
        },
{
    match func {
        Operand::Constant(constant) => find_item(program, constant.ty),
        _ => None,
    }
}

/// Whether a call makes format arguments of a text.
pub open spec fn is_format_text(program: Program, func: Operand) -> bool {
    constant_item(program, func) matches Some(item) && text::occurs(
        item.path@,
        "fmt::Arguments"@,
    ) && text::ends(item.path@, "from_str"@)
}

/// Whether a call makes format arguments of a text.
pub fn is_arguments_from_str_call(program: &Program, func: &Operand) -> (r: bool)
    requires
        program.types.has(func.ty()),
    ensures
        r == is_format_text(*program, *func),
{
    match find_constant_item(program, func) {
        Some(item) => contains(item.path.as_str(), "fmt::Arguments") && has_suffix(
            item.path.as_str(),
            "from_str",
        ),
        None => false,
    }
}

/// Whether a call calls a kernel.
pub open spec fn calls_kernel(program: Program, func: Operand) -> bool {
    constant_item(program, func) matches Some(item) && kernel::is_kernel(item)
}

/// Whether a call calls a kernel.
pub fn is_call_to_kernel(program: &Program, func: &Operand) -> (r: bool)
    requires
        program.types.has(func.ty()),
    ensures
        r == calls_kernel(*program, *func),
{
    match find_constant_item(program, func) {
        Some(item) => is_kernel_item(item),
        None => false,
    }
}

/// Whether a block ends in a call of a kernel.
pub open spec fn ends_in_kernel(program: Program, terminator: Terminator) -> bool {
    terminator matches Terminator::Call { func, .. } && calls_kernel(program, func)
}

/// Whether a body calls a kernel.
pub open spec fn has_kernel_call(program: Program, body: Body) -> bool {
    exists|i: int|
        0 <= i < body.blocks@.len() && ends_in_kernel(
            program,
            (#[trigger] body.blocks@[i]).terminator,
        )
}

/// Whether a body calls a kernel.
pub fn contains_kernel_call(program: &Program, body: &Body) -> (r: bool)
    requires
        forall|i: int|
            0 <= i < body.blocks@.len() ==> ((#[trigger] body.blocks@[i]).terminator matches Terminator::Call {
                func,
                ..
            } ==> program.types.has(func.ty())),
    ensures
        r == has_kernel_call(*program, *body),
{
    let mut i: usize = 0;
    while i < body.blocks.len()
        invariant
            i <= body.blocks@.len(),
            forall|k: int|
                0 <= k < body.blocks@.len() ==> ((#[trigger] body.blocks@[k]).terminator matches Terminator::Call {
                    func,
                    ..
                } ==> program.types.has(func.ty())),
            forall|k: int|
                0 <= k < i ==> !ends_in_kernel(
                    *program,
                    (#[trigger] body.blocks@[k]).terminator,
                ),
        decreases body.blocks@.len() - i,
    {
        if let Terminator::Call { func, .. } = &body.blocks[i].terminator {
            if is_call_to_kernel(program, func) {
                assert(ends_in_kernel(*program, body.blocks@[i as int].terminator));
                return true;
            }
        }
        i = i + 1;
    }
    false
}

/// Whether a call never comes back.
pub open spec fn is_unreachable(program: Program, func: Operand) -> bool {
    called_index(program, func) matches Some(index) && text::occurs(
        program.instances@[index as int].path@,
        "unreachable_unchecked"@,
    )
}

/// Whether a call never comes back.
pub fn is_unreachable_unchecked_call(program: &Program, func: &Operand) -> (r: bool)
    requires
        program.types.wf(),
        program.types.has(func.ty()),
    ensures
        r == is_unreachable(*program, *func),
{
    match call_instance(program, func) {
        Some(index) => contains(
            program.instances[index].path.as_str(),
            "unreachable_unchecked",
        ),
        None => false,
    }
}

/// Whether a call does nothing.
pub open spec fn is_noop(program: Program, func: Operand) -> bool {
    let mark = "core::intrinsics::assert_inhabited"@;
    ||| called_index(program, func) matches Some(index) && text::occurs(
        program.instances@[index as int].path@,
        mark,
    )
    ||| called_item(program, func) matches Some(item) && text::occurs(item.path@, mark)
    ||| called_symbol(program, func) matches Ok(symbol) && text::occurs(
        symbol,
        "assert_inhabited"@,
    )
}

/// Whether a call does nothing.
pub fn is_noop_intrinsic_call(program: &Program, func: &Operand) -> (r: bool)
    requires
        program.types.wf(),
        program.types.has(func.ty()),
    ensures
        r == is_noop(*program, *func),
{
    if let Some(index) = call_instance(program, func) {
        if contains(
            program.instances[index].path.as_str(),
            "core::intrinsics::assert_inhabited",
        ) {
            return true;
        }
    }
    if let Some(item) = call_fn_def(program, func) {
        if contains(item.path.as_str(), "core::intrinsics::assert_inhabited") {
            return true;
        }
    }
    match call_symbol(program, func) {
        Ok(symbol) => contains(symbol.as_str(), "assert_inhabited"),
        Err(_) => false,
    }
}

/// The two words of a trait object of a type: those of the pointer in it,
/// however many structs of one field are around it.
pub open spec fn split_receiver(ty: TypeHandle, value: Meaning) -> Result<
    (Meaning, Meaning),
    Failure,
>
    decreases ty,
{
    match ty {
        TypeHandle::Struct { body: StructBody::Fields(list), .. } => match *list {
            TypeList::Cons(head, rest) => match *rest {
                TypeList::Nil => split_receiver(head, meaning::field(value, 0)),
                TypeList::Cons(_, more) => match *more {
                    TypeList::Nil => Ok((meaning::field(value, 0), meaning::field(value, 1))),
                    TypeList::Cons(_, _) => Err(Failure::DynReceiver(ty)),
                },
            },
            TypeList::Nil => Err(Failure::DynReceiver(ty)),
        },
        _ => Err(Failure::DynReceiver(ty)),
    }
}

/// How many parts are taken out of a trait object of a type to get at its two
/// words: one for each struct of one field around the pointer, and two.
pub open spec fn splits(ty: TypeHandle) -> nat
    decreases ty,
{
    match ty {
        TypeHandle::Struct { body: StructBody::Fields(list), .. } => match *list {
            TypeList::Cons(head, rest) => match *rest {
                TypeList::Nil => 1 + splits(head),
                TypeList::Cons(_, more) => match *more {
                    TypeList::Nil => 2,
                    TypeList::Cons(_, _) => 0,
                },
            },
            TypeList::Nil => 0,
        },
        _ => 0,
    }
}

/// Whether nothing but a number of extractions was appended to a list of
/// operations.
pub open spec fn extracts(new: Seq<OpKind>, old: Seq<OpKind>, count: nat) -> bool {
    &&& new.len() == old.len() + count
    &&& new.take(old.len() as int) == old
    &&& forall|k: int| old.len() <= k < new.len() ==> #[trigger] new[k] is ExtractValue
}

/// Extractions after an extraction.
proof fn lemma_one_more(new: Seq<OpKind>, first: Seq<OpKind>, old: Seq<OpKind>, count: nat)
    requires
        first.len() == old.len() + 1,
        first.drop_last() == old,
        first.last() is ExtractValue,
        new.len() == first.len() + count,
        new.take(first.len() as int) == first || (count == 1 && new.drop_last() == first),
        forall|k: int| first.len() <= k < new.len() ==> #[trigger] new[k] is ExtractValue,
    ensures
        extracts(new, old, 1 + count),
{
    assert(new.take(first.len() as int) =~= first);
    assert(new.take(old.len() as int) =~= new.take(first.len() as int).drop_last());
    assert(new[old.len() as int] == new.take(first.len() as int).last());
}

/// Splits a trait object into its two words.
pub fn split_dyn_receiver(ctx: &mut Context, block: BlockId, ty: &TypeHandle, receiver: Value) -> (r:
    Result<(Value, Value), Failure>)
    requires
        old(ctx).wf(),
        old(ctx).has_block(block),
        old(ctx).has(receiver),
        receiver.ty() == *ty,
    ensures
        final(ctx).computed_since(*old(ctx), block),
        match split_receiver(*ty, receiver.meaning@) {
            Ok((data, methods)) => r matches Ok((x, y)) && final(ctx).has(x) && final(ctx).has(y)
                && x.meaning@ == data && y.meaning@ == methods,
            Err(failure) => r matches Err(other) && other == failure,
        },
        extracts(final(ctx).kinds(block), old(ctx).kinds(block), splits(*ty)),
    decreases *ty,
{
    let ghost before = ctx.kinds(block);
    assert(before.take(before.len() as int) =~= before);
    match ty {
        TypeHandle::Struct { body: StructBody::Fields(list), .. } => match &**list {
            TypeList::Cons(head, rest) => {
                proof {
                    reveal_with_fuel(TypeList::seq, 3);
                    reveal_with_fuel(ox::type_at, 2);
                    assert(list.seq() =~= seq![*head] + rest.seq());
                    assert(seq![0u32].skip(1) =~= Seq::<u32>::empty());
                    assert(seq![1u32].skip(1) =~= Seq::<u32>::empty());
                }
                match &**rest {
                    TypeList::Nil => {
                        let inner: Value = put_field(ctx, block, receiver, 0);
                        let ghost first = ctx.kinds(block);
                        let r: Result<(Value, Value), Failure> = split_dyn_receiver(
                            ctx,
                            block,
                            head,
                            inner,
                        );
                        proof {
                            lemma_one_more(ctx.kinds(block), first, before, splits(*head));
                        }
                        r
                    },
                    TypeList::Cons(_, more) => match &**more {
                        TypeList::Nil => {
                            let data: Value = put_field(ctx, block, receiver, 0);
                            let ghost first = ctx.kinds(block);
                            let methods: Value = put_field(ctx, block, receiver, 1);
                            proof {
                                lemma_one_more(ctx.kinds(block), first, before, 1);
                            }
                            Ok((data, methods))
                        },
                        TypeList::Cons(_, _) => Err(Failure::DynReceiver(ty.clone())),
                    },
                }
            },
            TypeList::Nil => Err(Failure::DynReceiver(ty.clone())),
        },
        _ => Err(Failure::DynReceiver(ty.clone())),
    }
}

} // verus!
