//! Conversion of the types of a program.
//!
//! Integers, floats and thin pointers are scalars. Tuples, closures and structs
//! become structs with their fields in memory order, unions become bytes, and an
//! enum becomes an opaque blob of the size and alignment of its real layout, so
//! that its values are simply its bytes in memory.

use crate::arith::{bool_immediate_ty, bool_storage_ty};
use crate::error::Failure;
use crate::layout;
use crate::layout::{enum_stack_align, layout_size_of_ty, reorder, rustc_layout_size_of_ty};
use crate::names::legal_identifier;
use crate::names;
use crate::text;
use crate::text::{has_prefix, join};
use crate::ty;
use crate::ty::{int_width, uint_width, AdtKind, Tail, TyId, TyKind, TyTable};
use crate::types;
use crate::types::{NameId, Signedness, StructBody, TypeHandle, TypeList};
use std::rc::Rc;
use vstd::prelude::*;

verus! {

/// The type of a value without contents: an array of no bytes.
pub open spec fn unit() -> TypeHandle {
    types::array_of(types::unsigned(8), 0)
}

/// The type of a value without contents.
pub fn unit_ty() -> (r: TypeHandle)
    ensures
        r == unit(),
{
    TypeHandle::array(TypeHandle::integer(8, Signedness::Unsigned), 0)
}

/// Whether a converted type has no contents.
pub open spec fn is_unit(ty: TypeHandle) -> bool {
    ty is Unit || (ty matches TypeHandle::Array { size, .. } && size == 0)
}

/// Whether a converted type has no contents.
pub fn is_unit_converted_ty(ty: &TypeHandle) -> (r: bool)
    ensures
        r == is_unit(*ty),
{
    match ty {
        TypeHandle::Unit => true,
        TypeHandle::Array { size, .. } => *size == 0,
        _ => false,
    }
}

/// The type of sizes.
pub fn usize_ty() -> (r: TypeHandle)
    ensures
        r == types::unsigned(64),
{
    TypeHandle::integer(64, Signedness::Unsigned)
}

/// The type of thin pointers.
pub fn llvm_ptr_ty() -> (r: TypeHandle)
    ensures
        r == types::pointer(),
{
    TypeHandle::Pointer { address_space: 0 }
}

/// A pointer with a length.
pub open spec fn sized_pointer() -> TypeHandle {
    types::pair_of(types::pointer(), types::unsigned(64))
}

/// A pointer with another.
pub open spec fn pointer_pair() -> TypeHandle {
    types::pair_of(types::pointer(), types::pointer())
}

/// A reference to a string slice: its address and length.
pub fn str_ref_ty() -> (r: TypeHandle)
    ensures
        r == sized_pointer(),
{
    TypeHandle::pair(llvm_ptr_ty(), usize_ty())
}

/// A reference to a slice: its address and length.
pub fn slice_ref_ty() -> (r: TypeHandle)
    ensures
        r == sized_pointer(),
{
    TypeHandle::pair(llvm_ptr_ty(), usize_ty())
}

/// A reference to a trait object: its address and that of its table.
pub fn trait_object_ref_ty() -> (r: TypeHandle)
    ensures
        r == pointer_pair(),
{
    TypeHandle::pair(llvm_ptr_ty(), llvm_ptr_ty())
}

/// Arguments for formatting: two words.
pub fn fmt_arguments_ty() -> (r: TypeHandle)
    ensures
        r == pointer_pair(),
{
    TypeHandle::pair(llvm_ptr_ty(), llvm_ptr_ty())
}

/// A struct named after a type.
pub open spec fn named(ty: TyId, fields: Seq<TypeHandle>) -> TypeHandle {
    TypeHandle::Struct {
        name: Some(NameId { ty: ty.0, mirrored: 0 }),
        body: StructBody::Fields(Rc::new(TypeList::of(fields))),
    }
}

/// A struct named after a type.
fn named_struct(ty: TyId, fields: &Vec<TypeHandle>) -> (r: TypeHandle)
    ensures
        r == named(ty, fields@),
{
    TypeHandle::Struct {
        name: Some(NameId { ty: ty.0, mirrored: 0 }),
        body: StructBody::Fields(Rc::new(TypeList::from_vec(fields))),
    }
}

/// Whether a type holds the arguments of a formatting call.
pub open spec fn is_fmt_arguments(table: TyTable, ty: TyId) -> bool {
    let printed = table.info(ty).printed@;
    text::starts(printed, "std::fmt::Arguments"@) || text::starts(
        printed,
        "core::fmt::Arguments"@,
    )
}

/// Fields of a type in the order in which they lie in memory.
pub open spec fn in_memory(table: TyTable, ty: TyId, fields: Seq<TyId>) -> Seq<TyId> {
    layout::reordered(fields, table.memory_order(ty, fields.len()))
}

/// The converted type of a type.
pub open spec fn converted(table: TyTable, ty: TyId) -> Result<TypeHandle, Failure>
    decreases ty.0, 1nat, 0nat,
{
    let inner = table.normal(ty);
    if inner.0 > ty.0 {
        Err(Failure::Malformed)
    } else {
        match table.kind(inner) {
            TyKind::Bool => Ok(types::signless(8)),
            TyKind::Str => Ok(unit()),
            TyKind::Dynamic(_) => Ok(unit()),
            TyKind::Int(kind) => Ok(types::signed(ty::int_bits(kind))),
            TyKind::Uint(kind) => Ok(types::unsigned(ty::uint_bits(kind))),
            TyKind::Char => Ok(types::unsigned(32)),
            TyKind::F32 => Ok(TypeHandle::Fp32),
            TyKind::F64 => Ok(TypeHandle::Fp64),
            TyKind::FnPtr => Ok(types::pointer()),
            TyKind::FnDef(_) => Ok(unit()),
            TyKind::Never => Ok(unit()),
            TyKind::Tuple(fields) => if fields@.len() == 0 {
                Ok(unit())
            } else {
                match converted_list(
                    table,
                    inner.0,
                    in_memory(table, inner, fields@),
                    fields@.len(),
                ) {
                    Err(failure) => Err(failure),
                    Ok(list) => Ok(types::struct_of(list)),
                }
            },
            TyKind::Array(elem, len) => if elem.0 >= inner.0 {
                Err(Failure::Malformed)
            } else {
                match converted(table, elem) {
                    Err(failure) => Err(failure),
                    Ok(elem) => match len {
                        None => Err(Failure::ArrayLength(inner)),
                        Some(len) => Ok(types::array_of(elem, len)),
                    },
                }
            },
            TyKind::Slice(elem) => if elem.0 >= inner.0 {
                Err(Failure::Malformed)
            } else {
                match converted(table, elem) {
                    Err(failure) => Err(failure),
                    Ok(elem) => Ok(types::array_of(elem, 0)),
                }
            },
            TyKind::Ref(pointee) => converted_pointer(table, inner.0, pointee),
            TyKind::RawPtr(pointee) => converted_pointer(table, inner.0, pointee),
            TyKind::Adt(kind, fields, _) => if is_fmt_arguments(table, inner) {
                Ok(pointer_pair())
            } else {
                match kind {
                    AdtKind::Struct => match converted_list(
                        table,
                        inner.0,
                        in_memory(table, inner, fields@),
                        fields@.len(),
                    ) {
                        Err(failure) => Err(failure),
                        Ok(list) => Ok(named(inner, list)),
                    },
                    AdtKind::Union => match layout::size_of(table, inner) {
                        Err(failure) => Err(failure),
                        Ok(size) => Ok(named(inner, seq![union_bytes(size)])),
                    },
                    AdtKind::Enum => if table.is_fmt_argument(inner) {
                        Ok(pointer_pair())
                    } else {
                        enum_blob(table, inner)
                    },
                }
            },
            TyKind::Closure(fields) => match converted_list(
                table,
                inner.0,
                in_memory(table, inner, fields@),
                fields@.len(),
            ) {
                Err(failure) => Err(failure),
                Ok(list) => Ok(named(inner, list)),
            },
            _ => Err(Failure::Type(inner)),
        }
    }
}

/// The contents of a union of a size.
pub open spec fn union_bytes(size: u64) -> TypeHandle {
    if size == 0 {
        unit()
    } else {
        types::array_of(types::unsigned(8), size)
    }
}

/// The converted types of the first of a list of types that come before a
/// place in the table.
pub open spec fn converted_list(
    table: TyTable,
    bound: usize,
    fields: Seq<TyId>,
    count: nat,
) -> Result<Seq<TypeHandle>, Failure>
    decreases bound, 0nat, count,
{
    if count == 0 {
        Ok(Seq::empty())
    } else if fields[count - 1].0 >= bound {
        Err(Failure::Malformed)
    } else {
        match converted_list(table, bound, fields, (count - 1) as nat) {
            Err(failure) => Err(failure),
            Ok(list) => match converted(table, fields[count - 1]) {
                Err(failure) => Err(failure),
                Ok(ty) => Ok(list.push(ty)),
            },
        }
    }
}

/// The converted type of a pointer.
pub open spec fn converted_pointer(table: TyTable, bound: usize, pointee: TyId) -> Result<
    TypeHandle,
    Failure,
>
    decreases bound, 0nat, 0nat,
{
    match table.unsized_tail(pointee) {
        Some(Tail::Str) => Ok(sized_pointer()),
        Some(Tail::Slice(elem)) => if elem.0 >= bound {
            Err(Failure::Malformed)
        } else {
            match converted(table, elem) {
                Err(failure) => Err(failure),
                Ok(_) => Ok(sized_pointer()),
            }
        },
        Some(Tail::Dynamic) => Ok(pointer_pair()),
        None => Ok(types::pointer()),
    }
}

/// The blob of an enum: as many aligned words as its layout has bytes for.
pub open spec fn enum_blob(table: TyTable, ty: TyId) -> Result<TypeHandle, Failure> {
    match layout::real_size(table, ty) {
        Err(failure) => Err(failure),
        Ok(size) => if size == 0 {
            Ok(unit())
        } else {
            match layout::enum_align(table, ty) {
                Err(failure) => Err(failure),
                Ok(align) => Ok(
                    named(
                        ty,
                        seq![types::array_of(types::unsigned((align * 8) as u32), (size / align) as u64)],
                    ),
                ),
            }
        },
    }
}

/// The blob of an enum.
pub fn enum_blob_ty(table: &TyTable, ty: TyId) -> (r: Result<TypeHandle, Failure>)
    requires
        table.has(ty),
    ensures
        r == enum_blob(*table, ty),
{
    let size: u64 = rustc_layout_size_of_ty(table, ty)?;
    if size == 0 {
        return Ok(unit_ty());
    }
    let align: u64 = enum_stack_align(table, ty)?;
    let elem: TypeHandle = TypeHandle::integer((align * 8) as u32, Signedness::Unsigned);
    let blob: TypeHandle = TypeHandle::array(elem, size / align);
    let fields: Vec<TypeHandle> = vec![blob];
    assert(fields@ =~= seq![blob]);
    Ok(named_struct(ty, &fields))
}

/// Converts a type.
pub fn convert_ty(table: &TyTable, ty: TyId) -> (r: Result<TypeHandle, Failure>)
    requires
        table.wf(),
        table.has(ty),
    ensures
        r == converted(*table, ty),
    decreases ty.0, 1nat, 0nat,
{
    let inner: TyId = table.normalize_ty(ty);
    proof {
        assert(table.ty_wf(inner));
    }
    match &table.types[inner.0].kind {
        TyKind::Bool => Ok(bool_storage_ty()),
        TyKind::Str => Ok(unit_ty()),
        TyKind::Dynamic(_) => Ok(unit_ty()),
        TyKind::Int(kind) => Ok(TypeHandle::integer(int_width(*kind), Signedness::Signed)),
        TyKind::Uint(kind) => Ok(TypeHandle::integer(uint_width(*kind), Signedness::Unsigned)),
        TyKind::Char => Ok(TypeHandle::integer(32, Signedness::Unsigned)),
        TyKind::F32 => Ok(TypeHandle::Fp32),
        TyKind::F64 => Ok(TypeHandle::Fp64),
        TyKind::FnPtr => Ok(llvm_ptr_ty()),
        TyKind::FnDef(_) => Ok(unit_ty()),
        TyKind::Never => Ok(unit_ty()),
        TyKind::Tuple(fields) => {
            if fields.len() == 0 {
                return Ok(unit_ty());
            }
            let list: Vec<TypeHandle> = convert_fields(table, inner, fields)?;
            Ok(TypeHandle::unnamed_struct(&list))
        },
        TyKind::Array(elem, len) => {
            assert(table.parts(inner)[0] == *elem);
            let elem: TypeHandle = convert_ty(table, *elem)?;
            match len {
                None => Err(Failure::ArrayLength(inner)),
                Some(len) => Ok(TypeHandle::array(elem, *len)),
            }
        },
        TyKind::Slice(elem) => {
            assert(table.parts(inner)[0] == *elem);
            let elem: TypeHandle = convert_ty(table, *elem)?;
            Ok(TypeHandle::array(elem, 0))
        },
        TyKind::Ref(pointee) => convert_pointer(table, inner, *pointee),
        TyKind::RawPtr(pointee) => convert_pointer(table, inner, *pointee),
        TyKind::Adt(kind, fields, _) => {
            if has_prefix(table.types[inner.0].printed.as_str(), "std::fmt::Arguments")
                || has_prefix(table.types[inner.0].printed.as_str(), "core::fmt::Arguments") {
                return Ok(fmt_arguments_ty());
            }
            match kind {
                AdtKind::Struct => {
                    let list: Vec<TypeHandle> = convert_fields(table, inner, fields)?;
                    Ok(named_struct(inner, &list))
                },
                AdtKind::Union => {
                    let size: u64 = layout_size_of_ty(table, inner)?;
                    let storage: TypeHandle = if size == 0 {
                        unit_ty()
                    } else {
                        TypeHandle::array(TypeHandle::integer(8, Signedness::Unsigned), size)
                    };
                    let list: Vec<TypeHandle> = vec![storage];
                    assert(list@ =~= seq![storage]);
                    Ok(named_struct(inner, &list))
                },
                AdtKind::Enum => {
                    if table.is_fmt_rt_argument_type(inner) {
                        return Ok(fmt_arguments_ty());
                    }
                    enum_blob_ty(table, inner)
                },
            }
        },
        TyKind::Closure(fields) => {
            let list: Vec<TypeHandle> = convert_fields(table, inner, fields)?;
            Ok(named_struct(inner, &list))
        },
        _ => Err(Failure::Type(inner)),
    }
}

fn convert_pointer(table: &TyTable, ty: TyId, pointee: TyId) -> (r: Result<TypeHandle, Failure>)
    requires
        table.wf(),
        table.has(ty),
        table.kind(ty) == TyKind::Ref(pointee) || table.kind(ty) == TyKind::RawPtr(pointee),
    ensures
        r == converted_pointer(*table, ty.0, pointee),
    decreases ty.0, 0nat, 0nat,
{
    proof {
        assert(table.ty_wf(ty));
    }
    match table.pointee_unsized_tail(pointee) {
        Some(Tail::Str) => Ok(str_ref_ty()),
        Some(Tail::Slice(elem)) => {
            convert_ty(table, elem)?;
            Ok(slice_ref_ty())
        },
        Some(Tail::Dynamic) => Ok(trait_object_ref_ty()),
        None => Ok(llvm_ptr_ty()),
    }
}

proof fn lemma_list_fails(
    table: TyTable,
    bound: usize,
    fields: Seq<TyId>,
    from: nat,
    to: nat,
    failure: Failure,
)
    requires
        from <= to <= fields.len(),
        forall|i: int| 0 <= i < fields.len() ==> (#[trigger] fields[i]).0 < bound,
        converted_list(table, bound, fields, from) == Err::<Seq<TypeHandle>, Failure>(failure),
    ensures
        converted_list(table, bound, fields, to) == Err::<Seq<TypeHandle>, Failure>(failure),
    decreases to,
{
    if from < to {
        lemma_list_fails(table, bound, fields, from, (to - 1) as nat, failure);
    }
}

/// Converts the fields of a type, in memory order.
fn convert_fields(table: &TyTable, ty: TyId, fields: &Vec<TyId>) -> (r: Result<
    Vec<TypeHandle>,
    Failure,
>)
    requires
        table.wf(),
        table.has(ty),
        table.precede(fields@, ty),
    ensures
        match converted_list(*table, ty.0, in_memory(*table, ty, fields@), fields@.len()) {
            Ok(list) => r matches Ok(types) && types@ == list,
            Err(failure) => r matches Err(other) && other == failure,
        },
    decreases ty.0, 0nat, 0nat,
{
    let order: Vec<usize> = table.struct_memory_order(ty, fields.len());
    proof {
        table.law_memory_order(ty, fields@.len());
    }
    let ordered: Vec<TyId> = reorder(fields, &order);
    let mut out: Vec<TypeHandle> = Vec::new();
    let mut i: usize = 0;
    while i < ordered.len()
        invariant
            table.wf(),
            table.has(ty),
            table.precede(ordered@, ty),
            ordered@ == in_memory(*table, ty, fields@),
            ordered@.len() == fields@.len(),
            i <= ordered@.len(),
            converted_list(*table, ty.0, ordered@, i as nat) == Ok::<Seq<TypeHandle>, Failure>(
                out@,
            ),
        decreases ordered@.len() - i,
    {
        match convert_ty(table, ordered[i]) {
            Ok(converted) => {
                out.push(converted);
            },
            Err(failure) => {
                proof {
                    lemma_list_fails(
                        *table,
                        ty.0,
                        ordered@,
                        (i + 1) as nat,
                        ordered@.len(),
                        failure,
                    );
                }
                return Err(failure);
            },
        }
        i = i + 1;
    }
    Ok(out)
}

/// Whether a type has no storage: the empty tuple and the type of calls that
/// do not return.
pub open spec fn is_storageless(table: TyTable, ty: TyId) -> bool {
    match table.kind(table.runtime(ty)) {
        TyKind::Tuple(fields) => fields@.len() == 0,
        TyKind::Never => true,
        _ => false,
    }
}

fn lacks_storage(table: &TyTable, ty: TyId) -> (r: bool)
    requires
        table.wf(),
        table.has(ty),
    ensures
        r == is_storageless(*table, ty),
{
    let ty: TyId = table.runtime_ty(ty);
    match &table.types[ty.0].kind {
        TyKind::Tuple(fields) => fields.len() == 0,
        TyKind::Never => true,
        _ => false,
    }
}

/// The type in which a value of a type is stored, where it is stored at all.
pub open spec fn storage(table: TyTable, ty: TyId) -> Result<Option<TypeHandle>, Failure> {
    if is_storageless(table, ty) {
        Ok(None)
    } else {
        match converted(table, table.runtime(ty)) {
            Err(failure) => Err(failure),
            Ok(ty) => Ok(Some(ty)),
        }
    }
}

/// The type in which a value of a type is stored.
pub fn convert_storage_ty(table: &TyTable, ty: TyId) -> (r: Result<Option<TypeHandle>, Failure>)
    requires
        table.wf(),
        table.has(ty),
    ensures
        r == storage(*table, ty),
{
    if lacks_storage(table, ty) {
        return Ok(None);
    }
    let converted: TypeHandle = convert_ty(table, table.runtime_ty(ty))?;
    Ok(Some(converted))
}

/// The type of a value of a type in a register.
pub open spec fn immediate(table: TyTable, ty: TyId) -> Result<TypeHandle, Failure> {
    if table.is_bool(ty) {
        Ok(types::signless(1))
    } else {
        converted(table, ty)
    }
}

/// The type of a value of a type in a register.
pub fn convert_immediate_ty(table: &TyTable, ty: TyId) -> (r: Result<TypeHandle, Failure>)
    requires
        table.wf(),
        table.has(ty),
    ensures
        r == immediate(*table, ty),
{
    if table.is_bool_ty(ty) {
        return Ok(bool_immediate_ty());
    }
    convert_ty(table, ty)
}

/// The type that a function with a result of a type hands back, where it
/// hands back anything.
pub open spec fn returned(table: TyTable, ty: TyId) -> Result<Option<TypeHandle>, Failure> {
    if is_storageless(table, ty) {
        Ok(None)
    } else if table.is_bool(ty) {
        Ok(Some(types::signless(1)))
    } else {
        match converted(table, table.runtime(ty)) {
            Err(failure) => Err(failure),
            Ok(ty) => Ok(Some(ty)),
        }
    }
}

/// The type that a function with a result of a type hands back.
pub fn convert_return_ty(table: &TyTable, ty: TyId) -> (r: Result<Option<TypeHandle>, Failure>)
    requires
        table.wf(),
        table.has(ty),
    ensures
        r == returned(*table, ty),
{
    if lacks_storage(table, ty) {
        return Ok(None);
    }
    if table.is_bool_ty(ty) {
        return Ok(Some(bool_immediate_ty()));
    }
    let converted: TypeHandle = convert_ty(table, table.runtime_ty(ty))?;
    Ok(Some(converted))
}

/// The name of the struct that stands for a type, as often mirrored.
pub open spec fn struct_name(table: TyTable, name: NameId) -> Seq<char>
    decreases name.mirrored,
{
    if name.mirrored == 0 {
        names::legal_name(table.types@[name.ty as int].full_name@)
    } else {
        struct_name(table, NameId { ty: name.ty, mirrored: (name.mirrored - 1) as u32 })
            + "__llvm"@
    }
}

/// The name of the struct that stands for a type. All names in it carry their
/// crate, so that types of the same name in two crates stay apart.
pub fn type_symbol(table: &TyTable, name: NameId) -> (r: String)
    requires
        name.ty < table.types@.len(),
    ensures
        r@ == struct_name(*table, name),
    decreases name.mirrored,
{
    if name.mirrored == 0 {
        legal_identifier(table.types[name.ty].full_name.as_str())
    } else {
        let plain: String = type_symbol(
            table,
            NameId { ty: name.ty, mirrored: name.mirrored - 1 },
        );
        join(plain.as_str(), "__llvm")
    }
}

} // verus!
