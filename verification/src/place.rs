//! Places: where they are, what they hold, and writing to them.

use crate::arith::{bool_immediate_ty, bool_storage_ty};
use crate::convert;
use crate::convert::{convert_storage_ty, convert_ty, llvm_ptr_ty};
use crate::error::{Failure, PlaceTy};
use crate::ir::{BlockId, Context, Meaning, RegionId, Value};
use crate::layout;
use crate::layout::{field_offset_of, layout_size_of_ty, plus, times};
use crate::meaning;
use crate::meaning::{
    put_arith, put_as_type, put_field, put_load, put_offset, put_pair, put_past, put_size,
    put_store, put_undef, put_with_field, scale_index, value_has_field, Arith, Step,
};
use crate::mir::{Body, Place, Projection};
use crate::sem::Moment;
use crate::ty::{TyId, TyKind, TyTable};
use crate::types;
use crate::types::TypeHandle;
use vstd::prelude::*;

verus! {

/// What is known while the body of a function is imported.
pub struct FunctionImportState {
    /// The block of symbols.
    pub module_body: BlockId,
    /// The body of the function.
    pub region: RegionId,
    /// The block of each block of the body.
    pub blocks: Vec<BlockId>,
    /// The storage of each local that has storage.
    pub local_slots: Vec<Option<Value>>,
}

impl FunctionImportState {
    /// What the storage of each local means.
    pub open spec fn slots(self) -> Seq<Option<Meaning>> {
        self.local_slots@.map_values(|slot: Option<Value>| meaning::meaning_of(slot))
    }

    /// Whether the storage of all locals belongs to a context.
    pub open spec fn fits(self, ctx: Context) -> bool {
        forall|i: int|
            0 <= i < self.local_slots@.len() ==> (#[trigger] self.local_slots@[i] matches Some(
                v,
            ) ==> ctx.has(v))
    }
}

/// The storage of a local.
pub open spec fn slot_of(slots: Seq<Option<Meaning>>, local: usize) -> Result<
    Option<Meaning>,
    Failure,
> {
    if local < slots.len() {
        Ok(slots[local as int])
    } else {
        Err(Failure::UnknownLocal(local))
    }
}

/// The storage of a local.
pub fn local_slot_opt(ctx: &Context, state: &FunctionImportState, local: usize) -> (r: Result<
    Option<Value>,
    Failure,
>)
    requires
        state.fits(*ctx),
    ensures
        match slot_of(state.slots(), local) {
            Ok(slot) => r matches Ok(found) && meaning::meaning_of(found) == slot && (
            found matches Some(v) ==> ctx.has(v)),
            Err(failure) => r matches Err(other) && other == failure,
        },
{
    if local < state.local_slots.len() {
        Ok(state.local_slots[local])
    } else {
        Err(Failure::UnknownLocal(local))
    }
}

/// The storage of a local that must have storage.
pub open spec fn sure_slot(slots: Seq<Option<Meaning>>, local: usize) -> Result<Meaning, Failure> {
    match slot_of(slots, local) {
        Err(failure) => Err(failure),
        Ok(None) => Err(Failure::MissingSlot(local)),
        Ok(Some(slot)) => Ok(slot),
    }
}

/// The storage of a local that must have storage.
pub fn local_slot(ctx: &Context, state: &FunctionImportState, local: usize) -> (r: Result<
    Value,
    Failure,
>)
    requires
        state.fits(*ctx),
    ensures
        match sure_slot(state.slots(), local) {
            Ok(slot) => r matches Ok(v) && v.meaning@ == slot && ctx.has(v),
            Err(failure) => r matches Err(other) && other == failure,
        },
{
    match local_slot_opt(ctx, state, local)? {
        Some(slot) => Ok(slot),
        None => Err(Failure::MissingSlot(local)),
    }
}

/// The storage of a place that must be a local.
pub open spec fn plain_slot(slots: Seq<Option<Meaning>>, place: Place) -> Result<
    Option<Meaning>,
    Failure,
> {
    if place.projection@.len() > 0 {
        Err(Failure::PlaceProjection)
    } else {
        slot_of(slots, place.local)
    }
}

/// The storage of a place that must be a local.
pub fn place_slot_opt(ctx: &Context, state: &FunctionImportState, place: &Place) -> (r: Result<
    Option<Value>,
    Failure,
>)
    requires
        state.fits(*ctx),
    ensures
        match plain_slot(state.slots(), *place) {
            Ok(slot) => r matches Ok(found) && meaning::meaning_of(found) == slot && (
            found matches Some(v) ==> ctx.has(v)),
            Err(failure) => r matches Err(other) && other == failure,
        },
{
    if place.projection.len() > 0 {
        return Err(Failure::PlaceProjection);
    }
    local_slot_opt(ctx, state, place.local)
}

/// The block of a block of the body.
pub open spec fn block_of(blocks: Seq<BlockId>, block: usize) -> Result<BlockId, Failure> {
    if block < blocks.len() {
        Ok(blocks[block as int])
    } else {
        Err(Failure::MissingBlock(block))
    }
}

/// The block of a block of the body.
pub fn block_for(state: &FunctionImportState, block: usize) -> (r: Result<BlockId, Failure>)
    ensures
        r == block_of(state.blocks@, block),
{
    if block < state.blocks.len() {
        Ok(state.blocks[block])
    } else {
        Err(Failure::MissingBlock(block))
    }
}

/// Whether the types that a step names stand in a table.
pub open spec fn projection_wf(table: TyTable, elem: Projection) -> bool {
    match elem {
        Projection::Field(_, ty) => table.has(ty),
        Projection::Cast(ty) => table.has(ty),
        _ => true,
    }
}

/// Whether the types that a place names stand in a table.
pub open spec fn place_wf(table: TyTable, place: Place) -> bool {
    &&& table.has(place.ty)
    &&& forall|i: int|
        0 <= i < place.projection@.len() ==> projection_wf(table, #[trigger] place.projection@[i])
}

/// Whether the locals of a body have types of a table.
pub open spec fn locals_wf(table: TyTable, locals: Seq<TyId>) -> bool {
    forall|i: int| 0 <= i < locals.len() ==> table.has(#[trigger] locals[i])
}

/// The type of a local.
pub open spec fn local_ty(locals: Seq<TyId>, local: usize) -> Result<TyId, Failure> {
    if local < locals.len() {
        Ok(locals[local as int])
    } else {
        Err(Failure::UnknownLocal(local))
    }
}

fn type_of_local(body: &Body, local: usize) -> (r: Result<TyId, Failure>)
    ensures
        r == local_ty(body.locals@, local),
{
    if local < body.locals.len() {
        Ok(body.locals[local])
    } else {
        Err(Failure::UnknownLocal(local))
    }
}

/// The address of a local without storage: none that is ever used, but aligned
/// as the type is.
pub open spec fn dangling(table: TyTable, ty: TyId) -> Meaning {
    let align = match table.info(table.runtime(ty)).layout {
        Some(layout) => if layout.align > 1 {
            layout.align
        } else {
            1
        },
        None => 1,
    };
    meaning::as_type(
        meaning::constant(types::unsigned(64), align as u128),
        types::pointer(),
    )
}

/// The address of a local without storage.
fn dangling_zst_addr(table: &TyTable, ctx: &mut Context, block: BlockId, ty: TyId) -> (r: Value)
    requires
        table.wf(),
        table.has(ty),
        old(ctx).wf(),
        old(ctx).has_block(block),
    ensures
        final(ctx).computed_since(*old(ctx), block),
        final(ctx).has(r),
        r.meaning@ == dangling(*table, ty),
{
    let inner: TyId = table.runtime_ty(ty);
    let align: u64 = match &table.types[inner.0].layout {
        Some(layout) => if layout.align > 1 {
            layout.align
        } else {
            1
        },
        None => 1,
    };
    let addr: Value = put_size(ctx, block, align);
    put_as_type(ctx, block, addr, &llvm_ptr_ty())
}

/// Where a local is.
pub open spec fn base_of(
    table: TyTable,
    locals: Seq<TyId>,
    slots: Seq<Option<Meaning>>,
    local: usize,
) -> Result<Meaning, Failure> {
    match slot_of(slots, local) {
        Err(failure) => Err(failure),
        Ok(Some(slot)) => Ok(slot),
        Ok(None) => match local_ty(locals, local) {
            Err(failure) => Err(failure),
            Ok(ty) => Ok(dangling(table, ty)),
        },
    }
}

/// Whether a result is an emitted value that means what it should, or the
/// failure that it should be.
pub open spec fn gives(ctx: Context, r: Result<Value, Failure>, want: Result<Meaning, Failure>) -> bool {
    match want {
        Ok(meaning) => r matches Ok(v) && ctx.has(v) && v.meaning@ == meaning,
        Err(failure) => r matches Err(other) && other == failure,
    }
}

fn base_addr(
    table: &TyTable,
    ctx: &mut Context,
    state: &FunctionImportState,
    block: BlockId,
    body: &Body,
    local: usize,
) -> (r: Result<Value, Failure>)
    requires
        table.wf(),
        locals_wf(*table, body.locals@),
        old(ctx).wf(),
        old(ctx).has_block(block),
        state.fits(*old(ctx)),
    ensures
        final(ctx).computed_since(*old(ctx), block),
        gives(*final(ctx), r, base_of(*table, body.locals@, state.slots(), local)),
{
    match local_slot_opt(ctx, state, local)? {
        Some(slot) => Ok(slot),
        None => {
            let ty: TyId = type_of_local(body, local)?;
            Ok(dangling_zst_addr(table, ctx, block, ty))
        },
    }
}

/// A stored value as it is in a register.
pub open spec fn as_immediate(table: TyTable, ty: TyId, value: Meaning) -> Meaning {
    if table.is_bool(ty) {
        meaning::as_type(value, types::signless(1))
    } else {
        value
    }
}

/// A value in a register as it is stored.
pub open spec fn as_stored(table: TyTable, ty: TyId, value: Meaning) -> Meaning {
    if table.is_bool(ty) {
        meaning::as_type(value, types::signless(8))
    } else {
        value
    }
}

/// A stored value as it is in a register.
pub fn normalize_bool_for_immediate(
    table: &TyTable,
    ctx: &mut Context,
    block: BlockId,
    ty: TyId,
    value: Value,
) -> (r: Value)
    requires
        table.wf(),
        table.has(ty),
        old(ctx).wf(),
        old(ctx).has_block(block),
        old(ctx).has(value),
    ensures
        final(ctx).computed_since(*old(ctx), block),
        final(ctx).has(r),
        r.meaning@ == as_immediate(*table, ty, value.meaning@),
{
    if !table.is_bool_ty(ty) {
        return value;
    }
    put_as_type(ctx, block, value, &bool_immediate_ty())
}

/// A value in a register as it is stored.
pub fn normalize_bool_for_storage(
    table: &TyTable,
    ctx: &mut Context,
    block: BlockId,
    ty: TyId,
    value: Value,
) -> (r: Value)
    requires
        table.wf(),
        table.has(ty),
        old(ctx).wf(),
        old(ctx).has_block(block),
        old(ctx).has(value),
    ensures
        final(ctx).computed_since(*old(ctx), block),
        final(ctx).has(r),
        r.meaning@ == as_stored(*table, ty, value.meaning@),
{
    if !table.is_bool_ty(ty) {
        return value;
    }
    put_as_type(ctx, block, value, &bool_storage_ty())
}

/// What a place at an address holds, in a register.
pub open spec fn read_at(
    table: TyTable,
    at: Moment,
    ty: TyId,
    addr: Result<Meaning, Failure>,
) -> Result<Meaning, Failure> {
    match convert::storage(table, ty) {
        Err(failure) => Err(failure),
        Ok(None) => match convert::converted(table, ty) {
            Err(failure) => Err(failure),
            Ok(unit) => Ok(meaning::undefined(unit)),
        },
        Ok(Some(_)) => match addr {
            Err(failure) => Err(failure),
            Ok(addr) => match convert::converted(table, ty) {
                Err(failure) => Err(failure),
                Ok(converted) => Ok(
                    as_immediate(table, ty, meaning::loaded(at, addr, converted)),
                ),
            },
        },
    }
}

/// What a local holds, in a register.
pub open spec fn local_value(
    table: TyTable,
    locals: Seq<TyId>,
    slots: Seq<Option<Meaning>>,
    at: Moment,
    local: usize,
) -> Result<Meaning, Failure> {
    match local_ty(locals, local) {
        Err(failure) => Err(failure),
        Ok(ty) => read_at(table, at, ty, base_of(table, locals, slots, local)),
    }
}

/// Reads a local.
pub fn load_local(
    table: &TyTable,
    ctx: &mut Context,
    state: &FunctionImportState,
    block: BlockId,
    body: &Body,
    local: usize,
) -> (r: Result<Value, Failure>)
    requires
        table.wf(),
        locals_wf(*table, body.locals@),
        old(ctx).wf(),
        old(ctx).has_block(block),
        state.fits(*old(ctx)),
    ensures
        final(ctx).computed_since(*old(ctx), block),
        gives(
            *final(ctx),
            r,
            local_value(*table, body.locals@, state.slots(), old(ctx)@.now(block), local),
        ),
{
    let ty: TyId = type_of_local(body, local)?;
    if convert_storage_ty(table, ty)?.is_none() {
        let unit: TypeHandle = convert_ty(table, ty)?;
        return Ok(put_undef(ctx, block, &unit));
    }
    let addr: Value = base_addr(table, ctx, state, block, body, local)?;
    let converted: TypeHandle = convert_ty(table, ty)?;
    let value: Value = put_load(ctx, block, addr, &converted);
    Ok(normalize_bool_for_immediate(table, ctx, block, ty, value))
}

/// The converted type of the type of a place.
pub open spec fn converted_place(table: TyTable, ty: PlaceTy) -> Result<TypeHandle, Failure> {
    match ty {
        PlaceTy::Ty(ty) => convert::converted(table, ty),
        PlaceTy::Subarray(elem, len) => match convert::converted(table, elem) {
            Err(failure) => Err(failure),
            Ok(elem) => Ok(types::array_of(elem, len)),
        },
    }
}

fn convert_place_ty(table: &TyTable, ty: PlaceTy) -> (r: Result<TypeHandle, Failure>)
    requires
        table.wf(),
        place_ty_wf(*table, ty),
    ensures
        r == converted_place(*table, ty),
{
    match ty {
        PlaceTy::Ty(ty) => convert_ty(table, ty),
        PlaceTy::Subarray(elem, len) => {
            let elem: TypeHandle = convert_ty(table, elem)?;
            Ok(TypeHandle::array(elem, len))
        },
    }
}

/// Whether the type of a place names types of a table.
pub open spec fn place_ty_wf(table: TyTable, ty: PlaceTy) -> bool {
    match ty {
        PlaceTy::Ty(ty) => table.has(ty),
        PlaceTy::Subarray(elem, _) => table.has(elem),
    }
}

/// What a type points to.
pub open spec fn pointee(table: TyTable, ty: PlaceTy) -> Result<TyId, Failure> {
    match ty {
        PlaceTy::Ty(id) => match table.kind(table.runtime(id)) {
            TyKind::Ref(inner) => Ok(inner),
            TyKind::RawPtr(inner) => Ok(inner),
            _ => Err(Failure::Deref(ty)),
        },
        _ => Err(Failure::Deref(ty)),
    }
}

/// What a type points to.
pub fn pointee_ty(table: &TyTable, ty: PlaceTy) -> (r: Result<TyId, Failure>)
    requires
        table.wf(),
        place_ty_wf(*table, ty),
    ensures
        r == pointee(*table, ty),
        r matches Ok(inner) ==> table.has(inner),
{
    match ty {
        PlaceTy::Ty(id) => {
            let inner: TyId = table.runtime_ty(id);
            proof {
                assert(table.ty_wf(inner));
            }
            match &table.types[inner.0].kind {
                TyKind::Ref(target) => Ok(*target),
                TyKind::RawPtr(target) => Ok(*target),
                _ => Err(Failure::Deref(ty)),
            }
        },
        _ => Err(Failure::Deref(ty)),
    }
}

/// The elements of a type.
pub open spec fn element(table: TyTable, ty: PlaceTy) -> Result<TyId, Failure> {
    match ty {
        PlaceTy::Ty(id) => match table.kind(table.runtime(id)) {
            TyKind::Array(elem, _) => Ok(elem),
            TyKind::Slice(elem) => Ok(elem),
            _ => Err(Failure::Index(ty)),
        },
        PlaceTy::Subarray(elem, _) => Ok(elem),
    }
}

/// The elements of a type.
pub fn indexed_elem_ty(table: &TyTable, ty: PlaceTy) -> (r: Result<TyId, Failure>)
    requires
        table.wf(),
        place_ty_wf(*table, ty),
    ensures
        r == element(*table, ty),
        r matches Ok(elem) ==> table.has(elem),
{
    match ty {
        PlaceTy::Ty(id) => {
            let inner: TyId = table.runtime_ty(id);
            proof {
                assert(table.ty_wf(inner));
            }
            match &table.types[inner.0].kind {
                TyKind::Array(elem, _) => {
                    assert(table.parts(inner)[0] == *elem);
                    Ok(*elem)
                },
                TyKind::Slice(elem) => {
                    assert(table.parts(inner)[0] == *elem);
                    Ok(*elem)
                },
                _ => Err(Failure::Index(ty)),
            }
        },
        PlaceTy::Subarray(elem, _) => Ok(elem),
    }
}

/// The size of the elements of a type.
pub open spec fn element_size(table: TyTable, ty: PlaceTy) -> Result<u64, Failure> {
    match element(table, ty) {
        Err(failure) => Err(failure),
        Ok(elem) => layout::size_of(table, elem),
    }
}

/// The size of the elements of a type.
pub fn indexed_elem_size(table: &TyTable, ty: PlaceTy) -> (r: Result<u64, Failure>)
    requires
        table.wf(),
        place_ty_wf(*table, ty),
    ensures
        r == element_size(*table, ty),
{
    let elem: TyId = indexed_elem_ty(table, ty)?;
    layout_size_of_ty(table, elem)
}

/// How far a way to a place has led: an address, the type there, and the
/// variant that an enum was found to be.
pub struct Spot {
    pub addr: Meaning,
    pub ty: PlaceTy,
    pub variant: Option<u32>,
}

/// The fields of an unsized type lie behind the first word of a fat pointer;
/// the unsized one keeps the second word.
pub open spec fn fat_field(table: TyTable, addr: Meaning, offset: u64, ty: TyId) -> Result<
    Meaning,
    Failure,
> {
    if !meaning::has_field(addr, 0) {
        Err(Failure::Malformed)
    } else {
        let data = meaning::past(meaning::field(addr, 0), offset);
        if table.info(table.runtime(ty)).sized {
            Ok(data)
        } else if !meaning::has_field(addr, 1) {
            Err(Failure::Malformed)
        } else {
            Ok(meaning::pair(addr.ty, data, meaning::field(addr, 1)))
        }
    }
}

/// A part of a slice: its address moved and its length cut.
pub open spec fn sub_slice(addr: Meaning, from: u64, to: u64, from_end: bool, size: u64) -> Result<
    Meaning,
    Failure,
> {
    if !meaning::has_field(addr, 0) || !meaning::has_field(addr, 1) {
        Err(Failure::Malformed)
    } else if from * size > u64::MAX {
        Err(Failure::TooLarge)
    } else if from_end && from + to > u64::MAX {
        Err(Failure::TooLarge)
    } else if !from_end && to < from {
        Err(Failure::SubsliceBounds { from, to })
    } else {
        let first = meaning::field(addr, 0);
        let data = if from == 0 {
            first
        } else {
            meaning::moved(
                first,
                meaning::constant(types::unsigned(64), (from * size) as u128),
            )
        };
        let len = if from_end {
            meaning::computed(
                Arith::Sub,
                meaning::field(addr, 1),
                meaning::constant(types::unsigned(64), (from + to) as u128),
            )
        } else {
            meaning::constant(types::unsigned(64), (to - from) as u128)
        };
        Ok(meaning::pair(addr.ty, data, len))
    }
}

/// The length of a part of an array.
pub open spec fn sub_len(len: Option<u64>, ty: TyId, from: u64, to: u64, from_end: bool) -> Result<
    u64,
    Failure,
> {
    if from_end {
        match len {
            None => Err(Failure::ArrayLength(ty)),
            Some(len) => if from + to > len {
                Err(Failure::SubsliceBounds { from, to })
            } else {
                Ok((len - from - to) as u64)
            },
        }
    } else if to < from {
        Err(Failure::SubsliceBounds { from, to })
    } else {
        Ok((to - from) as u64)
    }
}

/// The length of an array that a place is.
pub open spec fn array_length(table: TyTable, ty: PlaceTy) -> Option<Option<u64>> {
    match ty {
        PlaceTy::Ty(id) => match table.kind(table.runtime(id)) {
            TyKind::Array(_, len) => Some(len),
            _ => None,
        },
        PlaceTy::Subarray(_, len) => Some(Some(len)),
    }
}

/// Whether a place is a slice.
pub open spec fn is_slice(table: TyTable, ty: PlaceTy) -> bool {
    ty matches PlaceTy::Ty(id) && table.kind(table.runtime(id)) is Slice
}

/// A part of an array or slice.
pub open spec fn sub_spot(table: TyTable, spot: Spot, from: u64, to: u64, from_end: bool) -> Result<
    Spot,
    Failure,
> {
    match array_length(table, spot.ty) {
        Some(len) => match element(table, spot.ty) {
            Err(failure) => Err(failure),
            Ok(elem) => match layout::size_of(table, elem) {
                Err(failure) => Err(failure),
                Ok(size) => if from * size > u64::MAX {
                    Err(Failure::TooLarge)
                } else {
                    match sub_len(len, elem, from, to, from_end) {
                        Err(failure) => Err(failure),
                        Ok(len) => Ok(
                            Spot {
                                addr: meaning::past(spot.addr, (from * size) as u64),
                                ty: PlaceTy::Subarray(elem, len),
                                variant: None,
                            },
                        ),
                    }
                },
            },
        },
        None => if is_slice(table, spot.ty) {
            match element_size(table, spot.ty) {
                Err(failure) => Err(failure),
                Ok(size) => match sub_slice(spot.addr, from, to, from_end, size) {
                    Err(failure) => Err(failure),
                    Ok(addr) => Ok(Spot { addr, ty: spot.ty, variant: None }),
                },
            }
        } else {
            Err(Failure::SubsliceBase(spot.ty))
        },
    }
}

/// The element that a constant index means.
pub open spec fn constant_index(offset: u64, min_length: u64, from_end: bool) -> Result<
    u64,
    Failure,
> {
    if from_end {
        if min_length < offset {
            Err(Failure::Malformed)
        } else {
            Ok((min_length - offset) as u64)
        }
    } else {
        Ok(offset)
    }
}

/// One step further on the way to a place.
#[verifier::opaque]
pub open spec fn project(
    table: TyTable,
    locals: Seq<TyId>,
    slots: Seq<Option<Meaning>>,
    at: Moment,
    elem: Projection,
    spot: Spot,
) -> Result<Spot, Failure> {
    match elem {
        Projection::Deref => match converted_place(table, spot.ty) {
            Err(failure) => Err(failure),
            Ok(ty) => match pointee(table, spot.ty) {
                Err(failure) => Err(failure),
                Ok(inner) => Ok(
                    Spot {
                        addr: meaning::loaded(at, spot.addr, ty),
                        ty: PlaceTy::Ty(inner),
                        variant: None,
                    },
                ),
            },
        },
        Projection::Field(index, field_ty) => match spot.ty {
            PlaceTy::Subarray(_, _) => Err(Failure::FieldOfSubslice),
            PlaceTy::Ty(ty) => match layout::offset_of(table, ty, spot.variant, index) {
                Err(failure) => Err(failure),
                Ok(offset) => if spot.addr.ty is Struct {
                    match fat_field(table, spot.addr, offset, field_ty) {
                        Err(failure) => Err(failure),
                        Ok(addr) => Ok(Spot { addr, ty: PlaceTy::Ty(field_ty), variant: None }),
                    }
                } else {
                    Ok(
                        Spot {
                            addr: meaning::past(spot.addr, offset),
                            ty: PlaceTy::Ty(field_ty),
                            variant: None,
                        },
                    )
                },
            },
        },
        Projection::Downcast(variant) => Ok(Spot { variant: Some(variant), ..spot }),
        Projection::Index(local) => match local_value(table, locals, slots, at, local) {
            Err(failure) => Err(failure),
            Ok(index) => match element(table, spot.ty) {
                Err(failure) => Err(failure),
                Ok(elem) => match layout::size_of(table, elem) {
                    Err(failure) => Err(failure),
                    Ok(size) => match meaning::scale(index, size) {
                        Err(failure) => Err(failure),
                        Ok(offset) => Ok(
                            Spot {
                                addr: meaning::moved(spot.addr, offset),
                                ty: PlaceTy::Ty(elem),
                                variant: None,
                            },
                        ),
                    },
                },
            },
        },
        Projection::ConstantIndex { offset, min_length, from_end } => match constant_index(
            offset,
            min_length,
            from_end,
        ) {
            Err(failure) => Err(failure),
            Ok(index) => match element(table, spot.ty) {
                Err(failure) => Err(failure),
                Ok(elem) => match layout::size_of(table, elem) {
                    Err(failure) => Err(failure),
                    Ok(size) => if index * size > u64::MAX {
                        Err(Failure::TooLarge)
                    } else {
                        Ok(
                            Spot {
                                addr: meaning::past(spot.addr, (index * size) as u64),
                                ty: PlaceTy::Ty(elem),
                                variant: None,
                            },
                        )
                    },
                },
            },
        },
        Projection::Subslice { from, to, from_end } => sub_spot(table, spot, from, to, from_end),
        Projection::Cast(ty) => Ok(Spot { ty: PlaceTy::Ty(ty), variant: None, ..spot }),
    }
}

/// The first steps on the way to a place.
pub open spec fn walk(
    table: TyTable,
    locals: Seq<TyId>,
    slots: Seq<Option<Meaning>>,
    at: Moment,
    place: Place,
    count: nat,
) -> Result<Spot, Failure>
    decreases count,
{
    if count == 0 {
        match base_of(table, locals, slots, place.local) {
            Err(failure) => Err(failure),
            Ok(addr) => match local_ty(locals, place.local) {
                Err(failure) => Err(failure),
                Ok(ty) => Ok(Spot { addr, ty: PlaceTy::Ty(ty), variant: None }),
            },
        }
    } else {
        match walk(table, locals, slots, at, place, (count - 1) as nat) {
            Err(failure) => Err(failure),
            Ok(spot) => project(table, locals, slots, at, place.projection@[count - 1], spot),
        }
    }
}

/// Where a place is.
pub open spec fn address(
    table: TyTable,
    locals: Seq<TyId>,
    slots: Seq<Option<Meaning>>,
    at: Moment,
    place: Place,
) -> Result<Meaning, Failure> {
    if place.projection@.len() == 0 {
        base_of(table, locals, slots, place.local)
    } else {
        match walk(table, locals, slots, at, place, place.projection@.len()) {
            Err(failure) => Err(failure),
            Ok(spot) => Ok(spot.addr),
        }
    }
}

/// Whether a result is an emitted spot that is where it should be.
pub open spec fn leads(
    ctx: Context,
    table: TyTable,
    r: Result<(Value, PlaceTy, Option<u32>), Failure>,
    want: Result<Spot, Failure>,
) -> bool {
    match want {
        Ok(spot) => r matches Ok((addr, ty, variant)) && ctx.has(addr) && addr.meaning@ == spot.addr
            && ty == spot.ty && variant == spot.variant && place_ty_wf(table, ty),
        Err(failure) => r matches Err(other) && other == failure,
    }
}

fn fat_field_addr(
    table: &TyTable,
    ctx: &mut Context,
    block: BlockId,
    addr: Value,
    offset: u64,
    ty: TyId,
) -> (r: Result<Value, Failure>)
    requires
        table.wf(),
        table.has(ty),
        old(ctx).wf(),
        old(ctx).has_block(block),
        old(ctx).has(addr),
    ensures
        final(ctx).computed_since(*old(ctx), block),
        gives(*final(ctx), r, fat_field(*table, addr.meaning@, offset, ty)),
{
    if !value_has_field(ctx, addr, 0) {
        return Err(Failure::Malformed);
    }
    let fat_ty: TypeHandle = ctx.type_of(addr);
    let first: Value = put_field(ctx, block, addr, 0);
    let data: Value = put_past(ctx, block, first, offset);
    let inner: TyId = table.runtime_ty(ty);
    if table.types[inner.0].sized {
        return Ok(data);
    }
    if !value_has_field(ctx, addr, 1) {
        return Err(Failure::Malformed);
    }
    let meta: Value = put_field(ctx, block, addr, 1);
    Ok(put_pair(ctx, block, &fat_ty, data, meta))
}

fn sub_slice_addr(
    ctx: &mut Context,
    block: BlockId,
    addr: Value,
    from: u64,
    to: u64,
    from_end: bool,
    size: u64,
) -> (r: Result<Value, Failure>)
    requires
        old(ctx).wf(),
        old(ctx).has_block(block),
        old(ctx).has(addr),
    ensures
        final(ctx).computed_since(*old(ctx), block),
        gives(*final(ctx), r, sub_slice(addr.meaning@, from, to, from_end, size)),
{
    if !value_has_field(ctx, addr, 0) || !value_has_field(ctx, addr, 1) {
        return Err(Failure::Malformed);
    }
    let bytes: u64 = times(from, size)?;
    if from_end {
        plus(from, to)?;
    } else if to < from {
        return Err(Failure::SubsliceBounds { from, to });
    }
    let fat_ty: TypeHandle = ctx.type_of(addr);
    let first: Value = put_field(ctx, block, addr, 0);
    let data: Value = if from == 0 {
        first
    } else {
        let offset: Value = put_size(ctx, block, bytes);
        put_offset(ctx, block, first, offset)
    };
    let len: Value = if from_end {
        let all: Value = put_field(ctx, block, addr, 1);
        let dropped: Value = put_size(ctx, block, from + to);
        put_arith(ctx, block, Arith::Sub, all, dropped)
    } else {
        put_size(ctx, block, to - from)
    };
    Ok(put_pair(ctx, block, &fat_ty, data, len))
}

/// A part of an array or slice.
fn sub_addr(
    table: &TyTable,
    ctx: &mut Context,
    block: BlockId,
    addr: Value,
    ty: PlaceTy,
    variant: Ghost<Option<u32>>,
    from: u64,
    to: u64,
    from_end: bool,
) -> (r: Result<(Value, PlaceTy, Option<u32>), Failure>)
    requires
        table.wf(),
        place_ty_wf(*table, ty),
        old(ctx).wf(),
        old(ctx).has_block(block),
        old(ctx).has(addr),
    ensures
        final(ctx).computed_since(*old(ctx), block),
        leads(
            *final(ctx),
            *table,
            r,
            sub_spot(
                *table,
                Spot { addr: addr.meaning@, ty, variant: variant@ },
                from,
                to,
                from_end,
            ),
        ),
{
    let length: Option<Option<u64>> = match ty {
        PlaceTy::Ty(id) => {
            let inner: TyId = table.runtime_ty(id);
            match &table.types[inner.0].kind {
                TyKind::Array(_, len) => Some(*len),
                _ => None,
            }
        },
        PlaceTy::Subarray(_, len) => Some(Some(len)),
    };
    if let Some(len) = length {
        let elem: TyId = indexed_elem_ty(table, ty)?;
        let size: u64 = layout_size_of_ty(table, elem)?;
        let offset: u64 = times(from, size)?;
        let len: u64 = if from_end {
            match len {
                None => return Err(Failure::ArrayLength(elem)),
                Some(len) => {
                    if from > len || to > len - from {
                        return Err(Failure::SubsliceBounds { from, to });
                    }
                    len - from - to
                },
            }
        } else {
            if to < from {
                return Err(Failure::SubsliceBounds { from, to });
            }
            to - from
        };
        let part: Value = put_past(ctx, block, addr, offset);
        return Ok((part, PlaceTy::Subarray(elem, len), None));
    }
    let slice: bool = match ty {
        PlaceTy::Ty(id) => {
            let inner: TyId = table.runtime_ty(id);
            matches!(table.types[inner.0].kind, TyKind::Slice(_))
        },
        PlaceTy::Subarray(_, _) => false,
    };
    if !slice {
        return Err(Failure::SubsliceBase(ty));
    }
    let size: u64 = indexed_elem_size(table, ty)?;
    let part: Value = sub_slice_addr(ctx, block, addr, from, to, from_end, size)?;
    Ok((part, ty, None))
}

/// Takes one step further on the way to a place.
fn project_addr(
    table: &TyTable,
    ctx: &mut Context,
    state: &FunctionImportState,
    block: BlockId,
    body: &Body,
    elem: &Projection,
    addr: Value,
    ty: PlaceTy,
    variant: Option<u32>,
) -> (r: Result<(Value, PlaceTy, Option<u32>), Failure>)
    requires
        table.wf(),
        locals_wf(*table, body.locals@),
        projection_wf(*table, *elem),
        place_ty_wf(*table, ty),
        old(ctx).wf(),
        old(ctx).has_block(block),
        old(ctx).has(addr),
        state.fits(*old(ctx)),
    ensures
        final(ctx).computed_since(*old(ctx), block),
        leads(
            *final(ctx),
            *table,
            r,
            project(
                *table,
                body.locals@,
                state.slots(),
                old(ctx)@.now(block),
                *elem,
                Spot { addr: addr.meaning@, ty, variant },
            ),
        ),
{
    proof {
        reveal(project);
    }
    match elem {
        Projection::Deref => {
            let converted: TypeHandle = convert_place_ty(table, ty)?;
            let inner: TyId = pointee_ty(table, ty)?;
            let target: Value = put_load(ctx, block, addr, &converted);
            Ok((target, PlaceTy::Ty(inner), None))
        },
        Projection::Field(index, field_ty) => {
            let id: TyId = match ty {
                PlaceTy::Ty(id) => id,
                PlaceTy::Subarray(_, _) => return Err(Failure::FieldOfSubslice),
            };
            let offset: u64 = field_offset_of(table, id, variant, *index)?;
            let fat: bool = matches!(ctx.type_of(addr), TypeHandle::Struct { .. });
            let part: Value = if fat {
                fat_field_addr(table, ctx, block, addr, offset, *field_ty)?
            } else {
                put_past(ctx, block, addr, offset)
            };
            Ok((part, PlaceTy::Ty(*field_ty), None))
        },
        Projection::Downcast(chosen) => Ok((addr, ty, Some(*chosen))),
        Projection::Index(local) => {
            let index: Value = load_local(table, ctx, state, block, body, *local)?;
            let elem: TyId = indexed_elem_ty(table, ty)?;
            let size: u64 = layout_size_of_ty(table, elem)?;
            let offset: Value = scale_index(ctx, block, index, size)?;
            let part: Value = put_offset(ctx, block, addr, offset);
            Ok((part, PlaceTy::Ty(elem), None))
        },
        Projection::ConstantIndex { offset, min_length, from_end } => {
            let index: u64 = if *from_end {
                if *min_length < *offset {
                    return Err(Failure::Malformed);
                }
                *min_length - *offset
            } else {
                *offset
            };
            let elem: TyId = indexed_elem_ty(table, ty)?;
            let size: u64 = layout_size_of_ty(table, elem)?;
            let bytes: u64 = times(index, size)?;
            let part: Value = put_past(ctx, block, addr, bytes);
            Ok((part, PlaceTy::Ty(elem), None))
        },
        Projection::Subslice { from, to, from_end } => sub_addr(
            table,
            ctx,
            block,
            addr,
            ty,
            Ghost(variant),
            *from,
            *to,
            *from_end,
        ),
        Projection::Cast(other) => Ok((addr, PlaceTy::Ty(*other), None)),
    }
}

proof fn lemma_walk_fails(
    table: TyTable,
    locals: Seq<TyId>,
    slots: Seq<Option<Meaning>>,
    at: Moment,
    place: Place,
    from: nat,
    to: nat,
    failure: Failure,
)
    requires
        from <= to,
        walk(table, locals, slots, at, place, from) == Err::<Spot, Failure>(failure),
    ensures
        walk(table, locals, slots, at, place, to) == Err::<Spot, Failure>(failure),
    decreases to,
{
    if from < to {
        lemma_walk_fails(table, locals, slots, at, place, from, (to - 1) as nat, failure);
    }
}

/// Computes where a place is. For a slice or another unsized place the result
/// is a fat pointer.
pub fn place_addr(
    table: &TyTable,
    ctx: &mut Context,
    state: &FunctionImportState,
    block: BlockId,
    body: &Body,
    place: &Place,
) -> (r: Result<Value, Failure>)
    requires
        table.wf(),
        locals_wf(*table, body.locals@),
        place_wf(*table, *place),
        old(ctx).wf(),
        old(ctx).has_block(block),
        state.fits(*old(ctx)),
    ensures
        final(ctx).computed_since(*old(ctx), block),
        gives(
            *final(ctx),
            r,
            address(*table, body.locals@, state.slots(), old(ctx)@.now(block), *place),
        ),
{
    let ghost at = ctx@.now(block);
    let ghost before = *ctx;
    let ghost total = place.projection@.len();
    let base: Value = match base_addr(table, ctx, state, block, body, place.local) {
        Ok(base) => base,
        Err(failure) => {
            proof {
                lemma_walk_fails(
                    *table,
                    body.locals@,
                    state.slots(),
                    at,
                    *place,
                    0,
                    total,
                    failure,
                );
            }
            return Err(failure);
        },
    };
    if place.projection.len() == 0 {
        return Ok(base);
    }
    let mut addr: Value = base;
    let start: TyId = match type_of_local(body, place.local) {
        Ok(ty) => ty,
        Err(failure) => {
            proof {
                lemma_walk_fails(
                    *table,
                    body.locals@,
                    state.slots(),
                    at,
                    *place,
                    0,
                    total,
                    failure,
                );
            }
            return Err(failure);
        },
    };
    let mut ty: PlaceTy = PlaceTy::Ty(start);
    let mut variant: Option<u32> = None;
    let mut i: usize = 0;
    while i < place.projection.len()
        invariant
            table.wf(),
            locals_wf(*table, body.locals@),
            place_wf(*table, *place),
            before == *old(ctx),
            ctx.computed_since(before, block),
            ctx.wf(),
            ctx.has_block(block),
            state.fits(*ctx),
            ctx.has(addr),
            place_ty_wf(*table, ty),
            at == before@.now(block),
            total == place.projection@.len(),
            total > 0,
            i <= total,
            walk(*table, body.locals@, state.slots(), at, *place, i as nat) == Ok::<Spot, Failure>(
                Spot { addr: addr.meaning@, ty, variant },
            ),
        decreases total - i,
    {
        match project_addr(
            table,
            ctx,
            state,
            block,
            body,
            &place.projection[i],
            addr,
            ty,
            variant,
        ) {
            Ok((next, next_ty, next_variant)) => {
                addr = next;
                ty = next_ty;
                variant = next_variant;
            },
            Err(failure) => {
                proof {
                    lemma_walk_fails(
                        *table,
                        body.locals@,
                        state.slots(),
                        at,
                        *place,
                        (i + 1) as nat,
                        total,
                        failure,
                    );
                }
                return Err(failure);
            },
        }
        i = i + 1;
    }
    Ok(addr)
}

/// The index of a field in the converted type.
pub open spec fn field_index(table: TyTable, ty: TyId, index: usize) -> Result<u32, Failure> {
    let inner = table.normal(ty);
    let position = match table.source_fields(inner) {
        Some(fields) => table.memory_position(inner, fields.len(), index),
        None => index as int,
    };
    if position <= u32::MAX {
        Ok(position as u32)
    } else {
        Err(Failure::TooLarge)
    }
}

/// The index of a field in the converted type.
pub fn converted_field_index(table: &TyTable, ty: TyId, index: usize) -> (r: Result<u32, Failure>)
    requires
        table.wf(),
        table.has(ty),
    ensures
        r == field_index(*table, ty, index),
{
    let inner: TyId = table.normalize_ty(ty);
    let position: usize = match table.struct_like_source_fields(inner) {
        Some(fields) => table.field_memory_position(inner, fields.len(), index),
        None => index,
    };
    if position <= 0xffff_ffff {
        Ok(position as u32)
    } else {
        Err(Failure::TooLarge)
    }
}

/// Whether a way leads through fields alone.
pub open spec fn fields_only(projection: Seq<Projection>) -> bool {
    projection.len() > 0 && forall|i: int|
        0 <= i < projection.len() ==> (#[trigger] projection[i]) is Field
}

fn is_fields_only(projection: &Vec<Projection>) -> (r: bool)
    ensures
        r == fields_only(projection@),
{
    if projection.len() == 0 {
        return false;
    }
    let mut i: usize = 0;
    while i < projection.len()
        invariant
            i <= projection@.len(),
            projection@.len() > 0,
            forall|j: int| 0 <= j < i ==> (#[trigger] projection@[j]) is Field,
        decreases projection@.len() - i,
    {
        if !matches!(projection[i], Projection::Field(_, _)) {
            return false;
        }
        i = i + 1;
    }
    true
}

/// Whether a way from a place of a type leads through a field of a union.
pub open spec fn touches(table: TyTable, ty: TyId, projection: Seq<Projection>) -> Result<
    bool,
    Failure,
>
    decreases projection.len(),
{
    if projection.len() == 0 {
        Ok(false)
    } else {
        let rest = projection.skip(1);
        match projection[0] {
            Projection::Field(_, field_ty) => if table.is_union(ty) {
                Ok(true)
            } else {
                touches(table, field_ty, rest)
            },
            Projection::Deref => match pointee(table, PlaceTy::Ty(ty)) {
                Err(failure) => Err(failure),
                Ok(inner) => touches(table, inner, rest),
            },
            Projection::Index(_) => match element(table, PlaceTy::Ty(ty)) {
                Err(failure) => Err(failure),
                Ok(elem) => touches(table, elem, rest),
            },
            Projection::ConstantIndex { .. } => match element(table, PlaceTy::Ty(ty)) {
                Err(failure) => Err(failure),
                Ok(elem) => touches(table, elem, rest),
            },
            Projection::Cast(other) => touches(table, other, rest),
            _ => touches(table, ty, rest),
        }
    }
}

/// Whether the way to a place leads through a field of a union.
pub open spec fn union_place(table: TyTable, locals: Seq<TyId>, place: Place) -> Result<
    bool,
    Failure,
> {
    match local_ty(locals, place.local) {
        Err(failure) => Err(failure),
        Ok(ty) => touches(table, ty, place.projection@),
    }
}

/// Whether the way to a place leads through a field of a union.
pub fn projection_touches_union(table: &TyTable, body: &Body, place: &Place) -> (r: Result<
    bool,
    Failure,
>)
    requires
        table.wf(),
        locals_wf(*table, body.locals@),
        place_wf(*table, *place),
    ensures
        r == union_place(*table, body.locals@, *place),
{
    let mut ty: TyId = type_of_local(body, place.local)?;
    let ghost start = ty;
    let mut i: usize = 0;
    assert(place.projection@.skip(0) =~= place.projection@);
    while i < place.projection.len()
        invariant
            table.wf(),
            place_wf(*table, *place),
            table.has(ty),
            local_ty(body.locals@, place.local) == Ok::<TyId, Failure>(start),
            i <= place.projection@.len(),
            touches(*table, start, place.projection@) == touches(
                *table,
                ty,
                place.projection@.skip(i as int),
            ),
        decreases place.projection@.len() - i,
    {
        let ghost rest = place.projection@.skip(i as int);
        assert(rest[0] == place.projection@[i as int]);
        assert(rest.skip(1) =~= place.projection@.skip(i + 1));
        match &place.projection[i] {
            Projection::Field(_, field_ty) => {
                if table.is_union_ty(ty) {
                    return Ok(true);
                }
                ty = *field_ty;
            },
            Projection::Deref => {
                ty = pointee_ty(table, PlaceTy::Ty(ty))?;
            },
            Projection::Index(_) => {
                ty = indexed_elem_ty(table, PlaceTy::Ty(ty))?;
            },
            Projection::ConstantIndex { .. } => {
                ty = indexed_elem_ty(table, PlaceTy::Ty(ty))?;
            },
            Projection::Cast(other) => {
                ty = *other;
            },
            _ => {},
        }
        i = i + 1;
    }
    Ok(false)
}

/// Whether a place is reached by taking values apart rather than by address:
/// through fields of a local that are not in a union.
pub open spec fn in_registers(table: TyTable, locals: Seq<TyId>, place: Place) -> Result<
    bool,
    Failure,
> {
    if fields_only(place.projection@) {
        match union_place(table, locals, place) {
            Err(failure) => Err(failure),
            Ok(touched) => Ok(!touched),
        }
    } else {
        Ok(false)
    }
}

fn is_in_registers(table: &TyTable, body: &Body, place: &Place) -> (r: Result<bool, Failure>)
    requires
        table.wf(),
        locals_wf(*table, body.locals@),
        place_wf(*table, *place),
    ensures
        r == in_registers(*table, body.locals@, *place),
{
    if !is_fields_only(&place.projection) {
        return Ok(false);
    }
    let touched: bool = projection_touches_union(table, body, place)?;
    Ok(!touched)
}

/// The field at the end of a way through fields of a value of a type.
pub open spec fn picked(table: TyTable, whole: Meaning, ty: TyId, projection: Seq<Projection>) -> Result<
    Meaning,
    Failure,
>
    decreases projection.len(),
{
    if projection.len() == 0 {
        Ok(whole)
    } else {
        match projection[0] {
            Projection::Field(index, field_ty) => match one_field(table, whole, ty, index, field_ty) {
                Err(failure) => Err(failure),
                Ok(index) => picked(
                    table,
                    meaning::field(whole, index),
                    field_ty,
                    projection.skip(1),
                ),
            },
            _ => Err(Failure::Malformed),
        }
    }
}

/// The index of a field of a value of a type; the field's own type must have
/// a counterpart.
pub open spec fn one_field(
    table: TyTable,
    whole: Meaning,
    ty: TyId,
    index: usize,
    field_ty: TyId,
) -> Result<u32, Failure> {
    match field_index(table, ty, index) {
        Err(failure) => Err(failure),
        Ok(index) => match convert::converted(table, field_ty) {
            Err(failure) => Err(failure),
            Ok(_) => if meaning::has_field(whole, index) {
                Ok(index)
            } else {
                Err(Failure::Malformed)
            },
        },
    }
}

fn check_field(
    table: &TyTable,
    ctx: &Context,
    whole: Value,
    ty: TyId,
    index: usize,
    field_ty: TyId,
) -> (r: Result<u32, Failure>)
    requires
        table.wf(),
        table.has(ty),
        table.has(field_ty),
        ctx.wf(),
        ctx.has(whole),
    ensures
        r == one_field(*table, whole.meaning@, ty, index, field_ty),
{
    let index: u32 = converted_field_index(table, ty, index)?;
    convert_ty(table, field_ty)?;
    if value_has_field(ctx, whole, index) {
        Ok(index)
    } else {
        Err(Failure::Malformed)
    }
}

/// What the storage of a local holds as a whole.
pub open spec fn whole_local(
    table: TyTable,
    locals: Seq<TyId>,
    slots: Seq<Option<Meaning>>,
    at: Moment,
    local: usize,
) -> Result<Meaning, Failure> {
    match sure_slot(slots, local) {
        Err(failure) => Err(failure),
        Ok(slot) => match local_ty(locals, local) {
            Err(failure) => Err(failure),
            Ok(ty) => match convert::converted(table, ty) {
                Err(failure) => Err(failure),
                Ok(converted) => Ok(meaning::loaded(at, slot, converted)),
            },
        },
    }
}

fn load_whole_local(
    table: &TyTable,
    ctx: &mut Context,
    state: &FunctionImportState,
    block: BlockId,
    body: &Body,
    local: usize,
) -> (r: Result<Value, Failure>)
    requires
        table.wf(),
        locals_wf(*table, body.locals@),
        old(ctx).wf(),
        old(ctx).has_block(block),
        state.fits(*old(ctx)),
    ensures
        final(ctx).computed_since(*old(ctx), block),
        gives(
            *final(ctx),
            r,
            whole_local(*table, body.locals@, state.slots(), old(ctx)@.now(block), local),
        ),
{
    let slot: Value = local_slot(ctx, state, local)?;
    let ty: TyId = type_of_local(body, local)?;
    let converted: TypeHandle = convert_ty(table, ty)?;
    Ok(put_load(ctx, block, slot, &converted))
}

/// What a place holds, in a register.
pub open spec fn value_of(
    table: TyTable,
    locals: Seq<TyId>,
    slots: Seq<Option<Meaning>>,
    at: Moment,
    place: Place,
) -> Result<Meaning, Failure> {
    match in_registers(table, locals, place) {
        Err(failure) => Err(failure),
        Ok(true) => match whole_local(table, locals, slots, at, place.local) {
            Err(failure) => Err(failure),
            Ok(whole) => match picked(
                table,
                whole,
                locals[place.local as int],
                place.projection@,
            ) {
                Err(failure) => Err(failure),
                Ok(value) => Ok(as_immediate(table, place.ty, value)),
            },
        },
        Ok(false) => read_at(table, at, place.ty, address(table, locals, slots, at, place)),
    }
}

/// Reads a field of a local by taking the local apart.
fn try_load_field_projection(
    table: &TyTable,
    ctx: &mut Context,
    block: BlockId,
    whole: Value,
    ty: TyId,
    place: &Place,
) -> (r: Result<Value, Failure>)
    requires
        table.wf(),
        table.has(ty),
        place_wf(*table, *place),
        old(ctx).wf(),
        old(ctx).has_block(block),
        old(ctx).has(whole),
    ensures
        final(ctx).computed_since(*old(ctx), block),
        gives(*final(ctx), r, picked(*table, whole.meaning@, ty, place.projection@)),
{
    let ghost before = *ctx;
    let mut current: Value = whole;
    let mut current_ty: TyId = ty;
    let mut i: usize = 0;
    assert(place.projection@.skip(0) =~= place.projection@);
    while i < place.projection.len()
        invariant
            table.wf(),
            place_wf(*table, *place),
            table.has(current_ty),
            before == *old(ctx),
            ctx.computed_since(before, block),
            ctx.wf(),
            ctx.has_block(block),
            ctx.has(current),
            i <= place.projection@.len(),
            picked(*table, whole.meaning@, ty, place.projection@) == picked(
                *table,
                current.meaning@,
                current_ty,
                place.projection@.skip(i as int),
            ),
        decreases place.projection@.len() - i,
    {
        let ghost rest = place.projection@.skip(i as int);
        assert(rest[0] == place.projection@[i as int]);
        assert(rest.skip(1) =~= place.projection@.skip(i + 1));
        match &place.projection[i] {
            Projection::Field(index, field_ty) => {
                let index: u32 = check_field(table, ctx, current, current_ty, *index, *field_ty)?;
                current = put_field(ctx, block, current, index);
                current_ty = *field_ty;
            },
            _ => return Err(Failure::Malformed),
        }
        i = i + 1;
    }
    Ok(current)
}

/// Reads a place into a register.
pub fn load_place(
    table: &TyTable,
    ctx: &mut Context,
    state: &FunctionImportState,
    block: BlockId,
    body: &Body,
    place: &Place,
) -> (r: Result<Value, Failure>)
    requires
        table.wf(),
        locals_wf(*table, body.locals@),
        place_wf(*table, *place),
        old(ctx).wf(),
        old(ctx).has_block(block),
        state.fits(*old(ctx)),
    ensures
        final(ctx).computed_since(*old(ctx), block),
        gives(
            *final(ctx),
            r,
            value_of(*table, body.locals@, state.slots(), old(ctx)@.now(block), *place),
        ),
{
    if is_in_registers(table, body, place)? {
        let whole: Value = load_whole_local(table, ctx, state, block, body, place.local)?;
        let ty: TyId = body.locals[place.local];
        let value: Value = try_load_field_projection(table, ctx, block, whole, ty, place)?;
        return Ok(normalize_bool_for_immediate(table, ctx, block, place.ty, value));
    }
    if convert_storage_ty(table, place.ty)?.is_none() {
        let unit: TypeHandle = convert_ty(table, place.ty)?;
        return Ok(put_undef(ctx, block, &unit));
    }
    let addr: Value = place_addr(table, ctx, state, block, body, place)?;
    let converted: TypeHandle = convert_ty(table, place.ty)?;
    let value: Value = put_load(ctx, block, addr, &converted);
    Ok(normalize_bool_for_immediate(table, ctx, block, place.ty, value))
}

/// A value of a type with the field at the end of a way through fields
/// replaced.
pub open spec fn replaced(
    table: TyTable,
    whole: Meaning,
    ty: TyId,
    projection: Seq<Projection>,
    new: Meaning,
) -> Result<Meaning, Failure>
    decreases projection.len(),
{
    if projection.len() == 0 {
        Err(Failure::Malformed)
    } else {
        match projection[0] {
            Projection::Field(index, field_ty) => if projection.len() == 1 {
                match field_index(table, ty, index) {
                    Err(failure) => Err(failure),
                    Ok(index) => Ok(meaning::with_field(whole, index, new)),
                }
            } else {
                match one_field(table, whole, ty, index, field_ty) {
                    Err(failure) => Err(failure),
                    Ok(index) => match replaced(
                        table,
                        meaning::field(whole, index),
                        field_ty,
                        projection.skip(1),
                        new,
                    ) {
                        Err(failure) => Err(failure),
                        Ok(part) => Ok(meaning::with_field(whole, index, part)),
                    },
                }
            },
            _ => Err(Failure::Malformed),
        }
    }
}

/// Replaces the field at the end of a way through fields, from a step of the
/// way on.
fn store_field_projection(
    table: &TyTable,
    ctx: &mut Context,
    block: BlockId,
    whole: Value,
    ty: TyId,
    place: &Place,
    from: usize,
    new: Value,
) -> (r: Result<Value, Failure>)
    requires
        table.wf(),
        table.has(ty),
        place_wf(*table, *place),
        from <= place.projection@.len(),
        old(ctx).wf(),
        old(ctx).has_block(block),
        old(ctx).has(whole),
        old(ctx).has(new),
    ensures
        final(ctx).computed_since(*old(ctx), block),
        gives(
            *final(ctx),
            r,
            replaced(
                *table,
                whole.meaning@,
                ty,
                place.projection@.skip(from as int),
                new.meaning@,
            ),
        ),
    decreases place.projection@.len() - from,
{
    if from == place.projection.len() {
        return Err(Failure::Malformed);
    }
    let ghost rest = place.projection@.skip(from as int);
    assert(rest[0] == place.projection@[from as int]);
    assert(rest.skip(1) =~= place.projection@.skip(from + 1));
    match &place.projection[from] {
        Projection::Field(index, field_ty) => {
            if from + 1 == place.projection.len() {
                let index: u32 = converted_field_index(table, ty, *index)?;
                return Ok(put_with_field(ctx, block, whole, index, new));
            }
            let index: u32 = check_field(table, ctx, whole, ty, *index, *field_ty)?;
            let part: Value = put_field(ctx, block, whole, index);
            let part: Value = store_field_projection(
                table,
                ctx,
                block,
                part,
                *field_ty,
                place,
                from + 1,
                new,
            )?;
            Ok(put_with_field(ctx, block, whole, index, part))
        },
        _ => Err(Failure::Malformed),
    }
}

/// The write of a value to a place.
pub open spec fn write(
    table: TyTable,
    locals: Seq<TyId>,
    slots: Seq<Option<Meaning>>,
    at: Moment,
    place: Place,
    value: Meaning,
) -> Result<Step, Failure> {
    let value = as_stored(table, place.ty, value);
    match in_registers(table, locals, place) {
        Err(failure) => Err(failure),
        Ok(true) => match whole_local(table, locals, slots, at, place.local) {
            Err(failure) => Err(failure),
            Ok(whole) => match replaced(
                table,
                whole,
                locals[place.local as int],
                place.projection@,
                value,
            ) {
                Err(failure) => Err(failure),
                Ok(value) => Ok(
                    Step::Store { addr: sure_slot(slots, place.local)->Ok_0, value },
                ),
            },
        },
        Ok(false) => match address(table, locals, slots, at, place) {
            Err(failure) => Err(failure),
            Ok(addr) => Ok(Step::Store { addr, value }),
        },
    }
}

/// Writes a value to a place.
pub fn store_place(
    table: &TyTable,
    ctx: &mut Context,
    state: &FunctionImportState,
    block: BlockId,
    body: &Body,
    place: &Place,
    value: Value,
) -> (r: Result<(), Failure>)
    requires
        table.wf(),
        locals_wf(*table, body.locals@),
        place_wf(*table, *place),
        old(ctx).wf(),
        old(ctx).has_block(block),
        state.fits(*old(ctx)),
        old(ctx).has(value),
    ensures
        match write(
            *table,
            body.locals@,
            state.slots(),
            old(ctx)@.now(block),
            *place,
            value.meaning@,
        ) {
            Ok(step) => r is Ok && final(ctx).ran_since(*old(ctx), block, seq![step]),
            Err(failure) => r == Err::<(), Failure>(failure) && final(ctx).computed_since(
                *old(ctx),
                block,
            ),
        },
{
    let ghost before = *ctx;
    let value: Value = normalize_bool_for_storage(table, ctx, block, place.ty, value);
    if is_in_registers(table, body, place)? {
        let whole: Value = load_whole_local(table, ctx, state, block, body, place.local)?;
        let slot: Value = local_slot(ctx, state, place.local)?;
        let ty: TyId = body.locals[place.local];
        assert(place.projection@.skip(0) =~= place.projection@);
        let whole: Value = store_field_projection(table, ctx, block, whole, ty, place, 0, value)?;
        let ghost middle = *ctx;
        put_store(ctx, block, whole, slot);
        proof {
            ctx.lemma_computed_ran(
                middle,
                before,
                block,
                seq![Step::Store { addr: slot.meaning@, value: whole.meaning@ }],
            );
        }
        return Ok(());
    }
    let addr: Value = place_addr(table, ctx, state, block, body, place)?;
    let ghost middle = *ctx;
    put_store(ctx, block, value, addr);
    proof {
        ctx.lemma_computed_ran(
            middle,
            before,
            block,
            seq![Step::Store { addr: addr.meaning@, value: value.meaning@ }],
        );
    }
    Ok(())
}

} // verus!
