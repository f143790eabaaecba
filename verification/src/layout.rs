//! Sizes, alignments and field offsets of the types of a program.
//!
//! These are the sizes of the converted types: fields lie in memory order, each
//! aligned, and no alignment exceeds a word. Enums alone keep the layout that
//! the front end gave them.

use crate::abi;
use crate::abi::align_to;
use crate::convert;
use crate::error::Failure;
use crate::mirror;
use crate::ty;
use crate::ty::{int_width, uint_width, AdtKind, Layout, TyId, TyKind, TyTable};
use vstd::arithmetic::power2::pow2;
use vstd::prelude::*;

verus! {

/// The bytes of an integer of a width.
pub open spec fn bytes_of(width: u32) -> u64 {
    (width / 8) as u64
}

/// A number of bytes as an alignment: at least one, at most a word.
pub open spec fn word_align(bytes: u64) -> u64 {
    if bytes < 1 {
        1
    } else if bytes > 8 {
        8
    } else {
        bytes
    }
}

fn to_word_align(bytes: u64) -> (r: u64)
    ensures
        r == word_align(bytes),
{
    if bytes < 1 {
        1
    } else if bytes > 8 {
        8
    } else {
        bytes
    }
}

/// The size that the front end gave a type.
pub open spec fn real_size(table: TyTable, ty: TyId) -> Result<u64, Failure> {
    match table.info(ty).layout {
        Some(layout) => Ok(layout.size),
        None => Err(Failure::NoLayout(ty)),
    }
}

/// The alignment that the front end gave a type.
pub open spec fn real_align(table: TyTable, ty: TyId) -> Result<u64, Failure> {
    match table.info(ty).layout {
        Some(layout) => Ok(layout.align),
        None => Err(Failure::NoLayout(ty)),
    }
}

/// The size that the front end gave a type.
pub fn rustc_layout_size_of_ty(table: &TyTable, ty: TyId) -> (r: Result<u64, Failure>)
    requires
        table.has(ty),
    ensures
        r == real_size(*table, ty),
{
    match &table.types[ty.0].layout {
        Some(layout) => Ok(layout.size),
        None => Err(Failure::NoLayout(ty)),
    }
}

/// The alignment that the front end gave a type.
pub fn rustc_layout_align_of_ty(table: &TyTable, ty: TyId) -> (r: Result<u64, Failure>)
    requires
        table.has(ty),
    ensures
        r == real_align(*table, ty),
{
    match &table.types[ty.0].layout {
        Some(layout) => Ok(layout.align),
        None => Err(Failure::NoLayout(ty)),
    }
}

/// The alignment of an enum on the stack.
pub open spec fn enum_align(table: TyTable, ty: TyId) -> Result<u64, Failure> {
    match real_align(table, ty) {
        Ok(align) => Ok(word_align(align)),
        Err(failure) => Err(failure),
    }
}

/// The alignment of an enum on the stack.
pub fn enum_stack_align(table: &TyTable, ty: TyId) -> (r: Result<u64, Failure>)
    requires
        table.has(ty),
    ensures
        r == enum_align(*table, ty),
{
    let align: u64 = rustc_layout_align_of_ty(table, ty)?;
    Ok(to_word_align(align))
}

/// Fields in another order.
pub open spec fn reordered(source: Seq<TyId>, order: Seq<usize>) -> Seq<TyId> {
    Seq::new(order.len(), |i: int| source[order[i] as int])
}

/// The fields of a struct-like type in memory order.
pub open spec fn ordered(table: TyTable, ty: TyId) -> Result<Seq<TyId>, Failure> {
    match table.source_fields(ty) {
        Some(source) => Ok(reordered(source, table.memory_order(ty, source.len()))),
        None => Err(Failure::NotStructLike(ty)),
    }
}

/// The fields of a struct-like type in memory order.
pub fn memory_ordered_fields(table: &TyTable, ty: TyId) -> (r: Result<Vec<TyId>, Failure>)
    requires
        table.wf(),
        table.has(ty),
    ensures
        match ordered(*table, ty) {
            Ok(fields) => r matches Ok(list) && list@ == fields && table.precede(list@, ty),
            Err(failure) => r matches Err(other) && other == failure,
        },
{
    let source: &Vec<TyId> = match table.struct_like_source_fields(ty) {
        Some(source) => source,
        None => return Err(Failure::NotStructLike(ty)),
    };
    let order: Vec<usize> = table.struct_memory_order(ty, source.len());
    proof {
        table.law_memory_order(ty, source@.len());
    }
    Ok(reorder(source, &order))
}

/// Puts fields into another order.
pub fn reorder(source: &Vec<TyId>, order: &Vec<usize>) -> (r: Vec<TyId>)
    requires
        forall|i: int| 0 <= i < order@.len() ==> #[trigger] order@[i] < source@.len(),
    ensures
        r@ == reordered(source@, order@),
{
    let mut out: Vec<TyId> = Vec::new();
    let mut i: usize = 0;
    while i < order.len()
        invariant
            i <= order@.len(),
            forall|i: int| 0 <= i < order@.len() ==> #[trigger] order@[i] < source@.len(),
            out@ == reordered(source@, order@.take(i as int)),
        decreases order@.len() - i,
    {
        out.push(source[order[i]]);
        i = i + 1;
        assert(out@ =~= reordered(source@, order@.take(i as int)));
    }
    assert(order@.take(i as int) =~= order@);
    out
}

/// The size of a type.
pub open spec fn size_of(table: TyTable, ty: TyId) -> Result<u64, Failure>
    decreases ty.0, 1nat, 0nat,
{
    let inner = table.normal(ty);
    if inner.0 > ty.0 {
        Err(Failure::Malformed)
    } else {
        match table.kind(inner) {
            TyKind::Bool => Ok(1),
            TyKind::Char => Ok(4),
            TyKind::Str => Ok(0),
            TyKind::Dynamic(_) => Ok(0),
            TyKind::Int(kind) => Ok(bytes_of(ty::int_bits(kind))),
            TyKind::Uint(kind) => Ok(bytes_of(ty::uint_bits(kind))),
            TyKind::F32 => Ok(4),
            TyKind::F64 => Ok(8),
            TyKind::FnPtr => Ok(8),
            TyKind::FnDef(_) => Ok(0),
            TyKind::Never => Ok(0),
            TyKind::Ref(pointee) => Ok(pointer_size(table, pointee)),
            TyKind::RawPtr(pointee) => Ok(pointer_size(table, pointee)),
            TyKind::Tuple(_) => ordered_size(table, inner),
            TyKind::Closure(_) => ordered_size(table, inner),
            TyKind::Array(elem, len) => match len {
                None => Err(Failure::ArrayLength(inner)),
                Some(len) => if elem.0 >= inner.0 {
                    Err(Failure::Malformed)
                } else {
                    match stride_of(size_of(table, elem), align_of(table, elem)) {
                        Err(failure) => Err(failure),
                        Ok(stride) => abi::as_size(stride * len),
                    }
                },
            },
            TyKind::Slice(elem) => if elem.0 >= inner.0 {
                Err(Failure::Malformed)
            } else {
                size_of(table, elem)
            },
            TyKind::Adt(kind, fields, _) => if table.is_fmt_argument(inner) {
                Ok(16)
            } else {
                match kind {
                    AdtKind::Struct => ordered_size(table, inner),
                    AdtKind::Union => largest(table, inner.0, fields@, fields@.len()),
                    AdtKind::Enum => real_size(table, inner),
                }
            },
            _ => Err(Failure::Layout(inner)),
        }
    }
}

/// The size of a pointer: two words where the pointee needs a second.
pub open spec fn pointer_size(table: TyTable, pointee: TyId) -> u64 {
    if table.unsized_tail(pointee) is Some {
        16
    } else {
        8
    }
}

/// The distance between elements of a size and alignment.
pub open spec fn stride_of(size: Result<u64, Failure>, align: Result<u64, Failure>) -> Result<
    u64,
    Failure,
> {
    match size {
        Err(failure) => Err(failure),
        Ok(size) => match align {
            Err(failure) => Err(failure),
            Ok(align) => abi::aligned(size, align),
        },
    }
}

/// The size of a struct-like type.
pub open spec fn ordered_size(table: TyTable, ty: TyId) -> Result<u64, Failure>
    decreases ty.0, 0nat, 2 + field_count(table, ty),
{
    match ordered(table, ty) {
        Err(failure) => Err(failure),
        Ok(fields) => struct_size(table, ty.0, fields),
    }
}

/// How many fields a struct-like type has.
pub open spec fn field_count(table: TyTable, ty: TyId) -> nat {
    match ordered(table, ty) {
        Err(_) => 0,
        Ok(fields) => fields.len(),
    }
}

/// The size of fields laid out one after the other.
pub open spec fn struct_size(table: TyTable, bound: usize, fields: Seq<TyId>) -> Result<
    u64,
    Failure,
>
    decreases bound, 0nat, 1 + fields.len(),
{
    match laid_out(table, bound, fields, fields.len()) {
        Err(failure) => Err(failure),
        Ok((_, end)) => match widest(table, bound, fields, fields.len()) {
            Err(failure) => Err(failure),
            Ok(align) => abi::aligned(end, align),
        },
    }
}

/// The offsets of the first fields laid out one after the other, and where the
/// last of them ends. A field without a size lies where the one before it
/// ends.
pub open spec fn laid_out(table: TyTable, bound: usize, fields: Seq<TyId>, count: nat) -> Result<
    (Seq<u64>, u64),
    Failure,
>
    decreases bound, 0nat, count,
{
    if count == 0 {
        Ok((Seq::empty(), 0))
    } else if fields[count - 1].0 >= bound {
        Err(Failure::Malformed)
    } else {
        match laid_out(table, bound, fields, (count - 1) as nat) {
            Err(failure) => Err(failure),
            Ok((offsets, end)) => next_field(
                offsets,
                end,
                size_of(table, fields[count - 1]),
                align_of(table, fields[count - 1]),
            ),
        }
    }
}

/// One more field of a size and alignment.
pub open spec fn next_field(
    offsets: Seq<u64>,
    end: u64,
    size: Result<u64, Failure>,
    align: Result<u64, Failure>,
) -> Result<(Seq<u64>, u64), Failure> {
    match size {
        Err(failure) => Err(failure),
        Ok(size) => if size == 0 {
            Ok((offsets.push(end), end))
        } else {
            match align {
                Err(failure) => Err(failure),
                Ok(align) => match abi::aligned(end, align) {
                    Err(failure) => Err(failure),
                    Ok(offset) => match abi::as_size(offset + size) {
                        Err(failure) => Err(failure),
                        Ok(end) => Ok((offsets.push(offset), end)),
                    },
                },
            }
        },
    }
}

/// The largest alignment among the first fields that have a size.
pub open spec fn widest(table: TyTable, bound: usize, fields: Seq<TyId>, count: nat) -> Result<
    u64,
    Failure,
>
    decreases bound, 0nat, count,
{
    if count == 0 {
        Ok(1)
    } else if fields[count - 1].0 >= bound {
        Err(Failure::Malformed)
    } else {
        match widest(table, bound, fields, (count - 1) as nat) {
            Err(failure) => Err(failure),
            Ok(align) => wider(
                align,
                size_of(table, fields[count - 1]),
                align_of(table, fields[count - 1]),
            ),
        }
    }
}

/// The larger of an alignment and that of a field, where the field has a size.
pub open spec fn wider(
    align: u64,
    size: Result<u64, Failure>,
    field_align: Result<u64, Failure>,
) -> Result<u64, Failure> {
    match size {
        Err(failure) => Err(failure),
        Ok(size) => if size == 0 {
            Ok(align)
        } else {
            match field_align {
                Err(failure) => Err(failure),
                Ok(field_align) => Ok(
                    if field_align > align {
                        field_align
                    } else {
                        align
                    },
                ),
            }
        },
    }
}

/// The largest size among the first fields.
pub open spec fn largest(table: TyTable, bound: usize, fields: Seq<TyId>, count: nat) -> Result<
    u64,
    Failure,
>
    decreases bound, 0nat, count,
{
    if count == 0 {
        Ok(0)
    } else if fields[count - 1].0 >= bound {
        Err(Failure::Malformed)
    } else {
        match largest(table, bound, fields, (count - 1) as nat) {
            Err(failure) => Err(failure),
            Ok(size) => match size_of(table, fields[count - 1]) {
                Err(failure) => Err(failure),
                Ok(field) => Ok(
                    if field > size {
                        field
                    } else {
                        size
                    },
                ),
            },
        }
    }
}

/// The alignment of a type.
pub open spec fn align_of(table: TyTable, ty: TyId) -> Result<u64, Failure>
    decreases ty.0, 1nat, 0nat,
{
    let inner = table.normal(ty);
    if inner.0 > ty.0 {
        Err(Failure::Malformed)
    } else {
        match table.kind(inner) {
            TyKind::Bool => Ok(1),
            TyKind::Char => Ok(4),
            TyKind::Str => Ok(1),
            TyKind::Dynamic(_) => Ok(1),
            TyKind::Int(kind) => Ok(word_align(bytes_of(ty::int_bits(kind)))),
            TyKind::Uint(kind) => Ok(word_align(bytes_of(ty::uint_bits(kind)))),
            TyKind::F32 => Ok(4),
            TyKind::F64 => Ok(8),
            TyKind::OtherFloat => Ok(8),
            TyKind::FnPtr => Ok(8),
            TyKind::Ref(_) => Ok(8),
            TyKind::RawPtr(_) => Ok(8),
            TyKind::FnDef(_) => Ok(1),
            TyKind::Never => Ok(1),
            TyKind::Tuple(fields) => widest(table, inner.0, fields@, fields@.len()),
            TyKind::Closure(fields) => widest(table, inner.0, fields@, fields@.len()),
            TyKind::Array(elem, _) => if elem.0 >= inner.0 {
                Err(Failure::Malformed)
            } else {
                align_of(table, elem)
            },
            TyKind::Slice(elem) => if elem.0 >= inner.0 {
                Err(Failure::Malformed)
            } else {
                align_of(table, elem)
            },
            TyKind::Adt(kind, fields, _) => if table.is_fmt_argument(inner) {
                Ok(8)
            } else {
                match kind {
                    AdtKind::Struct => widest(table, inner.0, fields@, fields@.len()),
                    AdtKind::Union => Ok(1),
                    AdtKind::Enum => enum_align(table, inner),
                }
            },
            _ => Err(Failure::Align(inner)),
        }
    }
}

/// The size of a type.
pub fn layout_size_of_ty(table: &TyTable, ty: TyId) -> (r: Result<u64, Failure>)
    requires
        table.wf(),
        table.has(ty),
    ensures
        r == size_of(*table, ty),
    decreases ty.0, 1nat, 0nat,
{
    let inner: TyId = table.normalize_ty(ty);
    proof {
        assert(table.ty_wf(inner));
        assert(ordered_size(*table, inner) == match ordered(*table, inner) {
            Err(failure) => Err(failure),
            Ok(fields) => struct_size(*table, inner.0, fields),
        });
    }
    match &table.types[inner.0].kind {
        TyKind::Bool => Ok(1),
        TyKind::Char => Ok(4),
        TyKind::Str => Ok(0),
        TyKind::Dynamic(_) => Ok(0),
        TyKind::Int(kind) => Ok((int_width(*kind) / 8) as u64),
        TyKind::Uint(kind) => Ok((uint_width(*kind) / 8) as u64),
        TyKind::F32 => Ok(4),
        TyKind::F64 => Ok(8),
        TyKind::FnPtr => Ok(8),
        TyKind::FnDef(_) => Ok(0),
        TyKind::Never => Ok(0),
        TyKind::Ref(pointee) => Ok(
            if table.pointee_unsized_tail(*pointee).is_some() {
                16
            } else {
                8
            },
        ),
        TyKind::RawPtr(pointee) => Ok(
            if table.pointee_unsized_tail(*pointee).is_some() {
                16
            } else {
                8
            },
        ),
        TyKind::Tuple(_) => {
            let fields: Vec<TyId> = memory_ordered_fields(table, inner)?;
            struct_like_size(table, inner.0, &fields)
        },
        TyKind::Closure(_) => {
            let fields: Vec<TyId> = memory_ordered_fields(table, inner)?;
            struct_like_size(table, inner.0, &fields)
        },
        TyKind::Array(elem, len) => {
            assert(table.parts(inner)[0] == *elem);
            let len: u64 = match len {
                Some(len) => *len,
                None => return Err(Failure::ArrayLength(inner)),
            };
            let size: u64 = layout_size_of_ty(table, *elem)?;
            let align: u64 = layout_align_of_ty(table, *elem)?;
            let stride: u64 = align_to(size, align)?;
            times(stride, len)
        },
        TyKind::Slice(elem) => {
            assert(table.parts(inner)[0] == *elem);
            layout_size_of_ty(table, *elem)
        },
        TyKind::Adt(kind, fields, _) => {
            if table.is_fmt_rt_argument_type(inner) {
                return Ok(16);
            }
            match kind {
                AdtKind::Struct => {
                    let fields: Vec<TyId> = memory_ordered_fields(table, inner)?;
                    struct_like_size(table, inner.0, &fields)
                },
                AdtKind::Union => largest_field(table, inner.0, fields),
                AdtKind::Enum => rustc_layout_size_of_ty(table, inner),
            }
        },
        _ => Err(Failure::Layout(inner)),
    }
}

/// The largest size among fields.
fn largest_field(table: &TyTable, bound: usize, fields: &Vec<TyId>) -> (r: Result<u64, Failure>)
    requires
        table.wf(),
        bound <= table.types@.len(),
        forall|i: int| 0 <= i < fields@.len() ==> (#[trigger] fields@[i]).0 < bound,
    ensures
        r == largest(*table, bound, fields@, fields@.len()),
    decreases bound, 0nat, 0nat,
{
    let mut size: u64 = 0;
    let mut i: usize = 0;
    while i < fields.len()
        invariant
            table.wf(),
            bound <= table.types@.len(),
            forall|i: int| 0 <= i < fields@.len() ==> (#[trigger] fields@[i]).0 < bound,
            i <= fields@.len(),
            largest(*table, bound, fields@, i as nat) == Ok::<u64, Failure>(size),
        decreases fields@.len() - i,
    {
        let field: TyId = fields[i];
        match layout_size_of_ty(table, field) {
            Ok(bytes) => {
                if bytes > size {
                    size = bytes;
                }
            },
            Err(failure) => {
                proof {
                    lemma_largest_fails(
                        *table,
                        bound,
                        fields@,
                        (i + 1) as nat,
                        fields@.len(),
                        failure,
                    );
                }
                return Err(failure);
            },
        }
        i = i + 1;
    }
    Ok(size)
}

proof fn lemma_largest_fails(
    table: TyTable,
    bound: usize,
    fields: Seq<TyId>,
    from: nat,
    to: nat,
    failure: Failure,
)
    requires
        from <= to <= fields.len(),
        forall|i: int| 0 <= i < fields.len() ==> (#[trigger] fields[i]).0 < bound,
        largest(table, bound, fields, from) == Err::<u64, Failure>(failure),
    ensures
        largest(table, bound, fields, to) == Err::<u64, Failure>(failure),
    decreases to,
{
    if from < to {
        lemma_largest_fails(table, bound, fields, from, (to - 1) as nat, failure);
    }
}

proof fn lemma_widest_fails(
    table: TyTable,
    bound: usize,
    fields: Seq<TyId>,
    from: nat,
    to: nat,
    failure: Failure,
)
    requires
        from <= to <= fields.len(),
        forall|i: int| 0 <= i < fields.len() ==> (#[trigger] fields[i]).0 < bound,
        widest(table, bound, fields, from) == Err::<u64, Failure>(failure),
    ensures
        widest(table, bound, fields, to) == Err::<u64, Failure>(failure),
    decreases to,
{
    if from < to {
        lemma_widest_fails(table, bound, fields, from, (to - 1) as nat, failure);
    }
}

proof fn lemma_laid_out_fails(
    table: TyTable,
    bound: usize,
    fields: Seq<TyId>,
    from: nat,
    to: nat,
    failure: Failure,
)
    requires
        from <= to <= fields.len(),
        forall|i: int| 0 <= i < fields.len() ==> (#[trigger] fields[i]).0 < bound,
        laid_out(table, bound, fields, from) == Err::<(Seq<u64>, u64), Failure>(failure),
    ensures
        laid_out(table, bound, fields, to) == Err::<(Seq<u64>, u64), Failure>(failure),
    decreases to,
{
    if from < to {
        lemma_laid_out_fails(table, bound, fields, from, (to - 1) as nat, failure);
    }
}

/// A product as a size, where it fits.
pub fn times(a: u64, b: u64) -> (r: Result<u64, Failure>)
    ensures
        r == abi::as_size(a * b),
{
    match a.checked_mul(b) {
        Some(product) => Ok(product),
        None => Err(Failure::TooLarge),
    }
}

/// A sum as a size, where it fits.
pub fn plus(a: u64, b: u64) -> (r: Result<u64, Failure>)
    ensures
        r == abi::as_size(a + b),
{
    match a.checked_add(b) {
        Some(sum) => Ok(sum),
        None => Err(Failure::TooLarge),
    }
}

/// The offsets of fields laid out one after the other.
pub fn struct_like_field_offsets(table: &TyTable, bound: usize, fields: &Vec<TyId>) -> (r: Result<
    (Vec<u64>, u64),
    Failure,
>)
    requires
        table.wf(),
        bound <= table.types@.len(),
        forall|i: int| 0 <= i < fields@.len() ==> (#[trigger] fields@[i]).0 < bound,
    ensures
        match laid_out(*table, bound, fields@, fields@.len()) {
            Ok((offsets, end)) => r matches Ok(pair) && pair.0@ == offsets && pair.1 == end,
            Err(failure) => r matches Err(other) && other == failure,
        },
    decreases bound, 0nat, 1nat,
{
    let mut end: u64 = 0;
    let mut offsets: Vec<u64> = Vec::new();
    let mut i: usize = 0;
    while i < fields.len()
        invariant
            table.wf(),
            bound <= table.types@.len(),
            forall|i: int| 0 <= i < fields@.len() ==> (#[trigger] fields@[i]).0 < bound,
            i <= fields@.len(),
            laid_out(*table, bound, fields@, i as nat) == Ok::<(Seq<u64>, u64), Failure>(
                (offsets@, end),
            ),
        decreases fields@.len() - i,
    {
        let field: TyId = fields[i];
        let placed: Result<(u64, u64), Failure> = place_field(table, bound, field, end);
        match placed {
            Ok((offset, next)) => {
                offsets.push(offset);
                end = next;
            },
            Err(failure) => {
                proof {
                    lemma_laid_out_fails(
                        *table,
                        bound,
                        fields@,
                        (i + 1) as nat,
                        fields@.len(),
                        failure,
                    );
                }
                return Err(failure);
            },
        }
        i = i + 1;
    }
    Ok((offsets, end))
}

/// Where a field lies that follows others, and where it ends.
fn place_field(table: &TyTable, bound: usize, field: TyId, end: u64) -> (r: Result<
    (u64, u64),
    Failure,
>)
    requires
        table.wf(),
        field.0 < bound <= table.types@.len(),
    ensures
        forall|offsets: Seq<u64>|
            match #[trigger] next_field(offsets, end, size_of(*table, field), align_of(*table, field)) {
                Ok((all, next)) => r matches Ok((offset, last)) && all == offsets.push(offset)
                    && last == next,
                Err(failure) => r matches Err(other) && other == failure,
            },
    decreases bound, 0nat, 0nat,
{
    let size: u64 = layout_size_of_ty(table, field)?;
    if size == 0 {
        return Ok((end, end));
    }
    let align: u64 = layout_align_of_ty(table, field)?;
    let offset: u64 = align_to(end, align)?;
    let next: u64 = plus(offset, size)?;
    Ok((offset, next))
}

/// The size of fields laid out one after the other.
pub fn struct_like_size(table: &TyTable, bound: usize, fields: &Vec<TyId>) -> (r: Result<
    u64,
    Failure,
>)
    requires
        table.wf(),
        bound <= table.types@.len(),
        forall|i: int| 0 <= i < fields@.len() ==> (#[trigger] fields@[i]).0 < bound,
    ensures
        r == struct_size(*table, bound, fields@),
    decreases bound, 0nat, 2nat,
{
    let (_, end) = struct_like_field_offsets(table, bound, fields)?;
    let align: u64 = struct_like_align(table, bound, fields)?;
    align_to(end, align)
}

/// The largest alignment among fields that have a size.
pub fn struct_like_align(table: &TyTable, bound: usize, fields: &Vec<TyId>) -> (r: Result<
    u64,
    Failure,
>)
    requires
        table.wf(),
        bound <= table.types@.len(),
        forall|i: int| 0 <= i < fields@.len() ==> (#[trigger] fields@[i]).0 < bound,
    ensures
        r == widest(*table, bound, fields@, fields@.len()),
    decreases bound, 0nat, 1nat,
{
    let mut align: u64 = 1;
    let mut i: usize = 0;
    while i < fields.len()
        invariant
            table.wf(),
            bound <= table.types@.len(),
            forall|i: int| 0 <= i < fields@.len() ==> (#[trigger] fields@[i]).0 < bound,
            i <= fields@.len(),
            widest(*table, bound, fields@, i as nat) == Ok::<u64, Failure>(align),
        decreases fields@.len() - i,
    {
        let field: TyId = fields[i];
        let widened: Result<u64, Failure> = widen_align(table, bound, field, align);
        match widened {
            Ok(next) => {
                align = next;
            },
            Err(failure) => {
                proof {
                    lemma_widest_fails(
                        *table,
                        bound,
                        fields@,
                        (i + 1) as nat,
                        fields@.len(),
                        failure,
                    );
                }
                return Err(failure);
            },
        }
        i = i + 1;
    }
    Ok(align)
}

fn widen_align(table: &TyTable, bound: usize, field: TyId, align: u64) -> (r: Result<u64, Failure>)
    requires
        table.wf(),
        field.0 < bound <= table.types@.len(),
    ensures
        r == wider(align, size_of(*table, field), align_of(*table, field)),
    decreases bound, 0nat, 0nat,
{
    let size: u64 = layout_size_of_ty(table, field)?;
    if size == 0 {
        return Ok(align);
    }
    let field_align: u64 = layout_align_of_ty(table, field)?;
    Ok(
        if field_align > align {
            field_align
        } else {
            align
        },
    )
}

/// The alignment of a type.
pub fn layout_align_of_ty(table: &TyTable, ty: TyId) -> (r: Result<u64, Failure>)
    requires
        table.wf(),
        table.has(ty),
    ensures
        r == align_of(*table, ty),
    decreases ty.0, 1nat, 0nat,
{
    let inner: TyId = table.normalize_ty(ty);
    proof {
        assert(table.ty_wf(inner));
    }
    match &table.types[inner.0].kind {
        TyKind::Bool => Ok(1),
        TyKind::Char => Ok(4),
        TyKind::Str => Ok(1),
        TyKind::Dynamic(_) => Ok(1),
        TyKind::Int(kind) => Ok(to_word_align((int_width(*kind) / 8) as u64)),
        TyKind::Uint(kind) => Ok(to_word_align((uint_width(*kind) / 8) as u64)),
        TyKind::F32 => Ok(4),
        TyKind::F64 => Ok(8),
        TyKind::OtherFloat => Ok(8),
        TyKind::FnPtr => Ok(8),
        TyKind::Ref(_) => Ok(8),
        TyKind::RawPtr(_) => Ok(8),
        TyKind::FnDef(_) => Ok(1),
        TyKind::Never => Ok(1),
        TyKind::Tuple(fields) => struct_like_align(table, inner.0, fields),
        TyKind::Closure(fields) => struct_like_align(table, inner.0, fields),
        TyKind::Array(elem, _) => {
            assert(table.parts(inner)[0] == *elem);
            layout_align_of_ty(table, *elem)
        },
        TyKind::Slice(elem) => {
            assert(table.parts(inner)[0] == *elem);
            layout_align_of_ty(table, *elem)
        },
        TyKind::Adt(kind, fields, _) => {
            if table.is_fmt_rt_argument_type(inner) {
                return Ok(8);
            }
            match kind {
                AdtKind::Struct => struct_like_align(table, inner.0, fields),
                AdtKind::Union => Ok(1),
                AdtKind::Enum => enum_stack_align(table, inner),
            }
        },
        _ => Err(Failure::Align(inner)),
    }
}

/// Aligning never moves a size down.
pub proof fn lemma_aligned_up(value: u64, align: u64)
    ensures
        abi::aligned(value, align) matches Ok(moved) ==> moved >= value,
{
    if align > 1 && value + align - 1 <= u64::MAX {
        if abi::is_power(align) {
            abi::law_align_to(value, align);
        } else {
            abi::lemma_mask((value + align - 1) as u64, (align - 1) as u64);
        }
    }
}

/// Fields that are laid out one after the other do not overlap: each begins
/// no earlier than those before it end, and all end where the whole ends.
pub proof fn law_fields_in_order(
    table: TyTable,
    bound: usize,
    fields: Seq<TyId>,
    count: nat,
    i: int,
    j: int,
)
    requires
        count <= fields.len(),
        laid_out(table, bound, fields, count) is Ok,
        0 <= i < j < count,
    ensures
        ({
            let (offsets, end) = laid_out(table, bound, fields, count)->Ok_0;
            &&& offsets.len() == count
            &&& size_of(table, fields[i]) is Ok
            &&& size_of(table, fields[j]) is Ok
            &&& offsets[i] + size_of(table, fields[i])->Ok_0 <= offsets[j]
            &&& offsets[j] + size_of(table, fields[j])->Ok_0 <= end
        }),
{
    lemma_field_ends(table, bound, fields, count, i);
    lemma_field_ends(table, bound, fields, count, j);
    lemma_laid_out_prefix(table, bound, fields, (j + 1) as nat, count);
    lemma_laid_out_prefix(table, bound, fields, j as nat, (j + 1) as nat);
    lemma_field_ends(table, bound, fields, j as nat, i);
    let (offsets, end) = laid_out(table, bound, fields, j as nat)->Ok_0;
    let (more, last) = laid_out(table, bound, fields, (j + 1) as nat)->Ok_0;
    if let Ok(align) = align_of(table, fields[j]) {
        lemma_aligned_up(end, align);
    }
    assert(more.take(j) == offsets);
    assert(more[i] == more.take(j)[i]);
    let all = laid_out(table, bound, fields, count)->Ok_0.0;
    assert(all[i] == all.take(j + 1)[i]);
    assert(all[j] == all.take(j + 1)[j]);
}

/// Each field ends no later than the whole.
proof fn lemma_field_ends(table: TyTable, bound: usize, fields: Seq<TyId>, count: nat, i: int)
    requires
        count <= fields.len(),
        laid_out(table, bound, fields, count) is Ok || i >= count,
        0 <= i,
    ensures
        i < count ==> {
            let (offsets, end) = laid_out(table, bound, fields, count)->Ok_0;
            &&& offsets.len() == count
            &&& size_of(table, fields[i]) is Ok
            &&& offsets[i] + size_of(table, fields[i])->Ok_0 <= end
        },
    decreases count,
{
    if i < count {
        lemma_laid_out_prefix(table, bound, fields, (count - 1) as nat, count);
        lemma_field_ends(table, bound, fields, (count - 1) as nat, i);
        let (offsets, end) = laid_out(table, bound, fields, (count - 1) as nat)->Ok_0;
        if let Ok(align) = align_of(table, fields[count - 1]) {
            lemma_aligned_up(end, align);
        }
    }
}

/// Laying out more fields does not move those before them.
proof fn lemma_laid_out_prefix(
    table: TyTable,
    bound: usize,
    fields: Seq<TyId>,
    part: nat,
    count: nat,
)
    requires
        part <= count <= fields.len(),
        laid_out(table, bound, fields, count) is Ok,
    ensures
        laid_out(table, bound, fields, part) is Ok,
        laid_out(table, bound, fields, count)->Ok_0.0.len() == count,
        laid_out(table, bound, fields, part)->Ok_0.0 == laid_out(
            table,
            bound,
            fields,
            count,
        )->Ok_0.0.take(part as int),
    decreases count,
{
    let all = laid_out(table, bound, fields, count)->Ok_0.0;
    if count > 0 {
        if part < count {
            lemma_laid_out_prefix(table, bound, fields, part, (count - 1) as nat);
            let fewer = laid_out(table, bound, fields, (count - 1) as nat)->Ok_0.0;
            assert(all.take(part as int) =~= fewer.take(part as int));
        } else {
            lemma_laid_out_prefix(table, bound, fields, (count - 1) as nat, (count - 1) as nat);
            assert(all.take(part as int) =~= all);
        }
    } else {
        assert(all.take(0) =~= all);
    }
}

/// A field with a size lies at a multiple of its alignment.
pub proof fn law_fields_aligned(
    table: TyTable,
    bound: usize,
    fields: Seq<TyId>,
    count: nat,
    i: int,
)
    requires
        count <= fields.len(),
        laid_out(table, bound, fields, count) is Ok,
        0 <= i < count,
        size_of(table, fields[i]) != Ok::<u64, Failure>(0),
        align_of(table, fields[i]) matches Ok(align) && abi::is_power(align),
    ensures
        laid_out(table, bound, fields, count)->Ok_0.0[i] % align_of(table, fields[i])->Ok_0 == 0,
{
    lemma_laid_out_prefix(table, bound, fields, (i + 1) as nat, count);
    lemma_laid_out_prefix(table, bound, fields, i as nat, (i + 1) as nat);
    let (offsets, end) = laid_out(table, bound, fields, i as nat)->Ok_0;
    let align = align_of(table, fields[i])->Ok_0;
    abi::law_align_to(end, align);
    let all = laid_out(table, bound, fields, count)->Ok_0.0;
    assert(all[i] == all.take(i + 1)[i]);
}

/// Whether a layout of the front end is as its layouts are: the alignment is a
/// power of two, and the size a multiple of it.
pub open spec fn is_fair(layout: Layout) -> bool {
    abi::is_power(layout.align) && layout.size % layout.align == 0
}

/// Whether the layouts of a table are as those of the front end are.
pub open spec fn fair(table: TyTable) -> bool {
    forall|ty: TyId|
        table.has(ty) && (#[trigger] table.info(ty)).layout is Some ==> is_fair(
            table.info(ty).layout->0,
        )
}

/// A power of two as an alignment divides what it divides.
proof fn lemma_word_align(layout: Layout)
    requires
        is_fair(layout),
    ensures
        abi::is_power(word_align(layout.align)),
        layout.size % word_align(layout.align) == 0,
{
    abi::lemma_powers();
    let k = choose|k: nat| k < 64 && layout.align == #[trigger] pow2(k);
    vstd::arithmetic::power2::lemma2_to64();
    vstd::arithmetic::power2::lemma_pow2_pos(k);
    if layout.align > 8 {
        if k < 3 {
            vstd::arithmetic::power2::lemma_pow2_strictly_increases(k, 3);
        }
        let m = pow2((k - 3) as nat) as int;
        vstd::arithmetic::power2::lemma_pow2_adds(3, (k - 3) as nat);
        vstd::arithmetic::div_mod::lemma_fundamental_div_mod(
            layout.size as int,
            layout.align as int,
        );
        let q = layout.size as int / layout.align as int;
        assert(layout.size == (m * q) * 8) by (nonlinear_arith)
            requires
                layout.size == layout.align * q,
                layout.align == 8 * m,
        ;
        vstd::arithmetic::div_mod::lemma_mod_multiples_basic(m * q, 8);
    }
}

/// The largest alignment among fields is a power of two.
proof fn lemma_widest_power(table: TyTable, bound: usize, fields: Seq<TyId>, count: nat)
    requires
        table.wf(),
        fair(table),
        bound <= table.types@.len(),
        count <= fields.len(),
        widest(table, bound, fields, count) is Ok,
    ensures
        abi::is_power(widest(table, bound, fields, count)->Ok_0),
    decreases bound, 0nat, count,
{
    abi::lemma_powers();
    if count > 0 {
        lemma_widest_power(table, bound, fields, (count - 1) as nat);
        let last = fields[count - 1];
        if align_of(table, last) is Ok {
            law_align_is_power(table, last);
        }
    }
}

/// An alignment is a power of two.
pub proof fn law_align_is_power(table: TyTable, ty: TyId)
    requires
        table.wf(),
        table.has(ty),
        fair(table),
        align_of(table, ty) is Ok,
    ensures
        abi::is_power(align_of(table, ty)->Ok_0),
    decreases ty.0, 1nat, 0nat,
{
    abi::lemma_powers();
    let inner = table.normal(ty);
    table.lemma_normal(ty);
    assert(table.ty_wf(inner));
    match table.kind(inner) {
        TyKind::Tuple(fields) => lemma_widest_power(table, inner.0, fields@, fields@.len()),
        TyKind::Closure(fields) => lemma_widest_power(table, inner.0, fields@, fields@.len()),
        TyKind::Array(elem, _) => law_align_is_power(table, elem),
        TyKind::Slice(elem) => law_align_is_power(table, elem),
        TyKind::Adt(kind, fields, _) => if !table.is_fmt_argument(inner) {
            match kind {
                AdtKind::Struct => lemma_widest_power(table, inner.0, fields@, fields@.len()),
                AdtKind::Union => {},
                AdtKind::Enum => lemma_word_align(table.info(inner).layout->0),
            }
        },
        _ => {},
    }
}

/// A size that was moved up to a power of two is a multiple of it.
proof fn lemma_moved_up(value: u64, align: u64)
    requires
        abi::is_power(align),
        abi::aligned(value, align) is Ok,
    ensures
        abi::aligned(value, align)->Ok_0 % align == 0,
{
    let k = choose|k: nat| k < 64 && align == #[trigger] pow2(k);
    vstd::arithmetic::power2::lemma_pow2_pos(k);
    abi::law_align_to(value, align);
}

/// A struct-like type has a size that is a multiple of its alignment.
proof fn lemma_struct_multiple(table: TyTable, ty: TyId, fields: Seq<TyId>)
    requires
        table.wf(),
        table.has(ty),
        fair(table),
        fields.len() <= usize::MAX,
        table.source_fields(ty) == Some(fields),
        ordered_size(table, ty) is Ok,
        widest(table, ty.0, fields, fields.len()) is Ok,
    ensures
        ordered_size(table, ty)->Ok_0 % widest(table, ty.0, fields, fields.len())->Ok_0 == 0,
{
    let n = fields.len();
    let memory = reordered(fields, table.memory_order(ty, n));
    table.law_memory_order(ty, n);
    assert(memory =~= convert::in_memory(table, ty, fields));
    let (_, end) = laid_out(table, ty.0, memory, memory.len())->Ok_0;
    mirror::lemma_widest_reordered(table, ty, fields);
    lemma_widest_power(table, ty.0, fields, n);
    lemma_moved_up(end, widest(table, ty.0, fields, n)->Ok_0);
}

/// An integer fills a multiple of its alignment.
proof fn lemma_integer_multiple(width: u32)
    requires
        width == 8 || width == 16 || width == 32 || width == 64 || width == 128,
    ensures
        bytes_of(width) % word_align(bytes_of(width)) == 0,
{
    if width == 8 {
        assert(word_align(bytes_of(width)) == 1);
    } else if width == 16 {
        assert(word_align(bytes_of(width)) == 2);
    } else if width == 32 {
        assert(word_align(bytes_of(width)) == 4);
    } else {
        assert(word_align(bytes_of(width)) == 8);
    }
}

/// The size of a type is a multiple of its alignment.
pub proof fn law_size_is_multiple(table: TyTable, ty: TyId)
    requires
        table.wf(),
        table.has(ty),
        fair(table),
        size_of(table, ty) is Ok,
        align_of(table, ty) is Ok,
    ensures
        size_of(table, ty)->Ok_0 % align_of(table, ty)->Ok_0 == 0,
    decreases ty.0,
{
    let inner = table.normal(ty);
    table.lemma_normal(ty);
    assert(table.ty_wf(inner));
    match table.kind(inner) {
        TyKind::Tuple(fields) => {
            assert(fields.len() == fields@.len());
            lemma_struct_multiple(table, inner, fields@);
        },
        TyKind::Closure(fields) => {
            assert(fields.len() == fields@.len());
            lemma_struct_multiple(table, inner, fields@);
        },
        TyKind::Array(elem, len) => {
            assert(table.parts(inner)[0] == elem);
            law_align_is_power(table, elem);
            let align = align_of(table, elem)->Ok_0;
            lemma_moved_up(size_of(table, elem)->Ok_0, align);
            let stride = abi::aligned(size_of(table, elem)->Ok_0, align)->Ok_0;
            let k = choose|k: nat| k < 64 && align == #[trigger] pow2(k);
            vstd::arithmetic::power2::lemma_pow2_pos(k);
            vstd::arithmetic::div_mod::lemma_mul_mod_noop_left(
                stride as int,
                len->0 as int,
                align as int,
            );
            let count = len->0;
            assert((stride as int % align as int) * (count as int) == 0) by (nonlinear_arith)
                requires
                    stride as int % align as int == 0,
            ;
            vstd::arithmetic::div_mod::lemma_small_mod(0, align as nat);
        },
        TyKind::Slice(elem) => {
            assert(table.parts(inner)[0] == elem);
            law_size_is_multiple(table, elem);
        },
        TyKind::Adt(kind, fields, _) => if !table.is_fmt_argument(inner) {
            match kind {
                AdtKind::Struct => {
                    assert(fields.len() == fields@.len());
                    lemma_struct_multiple(table, inner, fields@);
                },
                AdtKind::Union => {},
                AdtKind::Enum => lemma_word_align(table.info(inner).layout->0),
            }
        },
        TyKind::Int(kind) => {
            lemma_integer_multiple(ty::int_bits(kind));
            assert(size_of(table, ty)->Ok_0 == bytes_of(ty::int_bits(kind)));
        },
        TyKind::Uint(kind) => {
            lemma_integer_multiple(ty::uint_bits(kind));
            assert(size_of(table, ty)->Ok_0 == bytes_of(ty::uint_bits(kind)));
        },
        _ => {
            assert(size_of(table, ty)->Ok_0 == 0 || align_of(table, ty)->Ok_0 == 1 || align_of(
                table,
                ty,
            )->Ok_0 == 4 || align_of(table, ty)->Ok_0 == 8);
        },
    }
}

/// What the first fields take depends on them alone.
proof fn lemma_same_fields(
    table: TyTable,
    bound: usize,
    a: Seq<TyId>,
    b: Seq<TyId>,
    count: nat,
)
    requires
        count <= a.len(),
        count <= b.len(),
        forall|k: int| 0 <= k < count ==> a[k] == b[k],
    ensures
        laid_out(table, bound, a, count) == laid_out(table, bound, b, count),
        widest(table, bound, a, count) == widest(table, bound, b, count),
    decreases count,
{
    if count > 0 {
        lemma_same_fields(table, bound, a, b, (count - 1) as nat);
    }
}

proof fn lemma_without(table: TyTable, bound: usize, fields: Seq<TyId>, i: int, count: nat)
    requires
        0 <= i < count <= fields.len(),
        size_of(table, fields[i]) == Ok::<u64, Failure>(0),
        laid_out(table, bound, fields, count) is Ok,
        widest(table, bound, fields, count) is Ok,
    ensures
        ({
            let rest = fields.remove(i);
            let fewer = laid_out(table, bound, rest, (count - 1) as nat);
            &&& fewer is Ok
            &&& fewer->Ok_0.1 == laid_out(table, bound, fields, count)->Ok_0.1
            &&& widest(table, bound, rest, (count - 1) as nat) == widest(
                table,
                bound,
                fields,
                count,
            )
        }),
    decreases count,
{
    let rest = fields.remove(i);
    if count == i + 1 {
        lemma_same_fields(table, bound, fields, rest, i as nat);
    } else {
        lemma_without(table, bound, fields, i, (count - 1) as nat);
        assert(rest[count - 2] == fields[count - 1]);
    }
}

/// A field without a size adds nothing to the size of a struct, nor to its
/// alignment.
pub proof fn law_sizeless_field(table: TyTable, bound: usize, fields: Seq<TyId>, i: int)
    requires
        0 <= i < fields.len(),
        size_of(table, fields[i]) == Ok::<u64, Failure>(0),
        struct_size(table, bound, fields) is Ok,
    ensures
        struct_size(table, bound, fields.remove(i)) == struct_size(table, bound, fields),
        widest(table, bound, fields.remove(i), (fields.len() - 1) as nat) == widest(
            table,
            bound,
            fields,
            fields.len(),
        ),
{
    lemma_without(table, bound, fields, i, fields.len());
}

/// Each field lies within its type.
pub proof fn law_field_within(table: TyTable, ty: TyId, index: usize)
    requires
        table.wf(),
        table.has(ty),
        table.normal(ty) == table.runtime(ty),
        !table.is_fmt_argument(table.normal(ty)),
        offset_of(table, ty, None, index) is Ok,
        size_of(table, ty) is Ok,
    ensures
        ({
            let field = table.parts(table.normal(ty))[index as int];
            &&& size_of(table, field) is Ok
            &&& offset_of(table, ty, None, index)->Ok_0 + size_of(table, field)->Ok_0 <= size_of(
                table,
                ty,
            )->Ok_0
        }),
{
    let inner = table.normal(ty);
    table.lemma_normal(ty);
    assert(table.ty_wf(inner));
    match table.kind(inner) {
        TyKind::Tuple(fields) => {
            assert(fields.len() == fields@.len());
            lemma_field_within(table, inner, fields@, index);
        },
        TyKind::Closure(fields) => {
            assert(fields.len() == fields@.len());
            lemma_field_within(table, inner, fields@, index);
        },
        TyKind::Adt(AdtKind::Struct, fields, _) => {
            assert(fields.len() == fields@.len());
            lemma_field_within(table, inner, fields@, index);
        },
        TyKind::Adt(AdtKind::Union, fields, _) => lemma_largest(
            table,
            inner.0,
            fields@,
            fields@.len(),
            index as int,
        ),
        _ => {},
    }
}

proof fn lemma_field_within(table: TyTable, ty: TyId, fields: Seq<TyId>, index: usize)
    requires
        table.wf(),
        table.has(ty),
        fields.len() <= usize::MAX,
        table.source_fields(ty) == Some(fields),
        ordered_offset(table, ty, fields, index) is Ok,
        ordered_size(table, ty) is Ok,
    ensures
        size_of(table, fields[index as int]) is Ok,
        ordered_offset(table, ty, fields, index)->Ok_0 + size_of(
            table,
            fields[index as int],
        )->Ok_0 <= ordered_size(table, ty)->Ok_0,
{
    let n = fields.len();
    let memory = reordered(fields, table.memory_order(ty, n));
    table.law_memory_order(ty, n);
    table.law_memory_position(ty, n, index);
    let p = table.memory_position(ty, n, index);
    assert(memory[p] == fields[index as int]);
    lemma_field_ends(table, ty.0, memory, n, p);
    let (_, end) = laid_out(table, ty.0, memory, n)->Ok_0;
    lemma_aligned_up(end, widest(table, ty.0, memory, n)->Ok_0);
}

/// The offset of each field of a struct-like type lies in memory where the
/// field stands in memory order.
proof fn lemma_ordered_offset(table: TyTable, ty: TyId, fields: Seq<TyId>, index: usize)
    requires
        table.wf(),
        table.has(ty),
        fields.len() <= usize::MAX,
        ordered_offset(table, ty, fields, index) is Ok,
    ensures
        ({
            let n = fields.len();
            let memory = reordered(fields, table.memory_order(ty, n));
            let p = table.memory_position(ty, n, index);
            &&& memory.len() == n
            &&& 0 <= p < n
            &&& memory[p] == fields[index as int]
            &&& laid_out(table, ty.0, memory, n) matches Ok((offsets, _)) && ordered_offset(
                table,
                ty,
                fields,
                index,
            ) == Ok::<u64, Failure>(offsets[p])
        }),
{
    table.law_memory_order(ty, fields.len());
    table.law_memory_position(ty, fields.len(), index);
}

/// The fields of a struct, a tuple or a closure do not overlap.
pub proof fn law_fields_apart(table: TyTable, ty: TyId, i: usize, j: usize)
    requires
        table.wf(),
        table.has(ty),
        table.source_fields(ty) is Some,
        offset_of(table, ty, None, i) is Ok,
        offset_of(table, ty, None, j) is Ok,
        i != j,
    ensures
        ({
            let fields = table.source_fields(ty)->0;
            let one = offset_of(table, ty, None, i)->Ok_0;
            let other = offset_of(table, ty, None, j)->Ok_0;
            &&& size_of(table, fields[i as int]) is Ok
            &&& size_of(table, fields[j as int]) is Ok
            &&& one + size_of(table, fields[i as int])->Ok_0 <= other || other + size_of(
                table,
                fields[j as int],
            )->Ok_0 <= one
        }),
{
    let inner = table.runtime(ty);
    let fields = table.source_fields(ty)->0;
    table.lemma_normal(ty);
    assert(table.ty_wf(inner));
    lemma_field_count(table, inner);
    lemma_ordered_offset(table, inner, fields, i);
    lemma_ordered_offset(table, inner, fields, j);
    let n = fields.len();
    let memory = reordered(fields, table.memory_order(inner, n));
    table.law_memory_order(inner, n);
    table.law_memory_position(inner, n, i);
    table.law_memory_position(inner, n, j);
    let p = table.memory_position(inner, n, i);
    let q = table.memory_position(inner, n, j);
    if p < q {
        law_fields_in_order(table, inner.0, memory, n, p, q);
    } else {
        law_fields_in_order(table, inner.0, memory, n, q, p);
    }
}

/// A field with a size, of a struct, a tuple, a closure or a union, lies at a
/// multiple of its alignment.
pub proof fn law_field_aligned(table: TyTable, ty: TyId, index: usize)
    requires
        table.wf(),
        table.has(ty),
        fair(table),
        offset_of(table, ty, None, index) is Ok,
        ({
            let field = table.parts(table.runtime(ty))[index as int];
            &&& size_of(table, field) != Ok::<u64, Failure>(0)
            &&& align_of(table, field) is Ok
        }),
    ensures
        offset_of(table, ty, None, index)->Ok_0 % align_of(
            table,
            table.parts(table.runtime(ty))[index as int],
        )->Ok_0 == 0,
{
    let inner = table.runtime(ty);
    let field = table.parts(inner)[index as int];
    table.lemma_normal(ty);
    assert(table.ty_wf(inner));
    lemma_field_count(table, inner);
    law_align_is_power(table, field);
    if table.kind(inner) is Adt && table.kind(inner)->Adt_0 is Union {
        let align = align_of(table, field)->Ok_0;
        let k = choose|k: nat| k < 64 && align == #[trigger] pow2(k);
        vstd::arithmetic::power2::lemma_pow2_pos(k);
        vstd::arithmetic::div_mod::lemma_small_mod(0, align as nat);
        assert(offset_of(table, ty, None, index)->Ok_0 % align == 0);
    } else {
        let fields = table.parts(inner);
        let n = fields.len();
        lemma_ordered_offset(table, inner, fields, index);
        let p = table.memory_position(inner, n, index);
        law_fields_aligned(
            table,
            inner.0,
            reordered(fields, table.memory_order(inner, n)),
            n,
            p,
        );
    }
}

/// A list of fields is no longer than a list can be.
proof fn lemma_field_count(table: TyTable, ty: TyId)
    ensures
        match table.kind(ty) {
            TyKind::Tuple(fields) => fields@.len() <= usize::MAX,
            TyKind::Closure(fields) => fields@.len() <= usize::MAX,
            TyKind::Adt(_, fields, _) => fields@.len() <= usize::MAX,
            _ => true,
        },
{
    match table.kind(ty) {
        TyKind::Tuple(fields) => {
            assert(fields.len() == fields@.len());
        },
        TyKind::Closure(fields) => {
            assert(fields.len() == fields@.len());
        },
        TyKind::Adt(_, fields, _) => {
            assert(fields.len() == fields@.len());
        },
        _ => {},
    }
}

proof fn lemma_largest(table: TyTable, bound: usize, fields: Seq<TyId>, count: nat, i: int)
    requires
        0 <= i < count <= fields.len(),
        largest(table, bound, fields, count) is Ok,
    ensures
        size_of(table, fields[i]) is Ok,
        size_of(table, fields[i])->Ok_0 <= largest(table, bound, fields, count)->Ok_0,
    decreases count,
{
    if i < count - 1 {
        lemma_largest(table, bound, fields, (count - 1) as nat, i);
    }
}

/// An item of a list of numbers.
pub open spec fn nth(items: Seq<u64>, index: int) -> Result<u64, Failure> {
    if 0 <= index < items.len() {
        Ok(items[index])
    } else {
        Err(Failure::Malformed)
    }
}

/// The offset of a field of a struct-like type with the given fields.
pub open spec fn ordered_offset(table: TyTable, ty: TyId, fields: Seq<TyId>, index: usize) -> Result<
    u64,
    Failure,
> {
    if index >= fields.len() {
        Err(Failure::Field { index, count: fields.len() as usize })
    } else {
        let order = table.memory_order(ty, fields.len());
        match laid_out(table, ty.0, reordered(fields, order), order.len()) {
            Err(failure) => Err(failure),
            Ok((offsets, _)) => Ok(offsets[table.memory_position(ty, fields.len(), index)]),
        }
    }
}

/// The offset of a field of a variant, as the front end gave it.
pub open spec fn variant_offset(table: TyTable, ty: TyId, variant: u32, index: int) -> Result<
    u64,
    Failure,
> {
    match table.info(ty).layout {
        None => Err(Failure::NoLayout(ty)),
        Some(layout) => if variant < layout.variant_offsets@.len() {
            nth(layout.variant_offsets@[variant as int]@, index)
        } else {
            Err(Failure::Malformed)
        },
    }
}

/// The offset of a field of a type, or of a variant of an enum.
pub open spec fn offset_of(table: TyTable, ty: TyId, variant: Option<u32>, index: usize) -> Result<
    u64,
    Failure,
> {
    let inner = table.runtime(ty);
    match table.kind(inner) {
        TyKind::Adt(AdtKind::Enum, _, variants) => match variant {
            None => Err(Failure::FieldWithoutVariant { ty: inner, index }),
            Some(variant) => if variant >= variants@.len() {
                Err(Failure::Malformed)
            } else if index >= variants@[variant as int].fields {
                Err(Failure::VariantField { ty: inner, variant, index })
            } else {
                variant_offset(table, inner, variant, index as int)
            },
        },
        TyKind::Adt(AdtKind::Union, fields, _) => if index >= fields@.len() {
            Err(Failure::UnionField { index, count: fields@.len() as usize })
        } else {
            Ok(0)
        },
        TyKind::Adt(AdtKind::Struct, fields, _) => ordered_offset(table, inner, fields@, index),
        TyKind::Tuple(fields) => ordered_offset(table, inner, fields@, index),
        TyKind::Closure(fields) => ordered_offset(table, inner, fields@, index),
        _ => Err(Failure::FieldOf(inner)),
    }
}

/// The offset of a field of a variant, as the front end gave it.
pub fn variant_field_offset(table: &TyTable, ty: TyId, variant: u32, index: usize) -> (r: Result<
    u64,
    Failure,
>)
    requires
        table.has(ty),
    ensures
        r == variant_offset(*table, ty, variant, index as int),
{
    match &table.types[ty.0].layout {
        None => Err(Failure::NoLayout(ty)),
        Some(layout) => {
            let v: usize = variant as usize;
            if v < layout.variant_offsets.len() {
                nth_of(&layout.variant_offsets[v], index)
            } else {
                Err(Failure::Malformed)
            }
        },
    }
}

/// An item of a list of numbers.
pub fn nth_of(items: &Vec<u64>, index: usize) -> (r: Result<u64, Failure>)
    ensures
        r == nth(items@, index as int),
{
    if index < items.len() {
        Ok(items[index])
    } else {
        Err(Failure::Malformed)
    }
}

fn ordered_field_offset(table: &TyTable, ty: TyId, fields: &Vec<TyId>, index: usize) -> (r: Result<
    u64,
    Failure,
>)
    requires
        table.wf(),
        table.has(ty),
        table.precede(fields@, ty),
    ensures
        r == ordered_offset(*table, ty, fields@, index),
{
    if index >= fields.len() {
        return Err(Failure::Field { index, count: fields.len() });
    }
    let order: Vec<usize> = table.struct_memory_order(ty, fields.len());
    proof {
        table.law_memory_order(ty, fields@.len());
        table.law_memory_position(ty, fields@.len(), index);
    }
    let ordered: Vec<TyId> = reorder(fields, &order);
    let (offsets, _) = struct_like_field_offsets(table, ty.0, &ordered)?;
    let position: usize = table.field_memory_position(ty, fields.len(), index);
    proof {
        lemma_laid_out_prefix(*table, ty.0, ordered@, ordered@.len(), ordered@.len());
    }
    Ok(offsets[position])
}

/// The offset of a field of a type, or of a variant of an enum.
pub fn field_offset_of(table: &TyTable, ty: TyId, variant: Option<u32>, index: usize) -> (r: Result<
    u64,
    Failure,
>)
    requires
        table.wf(),
        table.has(ty),
    ensures
        r == offset_of(*table, ty, variant, index),
{
    let inner: TyId = table.runtime_ty(ty);
    proof {
        assert(table.ty_wf(inner));
    }
    match &table.types[inner.0].kind {
        TyKind::Adt(AdtKind::Enum, _, variants) => match variant {
            None => Err(Failure::FieldWithoutVariant { ty: inner, index }),
            Some(variant) => {
                let v: usize = variant as usize;
                if v >= variants.len() {
                    Err(Failure::Malformed)
                } else if index >= variants[v].fields {
                    Err(Failure::VariantField { ty: inner, variant, index })
                } else {
                    variant_field_offset(table, inner, variant, index)
                }
            },
        },
        TyKind::Adt(AdtKind::Union, fields, _) => if index >= fields.len() {
            Err(Failure::UnionField { index, count: fields.len() })
        } else {
            Ok(0)
        },
        TyKind::Adt(AdtKind::Struct, fields, _) => ordered_field_offset(table, inner, fields, index),
        TyKind::Tuple(fields) => ordered_field_offset(table, inner, fields, index),
        TyKind::Closure(fields) => ordered_field_offset(table, inner, fields, index),
        _ => Err(Failure::FieldOf(inner)),
    }
}

} // verus!
