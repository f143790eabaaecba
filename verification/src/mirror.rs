//! The layout of a type is that of its converted type.
//!
//! Offsets are computed from the types of the program, while the fields that
//! they lead to lie where the converted types put them. This holds together
//! because both put every field in the same place.

use crate::abi;
use crate::convert;
use crate::error::Failure;
use crate::layout;
use crate::sem;
use crate::ty::{AdtKind, TyId, TyKind, TyTable};
use crate::types;
use crate::types::{TypeHandle, TypeList};
use vstd::prelude::*;

verus! {

/// Whether the real layout of an enum is made of whole aligned words.
pub open spec fn is_wordly(table: TyTable, ty: TyId) -> bool {
    table.info(ty).layout matches Some(layout) ==> {
        let align = layout::word_align(layout.align);
        &&& align == 1 || align == 2 || align == 4 || align == 8
        &&& layout.size % align == 0
    }
}

/// Whether a type has a size of its own and no fixed form: no part of it is a
/// slice or belongs to the formatting runtime, save its argument type.
pub open spec fn is_regular(table: TyTable, ty: TyId) -> bool
    decreases ty.0, 1nat, 0nat,
{
    let inner = table.normal(ty);
    &&& inner.0 <= ty.0
    &&& match table.kind(inner) {
        TyKind::Slice(_) => false,
        TyKind::Array(elem, _) => elem.0 < inner.0 && is_regular(table, elem),
        TyKind::Tuple(fields) => all_regular(table, inner.0, fields@, fields@.len()),
        TyKind::Closure(fields) => all_regular(table, inner.0, fields@, fields@.len()),
        TyKind::Adt(kind, fields, _) => !convert::is_fmt_arguments(table, inner) && match kind {
            AdtKind::Struct => !table.is_fmt_argument(inner) && all_regular(
                table,
                inner.0,
                fields@,
                fields@.len(),
            ),
            AdtKind::Union => !table.is_fmt_argument(inner) && table.normal(inner) == inner,
            AdtKind::Enum => table.is_fmt_argument(inner) || is_wordly(table, inner),
        },
        _ => true,
    }
}

/// Whether the first of a list of types are regular.
pub open spec fn all_regular(table: TyTable, bound: usize, fields: Seq<TyId>, count: nat) -> bool
    decreases bound, 0nat, count,
{
    count == 0 || {
        &&& fields[count - 1].0 < bound
        &&& all_regular(table, bound, fields, (count - 1) as nat)
        &&& is_regular(table, fields[count - 1])
    }
}

proof fn lemma_all_regular(table: TyTable, bound: usize, fields: Seq<TyId>, count: nat, i: int)
    requires
        all_regular(table, bound, fields, count),
        0 <= i < count <= fields.len(),
    ensures
        fields[i].0 < bound,
        is_regular(table, fields[i]),
    decreases count,
{
    if i < count - 1 {
        lemma_all_regular(table, bound, fields, (count - 1) as nat, i);
    }
}

/// A list of one type.
proof fn lemma_single(ty: TypeHandle)
    ensures
        TypeList::of(seq![ty]) == TypeList::Cons(ty, std::rc::Rc::new(TypeList::Nil)),
{
    reveal_with_fuel(TypeList::of, 2);
    assert(seq![ty].skip(1) =~= Seq::empty());
}

/// Nothing is aligned to nothing.
proof fn lemma_aligned_zero(align: u64)
    ensures
        abi::aligned(0, align) == Ok::<u64, Failure>(0),
{
    if align > 1 {
        if abi::is_power(align) {
            abi::law_align_to(0, align);
            vstd::arithmetic::div_mod::lemma_small_mod(
                abi::aligned(0, align)->Ok_0 as nat,
                align as nat,
            );
        } else {
            abi::lemma_mask(0, (align - 1) as u64);
        }
    }
}

/// A list of two types.
proof fn lemma_double(a: TypeHandle, b: TypeHandle)
    ensures
        TypeList::of(seq![a, b]) == TypeList::Cons(
            a,
            std::rc::Rc::new(TypeList::Cons(b, std::rc::Rc::new(TypeList::Nil))),
        ),
{
    assert(seq![a, b].skip(1) =~= seq![b]);
    lemma_single(b);
}

proof fn lemma_array_size(elem: TypeHandle, count: u64, bytes: u64)
    requires
        abi::ty_size(elem) == Ok::<u64, Failure>(bytes),
        abi::ty_align(elem) == Ok::<u64, Failure>(bytes),
        bytes == 1 || bytes == 2 || bytes == 4 || bytes == 8,
        bytes * count <= u64::MAX,
    ensures
        abi::ty_size(types::array_of(elem, count)) == Ok::<u64, Failure>((bytes * count) as u64),
        abi::ty_align(types::array_of(elem, count)) == Ok::<u64, Failure>(bytes),
{
    abi::lemma_powers();
    abi::law_align_to(bytes, bytes);
    let stride = abi::aligned(bytes, bytes)->Ok_0;
    assert(stride == bytes) by {
        assert(stride % bytes == 0);
        assert(bytes <= stride < 2 * bytes);
    }
}

/// The two-word types.
proof fn lemma_pairs()
    ensures
        abi::ty_size(convert::sized_pointer()) == Ok::<u64, Failure>(16),
        abi::ty_align(convert::sized_pointer()) == Ok::<u64, Failure>(8),
        abi::ty_size(convert::pointer_pair()) == Ok::<u64, Failure>(16),
        abi::ty_align(convert::pointer_pair()) == Ok::<u64, Failure>(8),
        abi::ty_size(convert::unit()) == Ok::<u64, Failure>(0),
        abi::ty_align(convert::unit()) == Ok::<u64, Failure>(1),
{
    reveal_with_fuel(abi::struct_size, 4);
    reveal_with_fuel(abi::struct_align, 4);
    reveal_with_fuel(abi::ty_size, 4);
    reveal_with_fuel(abi::ty_align, 4);
    lemma_double(types::pointer(), types::unsigned(64));
    lemma_double(types::pointer(), types::pointer());
    abi::lemma_powers();
    abi::law_align_to(0, 8);
    abi::law_align_to(8, 8);
    abi::law_align_to(16, 8);
    assert(abi::aligned(0, 8) == Ok::<u64, Failure>(0)) by {
        let r = abi::aligned(0, 8)->Ok_0;
        assert(r % 8 == 0 && r < 8);
    }
    assert(abi::aligned(8, 8) == Ok::<u64, Failure>(8)) by {
        let r = abi::aligned(8, 8)->Ok_0;
        assert(r % 8 == 0 && 8 <= r < 16);
    }
    assert(abi::aligned(16, 8) == Ok::<u64, Failure>(16)) by {
        let r = abi::aligned(16, 8)->Ok_0;
        assert(r % 8 == 0 && 16 <= r < 24);
    }
    lemma_array_size(types::unsigned(8), 0, 1);
}

/// A struct of one field has the size and alignment of the field, where that
/// is aligned.
proof fn lemma_wrapped(ty: TyId, field: TypeHandle, size: u64, align: u64)
    requires
        abi::ty_size(field) == Ok::<u64, Failure>(size),
        abi::ty_align(field) == Ok::<u64, Failure>(align),
        align == 1 || align == 2 || align == 4 || align == 8,
        size % align == 0,
        size + align - 1 <= u64::MAX,
    ensures
        abi::ty_size(convert::named(ty, seq![field])) == Ok::<u64, Failure>(size),
        size != 0 ==> abi::ty_align(convert::named(ty, seq![field])) == Ok::<u64, Failure>(align),
        abi::ty_align(convert::named(ty, seq![field])) is Ok,
{
    reveal_with_fuel(abi::struct_size, 3);
    reveal_with_fuel(abi::struct_align, 3);
    lemma_single(field);
    abi::lemma_powers();
    abi::law_align_to(0, align);
    assert(abi::aligned(0, align) == Ok::<u64, Failure>(0)) by {
        let r = abi::aligned(0, align)->Ok_0;
        assert(r % align == 0 && r < align);
    }
    abi::law_align_to(size, align);
    assert(abi::aligned(size, align) == Ok::<u64, Failure>(size)) by {
        let r = abi::aligned(size, align)->Ok_0;
        assert(r % align == 0 && size <= r < size + align);
        lemma_same_multiple(size, r, align);
    }
    let list = TypeList::Cons(field, std::rc::Rc::new(TypeList::Nil));
    assert(abi::struct_size(TypeList::Nil, 0, 1) == Ok::<(u64, u64), Failure>((0, 1)));
    assert(abi::struct_size(TypeList::Nil, size, align) == Ok::<(u64, u64), Failure>(
        (size, align),
    ));
    assert(abi::struct_align(TypeList::Nil, align) == Ok::<u64, Failure>(align));
    assert(abi::struct_align(TypeList::Nil, 1) == Ok::<u64, Failure>(1));
    if size == 0 {
        assert(abi::struct_size(list, 0, 1) == Ok::<(u64, u64), Failure>((0, 1)));
    } else {
        assert(abi::struct_size(list, 0, 1) == Ok::<(u64, u64), Failure>((size, align)));
        assert(abi::struct_align(list, 1) == Ok::<u64, Failure>(align));
    }
}

/// A pointer has one word or two.
proof fn lemma_pointer(table: TyTable, bound: usize, pointee: TyId)
    requires
        convert::converted_pointer(table, bound, pointee) is Ok,
    ensures
        ({
            let converted = convert::converted_pointer(table, bound, pointee)->Ok_0;
            &&& abi::ty_size(converted) == Ok::<u64, Failure>(layout::pointer_size(table, pointee))
            &&& abi::ty_align(converted) == Ok::<u64, Failure>(8)
        }),
{
    lemma_pairs();
}

proof fn lemma_same_multiple(a: u64, b: u64, align: u64)
    requires
        align == 1 || align == 2 || align == 4 || align == 8,
        a % align == 0,
        b % align == 0,
        a <= b < a + align,
    ensures
        a == b,
{
}

/// The layout of fields in memory order is that of a struct of their
/// converted types.
proof fn lemma_fields(
    table: TyTable,
    bound: usize,
    fields: Seq<TyId>,
    list: Seq<TypeHandle>,
    count: nat,
)
    requires
        list.len() == fields.len(),
        count <= fields.len(),
        layout::laid_out(table, bound, fields, fields.len()) is Ok,
        layout::widest(table, bound, fields, fields.len()) is Ok,
        layout::laid_out(table, bound, fields, count) is Ok,
        layout::widest(table, bound, fields, count) is Ok,
        forall|i: int|
            0 <= i < fields.len() ==> (#[trigger] fields[i]).0 < bound && agrees(
                table,
                fields[i],
                list[i],
            ),
    ensures
        abi::struct_size(
            TypeList::of(list.skip(count as int)),
            layout::laid_out(table, bound, fields, count)->Ok_0.1,
            layout::widest(table, bound, fields, count)->Ok_0,
        ) == Ok::<(u64, u64), Failure>(
            (
                layout::laid_out(table, bound, fields, fields.len())->Ok_0.1,
                layout::widest(table, bound, fields, fields.len())->Ok_0,
            ),
        ),
        abi::struct_align(
            TypeList::of(list.skip(count as int)),
            layout::widest(table, bound, fields, count)->Ok_0,
        ) == layout::widest(table, bound, fields, fields.len()),
    decreases fields.len() - count,
{
    if count < fields.len() {
        let next = (count + 1) as nat;
        lemma_prefix_ok(table, bound, fields, next, fields.len());
        lemma_fields(table, bound, fields, list, next);
        assert(list.skip(count as int)[0] == list[count as int]);
        assert(list.skip(count as int).skip(1) =~= list.skip(next as int));
        let field = fields[count as int];
        assert(fields[next - 1] == field);
        assert(agrees(table, field, list[count as int]));
        assert(layout::size_of(table, field) is Ok);
    } else {
        assert(list.skip(count as int) =~= Seq::empty());
    }
}

proof fn lemma_prefix_ok(table: TyTable, bound: usize, fields: Seq<TyId>, part: nat, count: nat)
    requires
        part <= count <= fields.len(),
        layout::laid_out(table, bound, fields, count) is Ok,
        layout::widest(table, bound, fields, count) is Ok,
    ensures
        layout::laid_out(table, bound, fields, part) is Ok,
        layout::widest(table, bound, fields, part) is Ok,
    decreases count,
{
    if part < count {
        lemma_prefix_ok(table, bound, fields, part, (count - 1) as nat);
    }
}

/// Whether a converted type has the size of a type, and an alignment, which is
/// that of the type where the size is not zero.
pub open spec fn agrees(table: TyTable, ty: TyId, converted: TypeHandle) -> bool {
    layout::size_of(table, ty) matches Ok(size) ==> {
        &&& abi::ty_size(converted) == Ok::<u64, Failure>(size)
        &&& abi::ty_align(converted) is Ok
        &&& size != 0 ==> abi::ty_align(converted) == layout::align_of(table, ty)
    }
}

/// Each of the first fields is converted on its own.
proof fn lemma_converted_item(table: TyTable, bound: usize, fields: Seq<TyId>, count: nat, i: int)
    requires
        count <= fields.len(),
        convert::converted_list(table, bound, fields, count) is Ok,
        0 <= i < count,
    ensures
        convert::converted_list(table, bound, fields, count)->Ok_0.len() == count,
        convert::converted(table, fields[i]) == Ok::<TypeHandle, Failure>(
            convert::converted_list(table, bound, fields, count)->Ok_0[i],
        ),
    decreases count,
{
    if i < count - 1 {
        lemma_converted_item(table, bound, fields, (count - 1) as nat, i);
    } else {
        lemma_converted_len(table, bound, fields, (count - 1) as nat);
    }
}

proof fn lemma_converted_len(table: TyTable, bound: usize, fields: Seq<TyId>, count: nat)
    requires
        convert::converted_list(table, bound, fields, count) is Ok,
    ensures
        convert::converted_list(table, bound, fields, count)->Ok_0.len() == count,
    decreases count,
{
    if count > 0 {
        lemma_converted_len(table, bound, fields, (count - 1) as nat);
    }
}

/// What the largest alignment among fields is.
proof fn lemma_widest(table: TyTable, bound: usize, fields: Seq<TyId>, count: nat)
    requires
        count <= fields.len(),
        layout::widest(table, bound, fields, count) is Ok,
    ensures
        ({
            let align = layout::widest(table, bound, fields, count)->Ok_0;
            &&& align >= 1
            &&& forall|i: int|
                0 <= i < count && layout::size_of(table, #[trigger] fields[i]) != Ok::<u64, Failure>(
                    0,
                ) ==> (layout::align_of(table, fields[i]) matches Ok(a) && a <= align)
            &&& align == 1 || exists|i: int|
                0 <= i < count && layout::size_of(table, #[trigger] fields[i]) != Ok::<
                    u64,
                    Failure,
                >(0) && layout::align_of(table, fields[i]) == Ok::<u64, Failure>(align)
        }),
    decreases count,
{
    if count > 0 {
        lemma_widest(table, bound, fields, (count - 1) as nat);
        let last = fields[count - 1];
        let align = layout::widest(table, bound, fields, count)->Ok_0;
        let before = layout::widest(table, bound, fields, (count - 1) as nat)->Ok_0;
        if align != before {
            assert(layout::align_of(table, last) == Ok::<u64, Failure>(align));
            assert(fields[count - 1] == last);
        } else if align != 1 {
            let i = choose|i: int|
                0 <= i < count - 1 && layout::size_of(table, #[trigger] fields[i]) != Ok::<
                    u64,
                    Failure,
                >(0) && layout::align_of(table, fields[i]) == Ok::<u64, Failure>(before);
            assert(fields[i] == fields[i]);
        }
    }
}

/// The largest alignment does not depend on the order of the fields.
pub proof fn lemma_widest_reordered(table: TyTable, ty: TyId, fields: Seq<TyId>)
    requires
        table.wf(),
        table.has(ty),
        fields.len() <= usize::MAX,
        layout::widest(table, ty.0, fields, fields.len()) is Ok,
        layout::widest(
            table,
            ty.0,
            convert::in_memory(table, ty, fields),
            fields.len(),
        ) is Ok,
    ensures
        layout::widest(table, ty.0, fields, fields.len()) == layout::widest(
            table,
            ty.0,
            convert::in_memory(table, ty, fields),
            fields.len(),
        ),
{
    let n = fields.len();
    let memory = convert::in_memory(table, ty, fields);
    let order = table.memory_order(ty, n);
    table.law_memory_order(ty, n);
    lemma_widest(table, ty.0, fields, n);
    lemma_widest(table, ty.0, memory, n);
    let a = layout::widest(table, ty.0, fields, n)->Ok_0;
    let b = layout::widest(table, ty.0, memory, n)->Ok_0;
    if a != 1 {
        let i = choose|i: int|
            0 <= i < n && layout::size_of(table, #[trigger] fields[i]) != Ok::<u64, Failure>(0)
                && layout::align_of(table, fields[i]) == Ok::<u64, Failure>(a);
        table.law_memory_position(ty, n, i as usize);
        let p = table.memory_position(ty, n, i as usize);
        assert(memory[p] == fields[i]);
        assert(a <= b);
    }
    if b != 1 {
        let j = choose|j: int|
            0 <= j < n && layout::size_of(table, #[trigger] memory[j]) != Ok::<u64, Failure>(0)
                && layout::align_of(table, memory[j]) == Ok::<u64, Failure>(b);
        assert(order[j] < n);
        assert(memory[j] == fields[order[j] as int]);
        assert(b <= a);
    }
}

/// Alignments of fields are known where their sizes are.
proof fn lemma_struct_like(table: TyTable, ty: TyId, fields: Seq<TyId>, converted: Seq<TypeHandle>)
    requires
        table.wf(),
        table.has(ty),
        fields.len() <= usize::MAX,
        table.precede(fields, ty),
        converted.len() == fields.len(),
        layout::struct_size(table, ty.0, convert::in_memory(table, ty, fields)) is Ok,
        forall|i: int|
            0 <= i < fields.len() ==> agrees(
                table,
                #[trigger] convert::in_memory(table, ty, fields)[i],
                converted[i],
            ),
    ensures
        ({
            let size = layout::struct_size(table, ty.0, convert::in_memory(table, ty, fields));
            &&& match abi::struct_size(TypeList::of(converted), 0, 1) {
                Err(failure) => false,
                Ok((end, align)) => abi::aligned(end, align) == size,
            }
            &&& layout::widest(table, ty.0, fields, fields.len()) is Ok
            &&& abi::struct_align(TypeList::of(converted), 1) == layout::widest(
                table,
                ty.0,
                fields,
                fields.len(),
            )
        }),
{
    let memory = convert::in_memory(table, ty, fields);
    table.law_memory_order(ty, fields.len());
    assert forall|i: int| 0 <= i < memory.len() implies (#[trigger] memory[i]).0 < ty.0 by {
        assert(table.memory_order(ty, fields.len())[i] < fields.len());
    }
    assert(converted.skip(0) =~= converted);
    lemma_fields(table, ty.0, memory, converted, 0);
    lemma_source_widest(table, ty, fields, fields.len());
    lemma_widest_reordered(table, ty, fields);
}

/// The source order has a largest alignment where memory order has.
proof fn lemma_source_widest(table: TyTable, ty: TyId, fields: Seq<TyId>, count: nat)
    requires
        table.wf(),
        table.has(ty),
        count <= fields.len() <= usize::MAX,
        table.precede(fields, ty),
        layout::laid_out(
            table,
            ty.0,
            convert::in_memory(table, ty, fields),
            fields.len(),
        ) is Ok,
    ensures
        layout::widest(table, ty.0, fields, count) is Ok,
    decreases count,
{
    if count > 0 {
        lemma_source_widest(table, ty, fields, (count - 1) as nat);
        let memory = convert::in_memory(table, ty, fields);
        let i = (count - 1) as usize;
        table.law_memory_order(ty, fields.len());
        table.law_memory_position(ty, fields.len(), i);
        let p = table.memory_position(ty, fields.len(), i);
        assert(memory[p] == fields[i as int]);
        lemma_laid_out_item(table, ty.0, memory, fields.len(), p);
    }
}

proof fn lemma_laid_out_item(table: TyTable, bound: usize, fields: Seq<TyId>, count: nat, i: int)
    requires
        count <= fields.len(),
        layout::laid_out(table, bound, fields, count) is Ok,
        0 <= i < count,
    ensures
        layout::size_of(table, fields[i]) is Ok,
        layout::size_of(table, fields[i]) != Ok::<u64, Failure>(0) ==> layout::align_of(
            table,
            fields[i],
        ) is Ok,
    decreases count,
{
    if i < count - 1 {
        lemma_laid_out_item(table, bound, fields, (count - 1) as nat, i);
    }
}

/// Layout follows conversion: a type has the size of its converted type, and
/// its alignment too where the size is not zero.
pub proof fn law_layout_mirrors_conversion(table: TyTable, ty: TyId)
    requires
        table.wf(),
        table.has(ty),
        is_regular(table, ty),
        convert::converted(table, ty) is Ok,
    ensures
        agrees(table, ty, convert::converted(table, ty)->Ok_0),
    decreases ty.0, 2nat,
{
    let inner = table.normal(ty);
    table.lemma_normal(ty);
    assert(table.ty_wf(inner));
    if layout::size_of(table, ty) is Ok {
        match table.kind(inner) {
            TyKind::Tuple(fields) => lemma_tuple(table, ty),
            TyKind::Closure(fields) => lemma_named(table, ty, fields@),
            TyKind::Adt(kind, fields, _) => {
                if table.is_fmt_argument(inner) {
                    lemma_pairs();
                } else {
                    match kind {
                        AdtKind::Struct => lemma_named(table, ty, fields@),
                        AdtKind::Union => lemma_union(table, ty),
                        AdtKind::Enum => lemma_enum(table, inner),
                    }
                }
            },
            TyKind::Array(elem, len) => {
                assert(table.parts(inner)[0] == elem);
                law_layout_mirrors_conversion(table, elem);
                lemma_array(table, inner, elem, len->0);
            },
            TyKind::Ref(pointee) => lemma_pointer(table, inner.0, pointee),
            TyKind::RawPtr(pointee) => lemma_pointer(table, inner.0, pointee),
            _ => lemma_pairs(),
        }
    }
}

proof fn lemma_tuple(table: TyTable, ty: TyId)
    requires
        table.wf(),
        table.has(ty),
        table.kind(table.normal(ty)) is Tuple,
        is_regular(table, ty),
        convert::converted(table, ty) is Ok,
        layout::size_of(table, ty) is Ok,
    ensures
        agrees(table, ty, convert::converted(table, ty)->Ok_0),
    decreases ty.0, 1nat,
{
    let inner = table.normal(ty);
    table.lemma_normal(ty);
    assert(table.ty_wf(inner));
    if let TyKind::Tuple(fields) = table.kind(inner) {
        assert(fields.len() == fields@.len());
        assert(layout::ordered_size(table, inner) is Ok);
        if fields@.len() > 0 {
            lemma_struct_type(table, inner, fields@);
        } else {
            lemma_pairs();
            let memory = convert::in_memory(table, inner, fields@);
            table.law_memory_order(inner, 0);
            assert(memory.len() == 0);
            assert(layout::laid_out(table, inner.0, memory, 0)->Ok_0.1 == 0);
            assert(layout::struct_size(table, inner.0, memory) == Ok::<u64, Failure>(0));
        }
    }
}

proof fn lemma_named(table: TyTable, ty: TyId, fields: Seq<TyId>)
    requires
        table.wf(),
        table.has(ty),
        match table.kind(table.normal(ty)) {
            TyKind::Closure(list) => list@ == fields && list@.len() == list.len(),
            TyKind::Adt(AdtKind::Struct, list, _) => list@ == fields && list@.len() == list.len(),
            _ => false,
        },
        is_regular(table, ty),
        convert::converted(table, ty) is Ok,
        layout::size_of(table, ty) is Ok,
    ensures
        agrees(table, ty, convert::converted(table, ty)->Ok_0),
    decreases ty.0, 1nat,
{
    let inner = table.normal(ty);
    table.lemma_normal(ty);
    assert(table.ty_wf(inner));
    assert(layout::ordered_size(table, inner) is Ok);
    lemma_struct_type(table, inner, fields);
}

proof fn lemma_union(table: TyTable, ty: TyId)
    requires
        table.wf(),
        table.has(ty),
        table.kind(table.normal(ty)) matches TyKind::Adt(AdtKind::Union, _, _),
        is_regular(table, ty),
        convert::converted(table, ty) is Ok,
        layout::size_of(table, ty) is Ok,
    ensures
        agrees(table, ty, convert::converted(table, ty)->Ok_0),
{
    let inner = table.normal(ty);
    table.lemma_normal(ty);
    lemma_pairs();
    let size = layout::size_of(table, ty)->Ok_0;
    lemma_union_inner(table, ty);
    if size == 0 {
        lemma_wrapped(inner, convert::unit(), 0, 1);
    } else {
        lemma_array_size(types::unsigned(8), size, 1);
        lemma_wrapped(inner, convert::union_bytes(size), size, 1);
    }
}

/// A resolved union has the size that it has unresolved.
proof fn lemma_union_inner(table: TyTable, ty: TyId)
    requires
        table.wf(),
        table.has(ty),
        table.kind(table.normal(ty)) matches TyKind::Adt(AdtKind::Union, _, _),
        convert::converted(table, ty) is Ok,
        !convert::is_fmt_arguments(table, table.normal(ty)),
        !table.is_fmt_argument(table.normal(ty)),
        layout::size_of(table, ty) is Ok,
        table.normal(table.normal(ty)) == table.normal(ty),
    ensures
        convert::converted(table, ty)->Ok_0 == convert::named(
            table.normal(ty),
            seq![convert::union_bytes(layout::size_of(table, ty)->Ok_0)],
        ),
{
}

proof fn lemma_enum(table: TyTable, ty: TyId)
    requires
        is_wordly(table, ty),
        layout::real_size(table, ty) is Ok,
        convert::enum_blob(table, ty) is Ok,
    ensures
        ({
            let size = layout::real_size(table, ty)->Ok_0;
            let blob = convert::enum_blob(table, ty)->Ok_0;
            &&& abi::ty_size(blob) == Ok::<u64, Failure>(size)
            &&& abi::ty_align(blob) is Ok
            &&& size != 0 ==> abi::ty_align(blob) == layout::enum_align(table, ty)
        }),
{
    lemma_pairs();
    let size = layout::real_size(table, ty)->Ok_0;
    if size != 0 {
        let align = layout::enum_align(table, ty)->Ok_0;
        let elem = types::unsigned((align * 8) as u32);
        let count = (size / align) as u64;
        assert(abi::ty_size(elem) == Ok::<u64, Failure>(align));
        assert(align * count == size) by (nonlinear_arith)
            requires
                size % align == 0,
                count == size / align,
                align > 0,
        ;
        lemma_array_size(elem, count, align);
        assert(size + align - 1 <= u64::MAX) by {
            assert(u64::MAX % align == (align - 1) as u64);
        }
        lemma_wrapped(ty, types::array_of(elem, count), size, align);
    }
}

proof fn lemma_array(table: TyTable, ty: TyId, elem: TyId, len: u64)
    requires
        convert::converted(table, elem) is Ok,
        agrees(table, elem, convert::converted(table, elem)->Ok_0),
        layout::stride_of(layout::size_of(table, elem), layout::align_of(table, elem)) is Ok,
        abi::as_size(
            layout::stride_of(layout::size_of(table, elem), layout::align_of(table, elem))->Ok_0
                * len,
        ) is Ok,
    ensures
        ({
            let array = types::array_of(convert::converted(table, elem)->Ok_0, len);
            let size = abi::as_size(
                layout::stride_of(layout::size_of(table, elem), layout::align_of(table, elem))->Ok_0
                    * len,
            );
            &&& abi::ty_size(array) == size
            &&& abi::ty_align(array) is Ok
            &&& size != Ok::<u64, Failure>(0) ==> abi::ty_align(array) == layout::align_of(
                table,
                elem,
            )
        }),
{
    let size = layout::size_of(table, elem)->Ok_0;
    let converted = convert::converted(table, elem)->Ok_0;
    lemma_aligned_zero(layout::align_of(table, elem)->Ok_0);
    lemma_aligned_zero(abi::ty_align(converted)->Ok_0);
    let stride = layout::stride_of(layout::size_of(table, elem), layout::align_of(table, elem))->Ok_0;
    if size == 0 {
        assert(stride == 0);
        assert(stride * len == 0) by (nonlinear_arith)
            requires
                stride == 0,
        ;
    }
}

/// A struct-like type has the size and alignment of a struct of its converted
/// fields.
proof fn lemma_struct_type(table: TyTable, ty: TyId, fields: Seq<TyId>)
    requires
        table.wf(),
        table.has(ty),
        fields.len() <= usize::MAX,
        table.precede(fields, ty),
        all_regular(table, ty.0, fields, fields.len()),
        layout::ordered(table, ty) == Ok::<Seq<TyId>, Failure>(
            convert::in_memory(table, ty, fields),
        ),
        layout::ordered_size(table, ty) is Ok,
        convert::converted_list(
            table,
            ty.0,
            convert::in_memory(table, ty, fields),
            fields.len(),
        ) is Ok,
    ensures
        ({
            let list = convert::converted_list(
                table,
                ty.0,
                convert::in_memory(table, ty, fields),
                fields.len(),
            )->Ok_0;
            &&& match abi::struct_size(TypeList::of(list), 0, 1) {
                Err(failure) => false,
                Ok((end, align)) => abi::aligned(end, align) == layout::ordered_size(table, ty),
            }
            &&& layout::widest(table, ty.0, fields, fields.len()) is Ok
            &&& abi::struct_align(TypeList::of(list), 1) == layout::widest(
                table,
                ty.0,
                fields,
                fields.len(),
            )
        }),
    decreases ty.0, 0nat,
{
    let memory = convert::in_memory(table, ty, fields);
    let list = convert::converted_list(table, ty.0, memory, fields.len())->Ok_0;
    table.law_memory_order(ty, fields.len());
    lemma_converted_len(table, ty.0, memory, fields.len());
    assert forall|i: int| 0 <= i < fields.len() implies agrees(
        table,
        #[trigger] memory[i],
        list[i],
    ) by {
        let source = table.memory_order(ty, fields.len())[i];
        assert(source < fields.len());
        lemma_all_regular(table, ty.0, fields, fields.len(), source as int);
        lemma_converted_item(table, ty.0, memory, fields.len(), i);
        assert(memory[i] == fields[source as int]);
        law_layout_mirrors_conversion(table, memory[i]);
    }
    lemma_struct_like(table, ty, fields, list);
}

/// No type converts to one with an integer wider than a bit pattern: what is
/// said of values of types without such integers holds of all that a program
/// has.
pub proof fn law_converted_is_narrow(table: TyTable, ty: TyId)
    requires
        table.wf(),
        table.has(ty),
        convert::converted(table, ty) is Ok,
    ensures
        sem::narrow(convert::converted(table, ty)->Ok_0),
    decreases ty.0, 1nat, 0nat,
{
    let inner = table.normal(ty);
    table.lemma_normal(ty);
    assert(table.ty_wf(inner));
    assert(sem::narrow(types::unsigned(8)));
    assert(sem::narrow(convert::unit()));
    match table.kind(inner) {
        TyKind::Tuple(fields) => {
            assert(fields.len() == fields@.len());
            if fields@.len() > 0 {
                lemma_narrow_fields(table, inner, fields@, fields@.len());
            }
        },
        TyKind::Closure(fields) => {
            assert(fields.len() == fields@.len());
            lemma_narrow_fields(table, inner, fields@, fields@.len());
        },
        TyKind::Array(elem, _) => law_converted_is_narrow(table, elem),
        TyKind::Slice(elem) => law_converted_is_narrow(table, elem),
        TyKind::Ref(pointee) => lemma_narrow_pointer(table, inner.0, pointee),
        TyKind::RawPtr(pointee) => lemma_narrow_pointer(table, inner.0, pointee),
        TyKind::Adt(kind, fields, _) => {
            lemma_narrow_types(seq![types::pointer(), types::pointer()]);
            assert(fields.len() == fields@.len());
            match kind {
                AdtKind::Struct => {
                    if !convert::is_fmt_arguments(table, inner) {
                        lemma_narrow_fields(table, inner, fields@, fields@.len());
                    }
                },
                AdtKind::Union => {
                    if let Ok(size) = layout::size_of(table, inner) {
                        assert(sem::narrow(convert::union_bytes(size)));
                        lemma_narrow_types(seq![convert::union_bytes(size)]);
                    }
                },
                AdtKind::Enum => {
                    if let Ok(size) = layout::real_size(table, inner) {
                        if let Ok(align) = layout::enum_align(table, inner) {
                            let word = types::unsigned((align * 8) as u32);
                            assert(sem::narrow(word));
                            lemma_narrow_types(
                                seq![types::array_of(word, (size / align) as u64)],
                            );
                        }
                    }
                },
            }
        },
        _ => {},
    }
}

/// No pointer converts to a type with an integer wider than a bit pattern.
proof fn lemma_narrow_pointer(table: TyTable, bound: usize, pointee: TyId)
    requires
        convert::converted_pointer(table, bound, pointee) is Ok,
    ensures
        sem::narrow(convert::converted_pointer(table, bound, pointee)->Ok_0),
{
    assert(sem::narrow(types::pointer()));
    assert(sem::narrow(types::unsigned(64)));
    lemma_narrow_types(seq![types::pointer(), types::unsigned(64)]);
    lemma_narrow_types(seq![types::pointer(), types::pointer()]);
}

/// The converted types of fields hold no integer wider than a bit pattern.
proof fn lemma_narrow_fields(table: TyTable, ty: TyId, fields: Seq<TyId>, count: nat)
    requires
        table.wf(),
        table.has(ty),
        table.precede(fields, ty),
        count <= fields.len() <= usize::MAX,
        convert::converted_list(
            table,
            ty.0,
            convert::in_memory(table, ty, fields),
            count,
        ) is Ok,
    ensures
        ({
            let list = convert::converted_list(
                table,
                ty.0,
                convert::in_memory(table, ty, fields),
                count,
            )->Ok_0;
            &&& sem::narrow_list(TypeList::of(list))
            &&& forall|i: int| 0 <= i < list.len() ==> sem::narrow(#[trigger] list[i])
        }),
    decreases ty.0, 0nat, count,
{
    let memory = convert::in_memory(table, ty, fields);
    let list = convert::converted_list(table, ty.0, memory, count)->Ok_0;
    if count > 0 {
        table.law_memory_order(ty, fields.len());
        assert(table.memory_order(ty, fields.len())[count - 1] < fields.len());
        lemma_narrow_fields(table, ty, fields, (count - 1) as nat);
        law_converted_is_narrow(table, memory[count - 1]);
    }
    lemma_narrow_types(list);
}

/// A list of types without wide integers has none.
proof fn lemma_narrow_types(list: Seq<TypeHandle>)
    requires
        forall|i: int| 0 <= i < list.len() ==> sem::narrow(#[trigger] list[i]),
    ensures
        sem::narrow_list(TypeList::of(list)),
{
    TypeList::seq_of(list);
    sem::lemma_narrow_list(&TypeList::of(list));
}

} // verus!
