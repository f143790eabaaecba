//! What aggregates hold: the laws of building values of parts and of taking
//! them apart.

use crate::aggregate;
use crate::convert;
use crate::emit;
use crate::error::Failure;
use crate::ir::Meaning;
use crate::layout;
use crate::meaning;
use crate::mir::{AggregateKind, Operand, Projection, Rvalue};
use crate::mirror;
use crate::need::{Lost, Lowered};
use crate::numbers::operand_of;
use crate::operand;
use crate::operand::Scene;
use crate::ox;
use crate::place;
use crate::rvalue;
use crate::sem;
use crate::sem::{Env, Moment, Sem};
use crate::ty::{AdtKind, TyId, TyTable};
use crate::types;
use crate::types::{StructBody, TypeHandle};
use vstd::prelude::*;

verus! {

/// How many parts values of a type have.
pub open spec fn part_count(ty: TypeHandle) -> nat {
    match ty {
        TypeHandle::Array { size, .. } => size as nat,
        TypeHandle::Struct { body: StructBody::Fields(list), .. } => list.seq().len(),
        _ => 0,
    }
}

/// The type of a part.
pub open spec fn kind_at(ty: TypeHandle, index: int) -> TypeHandle {
    match ty {
        TypeHandle::Array { elem, .. } => *elem,
        TypeHandle::Struct { body: StructBody::Fields(list), .. } => list.seq()[index],
        _ => ty,
    }
}

/// Whether a value has the shape of its type in a run.
pub open spec fn is_shaped(value: Meaning, env: Env) -> bool {
    sem::shaped(value.ty, (value.den)(env)) == (value.den)(env)
}

/// The parts of a value that has the shape of its type.
pub proof fn lemma_parts(ty: &TypeHandle, whole: Sem)
    ensures
        part_count(*ty) > 0 ==> {
            &&& sem::shaped(*ty, whole) matches Sem::Agg(parts) && parts.len() == part_count(*ty)
            &&& forall|j: int|
                0 <= j < part_count(*ty) ==> #[trigger] sem::part(sem::shaped(*ty, whole), j)
                    == sem::shaped(kind_at(*ty, j), sem::part(whole, j))
        },
        sem::narrow(*ty) ==> forall|j: int|
            0 <= j < part_count(*ty) ==> sem::narrow(#[trigger] kind_at(*ty, j)),
{
    match ty {
        TypeHandle::Struct { body: StructBody::Fields(list), .. } => {
            sem::lemma_shaped_list(list, whole, 0);
            sem::lemma_narrow_list(list);
            assert forall|j: int| 0 <= j < part_count(*ty) implies #[trigger] sem::part(
                sem::shaped(*ty, whole),
                j,
            ) == sem::shaped(kind_at(*ty, j), sem::part(whole, j)) by {
                assert(sem::shaped_list(**list, whole, 0)[j] == sem::shaped(
                    list.seq()[j],
                    sem::part(whole, 0int + j),
                ));
            }
        },
        _ => {},
    }
}

/// Setting a part sets that part, and no other.
pub proof fn lemma_set_part(whole: Meaning, index: u32, new: Meaning, env: Env)
    requires
        sem::narrow(whole.ty),
        is_shaped(whole, env),
        index < part_count(whole.ty),
    ensures
        ({
            let r = meaning::with_field(whole, index, new);
            &&& r.ty == whole.ty
            &&& is_shaped(r, env)
            &&& sem::part((r.den)(env), index as int) == sem::shaped(
                kind_at(whole.ty, index as int),
                (new.den)(env),
            )
            &&& forall|j: int|
                0 <= j < part_count(whole.ty) && j != index ==> #[trigger] sem::part(
                    (r.den)(env),
                    j,
                ) == sem::part((whole.den)(env), j)
        }),
{
    let r = meaning::with_field(whole, index, new);
    let old = (whole.den)(env);
    let path = seq![index];
    assert(path.skip(1) =~= Seq::<u32>::empty());
    lemma_parts(&whole.ty, old);
    let changed = sem::with_part(old, path, (new.den)(env));
    assert(changed == Sem::Agg(old->Agg_0.update(index as int, (new.den)(env)))) by {
        reveal_with_fuel(sem::with_part, 2);
    }
    lemma_parts(&whole.ty, changed);
    sem::lemma_shaped_idem(&whole.ty, changed);
    assert forall|j: int| 0 <= j < part_count(whole.ty) && j != index implies #[trigger] sem::part(
        (r.den)(env),
        j,
    ) == sem::part(old, j) by {
        assert(sem::part(changed, j) == sem::part(old, j));
        assert(sem::part(sem::shaped(whole.ty, old), j) == sem::shaped(
            kind_at(whole.ty, j),
            sem::part(old, j),
        ));
    }
}

/// What a part of an aggregate is by the operand that it is made of: the
/// operand as a value of the type of the part.
pub open spec fn part_made(ty: TypeHandle, index: int, operand: Meaning, env: Env) -> Sem {
    sem::shaped(
        kind_at(ty, index),
        (meaning::as_type(operand, kind_at(ty, index)).den)(env),
    )
}

/// Where the operands of an aggregate go.
spec fn spreads(table: TyTable, rust_ty: Option<TyId>, ty: TypeHandle, count: nat) -> bool {
    &&& forall|k: int|
        0 <= k < count ==> (#[trigger] aggregate::part_index(table, rust_ty, k) matches Ok(
            index,
        ) ==> index < part_count(ty))
    &&& forall|k: int, l: int|
        0 <= k < l < count ==> #[trigger] aggregate::part_index(table, rust_ty, k)
            != #[trigger] aggregate::part_index(table, rust_ty, l) || aggregate::part_index(
            table,
            rust_ty,
            k,
        ) is Err
}

proof fn lemma_filled(
    scene: Scene,
    at: Moment,
    rust_ty: Option<TyId>,
    ty: TypeHandle,
    operands: Seq<Operand>,
    count: nat,
    env: Env,
)
    requires
        count <= operands.len(),
        sem::narrow(ty),
        aggregate::filled(scene, at, rust_ty, ty, operands, count) is Ok,
        spreads(scene.program.types, rust_ty, ty, count),
    ensures
        ({
            let r = aggregate::filled(scene, at, rust_ty, ty, operands, count)->Ok_0;
            &&& r.steps.len() == 0
            &&& r.value.ty == ty
            &&& is_shaped(r.value, env)
            &&& forall|k: int|
                0 <= k < count ==> {
                    let index = aggregate::part_index(scene.program.types, rust_ty, k);
                    &&& (#[trigger] aggregate::part_index(
                        scene.program.types,
                        rust_ty,
                        k,
                    )) is Ok
                    &&& operand::operand_value(scene, at, operands[k]) is Ok
                    &&& sem::part((r.value.den)(env), index->Ok_0 as int) == part_made(
                        ty,
                        index->Ok_0 as int,
                        operand_of(scene, at, operands[k]),
                        env,
                    )
                }
        }),
    decreases count,
{
    let table = scene.program.types;
    if count == 0 {
        sem::lemma_shaped_idem(&ty, Sem::Undef);
    } else {
        let last = count - 1;
        lemma_filled(scene, at, rust_ty, ty, operands, last as nat, env);
        let before = aggregate::filled(scene, at, rust_ty, ty, operands, last as nat)->Ok_0;
        let index = aggregate::part_index(table, rust_ty, last)->Ok_0;
        let value = operand_of(scene, at, operands[last]);
        let part = meaning::as_type(value, kind_at(ty, index as int));
        assert(aggregate::part_type(ty, index) == Ok::<TypeHandle, Failure>(
            kind_at(ty, index as int),
        ));
        lemma_set_part(before.value, index, part, env);
        let r = aggregate::filled(scene, at, rust_ty, ty, operands, count)->Ok_0;
        assert(r.value == meaning::with_field(before.value, index, part));
        assert forall|k: int| 0 <= k < count implies {
            let index = aggregate::part_index(table, rust_ty, k);
            &&& (#[trigger] aggregate::part_index(table, rust_ty, k)) is Ok
            &&& operand::operand_value(scene, at, operands[k]) is Ok
            &&& sem::part((r.value.den)(env), index->Ok_0 as int) == part_made(
                ty,
                index->Ok_0 as int,
                operand_of(scene, at, operands[k]),
                env,
            )
        } by {
            if k < last {
                let other = aggregate::part_index(table, rust_ty, k)->Ok_0;
                assert(aggregate::part_index(table, rust_ty, k) != aggregate::part_index(
                    table,
                    rust_ty,
                    last,
                ));
                assert(sem::part((r.value.den)(env), other as int) == sem::part(
                    (before.value.den)(env),
                    other as int,
                ));
            }
        }
    }
}

/// Each element of an array that is made of operands is the operand in its
/// place, as a value of the element type.
pub proof fn law_array_elements(
    scene: Scene,
    at: Moment,
    elem: TyId,
    operands: Vec<Operand>,
    i: int,
    env: Env,
)
    requires
        scene.program.types.wf(),
        scene.program.types.has(elem),
        rvalue::rvalue_value(
            scene,
            at,
            Rvalue::Aggregate(AggregateKind::Array(elem), operands),
        ) is Ok,
        0 <= i < operands@.len(),
    ensures
        ({
            let r = rvalue::rvalue_value(
                scene,
                at,
                Rvalue::Aggregate(AggregateKind::Array(elem), operands),
            )->Ok_0;
            let kind = convert::converted(scene.program.types, elem)->Ok_0;
            let value = operand_of(scene, at, operands@[i]);
            &&& r.steps.len() == 0
            &&& r.value.ty == types::array_of(kind, operands@.len() as u64)
            &&& (r.value.den)(env) matches Sem::Agg(parts) && parts.len() == operands@.len()
            &&& operand::operand_value(scene, at, operands@[i]) is Ok
            &&& sem::part((r.value.den)(env), i) == sem::shaped(
                kind,
                (meaning::as_type(value, kind).den)(env),
            )
            &&& value.ty == kind && is_shaped(value, env) ==> sem::part((r.value.den)(env), i) == (
            value.den)(env)
        }),
{
    let table = scene.program.types;
    assert(operands.len() == operands@.len());
    let kind = convert::converted(table, elem)->Ok_0;
    let ty = types::array_of(kind, operands@.len() as u64);
    mirror::law_converted_is_narrow(table, elem);
    assert(sem::narrow(ty));
    assert(spreads(table, None, ty, operands@.len()));
    lemma_filled(scene, at, None, ty, operands@, operands@.len(), env);
    let r = aggregate::filled(scene, at, None, ty, operands@, operands@.len())->Ok_0;
    lemma_parts(&ty, (r.value.den)(env));
    assert(aggregate::part_index(table, None, i) is Ok);
    assert(kind_at(ty, i) == kind);
}

/// A field taken out of a value.
pub proof fn lemma_field(whole: Meaning, index: u32, env: Env)
    requires
        meaning::has_field(whole, index),
    ensures
        index < part_count(whole.ty),
        meaning::field(whole, index).ty == kind_at(whole.ty, index as int),
        sem::narrow(whole.ty) ==> sem::narrow(kind_at(whole.ty, index as int)),
        sem::narrow(whole.ty) && is_shaped(whole, env) ==> {
            &&& (meaning::field(whole, index).den)(env) == sem::part(
                (whole.den)(env),
                index as int,
            )
            &&& is_shaped(meaning::field(whole, index), env)
        },
{
    lemma_field_type(whole.ty, index);
    lemma_parts(&whole.ty, (whole.den)(env));
    if sem::narrow(whole.ty) && is_shaped(whole, env) {
        sem::lemma_shaped_idem(
            &kind_at(whole.ty, index as int),
            sem::part((whole.den)(env), index as int),
        );
    }
}

/// The type of a field is that of the part.
pub proof fn lemma_field_type(ty: TypeHandle, index: u32)
    ensures
        emit::field_type(ty, index) is Some <==> index < part_count(ty),
        index < part_count(ty) ==> emit::field_type(ty, index) == Some(kind_at(ty, index as int)),
{
    reveal_with_fuel(ox::type_at, 2);
    assert(seq![index].skip(1) =~= Seq::<u32>::empty());
}

/// What an aggregate of operands gives.
pub open spec fn built_of(
    scene: Scene,
    at: Moment,
    kind: AggregateKind,
    operands: Vec<Operand>,
) -> Result<Lowered, Lost> {
    rvalue::rvalue_value(scene, at, Rvalue::Aggregate(kind, operands))
}

/// Whether an aggregate is a tuple, a closure or a struct of a type with as many
/// fields as there are operands.
pub open spec fn fills(table: TyTable, kind: AggregateKind, ty: TyId, count: nat) -> bool {
    &&& match kind {
        AggregateKind::Tuple(of) => of == ty,
        AggregateKind::Closure(of) => of == ty,
        AggregateKind::Adt(of, _) => of == ty && aggregate::is_adt(table, ty, AdtKind::Struct)
            && !table.is_fmt_argument(ty),
        _ => false,
    }
    &&& table.source_fields(table.normal(ty)) matches Some(fields) && fields.len() == count
    &&& convert::converted(table, ty) matches Ok(converted) && part_count(converted) == count
}

/// A field of a tuple, a closure or a struct that is made of operands is the
/// operand in its place, as a value of the type of the field.
pub proof fn law_fields_read_back(
    scene: Scene,
    at: Moment,
    kind: AggregateKind,
    ty: TyId,
    operands: Vec<Operand>,
    i: usize,
    field_ty: TyId,
    env: Env,
)
    requires
        scene.program.types.wf(),
        scene.program.types.has(ty),
        fills(scene.program.types, kind, ty, operands@.len()),
        built_of(scene, at, kind, operands) is Ok,
        i < operands@.len(),
        convert::converted(scene.program.types, field_ty) is Ok,
    ensures
        ({
            let r = built_of(scene, at, kind, operands)->Ok_0;
            let found = place::picked(
                scene.program.types,
                r.value,
                ty,
                seq![Projection::Field(i, field_ty)],
            );
            let value = operand_of(scene, at, operands@[i as int]);
            &&& r.steps.len() == 0
            &&& operand::operand_value(scene, at, operands@[i as int]) is Ok
            &&& found is Ok
            &&& (found->Ok_0.den)(env) == sem::shaped(
                found->Ok_0.ty,
                (meaning::as_type(value, found->Ok_0.ty).den)(env),
            )
            &&& value.ty == found->Ok_0.ty && is_shaped(value, env) ==> (found->Ok_0.den)(env) == (
            value.den)(env)
        }),
{
    let table = scene.program.types;
    let n = operands@.len();
    assert(operands.len() == n);
    let inner = table.normal(ty);
    table.lemma_normal(ty);
    let converted = convert::converted(table, ty)->Ok_0;
    mirror::law_converted_is_narrow(table, ty);
    assert forall|k: int| 0 <= k < n implies (#[trigger] aggregate::part_index(
        table,
        Some(ty),
        k,
    ) matches Ok(index) ==> index < part_count(converted) && index == table.memory_position(
        inner,
        n,
        k as usize,
    )) by {
        table.law_memory_position(inner, n, k as usize);
    }
    assert forall|k: int, l: int| 0 <= k < l < n implies #[trigger] aggregate::part_index(
        table,
        Some(ty),
        k,
    ) != #[trigger] aggregate::part_index(table, Some(ty), l) || aggregate::part_index(
        table,
        Some(ty),
        k,
    ) is Err by {
        table.law_memory_position(inner, n, k as usize);
        table.law_memory_position(inner, n, l as usize);
    }
    assert(aggregate::ordering_type(kind) == Some(ty));
    lemma_filled(scene, at, Some(ty), converted, operands@, n, env);
    let r = aggregate::filled(scene, at, Some(ty), converted, operands@, n)->Ok_0;
    assert(aggregate::part_index(table, Some(ty), i as int) is Ok);
    let index = aggregate::part_index(table, Some(ty), i as int)->Ok_0;
    assert(place::field_index(table, ty, i) == Ok::<u32, Failure>(index));
    lemma_field_type(converted, index);
    lemma_field(r.value, index, env);
    let projection = seq![Projection::Field(i, field_ty)];
    assert(projection.skip(1) =~= Seq::<Projection>::empty());
    reveal_with_fuel(place::picked, 2);
    assert(place::picked(table, r.value, ty, projection) == Ok::<Meaning, Failure>(
        meaning::field(r.value, index),
    ));
}

/// Every element of an array of copies is the value that is copied, as a value
/// of the element type.
pub proof fn law_repeated_elements(
    scene: Scene,
    at: Moment,
    operand: Operand,
    len: u64,
    i: int,
    env: Env,
)
    requires
        scene.program.types.wf(),
        scene.program.types.has(operand.ty()),
        rvalue::rvalue_value(scene, at, Rvalue::Repeat(operand, Some(len))) is Ok,
        0 <= i < len,
    ensures
        ({
            let r = rvalue::rvalue_value(scene, at, Rvalue::Repeat(operand, Some(len)))->Ok_0;
            let kind = convert::converted(scene.program.types, operand.ty())->Ok_0;
            let value = operand_of(scene, at, operand);
            &&& r.steps.len() == 0
            &&& r.value.ty == types::array_of(kind, len)
            &&& (r.value.den)(env) matches Sem::Agg(parts) && parts.len() == len
            &&& sem::part((r.value.den)(env), i) == sem::shaped(
                kind,
                (meaning::as_type(value, kind).den)(env),
            )
        }),
{
    let table = scene.program.types;
    let kind = convert::converted(table, operand.ty())->Ok_0;
    let ty = types::array_of(kind, len);
    mirror::law_converted_is_narrow(table, operand.ty());
    assert(sem::narrow(ty));
    let value = meaning::as_type(operand_of(scene, at, operand), kind);
    lemma_repeated(ty, value, len as nat, i, env);
    lemma_parts(&ty, (rvalue::repeated(ty, value, len as nat).den)(env));
}

proof fn lemma_repeated(ty: TypeHandle, value: Meaning, count: nat, i: int, env: Env)
    requires
        sem::narrow(ty),
        ty is Array,
        count <= ty->Array_size,
        count <= 0x1_0000_0000,
    ensures
        ({
            let r = rvalue::repeated(ty, value, count);
            &&& r.ty == ty
            &&& is_shaped(r, env)
            &&& 0 <= i < count ==> sem::part((r.den)(env), i) == sem::shaped(
                kind_at(ty, i),
                (value.den)(env),
            )
        }),
    decreases count,
{
    if count == 0 {
        sem::lemma_shaped_idem(&ty, Sem::Undef);
    } else {
        let before = rvalue::repeated(ty, value, (count - 1) as nat);
        lemma_repeated(ty, value, (count - 1) as nat, i, env);
        lemma_set_part(before, (count - 1) as u32, value, env);
    }
}

/// A pointer to a slice that is made of an address and a length holds the
/// address and the length, in this order.
pub proof fn law_slice_pointer_parts(
    scene: Scene,
    at: Moment,
    pointee: TyId,
    ptr: TyId,
    operands: Vec<Operand>,
    env: Env,
)
    requires
        scene.program.types.kind(scene.program.types.runtime(pointee)) is Slice,
        convert::converted(scene.program.types, ptr) == Ok::<TypeHandle, Failure>(
            convert::sized_pointer(),
        ),
        built_of(scene, at, AggregateKind::RawPtr(pointee, ptr), operands) is Ok,
        operand_of(scene, at, operands@[0]).ty.is_ptr(),
        (operand_of(scene, at, operands@[0]).den)(env) is Bits,
        operand_of(scene, at, operands@[0]).bits(env) < sem::modulus(64),
        operand_of(scene, at, operands@[1]).ty == types::unsigned(64),
        is_shaped(operand_of(scene, at, operands@[1]), env),
    ensures
        ({
            let r = built_of(scene, at, AggregateKind::RawPtr(pointee, ptr), operands)->Ok_0;
            let data = operand_of(scene, at, operands@[0]);
            let len = operand_of(scene, at, operands@[1]);
            &&& operands@.len() == 2
            &&& r.steps.len() == 0
            &&& sem::part((r.value.den)(env), 0) == Sem::Bits(data.bits(env))
            &&& sem::part((r.value.den)(env), 1) == (len.den)(env)
        }),
{
    let data = operand_of(scene, at, operands@[0]);
    let len = operand_of(scene, at, operands@[1]);
    sem::lemma_wrap_small(64, data.bits(env) as int);
    lemma_pair_parts(
        convert::sized_pointer(),
        types::pointer(),
        types::unsigned(64),
        meaning::as_type(data, types::pointer()),
        len,
        env,
    );
}

/// A pair holds its two parts.
pub proof fn lemma_pair_parts(
    ty: TypeHandle,
    a: TypeHandle,
    b: TypeHandle,
    first: Meaning,
    second: Meaning,
    env: Env,
)
    requires
        ty == types::pair_of(a, b),
        sem::narrow(a),
        sem::narrow(b),
    ensures
        ({
            let r = meaning::pair(ty, first, second);
            &&& r.ty == ty
            &&& is_shaped(r, env)
            &&& sem::part((r.den)(env), 0) == sem::shaped(a, (first.den)(env))
            &&& sem::part((r.den)(env), 1) == sem::shaped(b, (second.den)(env))
        }),
{
    sem::lemma_pair(a, b);
    let empty = meaning::undefined(ty);
    sem::lemma_shaped_idem(&ty, Sem::Undef);
    assert(part_count(ty) == 2) by {
        assert(ty.fields() == Some(seq![a, b]));
    }
    assert(kind_at(ty, 0) == a && kind_at(ty, 1) == b) by {
        assert(ty.fields()->0[0] == a && ty.fields()->0[1] == b);
    }
    lemma_set_part(empty, 0, first, env);
    let half = meaning::with_field(empty, 0, first);
    lemma_set_part(half, 1, second, env);
    let r = meaning::with_field(half, 1, second);
    assert(sem::part((r.den)(env), 0) == sem::part((half.den)(env), 0));
}

/// A union that is made of a field with a size is that field.
pub proof fn law_union_of_field(
    scene: Scene,
    at: Moment,
    ty: TyId,
    variant: u32,
    operands: Vec<Operand>,
)
    requires
        aggregate::is_adt(scene.program.types, ty, AdtKind::Union),
        convert::converted(scene.program.types, ty) is Ok,
        operands@.len() == 1,
        layout::size_of(scene.program.types, operands@[0].ty()) matches Ok(size) && size != 0,
        operand::operand_value(scene, at, operands@[0]) is Ok,
    ensures
        ({
            let r = built_of(scene, at, AggregateKind::Adt(ty, variant), operands);
            r matches Ok(lowered) && lowered.value == operand_of(scene, at, operands@[0])
        }),
{
}

/// Values that are one in a run have the same fields.
pub proof fn lemma_picked_same(
    table: TyTable,
    a: Meaning,
    b: Meaning,
    ty: TyId,
    projection: Seq<Projection>,
    env: Env,
)
    requires
        a.ty == b.ty,
        (a.den)(env) == (b.den)(env),
    ensures
        match (
            place::picked(table, a, ty, projection),
            place::picked(table, b, ty, projection),
        ) {
            (Ok(x), Ok(y)) => x.ty == y.ty && (x.den)(env) == (y.den)(env),
            (Err(x), Err(y)) => x == y,
            _ => false,
        },
    decreases projection.len(),
{
    if projection.len() > 0 {
        if let Projection::Field(index, field_ty) = projection[0] {
            if let Ok(found) = place::one_field(table, a, ty, index, field_ty) {
                lemma_picked_same(
                    table,
                    meaning::field(a, found),
                    meaning::field(b, found),
                    field_ty,
                    projection.skip(1),
                    env,
                );
            }
        }
    }
}

/// A field that is replaced in a value is what it was replaced by, and a field
/// beside it is what it was.
pub proof fn law_replaced_field(
    table: TyTable,
    whole: Meaning,
    ty: TyId,
    projection: Seq<Projection>,
    new: Meaning,
    env: Env,
)
    requires
        sem::narrow(whole.ty),
        is_shaped(whole, env),
        projection.len() > 0,
        place::picked(table, whole, ty, projection) is Ok,
        place::replaced(table, whole, ty, projection, new) is Ok,
    ensures
        ({
            let r = place::replaced(table, whole, ty, projection, new)->Ok_0;
            let old = place::picked(table, whole, ty, projection)->Ok_0;
            let found = place::picked(table, r, ty, projection);
            &&& r.ty == whole.ty
            &&& is_shaped(r, env)
            &&& found is Ok
            &&& found->Ok_0.ty == old.ty
            &&& (found->Ok_0.den)(env) == sem::shaped(old.ty, (new.den)(env))
            &&& forall|other: usize, other_ty: TyId|
                place::field_index(table, ty, other) != place::field_index(
                    table,
                    ty,
                    projection[0]->Field_0,
                ) ==> match (
                    #[trigger] place::picked(
                        table,
                        r,
                        ty,
                        seq![Projection::Field(other, other_ty)],
                    ),
                    place::picked(table, whole, ty, seq![Projection::Field(other, other_ty)]),
                ) {
                    (Ok(x), Ok(y)) => x.ty == y.ty && (x.den)(env) == (y.den)(env),
                    (Err(x), Err(y)) => x == y,
                    _ => false,
                }
        }),
    decreases projection.len(),
{
    let rest = projection.skip(1);
    let source = projection[0]->Field_0;
    let field_ty = projection[0]->Field_1;
    let index = place::one_field(table, whole, ty, source, field_ty)->Ok_0;
    let field = meaning::field(whole, index);
    let r = place::replaced(table, whole, ty, projection, new)->Ok_0;
    lemma_field_type(whole.ty, index);
    lemma_field(whole, index, env);
    let part = if projection.len() == 1 {
        assert(rest =~= Seq::<Projection>::empty());
        new
    } else {
        law_replaced_field(table, field, field_ty, rest, new, env);
        place::replaced(table, field, field_ty, rest, new)->Ok_0
    };
    assert(r == meaning::with_field(whole, index, part));
    lemma_set_part(whole, index, part, env);
    lemma_field(r, index, env);
    if projection.len() > 1 {
        assert((meaning::field(r, index).den)(env) == (part.den)(env));
        lemma_picked_same(table, meaning::field(r, index), part, field_ty, rest, env);
    } else {
        assert(place::picked(table, meaning::field(r, index), field_ty, rest) == Ok::<
            Meaning,
            Failure,
        >(meaning::field(r, index)));
    }
    assert forall|other: usize, other_ty: TyId|
        place::field_index(table, ty, other) != place::field_index(
            table,
            ty,
            projection[0]->Field_0,
        ) implies match (
        #[trigger] place::picked(table, r, ty, seq![Projection::Field(other, other_ty)]),
        place::picked(table, whole, ty, seq![Projection::Field(other, other_ty)]),
    ) {
        (Ok(x), Ok(y)) => x.ty == y.ty && (x.den)(env) == (y.den)(env),
        (Err(x), Err(y)) => x == y,
        _ => false,
    } by {
        let one = seq![Projection::Field(other, other_ty)];
        assert(one.skip(1) =~= Seq::<Projection>::empty());
        reveal_with_fuel(place::picked, 2);
        if let Ok(beside) = place::one_field(table, whole, ty, other, other_ty) {
            lemma_field(whole, beside, env);
            lemma_field(r, beside, env);
            assert(sem::part((r.den)(env), beside as int) == sem::part(
                (whole.den)(env),
                beside as int,
            ));
        }
    }
}

} // verus!
