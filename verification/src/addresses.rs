//! Where things lie: the laws of the ways to places, and of reading and writing
//! there.

use crate::aggregate;
use crate::convert;
use crate::enums;
use crate::error::{Failure, PlaceTy};
use crate::ir::Meaning;
use crate::layout;
use crate::meaning;
use crate::meaning::Step;
use crate::mir::{AggregateKind, Operand, Place, Projection, Rvalue, Statement};
use crate::mirror;
use crate::numbers;
use crate::numbers::operand_of;
use crate::operand;
use crate::operand::Scene;
use crate::parts;
use crate::place;
use crate::place::Spot;
use crate::rvalue;
use crate::sem;
use crate::sem::{Env, Moment, Sem};
use crate::statement;
use crate::ty::{AdtKind, TagEncoding, TyId, TyKind, TyTable, Variants};
use crate::types;
use crate::types::{Signedness, TypeHandle};
use vstd::prelude::*;

verus! {

/// Whether a value is an address in a run.
pub open spec fn is_address(value: Meaning, env: Env) -> bool {
    (value.den)(env) is Bits && value.bits(env) < sem::modulus(64)
}

/// Whether an address lies a number of bytes behind another, modulo the
/// addresses that there are.
pub open spec fn lies_behind(there: Meaning, base: Meaning, bytes: int, env: Env) -> bool {
    &&& is_address(there, env)
    &&& there.bits(env) == (base.bits(env) + bytes) % sem::modulus(64)
}

/// The address a number of bytes behind another.
pub proof fn lemma_past(base: Meaning, bytes: u64, env: Env)
    requires
        is_address(base, env),
    ensures
        lies_behind(meaning::past(base, bytes), base, bytes as int, env),
{
    let m = sem::modulus(64);
    vstd::arithmetic::div_mod::lemma_small_mod(base.bits(env) as nat, m as nat);
    if bytes != 0 {
        vstd::arithmetic::div_mod::lemma_small_mod(0, m as nat);
        numbers::lemma_moved(
            base,
            meaning::constant(types::unsigned(64), bytes as u128),
            bytes as int,
            env,
        );
        vstd::arithmetic::div_mod::lemma_mod_bound(base.bits(env) + bytes, m);
    }
}

/// Whether an enum has a layout that lists a field of a variant.
pub open spec fn lists_field(table: TyTable, ty: TyId, variant: u32, index: usize) -> bool {
    let inner = table.runtime(ty);
    &&& table.kind(inner) matches TyKind::Adt(AdtKind::Enum, _, variants) && variant
        < variants@.len() && index < variants@[variant as int].fields
    &&& table.info(inner).layout matches Some(layout) && variant < layout.variant_offsets@.len()
        && index < layout.variant_offsets@[variant as int]@.len()
}

/// The offset that the layout of an enum lists for a field of a variant.
pub open spec fn listed(table: TyTable, ty: TyId, variant: u32, index: usize) -> u64 {
    table.info(table.runtime(ty)).layout->0.variant_offsets@[variant as int]@[index as int]
}

/// A field of a variant of an enum lies where the layout lists it: two fields
/// whose listed ranges lie apart lie apart.
pub proof fn law_variant_fields(table: TyTable, ty: TyId, variant: u32, i: usize, j: usize)
    requires
        lists_field(table, ty, variant, i),
        lists_field(table, ty, variant, j),
    ensures
        layout::offset_of(table, ty, Some(variant), i) == Ok::<u64, Failure>(
            listed(table, ty, variant, i),
        ),
        forall|size: int|
            listed(table, ty, variant, i) + size <= listed(table, ty, variant, j)
                ==> #[trigger] (layout::offset_of(table, ty, Some(variant), i)->Ok_0 + size)
                <= layout::offset_of(table, ty, Some(variant), j)->Ok_0,
{
}

/// A field of a variant of an enum at an address lies as many bytes behind the
/// address as the layout lists.
pub proof fn law_variant_field_address(
    scene: Scene,
    at: Moment,
    spot: Spot,
    ty: TyId,
    variant: u32,
    index: usize,
    field_ty: TyId,
    env: Env,
)
    requires
        spot.ty == PlaceTy::Ty(ty),
        !(spot.addr.ty is Struct),
        is_address(spot.addr, env),
        lists_field(scene.program.types, ty, variant, index),
    ensures
        ({
            let table = scene.program.types;
            let cast = one_step(scene, at, Projection::Downcast(variant), spot);
            let field = one_step(scene, at, Projection::Field(index, field_ty), cast->Ok_0);
            &&& cast is Ok
            &&& field matches Ok(there) && there.ty == PlaceTy::Ty(field_ty) && lies_behind(
                there.addr,
                spot.addr,
                listed(table, ty, variant, index) as int,
                env,
            )
        }),
{
    reveal(place::project);
    lemma_past(spot.addr, listed(scene.program.types, ty, variant, index), env);
}

/// One step further on the way to a place of a body.
pub open spec fn one_step(scene: Scene, at: Moment, elem: Projection, spot: Spot) -> Result<
    Spot,
    Failure,
> {
    place::project(scene.program.types, scene.locals, scene.slots, at, elem, spot)
}

/// A variant of an enum that is made of operands is put together in memory: each
/// operand with a size is stored, in its stored form, as many bytes behind the
/// start as the layout lists for its field, and what is read from the start is
/// the value.
pub proof fn law_variant_is_stored(
    scene: Scene,
    at: Moment,
    ty: TyId,
    variant: u32,
    operands: Vec<Operand>,
    i: usize,
    env: Env,
)
    requires
        aggregate::is_adt(scene.program.types, ty, AdtKind::Enum),
        !scene.program.types.is_fmt_argument(ty),
        parts::built_of(scene, at, AggregateKind::Adt(ty, variant), operands) is Ok,
        convert::converted(scene.program.types, ty) matches Ok(blob) && !convert::is_unit(blob),
        i < operands@.len(),
        layout::size_of(scene.program.types, operands@[i as int].ty()) != Ok::<u64, Failure>(0),
    ensures
        ({
            let table = scene.program.types;
            let r = parts::built_of(scene, at, AggregateKind::Adt(ty, variant), operands)->Ok_0;
            let blob = convert::converted(table, ty)->Ok_0;
            let start = meaning::slot_at(at, blob);
            let operand = operands@[i as int];
            let kind = convert::converted(table, operand.ty());
            &&& r.steps.len() > 0 && r.steps[0] == (Step::Alloca { elem: blob })
            &&& r.value == meaning::loaded(meaning::later(at, r.steps.len()), start, blob)
            &&& kind is Ok
            &&& is_address(start, env)
            &&& exists|k: int, when: nat|
                0 < k < r.steps.len() && stores_at(
                    #[trigger] r.steps[k],
                    start,
                    table.info(ty).layout->0.variant_offsets@[variant as int]@[i as int] as int,
                    meaning::as_type(
                        place::as_stored(
                            table,
                            operand.ty(),
                            #[trigger] operand_of(scene, meaning::later(at, when), operand),
                        ),
                        kind->Ok_0,
                    ),
                    env,
                )
        }),
{
    let table = scene.program.types;
    let blob = convert::converted(table, ty)->Ok_0;
    let start = meaning::slot_at(at, blob);
    sem::lemma_wrap_range(64, (env.slot)(at) as int);
    let tag = enums::tag_write(table, ty, variant, start)->Ok_0;
    let first = seq![Step::Alloca { elem: blob }] + tag;
    assert(operands.len() == operands@.len());
    lemma_variant_fields(
        scene,
        at,
        ty,
        variant,
        start,
        operands@,
        first,
        operands@.len(),
        i,
        env,
    );
}

/// Whether a step stores a value a number of bytes behind a start.
pub open spec fn stores_at(step: Step, start: Meaning, bytes: int, value: Meaning, env: Env) -> bool {
    step matches Step::Store { addr, value: stored } && lies_behind(addr, start, bytes, env)
        && stored == value
}

proof fn lemma_variant_fields(
    scene: Scene,
    at: Moment,
    ty: TyId,
    variant: u32,
    slot: Meaning,
    operands: Seq<Operand>,
    first: Seq<Step>,
    count: nat,
    i: usize,
    env: Env,
)
    requires
        aggregate::variant_fields(scene, at, ty, variant, slot, operands, first, count) is Ok,
        count <= operands.len(),
        is_address(slot, env),
        first.len() > 0,
        layout::size_of(scene.program.types, operands[i as int].ty()) != Ok::<u64, Failure>(0),
    ensures
        ({
            let table = scene.program.types;
            let steps = aggregate::variant_fields(
                scene,
                at,
                ty,
                variant,
                slot,
                operands,
                first,
                count,
            )->Ok_0.steps;
            let operand = operands[i as int];
            let kind = convert::converted(table, operand.ty());
            &&& first.len() <= steps.len()
            &&& steps[0] == first[0]
            &&& i < count ==> kind is Ok && exists|k: int, when: nat|
                0 < k < steps.len() && stores_at(
                    #[trigger] steps[k],
                    slot,
                    table.info(ty).layout->0.variant_offsets@[variant as int]@[i as int] as int,
                    meaning::as_type(
                        place::as_stored(
                            table,
                            operand.ty(),
                            #[trigger] operand_of(scene, meaning::later(at, when), operand),
                        ),
                        kind->Ok_0,
                    ),
                    env,
                )
        }),
    decreases count,
{
    if count > 0 {
        let table = scene.program.types;
        let last = (count - 1) as nat;
        lemma_variant_fields(
            scene,
            at,
            ty,
            variant,
            slot,
            operands,
            first,
            last,
            i,
            env,
        );
        let before = aggregate::variant_fields(
            scene,
            at,
            ty,
            variant,
            slot,
            operands,
            first,
            last,
        )->Ok_0;
        let steps = aggregate::variant_fields(
            scene,
            at,
            ty,
            variant,
            slot,
            operands,
            first,
            count,
        )->Ok_0.steps;
        let operand = operands[i as int];
        if i < last {
            let kind = convert::converted(table, operand.ty())->Ok_0;
            let (k, when) = choose|k: int, when: nat|
                0 < k < before.steps.len() && stores_at(
                    #[trigger] before.steps[k],
                    slot,
                    table.info(ty).layout->0.variant_offsets@[variant as int]@[i as int] as int,
                    meaning::as_type(
                        place::as_stored(
                            table,
                            operand.ty(),
                            #[trigger] operand_of(scene, meaning::later(at, when), operand),
                        ),
                        kind,
                    ),
                    env,
                );
            assert(steps[k] == before.steps[k]);
            assert(operand_of(scene, meaning::later(at, when), operand)
                == operand_of(scene, meaning::later(at, when), operand));
        } else if i == last {
            let when = before.steps.len();
            let offset = layout::variant_offset(table, ty, variant, last as int)->Ok_0;
            lemma_past(slot, offset, env);
            assert(steps[when as int] is Store);
            assert(operand_of(scene, meaning::later(at, when), operand)
                == operand_of(scene, meaning::later(at, when), operand));
        }
    }
}

/// A field of a struct, a tuple, a closure or a union at an address lies as many
/// bytes behind the address as its offset says.
pub proof fn law_field_address(
    scene: Scene,
    at: Moment,
    spot: Spot,
    ty: TyId,
    index: usize,
    field_ty: TyId,
    env: Env,
)
    requires
        spot.ty == PlaceTy::Ty(ty),
        !(spot.addr.ty is Struct),
        is_address(spot.addr, env),
        layout::offset_of(scene.program.types, ty, spot.variant, index) is Ok,
    ensures
        one_step(scene, at, Projection::Field(index, field_ty), spot) matches Ok(there) && there.ty
            == PlaceTy::Ty(field_ty) && there.variant is None && lies_behind(
            there.addr,
            spot.addr,
            layout::offset_of(scene.program.types, ty, spot.variant, index)->Ok_0 as int,
            env,
        ),
{
    reveal(place::project);
    lemma_past(
        spot.addr,
        layout::offset_of(scene.program.types, ty, spot.variant, index)->Ok_0,
        env,
    );
}

/// A field behind a fat pointer lies as many bytes behind its first word as its
/// offset says; a field that has no size of its own keeps the second word.
pub proof fn law_fat_field_address(
    scene: Scene,
    at: Moment,
    spot: Spot,
    ty: TyId,
    index: usize,
    field_ty: TyId,
    word: TypeHandle,
    env: Env,
)
    requires
        spot.ty == PlaceTy::Ty(ty),
        spot.addr.ty == types::pair_of(types::pointer(), word),
        sem::narrow(word),
        parts::is_shaped(spot.addr, env),
        layout::offset_of(scene.program.types, ty, spot.variant, index) is Ok,
    ensures
        ({
            let table = scene.program.types;
            let offset = layout::offset_of(table, ty, spot.variant, index)->Ok_0;
            let first = sem::bits_of(sem::part((spot.addr.den)(env), 0));
            let second = sem::part((spot.addr.den)(env), 1);
            let r = one_step(scene, at, Projection::Field(index, field_ty), spot);
            let want = Sem::Bits(((first + offset) % sem::modulus(64)) as u128);
            &&& r matches Ok(there) && there.ty == PlaceTy::Ty(field_ty)
            &&& (r->Ok_0.addr.den)(env) == if table.info(table.runtime(field_ty)).sized {
                want
            } else {
                Sem::Agg(seq![want, second])
            }
        }),
{
    reveal(place::project);
    let table = scene.program.types;
    let offset = layout::offset_of(table, ty, spot.variant, index)->Ok_0;
    let pair = spot.addr.ty;
    sem::lemma_pair(types::pointer(), word);
    assert(parts::part_count(pair) == 2) by {
        assert(pair.fields() == Some(seq![types::pointer(), word]));
    }
    assert(parts::kind_at(pair, 0) == types::pointer() && parts::kind_at(pair, 1) == word) by {
        assert(pair.fields()->0[0] == types::pointer() && pair.fields()->0[1] == word);
    }
    parts::lemma_field_type(pair, 0);
    parts::lemma_field_type(pair, 1);
    parts::lemma_field(spot.addr, 0, env);
    parts::lemma_field(spot.addr, 1, env);
    let data = meaning::field(spot.addr, 0);
    sem::lemma_wrap_range(64, sem::bits_of(sem::part((spot.addr.den)(env), 0)) as int);
    assert(is_address(data, env)) by {
        parts::lemma_parts(&pair, (spot.addr.den)(env));
        assert(sem::part(sem::shaped(pair, (spot.addr.den)(env)), 0) == sem::shaped(
            types::pointer(),
            sem::part((spot.addr.den)(env), 0),
        ));
    }
    lemma_past(data, offset, env);
    let moved = meaning::past(data, offset);
    let keep = meaning::field(spot.addr, 1);
    parts::lemma_pair_parts(pair, types::pointer(), word, moved, keep, env);
    sem::lemma_wrap_small(64, moved.bits(env) as int);
    let whole = meaning::pair(pair, moved, keep);
    parts::lemma_parts(&pair, (whole.den)(env));
    assert((whole.den)(env)->Agg_0 =~= seq![
        sem::part((whole.den)(env), 0),
        sem::part((whole.den)(env), 1),
    ]);
}

/// An element of an array or a slice lies as many element sizes behind the first
/// as its index says. The index is read from a local.
pub proof fn law_element_address(
    scene: Scene,
    at: Moment,
    spot: Spot,
    local: usize,
    elem: TyId,
    size: u64,
    index: Meaning,
    env: Env,
)
    requires
        place::element(scene.program.types, spot.ty) == Ok::<TyId, Failure>(elem),
        layout::size_of(scene.program.types, elem) == Ok::<u64, Failure>(size),
        place::local_value(
            scene.program.types,
            scene.locals,
            scene.slots,
            at,
            local,
        ) == Ok::<Meaning, Failure>(index),
        numbers::is_number(index, env),
        index.ty->width == 64,
        (spot.addr.den)(env) is Bits,
    ensures
        one_step(scene, at, Projection::Index(local), spot) matches Ok(there) && there.ty
            == PlaceTy::Ty(elem) && (there.addr.den)(env) is Bits && there.addr.bits(env) == (
        spot.addr.bits(env) + numbers::number(index, env) * size) % sem::modulus(64),
{
    reveal(place::project);
    numbers::lemma_scaled(index, size, env);
    numbers::lemma_moved(
        spot.addr,
        meaning::scaled(index, size),
        numbers::number(index, env) * size,
        env,
    );
}

/// An element of a slice behind a fat pointer lies as many element sizes behind
/// the first word as its index says.
pub proof fn law_slice_element_address(
    scene: Scene,
    at: Moment,
    spot: Spot,
    local: usize,
    elem: TyId,
    size: u64,
    index: Meaning,
    env: Env,
)
    requires
        place::element(scene.program.types, spot.ty) == Ok::<TyId, Failure>(elem),
        layout::size_of(scene.program.types, elem) == Ok::<u64, Failure>(size),
        place::local_value(
            scene.program.types,
            scene.locals,
            scene.slots,
            at,
            local,
        ) == Ok::<Meaning, Failure>(index),
        numbers::is_number(index, env),
        index.ty->width == 64,
        (spot.addr.den)(env) matches Sem::Agg(words) && words.len() > 0 && words[0] is Bits,
    ensures
        one_step(scene, at, Projection::Index(local), spot) matches Ok(there) && there.ty
            == PlaceTy::Ty(elem) && (there.addr.den)(env) is Bits && there.addr.bits(env) == (
        sem::bits_of(sem::part((spot.addr.den)(env), 0)) + numbers::number(index, env) * size)
            % sem::modulus(64),
{
    reveal(place::project);
    reveal_with_fuel(sem::address_of, 2);
    numbers::lemma_scaled(index, size, env);
    let words = (spot.addr.den)(env)->Agg_0;
    let first = Meaning { ty: types::pointer(), den: |env: Env| words[0] };
    numbers::lemma_moved(
        first,
        meaning::scaled(index, size),
        numbers::number(index, env) * size,
        env,
    );
}

/// An element at a known index lies as many element sizes behind the first as
/// the index says; an index from the end counts back from the length.
pub proof fn law_known_element_address(
    scene: Scene,
    at: Moment,
    spot: Spot,
    offset: u64,
    min_length: u64,
    from_end: bool,
    elem: TyId,
    size: u64,
    env: Env,
)
    requires
        place::element(scene.program.types, spot.ty) == Ok::<TyId, Failure>(elem),
        layout::size_of(scene.program.types, elem) == Ok::<u64, Failure>(size),
        is_address(spot.addr, env),
        one_step(
            scene,
            at,
            Projection::ConstantIndex { offset, min_length, from_end },
            spot,
        ) is Ok,
    ensures
        one_step(
            scene,
            at,
            Projection::ConstantIndex { offset, min_length, from_end },
            spot,
        ) matches Ok(there) && there.ty == PlaceTy::Ty(elem) && lies_behind(
            there.addr,
            spot.addr,
            size * if from_end {
                min_length - offset
            } else {
                offset as int
            },
            env,
        ),
{
    reveal(place::project);
    let index = place::constant_index(offset, min_length, from_end)->Ok_0;
    lemma_past(spot.addr, (index * size) as u64, env);
    assert(size * index == index * size) by (nonlinear_arith);
}

/// A part of an array begins as many element sizes behind it as elements are
/// left out before it, and has as many elements as are left.
pub proof fn law_sub_array(
    scene: Scene,
    at: Moment,
    spot: Spot,
    from: u64,
    to: u64,
    from_end: bool,
    elem: TyId,
    size: u64,
    len: u64,
    env: Env,
)
    requires
        place::array_length(scene.program.types, spot.ty) == Some(Some(len)),
        place::element(scene.program.types, spot.ty) == Ok::<TyId, Failure>(elem),
        layout::size_of(scene.program.types, elem) == Ok::<u64, Failure>(size),
        is_address(spot.addr, env),
        one_step(scene, at, Projection::Subslice { from, to, from_end }, spot) is Ok,
    ensures
        one_step(scene, at, Projection::Subslice { from, to, from_end }, spot) matches Ok(there)
            && lies_behind(there.addr, spot.addr, from * size, env) && there.ty
            == PlaceTy::Subarray(
            elem,
            if from_end {
                (len - from - to) as u64
            } else {
                (to - from) as u64
            },
        ),
{
    reveal(place::project);
    lemma_past(spot.addr, (from * size) as u64, env);
}

/// A part of a slice begins as many element sizes behind it as elements are left
/// out before it, and its length is as many as are left.
pub proof fn law_sub_slice(
    scene: Scene,
    at: Moment,
    spot: Spot,
    from: u64,
    to: u64,
    from_end: bool,
    elem: TyId,
    size: u64,
    env: Env,
)
    requires
        place::is_slice(scene.program.types, spot.ty),
        place::element(scene.program.types, spot.ty) == Ok::<TyId, Failure>(elem),
        layout::size_of(scene.program.types, elem) == Ok::<u64, Failure>(size),
        spot.addr.ty == convert::sized_pointer(),
        parts::is_shaped(spot.addr, env),
        one_step(scene, at, Projection::Subslice { from, to, from_end }, spot) is Ok,
    ensures
        ({
            let m = sem::modulus(64);
            let start = sem::bits_of(sem::part((spot.addr.den)(env), 0));
            let len = sem::bits_of(sem::part((spot.addr.den)(env), 1));
            let r = one_step(scene, at, Projection::Subslice { from, to, from_end }, spot)->Ok_0;
            &&& r.ty == spot.ty
            &&& sem::part((r.addr.den)(env), 0) == Sem::Bits(((start + from * size) % m) as u128)
            &&& sem::part((r.addr.den)(env), 1) == Sem::Bits(
                if from_end {
                    ((len - from - to) % m) as u128
                } else {
                    (to - from) as u128
                },
            )
        }),
{
    reveal(place::project);
    let m = sem::modulus(64);
    let word = types::unsigned(64);
    let pair = spot.addr.ty;
    sem::lemma_pair(types::pointer(), word);
    assert(parts::part_count(pair) == 2) by {
        assert(pair.fields() == Some(seq![types::pointer(), word]));
    }
    assert(parts::kind_at(pair, 0) == types::pointer() && parts::kind_at(pair, 1) == word) by {
        assert(pair.fields()->0[0] == types::pointer() && pair.fields()->0[1] == word);
    }
    parts::lemma_field_type(pair, 0);
    parts::lemma_field_type(pair, 1);
    parts::lemma_field(spot.addr, 0, env);
    parts::lemma_field(spot.addr, 1, env);
    parts::lemma_parts(&pair, (spot.addr.den)(env));
    let whole = (spot.addr.den)(env);
    assert(sem::part(sem::shaped(pair, whole), 0) == sem::shaped(
        types::pointer(),
        sem::part(whole, 0),
    ));
    assert(sem::part(sem::shaped(pair, whole), 1) == sem::shaped(word, sem::part(whole, 1)));
    let first = meaning::field(spot.addr, 0);
    let second = meaning::field(spot.addr, 1);
    sem::lemma_wrap_range(64, sem::bits_of(sem::part(whole, 0)) as int);
    sem::lemma_wrap_range(64, sem::bits_of(sem::part(whole, 1)) as int);
    assert(is_address(first, env));
    lemma_past(first, (from * size) as u64, env);
    if from == 0 {
        assert(from * size == 0) by (nonlinear_arith)
            requires
                from == 0,
        ;
    }
    let r = one_step(scene, at, Projection::Subslice { from, to, from_end }, spot)->Ok_0;
    let data = if from == 0 {
        first
    } else {
        meaning::moved(first, meaning::constant(word, (from * size) as u128))
    };
    let cut = if from_end {
        meaning::computed(
            meaning::Arith::Sub,
            second,
            meaning::constant(word, (from + to) as u128),
        )
    } else {
        meaning::constant(word, (to - from) as u128)
    };
    assert(r.addr == meaning::pair(pair, data, cut));
    parts::lemma_pair_parts(pair, types::pointer(), word, data, cut, env);
    let delta = (from * size) as int;
    vstd::arithmetic::div_mod::lemma_small_mod(0, m as nat);
    if from != 0 {
        numbers::lemma_moved(first, meaning::constant(word, (from * size) as u128), delta, env);
    }
    vstd::arithmetic::div_mod::lemma_mod_bound(first.bits(env) + delta, m);
    vstd::arithmetic::div_mod::lemma_small_mod(first.bits(env) as nat, m as nat);
    sem::lemma_wrap_small(64, data.bits(env) as int);
    if from_end {
        let want = second.bits(env) - (from + to);
        sem::lemma_wrap_range(64, want);
        sem::lemma_wrap_idem(64, want);
    } else {
        sem::lemma_wrap_small(64, to - from);
    }
}

/// What a pointer points to lies where the pointer says: at the address that is
/// read from where the pointer lies.
pub proof fn law_pointed_address(scene: Scene, at: Moment, spot: Spot, inner: TyId, env: Env)
    requires
        place::pointee(scene.program.types, spot.ty) == Ok::<TyId, Failure>(inner),
        place::converted_place(scene.program.types, spot.ty) is Ok,
    ensures
        ({
            let kind = place::converted_place(scene.program.types, spot.ty)->Ok_0;
            one_step(scene, at, Projection::Deref, spot) matches Ok(there) && there.ty
                == PlaceTy::Ty(inner) && there.addr.ty == kind && (there.addr.den)(env)
                == sem::shaped(kind, (env.read)(at, (spot.addr.den)(env), kind))
        }),
{
    reveal(place::project);
}

/// A reference to a place, and a raw pointer to it, is the address of the place:
/// what is read through it is what the place holds.
pub proof fn law_reference(scene: Scene, at: Moment, place: Place)
    requires
        scene.address(at, place) is Ok,
        place::in_registers(scene.program.types, scene.locals, place) == Ok::<bool, Failure>(false),
    ensures
        ({
            let shared = rvalue::rvalue_value(scene, at, Rvalue::Ref(place));
            let raw = rvalue::rvalue_value(scene, at, Rvalue::RawPtr(place));
            &&& shared matches Ok(lowered) && lowered.steps.len() == 0
            &&& raw matches Ok(lowered) && lowered.value == shared->Ok_0.value
            &&& scene.value_of(at, place) == place::read_at(
                scene.program.types,
                at,
                place.ty,
                Ok(shared->Ok_0.value),
            )
        }),
{
}

/// A local lies in its own slot, and a reference to it is the address of the
/// slot.
pub proof fn law_local_address(scene: Scene, at: Moment, place: Place, slot: Meaning)
    requires
        place.projection@.len() == 0,
        place.local < scene.slots.len(),
        scene.slots[place.local as int] == Some(slot),
    ensures
        rvalue::rvalue_value(scene, at, Rvalue::Ref(place)) matches Ok(lowered) && lowered.value
            == slot,
        scene.address(at, place) == Ok::<Meaning, Failure>(slot),
{
}

/// Whether a value is one of the type that values of a type of the program have
/// in a register, and has its shape.
pub open spec fn is_immediate(table: TyTable, ty: TyId, value: Meaning, env: Env) -> bool {
    &&& convert::immediate(table, ty) == Ok::<TypeHandle, Failure>(value.ty)
    &&& parts::is_shaped(value, env)
}

/// A value in a register that goes to memory and back is what it was.
proof fn lemma_stored_back(table: TyTable, ty: TyId, value: Meaning, there: Meaning, env: Env)
    requires
        is_immediate(table, ty, value, env),
        there.ty == place::as_stored(table, ty, value).ty,
        (there.den)(env) == (place::as_stored(table, ty, value).den)(env),
    ensures
        place::as_immediate(table, ty, there).ty == value.ty,
        (place::as_immediate(table, ty, there).den)(env) == (value.den)(env),
{
    if table.is_bool(ty) {
        let b = value.bits(env);
        sem::lemma_wrap_range(1, b as int);
        sem::lemma_wrap_small(1, b as int);
        sem::lemma_wrap_small(8, b as int);
    }
}

/// What is written to a place is what the place holds, as long as the place lies
/// where it lay and memory holds what was stored there.
pub proof fn law_written_read_back(
    scene: Scene,
    at: Moment,
    now: Moment,
    place: Place,
    value: Meaning,
    env: Env,
)
    requires
        place::in_registers(scene.program.types, scene.locals, place) == Ok::<bool, Failure>(false),
        is_immediate(scene.program.types, place.ty, value, env),
        convert::storage(scene.program.types, place.ty) == Ok::<Option<TypeHandle>, Failure>(
            Some(place::as_stored(scene.program.types, place.ty, value).ty),
        ),
        convert::converted(scene.program.types, place.ty) == Ok::<TypeHandle, Failure>(
            place::as_stored(scene.program.types, place.ty, value).ty,
        ),
        parts::is_shaped(place::as_stored(scene.program.types, place.ty, value), env),
        scene.write(at, place, value) is Ok,
        scene.address(now, place) is Ok,
        (scene.address(now, place)->Ok_0.den)(env) == (scene.address(at, place)->Ok_0.den)(env),
        meaning::keeps(env, scene.write(at, place, value)->Ok_0, now),
    ensures
        scene.value_of(now, place) matches Ok(found) && found.ty == value.ty && (found.den)(env)
            == (value.den)(env),
{
    let table = scene.program.types;
    let stored = place::as_stored(table, place.ty, value);
    let addr = scene.address(now, place)->Ok_0;
    let there = meaning::loaded(now, addr, stored.ty);
    lemma_stored_back(table, place.ty, value, there, env);
}

/// What is written to a field of a local, of which the whole is read and
/// replaced, is what the field holds, as long as memory holds what was stored.
pub proof fn law_written_field_read_back(
    scene: Scene,
    at: Moment,
    now: Moment,
    place: Place,
    value: Meaning,
    env: Env,
)
    requires
        scene.program.types.wf(),
        place::locals_wf(scene.program.types, scene.locals),
        place::in_registers(scene.program.types, scene.locals, place) == Ok::<bool, Failure>(true),
        is_immediate(scene.program.types, place.ty, value, env),
        parts::is_shaped(place::as_stored(scene.program.types, place.ty, value), env),
        scene.write(at, place, value) is Ok,
        scene.value_of(at, place) matches Ok(before) && before.ty == value.ty,
        ({
            let table = scene.program.types;
            let whole = place::whole_local(table, scene.locals, scene.slots, at, place.local);
            let ty = scene.locals[place.local as int];
            place::picked(table, whole->Ok_0, ty, place.projection@) matches Ok(part) && part.ty
                == place::as_stored(table, place.ty, value).ty
        }),
        meaning::keeps(env, scene.write(at, place, value)->Ok_0, now),
    ensures
        scene.value_of(now, place) matches Ok(found) && found.ty == value.ty && (found.den)(env)
            == (value.den)(env),
{
    let table = scene.program.types;
    let ty = scene.locals[place.local as int];
    let way = place.projection@;
    let whole = place::whole_local(table, scene.locals, scene.slots, at, place.local)->Ok_0;
    let stored = place::as_stored(table, place.ty, value);
    mirror::law_converted_is_narrow(table, ty);
    let slot = place::sure_slot(scene.slots, place.local)->Ok_0;
    sem::lemma_shaped_idem(&whole.ty, (env.read)(at, (slot.den)(env), whole.ty));
    parts::law_replaced_field(table, whole, ty, way, stored, env);
    let changed = place::replaced(table, whole, ty, way, stored)->Ok_0;
    let again = place::whole_local(table, scene.locals, scene.slots, now, place.local)->Ok_0;
    assert((again.den)(env) == (changed.den)(env));
    parts::lemma_picked_same(table, again, changed, ty, way, env);
    let there = place::picked(table, again, ty, way)->Ok_0;
    lemma_stored_back(table, place.ty, value, there, env);
}

/// An assignment does what its value takes, and then stores the value, in its
/// stored form, at the address of the place.
pub proof fn law_assignment(scene: Scene, at: Moment, place: Place, value: Rvalue)
    requires
        statement::is_storageless(scene, place) == Ok::<bool, Failure>(false),
        place::in_registers(scene.program.types, scene.locals, place) == Ok::<bool, Failure>(false),
        rvalue::rvalue_value(scene, at, value) is Ok,
        scene.address(
            meaning::later(at, rvalue::rvalue_value(scene, at, value)->Ok_0.steps.len()),
            place,
        ) is Ok,
    ensures
        ({
            let lowered = rvalue::rvalue_value(scene, at, value)->Ok_0;
            let addr = scene.address(meaning::later(at, lowered.steps.len()), place)->Ok_0;
            let r = statement::statement_effect(scene, at, Statement::Assign(place, value));
            r matches Ok(effect) && effect.steps.len() == lowered.steps.len() + 1
                && effect.steps.drop_last() == lowered.steps && effect.steps.last() == (
            Step::Store {
                addr,
                value: place::as_stored(scene.program.types, place.ty, lowered.value),
            })
        }),
{
    let lowered = rvalue::rvalue_value(scene, at, value)->Ok_0;
    let effect = statement::statement_effect(scene, at, Statement::Assign(place, value))->Ok_0;
    assert(effect.steps.drop_last() =~= lowered.steps);
}

/// Whether an enum is told apart by a tag in memory, and a variant by a tag of
/// its own.
pub open spec fn has_tag(table: TyTable, ty: TyId, variant: u32, tag: u128) -> bool {
    let inner = table.normal(ty);
    &&& table.info(inner).layout matches Some(layout) && layout.variants matches Variants::Multiple {
        width,
        tags,
        ..
    } && sem::valid_width(width) && tag < sem::modulus(width) && variant < tags@.len()
        && tags@[variant as int] == Some(tag)
}

/// The discriminant that is read from an enum after a variant was set is that of
/// the variant, as long as memory holds the tag: the number that a direct tag
/// is, and the number of the variant that a tag in a niche marks.
pub proof fn law_discriminant_read_back(
    table: TyTable,
    ty: TyId,
    variant: u32,
    tag: u128,
    addr: Meaning,
    now: Moment,
    env: Env,
)
    requires
        has_tag(table, ty, variant, tag),
        enums::discriminant_at(table, ty, now, addr) is Ok,
        enums::tag_write(table, ty, variant, addr) matches Ok(steps) && meaning::keeps(
            env,
            steps[0],
            now,
        ),
        forall|a: Sem, width: u32| #[trigger]
            (env.read)(now, a, types::signed(width)) == (env.read)(now, a, types::unsigned(width)),
    ensures
        ({
            let info = table.info(table.normal(ty));
            let target = convert::converted(table, info.discriminant)->Ok_0;
            let m = sem::modulus(target->width);
            let r = enums::discriminant_at(table, ty, now, addr)->Ok_0;
            let variants = info.layout->0.variants;
            let width = variants->Multiple_width;
            &&& enums::tag_write(table, ty, variant, addr)->Ok_0.len() == 1
            &&& r.ty == target
            &&& match variants->Multiple_encoding {
                TagEncoding::Direct => {
                    let x = if variants->Multiple_signed {
                        sem::as_signed(width, tag)
                    } else {
                        tag as int
                    };
                    r.bits(env) == x % m
                },
                TagEncoding::Niche { first, last, start, .. } => first <= variant <= last && last
                    - first < sem::modulus(width) && tag == sem::wrap(
                    width,
                    start + variant - first,
                ) ==> r.bits(env) == variant as int % m,
            }
        }),
{
    let info = table.info(table.normal(ty));
    let target = convert::converted(table, info.discriminant)->Ok_0;
    let variants = info.layout->0.variants;
    let width = variants->Multiple_width;
    sem::lemma_wrap_small(width, tag as int);
    let signed = variants->Multiple_signed;
    let x = if signed {
        sem::as_signed(width, tag)
    } else {
        tag as int
    };
    sem::lemma_wrap_range(target->width, x);
    sem::lemma_wrap_idem(target->width, x);
    sem::lemma_wrap_range(target->width, variant as int);
    if let TagEncoding::Niche { first, last, start, untagged } = variants->Multiple_encoding {
        if first <= variant <= last && last - first < sem::modulus(width) && tag == sem::wrap(
            width,
            start + variant - first,
        ) {
            let value = enums::discriminant_of(table, table.normal(ty), untagged)->Ok_0;
            enums::law_niche_round_trip(
                variant,
                width,
                start,
                first,
                last,
                value,
                target->width,
            );
        }
    } else {
        let kind = enums::tag_type(width, signed);
        sem::lemma_wrap_as_int(
            width,
            if signed {
                Signedness::Signed
            } else {
                Signedness::Unsigned
            },
            tag,
        );
        if kind == target {
            assert(x % sem::modulus(width) == tag);
        }
    }
}

} // verus!
