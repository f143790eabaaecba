//! Discriminants: reading and writing the tag of an enum in memory.

use crate::arith::emit_typed;
use crate::convert;
use crate::convert::convert_ty;
use crate::emit;
use crate::emit::{cast_value_to_type, emit_add, emit_le, emit_mul, emit_sub, emit_unsigned};
use crate::error::Failure;
use crate::ir::{BlockId, Context, Meaning, Value};
use crate::meaning;
use crate::meaning::{put_as_type, put_constant, put_load, put_past, put_store, Step};
use crate::place;
use crate::sem;
use crate::sem::{Env, Moment};
use crate::ty::{Layout, TagEncoding, TyId, TyKind, TyTable, Variants};
use crate::types;
use crate::types::{Signedness, TypeHandle};
use vstd::prelude::*;

verus! {

/// The discriminant that a tag in a niche stands for: the bit patterns from
/// `start` on stand for the variants from `first` to `last`, and every other
/// for the untagged variant.
pub open spec fn niche_value(
    tag: u128,
    width: u32,
    start: u128,
    first: u32,
    last: u32,
    untagged: u128,
    target: u32,
) -> u128 {
    let relative = sem::wrap(width, tag - start);
    if relative <= sem::wrap(width, last - first) {
        sem::wrap(target, first + relative)
    } else {
        sem::wrap(target, untagged as int)
    }
}

/// Reading the tag that marks a variant in a niche gives the number of the
/// variant.
pub proof fn law_niche_round_trip(
    variant: u32,
    width: u32,
    start: u128,
    first: u32,
    last: u32,
    untagged: u128,
    target: u32,
)
    requires
        first <= variant <= last,
        width <= 128,
        last - first < sem::modulus(width),
    ensures
        niche_value(
            sem::wrap(width, start + variant - first),
            width,
            start,
            first,
            last,
            untagged,
            target,
        ) == sem::wrap(target, variant as int),
{
    broadcast use sem::lemma_wrap_range;

    sem::lemma_modulus_bound(width);
    let m = sem::modulus(width);
    let shift = variant - first;
    let tag = sem::wrap(width, start + variant - first);
    vstd::arithmetic::div_mod::lemma_sub_mod_noop(start + shift, start as int, m);
    vstd::arithmetic::div_mod::lemma_sub_mod_noop_right((start + shift) % m, start as int, m);
    vstd::arithmetic::div_mod::lemma_small_mod(shift as nat, m as nat);
    assert(sem::wrap(width, tag - start) == shift);
    sem::lemma_wrap_small(width, last - first);
}

/// Reading a tag that is the discriminant of the untagged variant's own bits
/// gives the untagged discriminant.
pub proof fn law_untagged(
    tag: u128,
    width: u32,
    start: u128,
    first: u32,
    last: u32,
    untagged: u128,
    target: u32,
)
    requires
        width <= 128,
        last - first < sem::modulus(width),
        first <= last,
        sem::wrap(width, tag - start) > last - first,
    ensures
        niche_value(tag, width, start, first, last, untagged, target) == sem::wrap(
            target,
            untagged as int,
        ),
{
    sem::lemma_wrap_small(width, last - first);
}

/// The value of a variant's discriminant.
pub open spec fn discriminant_of(table: TyTable, ty: TyId, variant: u32) -> Result<u128, Failure> {
    match table.kind(ty) {
        TyKind::Adt(_, _, variants) => if variant < variants@.len() {
            Ok(variants@[variant as int].discriminant)
        } else {
            Err(Failure::Malformed)
        },
        _ => Err(Failure::DiscriminantOf(ty)),
    }
}

fn discriminant_for_variant(table: &TyTable, ty: TyId, variant: u32) -> (r: Result<u128, Failure>)
    requires
        table.has(ty),
    ensures
        r == discriminant_of(*table, ty, variant),
{
    match &table.types[ty.0].kind {
        TyKind::Adt(_, _, variants) => {
            let v: usize = variant as usize;
            if v < variants.len() {
                Ok(variants[v].discriminant)
            } else {
                Err(Failure::Malformed)
            }
        },
        _ => Err(Failure::DiscriminantOf(ty)),
    }
}

/// The type of the tag that is a discriminant.
pub open spec fn tag_type(width: u32, signed: bool) -> TypeHandle {
    if signed {
        types::signed(width)
    } else {
        types::unsigned(width)
    }
}

/// The tag of an enum in memory.
pub open spec fn tag_at(at: Moment, addr: Meaning, offset: u64, ty: TypeHandle) -> Meaning {
    meaning::loaded(at, meaning::past(addr, offset), ty)
}

/// The discriminant of an enum in memory, as a value of a type.
pub open spec fn decoded(
    table: TyTable,
    ty: TyId,
    at: Moment,
    addr: Meaning,
    target: TypeHandle,
) -> Result<Meaning, Failure> {
    match table.info(ty).layout {
        None => Err(Failure::NoLayout(ty)),
        Some(layout) => match layout.variants {
            Variants::Empty => Ok(meaning::constant(target, 0)),
            Variants::Single(index) => match discriminant_of(table, ty, index) {
                Err(failure) => Err(failure),
                Ok(value) => Ok(meaning::constant(target, value)),
            },
            Variants::Multiple { offset, width, signed, encoding, .. } => if !sem::valid_width(
                width,
            ) {
                Err(Failure::Malformed)
            } else {
                let tag = tag_at(at, addr, offset, types::unsigned(width));
                match encoding {
                    TagEncoding::Direct => Ok(
                        meaning::as_type(
                            tag_at(at, addr, offset, tag_type(width, signed)),
                            target,
                        ),
                    ),
                    TagEncoding::Niche { untagged, first, last, start } => if last < first {
                        Err(Failure::Malformed)
                    } else {
                        match discriminant_of(table, ty, untagged) {
                            Err(failure) => Err(failure),
                            Ok(value) => Ok(
                                meaning::integer(
                                    target,
                                    |env: Env|
                                        niche_value(
                                            tag.bits(env),
                                            width,
                                            start,
                                            first,
                                            last,
                                            value,
                                            target->width,
                                        ),
                                ),
                            ),
                        }
                    },
                }
            },
        },
    }
}

/// The discriminant of an enum in memory.
pub open spec fn discriminant_at(table: TyTable, ty: TyId, at: Moment, addr: Meaning) -> Result<
    Meaning,
    Failure,
> {
    let inner = table.normal(ty);
    if !(table.kind(inner) is Adt) {
        Err(Failure::DiscriminantOf(inner))
    } else if table.info(inner).layout is None {
        Err(Failure::NoLayout(inner))
    } else {
        match convert::converted(table, table.info(inner).discriminant) {
            Err(failure) => Err(failure),
            Ok(target) => if target is Integer && sem::valid_width(target->width) {
                decoded(table, inner, at, addr, target)
            } else {
                Err(Failure::NonIntegerDiscriminant)
            },
        }
    }
}

/// The sum of a value and the product of a difference and a truth value is one
/// of two values.
proof fn lemma_select(
    width: u32,
    tagged: u128,
    base: u128,
    chosen: bool,
    diff: u128,
    product: u128,
    sum: u128,
)
    requires
        sem::valid_width(width),
        tagged < sem::modulus(width),
        base < sem::modulus(width),
        diff == sem::wrap(width, tagged - base),
        product == sem::wrap(width, diff * sem::bit(chosen)),
        sum == sem::wrap(width, base + product),
    ensures
        sum == (if chosen {
            tagged
        } else {
            base
        }),
{
    broadcast use sem::lemma_wrap_range;

    sem::lemma_modulus_bound(width);
    let m = sem::modulus(width);
    if chosen {
        assert(diff * 1 == diff);
        sem::lemma_wrap_small(width, diff as int);
        vstd::arithmetic::div_mod::lemma_add_mod_noop_right(base as int, tagged - base, m);
        assert(base + (tagged - base) == tagged);
        sem::lemma_wrap_small(width, tagged as int);
    } else {
        assert(diff * 0 == 0);
        sem::lemma_wrap_small(width, 0);
        sem::lemma_wrap_small(width, base as int);
    }
}

/// A sum may be cut before or after adding.
proof fn lemma_tagged(width: u32, source: u32, first: u32, relative: u128, base: u128, cut: u128, sum: u128)
    requires
        sem::valid_width(width),
        sem::valid_width(source),
        relative < sem::modulus(source),
        base == emit::constant_bits(width, first as u128),
        cut == sem::wrap(width, relative as int),
        sum == sem::wrap(width, base + cut),
    ensures
        sum == sem::wrap(width, first + relative),
{
    broadcast use sem::lemma_wrap_range;

    sem::lemma_modulus_bound(width);
    let m = sem::modulus(width);
    if first < m {
        sem::lemma_wrap_small(width, first as int);
    }
    assert(base == sem::wrap(width, first as int));
    vstd::arithmetic::div_mod::lemma_add_mod_noop(first as int, relative as int, m);
}

/// The constant that a number is at a width.
proof fn lemma_constant_wraps(width: u32, bits: u128)
    requires
        sem::valid_width(width),
    ensures
        emit::constant_bits(width, bits) == sem::wrap(width, bits as int),
{
    if bits < sem::modulus(width) {
        sem::lemma_wrap_small(width, bits as int);
    }
}

/// Decodes a tag in a niche.
fn decode_niche(
    ctx: &mut Context,
    block: BlockId,
    tag: Value,
    width: u32,
    start: u128,
    first: u32,
    last: u32,
    untagged: u128,
    target: &TypeHandle,
) -> (r: Value)
    requires
        old(ctx).wf(),
        old(ctx).has_block(block),
        old(ctx).has(tag),
        tag.ty() == types::unsigned(width),
        sem::valid_width(width),
        target is Integer,
        sem::valid_width(target->width),
        first <= last,
    ensures
        final(ctx).computed_since(*old(ctx), block),
        final(ctx).has(r),
        r.ty() == *target,
        forall|env: Env| #[trigger]
            r.bits(env) == niche_value(
                tag.bits(env),
                width,
                start,
                first,
                last,
                untagged,
                target->width,
            ),
{
    let (bits, sign) = match target {
        TypeHandle::Integer { width, signedness } => (*width, *signedness),
        _ => (64, Signedness::Unsigned),
    };
    let start_value: Value = emit_unsigned(ctx, block, width, start);
    let relative: Value = emit_sub(ctx, block, tag, start_value);
    let range: u128 = (last - first) as u128;
    let range_value: Value = emit_unsigned(ctx, block, width, range);
    let is_niche: Value = emit_le(ctx, block, relative, range_value);
    let chosen: Value = cast_value_to_type(ctx, block, is_niche, target);
    let cut: Value = cast_value_to_type(ctx, block, relative, target);
    let first_value: Value = emit_typed(ctx, block, bits, sign, first as u128);
    let tagged: Value = emit_add(ctx, block, first_value, cut);
    let base: Value = emit_typed(ctx, block, bits, sign, untagged);
    let diff: Value = emit_sub(ctx, block, tagged, base);
    let product: Value = emit_mul(ctx, block, diff, chosen);
    let r: Value = emit_add(ctx, block, base, product);
    proof {
        assert forall|env: Env| #[trigger]
            r.bits(env) == niche_value(
                tag.bits(env),
                width,
                start,
                first,
                last,
                untagged,
                target->width,
            ) by {
            broadcast use sem::lemma_wrap_range;

            let m = sem::modulus(width);
            sem::lemma_modulus_bound(width);
            sem::lemma_modulus_bound(bits);
            ctx.value_in_range(tag, env);
            ctx.value_in_range(relative, env);
            ctx.value_in_range(tagged, env);
            ctx.value_in_range(is_niche, env);
            let t = tag.bits(env);
            let rel = relative.bits(env);
            lemma_constant_wraps(width, start);
            lemma_constant_wraps(width, range);
            lemma_constant_wraps(bits, untagged);
            vstd::arithmetic::div_mod::lemma_sub_mod_noop_right(t as int, start as int, m);
            assert(rel == sem::wrap(width, t - start));
            let yes = rel <= sem::wrap(width, last - first);
            assert(is_niche.bits(env) == sem::bit(yes));
            sem::lemma_wrap_small(bits, sem::bit(yes) as int);
            assert(chosen.bits(env) == sem::bit(yes));
            lemma_tagged(
                bits,
                width,
                first,
                rel,
                first_value.bits(env),
                cut.bits(env),
                tagged.bits(env),
            );
            lemma_select(
                bits,
                tagged.bits(env),
                base.bits(env),
                yes,
                diff.bits(env),
                product.bits(env),
                r.bits(env),
            );
        }
    }
    r
}

/// Reads the discriminant of an enum at an address: the tag where that is the
/// discriminant, and else what the tag stands for.
pub fn read_enum_discriminant(
    table: &TyTable,
    ctx: &mut Context,
    block: BlockId,
    enum_ty: TyId,
    addr: Value,
) -> (r: Result<Value, Failure>)
    requires
        table.wf(),
        table.has(enum_ty),
        old(ctx).wf(),
        old(ctx).has_block(block),
        old(ctx).has(addr),
    ensures
        final(ctx).computed_since(*old(ctx), block),
        place::gives(
            *final(ctx),
            r,
            discriminant_at(*table, enum_ty, old(ctx)@.now(block), addr.meaning@),
        ),
{
    let inner: TyId = table.normalize_ty(enum_ty);
    proof {
        assert(table.ty_wf(inner));
    }
    if !matches!(table.types[inner.0].kind, TyKind::Adt(_, _, _)) {
        return Err(Failure::DiscriminantOf(inner));
    }
    let layout: &Layout = match &table.types[inner.0].layout {
        Some(layout) => layout,
        None => return Err(Failure::NoLayout(inner)),
    };
    let target: TypeHandle = convert_ty(table, table.types[inner.0].discriminant)?;
    match target.as_integer() {
        Some((width, _)) => {
            if !is_valid_width(width) {
                return Err(Failure::NonIntegerDiscriminant);
            }
        },
        None => return Err(Failure::NonIntegerDiscriminant),
    }
    match &layout.variants {
        Variants::Empty => Ok(put_constant(ctx, block, &target, 0)),
        Variants::Single(index) => {
            let value: u128 = discriminant_for_variant(table, inner, *index)?;
            Ok(put_constant(ctx, block, &target, value))
        },
        Variants::Multiple { offset, width, signed, encoding, .. } => {
            if !is_valid_width(*width) {
                return Err(Failure::Malformed);
            }
            let ghost at = ctx@.now(block);
            match encoding {
                TagEncoding::Direct => {
                    let sign: Signedness = if *signed {
                        Signedness::Signed
                    } else {
                        Signedness::Unsigned
                    };
                    let tag_ty: TypeHandle = TypeHandle::integer(*width, sign);
                    let tag: Value = load_tag(ctx, block, addr, *offset, &tag_ty);
                    Ok(put_as_type(ctx, block, tag, &target))
                },
                TagEncoding::Niche { untagged, first, last, start } => {
                    if *last < *first {
                        return Err(Failure::Malformed);
                    }
                    let value: u128 = discriminant_for_variant(table, inner, *untagged)?;
                    let tag_ty: TypeHandle = TypeHandle::integer(*width, Signedness::Unsigned);
                    let tag: Value = load_tag(ctx, block, addr, *offset, &tag_ty);
                    let r: Value = decode_niche(
                        ctx,
                        block,
                        tag,
                        *width,
                        *start,
                        *first,
                        *last,
                        value,
                        &target,
                    );
                    proof {
                        let want = decoded(*table, inner, at, addr.meaning@, target)->Ok_0;
                        assert forall|env: Env| #[trigger] r.den(env) == (want.den)(env) by {
                            ctx.value_in_range(r, env);
                            assert(tag.bits(env) == tag.meaning@.bits(env));
                        }
                        meaning::lemma_means(r, want);
                    }
                    Ok(r)
                },
            }
        },
    }
}

fn is_valid_width(width: u32) -> (r: bool)
    ensures
        r == sem::valid_width(width),
{
    width == 1 || width == 8 || width == 16 || width == 32 || width == 64 || width == 128
}

fn load_tag(ctx: &mut Context, block: BlockId, addr: Value, offset: u64, ty: &TypeHandle) -> (r:
    Value)
    requires
        old(ctx).wf(),
        old(ctx).has_block(block),
        old(ctx).has(addr),
    ensures
        final(ctx).computed_since(*old(ctx), block),
        final(ctx).has(r),
        r.meaning@ == tag_at(old(ctx)@.now(block), addr.meaning@, offset, *ty),
{
    let tag_addr: Value = put_past(ctx, block, addr, offset);
    put_load(ctx, block, tag_addr, ty)
}

/// The write of a variant's tag: none where the variant needs no tag.
pub open spec fn tag_write(table: TyTable, ty: TyId, variant: u32, addr: Meaning) -> Result<
    Seq<Step>,
    Failure,
> {
    let inner = table.normal(ty);
    match table.info(inner).layout {
        None => Err(Failure::NoLayout(inner)),
        Some(layout) => match layout.variants {
            Variants::Multiple { offset, width, tags, .. } => if variant >= tags@.len() {
                Err(Failure::Malformed)
            } else {
                match tags@[variant as int] {
                    None => Ok(Seq::empty()),
                    Some(tag) => Ok(
                        seq![Step::Store {
                            addr: meaning::past(addr, offset),
                            value: meaning::constant(types::unsigned(width), tag),
                        }],
                    ),
                }
            },
            _ => Ok(Seq::empty()),
        },
    }
}

/// Writes the tag of a variant of an enum at an address.
pub fn write_enum_tag(
    table: &TyTable,
    ctx: &mut Context,
    block: BlockId,
    enum_ty: TyId,
    variant: u32,
    addr: Value,
) -> (r: Result<(), Failure>)
    requires
        table.wf(),
        table.has(enum_ty),
        old(ctx).wf(),
        old(ctx).has_block(block),
        old(ctx).has(addr),
    ensures
        match tag_write(*table, enum_ty, variant, addr.meaning@) {
            Ok(steps) => r is Ok && final(ctx).ran_since(*old(ctx), block, steps),
            Err(failure) => r == Err::<(), Failure>(failure) && *final(ctx) == *old(ctx),
        },
{
    let ghost before = *ctx;
    let inner: TyId = table.normalize_ty(enum_ty);
    let layout: &Layout = match &table.types[inner.0].layout {
        Some(layout) => layout,
        None => return Err(Failure::NoLayout(inner)),
    };
    match &layout.variants {
        Variants::Multiple { offset, width, tags, .. } => {
            let v: usize = variant as usize;
            if v >= tags.len() {
                return Err(Failure::Malformed);
            }
            match tags[v] {
                None => {
                    proof {
                        ctx.lemma_computed(before, block);
                    }
                    Ok(())
                },
                Some(tag) => {
                    let value: Value = put_constant(
                        ctx,
                        block,
                        &TypeHandle::integer(*width, Signedness::Unsigned),
                        tag,
                    );
                    let tag_addr: Value = put_past(ctx, block, addr, *offset);
                    let ghost middle = *ctx;
                    put_store(ctx, block, value, tag_addr);
                    proof {
                        ctx.lemma_computed_ran(
                            middle,
                            before,
                            block,
                            seq![Step::Store {
                                addr: tag_addr.meaning@,
                                value: value.meaning@,
                            }],
                        );
                    }
                    Ok(())
                },
            }
        },
        _ => {
            proof {
                ctx.lemma_computed(before, block);
            }
            Ok(())
        },
    }
}

} // verus!
