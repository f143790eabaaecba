//! What values of the intermediate representation mean.
//!
//! A value means a [`Sem`] in each [`Env`]. An environment stands for one run
//! of the program: it supplies what a computation cannot know by itself, such
//! as the contents of memory, the results of calls and the outcome of float
//! arithmetic. Everything else is ordinary modular arithmetic.
use crate::types;
use crate::types::{Signedness, StructBody, TypeHandle, TypeList};
use vstd::prelude::*;

verus! {

/// What a value is in one run: a bit pattern, a group of parts, or nothing
/// definite.
pub enum Sem {
    Bits(u128),
    Agg(Seq<Sem>),
    Undef,
}

/// The place of an instruction in a run: how many instructions with an effect
/// precede it in its block.
pub struct Moment {
    pub block: int,
    pub time: nat,
}

/// Binary arithmetic.
#[derive(Clone, Copy, PartialEq, Eq, Debug, Structural)]
pub enum BinKind {
    Add,
    Sub,
    Mul,
    Div,
    Rem,
    And,
    Or,
    Xor,
    Shl,
    /// A right shift that follows the signedness of its operand.
    Shr,
    /// A right shift that fills with zeros.
    LShr,
}

/// Comparisons.
#[derive(Clone, Copy, PartialEq, Eq, Debug, Structural)]
pub enum Relation {
    Eq,
    Ne,
    Lt,
    Le,
    Gt,
    Ge,
}

/// The casts of the `mir` dialect.
#[derive(Clone, Copy, PartialEq, Eq, Debug, Structural)]
pub enum MirCastKind {
    IntToInt,
    IntToFloat,
    FloatToInt,
    FloatToFloat,
    PtrToPtr,
    PointerExposeAddress,
    PointerWithExposedProvenance,
}

/// Operations on floats, which an environment decides.
pub enum FloatOp {
    Bin(BinKind),
    Compare(Relation),
    Neg,
    Convert(MirCastKind),
}

/// One run of a program.
pub struct Env {
    /// What a load of a type from an address reads at a moment.
    pub read: spec_fn(Moment, Sem, TypeHandle) -> Sem,
    /// The address of the stack slot that an instruction reserves.
    pub slot: spec_fn(Moment) -> u128,
    /// What a call hands back.
    pub reply: spec_fn(Moment) -> Sem,
    /// The arguments of a block.
    pub argument: spec_fn(int, int) -> Sem,
    /// The address of a symbol.
    pub symbol: spec_fn(Seq<char>) -> u128,
    /// Float arithmetic, from a type to a type.
    pub float: spec_fn(FloatOp, TypeHandle, TypeHandle, Seq<Sem>) -> Sem,
    /// A reinterpretation of a value of one type as another.
    pub reinterpret: spec_fn(TypeHandle, TypeHandle, Sem) -> Sem,
    /// The outcome of integer arithmetic outside its domain: a division by
    /// zero, a shift by the width or more.
    pub undefined: spec_fn(BinKind, u128, u128) -> u128,
}

/// Two to the power of a width.
pub open spec fn modulus(width: u32) -> int {
    if width == 1 {
        2
    } else if width == 8 {
        0x100
    } else if width == 16 {
        0x1_0000
    } else if width == 32 {
        0x1_0000_0000
    } else if width == 64 {
        0x1_0000_0000_0000_0000
    } else if width == 128 {
        340282366920938463463374607431768211456int
    } else {
        vstd::arithmetic::power2::pow2(width as nat) as int
    }
}

/// The bit pattern of an integer at a width.
pub open spec fn wrap(width: u32, value: int) -> u128 {
    (value % modulus(width)) as u128
}

/// The integer that a bit pattern of a width stands for in two's complement.
pub open spec fn as_signed(width: u32, bits: u128) -> int {
    if 2 * bits >= modulus(width) {
        bits - modulus(width)
    } else {
        bits as int
    }
}

/// The integer that a bit pattern stands for under a signedness.
pub open spec fn as_int(width: u32, signedness: Signedness, bits: u128) -> int {
    if signedness == Signedness::Signed {
        as_signed(width, bits)
    } else {
        bits as int
    }
}

/// Division that rounds toward zero.
pub open spec fn quotient(a: int, b: int) -> int {
    if a >= 0 {
        a / b
    } else {
        -((-a) / b)
    }
}

/// The remainder that belongs to [`quotient`].
pub open spec fn remainder(a: int, b: int) -> int {
    a - b * quotient(a, b)
}

/// Integer arithmetic on bit patterns of a width.
pub open spec fn int_bin(
    kind: BinKind,
    width: u32,
    signedness: Signedness,
    a: u128,
    b: u128,
    env: Env,
) -> u128 {
    match kind {
        BinKind::Add => wrap(width, a + b),
        BinKind::Sub => wrap(width, a - b),
        BinKind::Mul => wrap(width, a * b),
        BinKind::Div => if b == 0 {
            (env.undefined)(kind, a, b)
        } else {
            wrap(width, quotient(as_int(width, signedness, a), as_int(width, signedness, b)))
        },
        BinKind::Rem => if b == 0 {
            (env.undefined)(kind, a, b)
        } else {
            wrap(width, remainder(as_int(width, signedness, a), as_int(width, signedness, b)))
        },
        BinKind::And => a & b,
        BinKind::Or => a | b,
        BinKind::Xor => a ^ b,
        BinKind::Shl => if b < width {
            wrap(width, (a << b) as int)
        } else {
            (env.undefined)(kind, a, b)
        },
        BinKind::Shr => if b >= width {
            (env.undefined)(kind, a, b)
        } else if signedness == Signedness::Signed {
            wrap(width, as_signed(width, a) / (vstd::arithmetic::power2::pow2(b as nat) as int))
        } else {
            a >> b
        },
        BinKind::LShr => if b < width {
            a >> b
        } else {
            (env.undefined)(kind, a, b)
        },
    }
}

/// Whether a relation holds between two integers.
pub open spec fn holds(relation: Relation, a: int, b: int) -> bool {
    match relation {
        Relation::Eq => a == b,
        Relation::Ne => a != b,
        Relation::Lt => a < b,
        Relation::Le => a <= b,
        Relation::Gt => a > b,
        Relation::Ge => a >= b,
    }
}

/// The bit of a truth value.
pub open spec fn bit(b: bool) -> u128 {
    if b {
        1
    } else {
        0
    }
}

/// The bit pattern of a meaning that is one.
pub open spec fn bits_of(sem: Sem) -> u128 {
    match sem {
        Sem::Bits(bits) => bits,
        _ => 0,
    }
}

/// The address that a meaning is: its first word.
pub open spec fn address_of(sem: Sem) -> u128
    decreases sem,
{
    match sem {
        Sem::Bits(bits) => bits,
        Sem::Agg(parts) => if parts.len() > 0 {
            address_of(parts[0])
        } else {
            0
        },
        Sem::Undef => 0,
    }
}

/// One part of a meaning.
pub open spec fn part(sem: Sem, index: int) -> Sem {
    match sem {
        Sem::Agg(parts) if 0 <= index < parts.len() => parts[index],
        _ => Sem::Undef,
    }
}

/// The part of a meaning at the end of a path.
pub open spec fn part_at(sem: Sem, path: Seq<u32>) -> Sem
    decreases path.len(),
{
    if path.len() == 0 {
        sem
    } else {
        part_at(part(sem, path[0] as int), path.skip(1))
    }
}

/// A meaning with the part at the end of a path replaced.
pub open spec fn with_part(sem: Sem, path: Seq<u32>, new: Sem) -> Sem
    decreases path.len(),
{
    if path.len() == 0 {
        new
    } else {
        match sem {
            Sem::Agg(parts) if path[0] < parts.len() => Sem::Agg(
                parts.update(
                    path[0] as int,
                    with_part(parts[path[0] as int], path.skip(1), new),
                ),
            ),
            _ => sem,
        }
    }
}

/// A meaning cut to the shape of a type: bit patterns of the type's width,
/// and one part for each field or element.
pub open spec fn shaped(ty: TypeHandle, sem: Sem) -> Sem
    decreases ty,
{
    match ty {
        TypeHandle::Integer { width, .. } => Sem::Bits(wrap(width, bits_of(sem) as int)),
        TypeHandle::Fp32 => Sem::Bits(wrap(32, bits_of(sem) as int)),
        TypeHandle::Fp64 => Sem::Bits(wrap(64, bits_of(sem) as int)),
        TypeHandle::Pointer { .. } => Sem::Bits(wrap(64, bits_of(sem) as int)),
        TypeHandle::MirPtr { .. } => Sem::Bits(wrap(64, bits_of(sem) as int)),
        TypeHandle::Array { elem, size } => Sem::Agg(
            Seq::new(size as nat, |i: int| shaped(*elem, part(sem, i))),
        ),
        TypeHandle::Struct { body: StructBody::Fields(list), .. } => Sem::Agg(
            shaped_list(*list, sem, 0),
        ),
        _ => Sem::Undef,
    }
}

/// The parts of a meaning from a position on, cut to the types of a list.
pub open spec fn shaped_list(list: TypeList, sem: Sem, from: int) -> Seq<Sem>
    decreases list,
{
    match list {
        TypeList::Nil => Seq::empty(),
        TypeList::Cons(head, tail) => seq![shaped(head, part(sem, from))] + shaped_list(
            *tail,
            sem,
            from + 1,
        ),
    }
}

/// The meaning of binary arithmetic on values of a type. Pointers are
/// unsigned addresses.
pub open spec fn bin_sem(kind: BinKind, ty: TypeHandle, a: Sem, b: Sem, env: Env) -> Sem {
    match ty {
        TypeHandle::Integer { width, signedness } => Sem::Bits(
            int_bin(kind, width, signedness, bits_of(a), bits_of(b), env),
        ),
        TypeHandle::Fp32 | TypeHandle::Fp64 => (env.float)(FloatOp::Bin(kind), ty, ty, seq![a, b]),
        _ => Sem::Bits(int_bin(kind, 64, Signedness::Unsigned, bits_of(a), bits_of(b), env)),
    }
}

/// The meaning of a comparison of values of a type.
pub open spec fn compare_sem(relation: Relation, ty: TypeHandle, a: Sem, b: Sem, env: Env) -> Sem {
    match ty {
        TypeHandle::Integer { width, signedness } => Sem::Bits(
            bit(
                holds(
                    relation,
                    as_int(width, signedness, bits_of(a)),
                    as_int(width, signedness, bits_of(b)),
                ),
            ),
        ),
        TypeHandle::Fp32 | TypeHandle::Fp64 => (env.float)(
            FloatOp::Compare(relation),
            ty,
            types::signless(1),
            seq![a, b],
        ),
        _ => Sem::Bits(bit(holds(relation, bits_of(a) as int, bits_of(b) as int))),
    }
}

/// The meaning of a negation.
pub open spec fn neg_sem(ty: TypeHandle, a: Sem, env: Env) -> Sem {
    match ty {
        TypeHandle::Integer { width, .. } => Sem::Bits(wrap(width, -bits_of(a))),
        _ => (env.float)(FloatOp::Neg, ty, ty, seq![a]),
    }
}

/// The integer that a value of a type stands for; an address is unsigned.
pub open spec fn int_value(ty: TypeHandle, a: Sem) -> int {
    match ty {
        TypeHandle::Integer { width, signedness } => as_int(width, signedness, bits_of(a)),
        _ => bits_of(a) as int,
    }
}

/// The width of the bit patterns of a type.
pub open spec fn bit_width(ty: TypeHandle) -> u32 {
    match ty {
        TypeHandle::Integer { width, .. } => width,
        TypeHandle::Fp32 => 32,
        _ => 64,
    }
}

/// The meaning of a cast from one type to another. Integers and addresses
/// keep their value modulo the target's width, read with the source's sign.
pub open spec fn cast_sem(
    kind: MirCastKind,
    from: TypeHandle,
    to: TypeHandle,
    a: Sem,
    env: Env,
) -> Sem {
    match kind {
        MirCastKind::IntToInt
        | MirCastKind::PtrToPtr
        | MirCastKind::PointerExposeAddress
        | MirCastKind::PointerWithExposedProvenance => Sem::Bits(
            wrap(bit_width(to), int_value(from, a)),
        ),
        _ => (env.float)(FloatOp::Convert(kind), from, to, seq![a]),
    }
}

/// Widths at which arithmetic is meaningful here.
pub open spec fn valid_width(width: u32) -> bool {
    width == 1 || width == 8 || width == 16 || width == 32 || width == 64 || width == 128
}

/// Whether a pattern can hold the bits of a width.
pub open spec fn held_width(width: u32) -> bool {
    1 <= width <= 128
}

/// All bits of a width are what is left of all bits after a shift.
pub proof fn lemma_ones(width: u32)
    requires
        held_width(width),
    ensures
        modulus(width) - 1 == u128::MAX >> ((128 - width) as u128),
{
    let shift = (128 - width) as u128;
    lemma_modulus(width);
    lemma_modulus(128);
    vstd::arithmetic::power2::lemma_pow2_adds(width as nat, shift as nat);
    vstd::arithmetic::power2::lemma_pow2_pos(shift as nat);
    vstd::bits::lemma_u128_shr_is_div(u128::MAX, shift);
    let p = vstd::arithmetic::power2::pow2(width as nat) as int;
    let q = vstd::arithmetic::power2::pow2(shift as nat) as int;
    assert(u128::MAX == (p - 1) * q + (q - 1)) by (nonlinear_arith)
        requires
            p * q == u128::MAX + 1,
    ;
    vstd::arithmetic::div_mod::lemma_fundamental_div_mod_converse(u128::MAX as int, q, p - 1, q - 1);
}

/// The number of patterns of a width is even, and larger than the width.
pub proof fn lemma_even(width: u32)
    requires
        held_width(width),
    ensures
        modulus(width) == 2 * (modulus(width) / 2),
        width < modulus(width) <= u128::MAX + 1,
        width > 1 ==> modulus(width) >= 4,
    decreases width,
{
    lemma_modulus(width);
    lemma_modulus_bound(width);
    vstd::arithmetic::power2::lemma_pow2_unfold(width as nat);
    if width > 1 {
        lemma_modulus((width - 1) as u32);
        lemma_even((width - 1) as u32);
    }
}

pub proof fn lemma_modulus(width: u32)
    ensures
        modulus(width) == vstd::arithmetic::power2::pow2(width as nat),
        modulus(width) > 0,
{
    vstd::arithmetic::power2::lemma2_to64();
    vstd::arithmetic::power2::lemma_pow2_adds(64, 64);
    vstd::arithmetic::power2::lemma_pow2_pos(width as nat);
}

/// A bit pattern that fits a width is its own pattern.
pub proof fn lemma_wrap_small(width: u32, value: int)
    requires
        0 <= value < modulus(width),
        width <= 128,
    ensures
        wrap(width, value) == value,
{
    lemma_modulus_bound(width);
    vstd::arithmetic::div_mod::lemma_small_mod(value as nat, modulus(width) as nat);
}

pub proof fn lemma_modulus_bound(width: u32)
    requires
        width <= 128,
    ensures
        0 < modulus(width) <= 340282366920938463463374607431768211456int,
{
    lemma_modulus(width);
    lemma_modulus(128);
    if width < 128 {
        vstd::arithmetic::power2::lemma_pow2_strictly_increases(width as nat, 128);
    }
}

/// Patterns fit their width.
pub broadcast proof fn lemma_wrap_range(width: u32, value: int)
    requires
        width <= 128,
    ensures
        #[trigger] wrap(width, value) < modulus(width),
        wrap(width, value) == value % modulus(width),
{
    lemma_modulus_bound(width);
    vstd::arithmetic::div_mod::lemma_mod_bound(value, modulus(width));
}

/// Taking the pattern of a pattern changes nothing.
pub proof fn lemma_wrap_idem(width: u32, value: int)
    requires
        width <= 128,
    ensures
        wrap(width, wrap(width, value) as int) == wrap(width, value),
{
    lemma_wrap_range(width, value);
    lemma_wrap_small(width, wrap(width, value) as int);
}

/// A pattern is the pattern of the integer that it stands for.
pub proof fn lemma_wrap_as_int(width: u32, signedness: Signedness, bits: u128)
    requires
        width <= 128,
        bits < modulus(width),
    ensures
        wrap(width, as_int(width, signedness, bits)) == bits,
{
    lemma_modulus_bound(width);
    lemma_wrap_small(width, bits as int);
    if as_int(width, signedness, bits) < 0 {
        let m = modulus(width);
        assert((bits - m) % m == bits as int % m) by {
            vstd::arithmetic::div_mod::lemma_mod_add_multiples_vanish(bits - m, m);
        }
    }
}

/// The parts of a meaning cut to a list of types, one by one.
pub proof fn lemma_shaped_list(list: &TypeList, sem: Sem, from: int)
    ensures
        shaped_list(*list, sem, from).len() == list.seq().len(),
        forall|i: int|
            0 <= i < list.seq().len() ==> #[trigger] shaped_list(*list, sem, from)[i] == shaped(
                list.seq()[i],
                part(sem, from + i),
            ),
    decreases *list,
{
    match list {
        TypeList::Nil => {},
        TypeList::Cons(head, tail) => {
            lemma_shaped_list(tail, sem, from + 1);
            assert forall|i: int| 0 <= i < list.seq().len() implies #[trigger] shaped_list(
                *list,
                sem,
                from,
            )[i] == shaped(list.seq()[i], part(sem, from + i)) by {
                if i > 0 {
                    assert(shaped_list(*list, sem, from)[i] == shaped_list(
                        **tail,
                        sem,
                        from + 1,
                    )[i - 1]);
                    assert(list.seq()[i] == tail.seq()[i - 1]);
                }
            }
        },
    }
}

/// Cutting a meaning to a shape that it has changes nothing.
pub proof fn lemma_shaped_idem(ty: &TypeHandle, sem: Sem)
    requires
        narrow(*ty),
    ensures
        shaped(*ty, shaped(*ty, sem)) == shaped(*ty, sem),
    decreases *ty,
{
    match ty {
        TypeHandle::Integer { width, .. } => {
            lemma_wrap_idem(*width, bits_of(sem) as int);
        },
        TypeHandle::Fp32 => {
            lemma_wrap_idem(32, bits_of(sem) as int);
        },
        TypeHandle::Fp64 | TypeHandle::Pointer { .. } | TypeHandle::MirPtr { .. } => {
            lemma_wrap_idem(64, bits_of(sem) as int);
        },
        TypeHandle::Array { elem, size } => {
            let once = shaped(*ty, sem)->Agg_0;
            let twice = shaped(*ty, shaped(*ty, sem))->Agg_0;
            assert(once.len() == *size && twice.len() == *size);
            assert forall|i: int| 0 <= i < *size implies once[i] == twice[i] by {
                lemma_shaped_idem(elem, part(sem, i));
                assert(once[i] == shaped(**elem, part(sem, i)));
                assert(twice[i] == shaped(**elem, part(shaped(*ty, sem), i)));
            }
            assert(once =~= twice);
        },
        TypeHandle::Struct { body: StructBody::Fields(list), .. } => {
            lemma_shaped_list(list, sem, 0);
            lemma_shaped_list_idem(list, sem, shaped(*ty, sem), 0);
        },
        _ => {},
    }
}

/// Cutting parts to shapes that they have changes nothing.
proof fn lemma_shaped_list_idem(list: &TypeList, sem: Sem, whole: Sem, from: int)
    requires
        narrow_list(*list),
        from >= 0,
        whole matches Sem::Agg(parts) && parts.len() >= from + list.seq().len() && forall|i: int|
            0 <= i < list.seq().len() ==> parts[from + i] == #[trigger] shaped_list(
                *list,
                sem,
                from,
            )[i],
    ensures
        shaped_list(*list, whole, from) == shaped_list(*list, sem, from),
    decreases *list,
{
    match list {
        TypeList::Nil => {},
        TypeList::Cons(head, tail) => {
            lemma_shaped_list(list, sem, from);
            lemma_shaped_list(tail, sem, from + 1);
            assert(whole->Agg_0[from + 0] == shaped_list(*list, sem, from)[0]);
            assert(part(whole, from) == shaped(*head, part(sem, from)));
            lemma_shaped_idem(head, part(sem, from));
            assert forall|i: int| 0 <= i < tail.seq().len() implies whole->Agg_0[from + 1 + i]
                == #[trigger] shaped_list(**tail, sem, from + 1)[i] by {
                assert(shaped_list(*list, sem, from)[i + 1] == shaped_list(
                    **tail,
                    sem,
                    from + 1,
                )[i]);
                assert(whole->Agg_0[from + (i + 1)] == shaped_list(*list, sem, from)[i + 1]);
            }
            lemma_shaped_list_idem(tail, sem, whole, from + 1);
        },
    }
}

/// Whether no integer in a type is wider than a bit pattern.
pub open spec fn narrow(ty: TypeHandle) -> bool
    decreases ty,
{
    match ty {
        TypeHandle::Integer { width, .. } => width <= 128,
        TypeHandle::Array { elem, .. } => narrow(*elem),
        TypeHandle::Struct { body: StructBody::Fields(list), .. } => narrow_list(*list),
        _ => true,
    }
}

/// Whether no integer in a list of types is wider than a bit pattern.
pub open spec fn narrow_list(list: TypeList) -> bool
    decreases list,
{
    match list {
        TypeList::Nil => true,
        TypeList::Cons(head, tail) => narrow(head) && narrow_list(*tail),
    }
}

pub proof fn lemma_narrow_list(list: &TypeList)
    ensures
        narrow_list(*list) <==> forall|i: int|
            0 <= i < list.seq().len() ==> narrow(#[trigger] list.seq()[i]),
    decreases *list,
{
    match list {
        TypeList::Nil => {},
        TypeList::Cons(head, tail) => {
            lemma_narrow_list(tail);
            let all = |l: TypeList| forall|i: int|
                0 <= i < l.seq().len() ==> narrow(#[trigger] l.seq()[i]);
            assert(list.seq()[0] == *head);
            assert(all(*list) ==> all(**tail)) by {
                assert(forall|i: int|
                    0 <= i < tail.seq().len() ==> #[trigger] tail.seq()[i] == list.seq()[i + 1]);
            }
            assert(narrow(*head) && all(**tail) ==> all(*list)) by {
                assert(forall|i: int|
                    0 < i < list.seq().len() ==> #[trigger] list.seq()[i] == tail.seq()[i - 1]);
            }
        },
    }
}

/// Replacing one field of a struct by a value of its type replaces just that
/// part.
pub proof fn lemma_insert_field(ty: &TypeHandle, whole: Sem, index: u32, new: Sem)
    requires
        narrow(*ty),
        ty.fields() is Some,
        index < ty.fields()->0.len(),
        shaped(*ty, whole) == whole,
        shaped(ty.fields()->0[index as int], new) == new,
    ensures
        whole is Agg,
        whole->Agg_0.len() == ty.fields()->0.len(),
        shaped(*ty, with_part(whole, seq![index], new)) == Sem::Agg(
            whole->Agg_0.update(index as int, new),
        ),
{
    let list = &ty->body->Fields_0;
    lemma_shaped_list(list, whole, 0);
    let parts = whole->Agg_0;
    let path = seq![index];
    assert(path.skip(1) =~= Seq::<u32>::empty());
    let changed = Sem::Agg(parts.update(index as int, new));
    assert(with_part(parts[index as int], path.skip(1), new) == new);
    assert(with_part(whole, path, new) == changed);
    lemma_shaped_list(list, changed, 0);
    assert(shaped_list(**list, changed, 0) =~= parts.update(index as int, new)) by {
        assert forall|i: int| 0 <= i < parts.len() implies shaped_list(**list, changed, 0)[i]
            == parts.update(index as int, new)[i] by {
            assert(part(changed, 0 + i) == parts.update(index as int, new)[i]);
            assert(part(whole, 0 + i) == parts[i]);
            assert(shaped_list(**list, whole, 0)[i] == shaped(list.seq()[i], part(whole, 0 + i)));
        }
    }
}

/// A struct of two fields holds two parts.
pub proof fn lemma_pair(a: TypeHandle, b: TypeHandle)
    ensures
        types::pair_of(a, b).fields() == Some(seq![a, b]),
        narrow(types::pair_of(a, b)) == (narrow(a) && narrow(b)),
        forall|sem: Sem| #[trigger]
            shaped(types::pair_of(a, b), sem) == Sem::Agg(
                seq![shaped(a, part(sem, 0)), shaped(b, part(sem, 1))],
            ),
{
    let ty = types::pair_of(a, b);
    let list = TypeList::of(seq![a, b]);
    TypeList::seq_of(seq![a, b]);
    lemma_narrow_list(&list);
    assert(list.seq()[0] == a && list.seq()[1] == b);
    assert forall|sem: Sem| #[trigger] shaped(ty, sem) == Sem::Agg(
        seq![shaped(a, part(sem, 0)), shaped(b, part(sem, 1))],
    ) by {
        lemma_shaped_list(&list, sem, 0);
        assert(shaped_list(list, sem, 0) =~= seq![
            shaped(a, part(sem, 0)),
            shaped(b, part(sem, 1)),
        ]);
    }
}

/// Whether a meaning has a part at the end of a path.
pub open spec fn has_part(sem: Sem, path: Seq<u32>) -> bool
    decreases path.len(),
{
    path.len() > 0 ==> {
        &&& sem matches Sem::Agg(parts)
        &&& path[0] < parts.len()
        &&& has_part(part(sem, path[0] as int), path.skip(1))
    }
}

/// Reading a part back gives what was last put there.
pub proof fn law_part_read_back(sem: Sem, path: Seq<u32>, new: Sem)
    requires
        has_part(sem, path),
    ensures
        part_at(with_part(sem, path, new), path) == new,
    decreases path.len(),
{
    if path.len() > 0 {
        law_part_read_back(part(sem, path[0] as int), path.skip(1), new);
    }
}

/// Replacing a part leaves the parts beside it as they were.
pub proof fn law_other_parts_stay(sem: Sem, path: Seq<u32>, other: Seq<u32>, new: Sem, fork: int)
    requires
        0 <= fork < path.len(),
        fork < other.len(),
        path.take(fork) == other.take(fork),
        path[fork] != other[fork],
    ensures
        part_at(with_part(sem, path, new), other) == part_at(sem, other),
    decreases path.len(),
{
    if fork > 0 {
        assert(path[0] == path.take(fork)[0]);
        assert(other[0] == other.take(fork)[0]);
        assert(path.skip(1).take(fork - 1) =~= path.take(fork).skip(1));
        assert(other.skip(1).take(fork - 1) =~= other.take(fork).skip(1));
        law_other_parts_stay(
            part(sem, path[0] as int),
            path.skip(1),
            other.skip(1),
            new,
            fork - 1,
        );
    }
}

} // verus!
