//! What intrinsics come to: the laws of their results.

use crate::arith;
use crate::bits;
use crate::bitwise;
use crate::bitwise::BitOp;
use crate::conversions;
use crate::convert;
use crate::error::Failure;
use crate::intrinsics;
use crate::intrinsics::{Known, Reply, VectorOp};
use crate::ir::Meaning;
use crate::layout;
use crate::meaning;
use crate::meaning::Step;
use crate::mir::{Instance, Operand, Place};
use crate::need::{Lost, Lowered};
use crate::numbers;
use crate::numbers::operand_of;
use crate::operand;
use crate::operand::Scene;
use crate::parts;
use crate::sem;
use crate::sem::{Env, Moment, Sem};
use crate::ty::TyId;
use crate::types;
use crate::types::TypeHandle;
use vstd::prelude::*;

verus! {

/// What tells the names of the intrinsics apart: the length, the third letter
/// and the last.
spec fn key(name: Seq<char>) -> (nat, char, char) {
    (name.len(), name[2], name.last())
}

/// Each intrinsic is known by its name.
#[verifier::rlimit(60)]
#[verifier::spinoff_prover]
pub proof fn lemma_names()
    ensures
        intrinsics::known("cold_path"@) == Known::ColdPath,
        intrinsics::known("black_box"@) == Known::BlackBox,
        intrinsics::known("atomic_load"@) == Known::AtomicLoad,
        intrinsics::known("atomic_store"@) == Known::AtomicStore,
        intrinsics::known("atomic_xchg"@) == Known::AtomicExchange,
        intrinsics::known("write_bytes"@) == Known::WriteBytes,
        intrinsics::known("ptr_offset_from_unsigned"@) == Known::OffsetFrom,
        intrinsics::known("ptr_offset_from"@) == Known::OffsetFrom,
        intrinsics::known("ctpop"@) == Known::Bits(BitOp::Ones),
        intrinsics::known("cttz"@) == Known::Bits(BitOp::TrailingZeros),
        intrinsics::known("cttz_nonzero"@) == Known::Bits(BitOp::TrailingZeros),
        intrinsics::known("ctlz"@) == Known::Bits(BitOp::LeadingZeros),
        intrinsics::known("ctlz_nonzero"@) == Known::Bits(BitOp::LeadingZeros),
        intrinsics::known("bswap"@) == Known::Bits(BitOp::SwapBytes),
        intrinsics::known("bitreverse"@) == Known::Bits(BitOp::ReverseBits),
        intrinsics::known("rotate_left"@) == Known::Rotate(true),
        intrinsics::known("rotate_right"@) == Known::Rotate(false),
        intrinsics::known("copy"@) == Known::Copy(true),
        intrinsics::known("copy_nonoverlapping"@) == Known::Copy(false),
        intrinsics::known("typed_swap_nonoverlapping"@) == Known::Swap,
        intrinsics::known("simd_splat"@) == Known::SimdSplat,
        intrinsics::known("simd_or"@) == Known::Simd(VectorOp::Or),
        intrinsics::known("simd_extract"@) == Known::SimdExtract,
        intrinsics::known("simd_extract_dyn"@) == Known::SimdExtract,
        intrinsics::known("simd_eq"@) == Known::Simd(VectorOp::Eq),
        intrinsics::known("simd_lt"@) == Known::Simd(VectorOp::Lt),
        intrinsics::known("simd_ge"@) == Known::Simd(VectorOp::Ge),
        intrinsics::known("saturating_add"@) == Known::Saturating(true),
        intrinsics::known("saturating_sub"@) == Known::Saturating(false),
        intrinsics::known("exact_div"@) == Known::ExactDiv,
        intrinsics::known("float_to_int_unchecked"@) == Known::FloatToInt,
        intrinsics::known("arith_offset"@) == Known::ArithOffset,
        intrinsics::known("size_of_val"@) == Known::Measure(true),
        intrinsics::known("align_of_val"@) == Known::Measure(false),
        intrinsics::known("drop_glue"@) == Known::Drop,
{
    reveal(intrinsics::known);
    reveal_strlit("cold_path");
    reveal_strlit("black_box");
    reveal_strlit("atomic_load");
    reveal_strlit("atomic_store");
    reveal_strlit("atomic_xchg");
    reveal_strlit("write_bytes");
    reveal_strlit("ptr_offset_from_unsigned");
    reveal_strlit("ptr_offset_from");
    reveal_strlit("ctpop");
    reveal_strlit("cttz");
    reveal_strlit("cttz_nonzero");
    reveal_strlit("ctlz");
    reveal_strlit("ctlz_nonzero");
    reveal_strlit("bswap");
    reveal_strlit("bitreverse");
    reveal_strlit("rotate_left");
    reveal_strlit("rotate_right");
    reveal_strlit("copy");
    reveal_strlit("copy_nonoverlapping");
    reveal_strlit("typed_swap_nonoverlapping");
    reveal_strlit("simd_splat");
    reveal_strlit("simd_or");
    reveal_strlit("simd_extract");
    reveal_strlit("simd_extract_dyn");
    reveal_strlit("simd_eq");
    reveal_strlit("simd_lt");
    reveal_strlit("simd_ge");
    reveal_strlit("saturating_add");
    reveal_strlit("saturating_sub");
    reveal_strlit("exact_div");
    reveal_strlit("float_to_int_unchecked");
    reveal_strlit("arith_offset");
    reveal_strlit("size_of_val");
    reveal_strlit("align_of_val");
    reveal_strlit("drop_glue");
    assert(key("cold_path"@) == (9nat, 'l', 'h'));
    assert(key("black_box"@) == (9nat, 'a', 'x'));
    assert(key("atomic_load"@) == (11nat, 'o', 'd'));
    assert(key("atomic_store"@) == (12nat, 'o', 'e'));
    assert(key("atomic_xchg"@) == (11nat, 'o', 'g'));
    assert(key("write_bytes"@) == (11nat, 'i', 's'));
    assert(key("ptr_offset_from_unsigned"@) == (24nat, 'r', 'd'));
    assert(key("ptr_offset_from"@) == (15nat, 'r', 'm'));
    assert(key("ctpop"@) == (5nat, 'p', 'p'));
    assert(key("cttz"@) == (4nat, 't', 'z'));
    assert(key("cttz_nonzero"@) == (12nat, 't', 'o'));
    assert(key("ctlz"@) == (4nat, 'l', 'z'));
    assert(key("ctlz_nonzero"@) == (12nat, 'l', 'o'));
    assert(key("bswap"@) == (5nat, 'w', 'p'));
    assert(key("bitreverse"@) == (10nat, 't', 'e'));
    assert(key("rotate_left"@) == (11nat, 't', 't'));
    assert(key("rotate_right"@) == (12nat, 't', 't'));
    assert(key("copy"@) == (4nat, 'p', 'y'));
    assert(key("copy_nonoverlapping"@) == (19nat, 'p', 'g'));
    assert(key("typed_swap_nonoverlapping"@) == (25nat, 'p', 'g'));
    assert(key("simd_splat"@) == (10nat, 'm', 't'));
    assert(key("simd_or"@) == (7nat, 'm', 'r'));
    assert(key("simd_extract"@) == (12nat, 'm', 't'));
    assert(key("simd_extract_dyn"@) == (16nat, 'm', 'n'));
    assert(key("simd_eq"@) == (7nat, 'm', 'q'));
    assert(key("simd_lt"@) == (7nat, 'm', 't'));
    assert(key("simd_ge"@) == (7nat, 'm', 'e'));
    assert(key("saturating_add"@) == (14nat, 't', 'd'));
    assert(key("saturating_sub"@) == (14nat, 't', 'b'));
    assert(key("exact_div"@) == (9nat, 'a', 'v'));
    assert(key("float_to_int_unchecked"@) == (22nat, 'o', 'd'));
    assert(key("arith_offset"@) == (12nat, 'i', 't'));
    assert(key("size_of_val"@) == (11nat, 'z', 'l'));
    assert(key("align_of_val"@) == (12nat, 'i', 'l'));
    assert(key("drop_glue"@) == (9nat, 'o', 'e'));
}

/// Whether an instance is the intrinsic of a name.
pub open spec fn is_intrinsic(instance: Instance, name: Seq<char>) -> bool {
    instance.kind is Intrinsic && instance.name@ == name
}

/// What the call of an intrinsic comes to.
pub open spec fn reply_of(
    scene: Scene,
    at: Moment,
    instance: Instance,
    args: Seq<Operand>,
    dest: Place,
) -> Result<Reply, Lost> {
    intrinsics::reply(scene, at, instance.name@, instance, args, dest)
}

/// The result of an intrinsic is written to the destination of the call, after
/// all that it takes to get there.
pub proof fn law_result_is_written(
    scene: Scene,
    at: Moment,
    instance: Instance,
    args: Seq<Operand>,
    dest: Place,
    lowered: Lowered,
)
    requires
        instance.kind is Intrinsic,
        reply_of(scene, at, instance, args, dest) == Ok::<Reply, Lost>(Reply::Value(lowered)),
        scene.write(meaning::later(at, lowered.steps.len()), dest, lowered.value) is Ok,
    ensures
        intrinsics::known_call(scene, at, instance, args, dest) matches Ok((is_known, effect))
            && is_known && effect.steps.len() == lowered.steps.len() + 1 && effect.steps.drop_last()
            == lowered.steps && Ok::<Step, Failure>(effect.steps.last()) == scene.write(
            meaning::later(at, lowered.steps.len()),
            dest,
            lowered.value,
        ),
{
    let effect = intrinsics::known_call(scene, at, instance, args, dest)->Ok_0.1;
    assert(effect.steps.drop_last() =~= lowered.steps);
}

/// Whether a reply is a number of a type in a run, which is only computed.
pub open spec fn is_result(r: Result<Reply, Lost>, ty: TypeHandle, env: Env, pattern: int) -> bool {
    r matches Ok(Reply::Value(lowered)) && lowered.steps.len() == 0 && lowered.value.ty == ty && (
    lowered.value.den)(env) is Bits && lowered.value.bits(env) == pattern
}

/// The type in which a result is held.
pub open spec fn held(scene: Scene, dest: Place) -> TypeHandle {
    convert::immediate(scene.program.types, dest.ty)->Ok_0
}

/// Whether a call has one operand that is a number, and a destination of an
/// integer type.
pub open spec fn has_number(
    scene: Scene,
    at: Moment,
    args: Seq<Operand>,
    dest: Place,
    env: Env,
) -> bool {
    &&& args.len() == 1
    &&& operand::operand_value(scene, at, args[0]) is Ok
    &&& numbers::is_number(operand_of(scene, at, args[0]), env)
    &&& sem::valid_width(operand_of(scene, at, args[0]).ty->width)
    &&& convert::immediate(scene.program.types, dest.ty) is Ok
    &&& held(scene, dest) is Integer
    &&& sem::held_width(held(scene, dest)->width)
}

/// What the operation on bits of an intrinsic gives, in the type of the
/// destination.
proof fn lemma_bits(
    scene: Scene,
    at: Moment,
    instance: Instance,
    args: Seq<Operand>,
    dest: Place,
    op: BitOp,
    env: Env,
)
    requires
        intrinsics::known(instance.name@) == Known::Bits(op),
        has_number(scene, at, args, dest, env),
        op == BitOp::SwapBytes ==> operand_of(scene, at, args[0]).ty->width >= 8,
        ({
            let x = operand_of(scene, at, args[0]);
            bitwise::bit_result(op, x.bits(env), x.ty->width) < if bitwise::keeps_width(op)
                && x.ty->width == 128 {
                sem::modulus(128)
            } else {
                sem::modulus(64)
            }
        }),
    ensures
        ({
            let x = operand_of(scene, at, args[0]);
            is_result(
                reply_of(scene, at, instance, args, dest),
                held(scene, dest),
                env,
                bitwise::bit_result(op, x.bits(env), x.ty->width) as int % sem::modulus(
                    held(scene, dest)->width,
                ),
            )
        }),
{
    reveal(intrinsics::reply);
    let x = operand_of(scene, at, args[0]);
    let to = held(scene, dest);
    let r = bitwise::bit_result(op, x.bits(env), x.ty->width);
    let w = if bitwise::keeps_width(op) && x.ty->width == 128 {
        128u32
    } else {
        64u32
    };
    sem::lemma_wrap_range(to->width, r as int);
    sem::lemma_wrap_idem(to->width, r as int);
    if to == types::unsigned(w) {
        vstd::arithmetic::div_mod::lemma_small_mod(r as nat, sem::modulus(w) as nat);
    }
}

/// The intrinsics that count say how many bits of an integer are set, how many
/// are clear below the lowest that is set, and how many above the highest.
pub proof fn law_bit_counts(
    scene: Scene,
    at: Moment,
    instance: Instance,
    args: Seq<Operand>,
    dest: Place,
    env: Env,
)
    requires
        instance.kind is Intrinsic,
        has_number(scene, at, args, dest, env),
    ensures
        ({
            let x = operand_of(scene, at, args[0]).bits(env);
            let w = operand_of(scene, at, args[0]).ty->width;
            let m = sem::modulus(held(scene, dest)->width);
            let r = reply_of(scene, at, instance, args, dest);
            let name = instance.name@;
            let is = |count: u128| is_result(r, held(scene, dest), env, count as int % m);
            &&& name == "ctpop"@ ==> exists|count: u128| #[trigger]
                is(count) && count == if w == 128 {
                    bits::ones(x, 128)
                } else {
                    bits::ones(x, 64)
                }
            &&& name == "cttz"@ || name == "cttz_nonzero"@ ==> exists|count: u128| #[trigger]
                is(count) && bits::trailing_zeros(x, w, count)
            &&& name == "ctlz"@ || name == "ctlz_nonzero"@ ==> exists|count: u128| #[trigger]
                is(count) && bits::leading_zeros(x, w, count)
        }),
{
    lemma_names();
    let x = operand_of(scene, at, args[0]).bits(env);
    let w = operand_of(scene, at, args[0]).ty->width;
    let m = sem::modulus(held(scene, dest)->width);
    let r = reply_of(scene, at, instance, args, dest);
    let name = instance.name@;
    let is = |count: u128| is_result(r, held(scene, dest), env, count as int % m);
    if name == "ctpop"@ {
        lemma_ones_bound(x, 64);
        lemma_ones_bound(x, 128);
        lemma_bits(scene, at, instance, args, dest, BitOp::Ones, env);
        assert(is(bitwise::bit_result(BitOp::Ones, x, w)));
    }
    if name == "cttz"@ || name == "cttz_nonzero"@ {
        let count = bitwise::trailing_count(x, w);
        bitwise::law_trailing_count(x, w, count);
        lemma_bits(scene, at, instance, args, dest, BitOp::TrailingZeros, env);
        assert(is(count));
    }
    if name == "ctlz"@ || name == "ctlz_nonzero"@ {
        let count = bitwise::leading_count(x, w);
        bitwise::law_leading_count(x, w, count);
        lemma_bits(scene, at, instance, args, dest, BitOp::LeadingZeros, env);
        assert(is(count));
    }
}

/// No more bits are set than there are.
proof fn lemma_ones_bound(x: u128, n: nat)
    requires
        n <= 128,
    ensures
        bits::ones(x, n) <= n,
    decreases n,
{
    if n > 0 {
        lemma_ones_bound(x, (n - 1) as nat);
        bits::lemma_bit_small(x, (n - 1) as u128);
    }
}

/// The intrinsics that reorder give an integer with its bytes, or its bits, in
/// the opposite order.
pub proof fn law_bit_orders(
    scene: Scene,
    at: Moment,
    instance: Instance,
    args: Seq<Operand>,
    dest: Place,
    env: Env,
)
    requires
        instance.kind is Intrinsic,
        has_number(scene, at, args, dest, env),
        held(scene, dest)->width == operand_of(scene, at, args[0]).ty->width,
    ensures
        ({
            let x = operand_of(scene, at, args[0]).bits(env);
            let w = operand_of(scene, at, args[0]).ty->width;
            let r = reply_of(scene, at, instance, args, dest);
            let name = instance.name@;
            let is = |pattern: u128| is_result(r, held(scene, dest), env, pattern as int);
            &&& name == "bswap"@ && w >= 8 ==> exists|pattern: u128| #[trigger]
                is(pattern) && bits::bytes_swapped(x, w, pattern)
            &&& name == "bitreverse"@ ==> exists|pattern: u128| #[trigger]
                is(pattern) && bits::bits_reversed(x, w, pattern)
        }),
{
    lemma_names();
    let x = operand_of(scene, at, args[0]).bits(env);
    let w = operand_of(scene, at, args[0]).ty->width;
    let r = reply_of(scene, at, instance, args, dest);
    let name = instance.name@;
    let is = |pattern: u128| is_result(r, held(scene, dest), env, pattern as int);
    let m = sem::modulus(w);
    if name == "bswap"@ && w >= 8 {
        let pattern = bitwise::swapped(x, w);
        bitwise::law_swapped(x, w, pattern);
        lemma_bits(scene, at, instance, args, dest, BitOp::SwapBytes, env);
        vstd::arithmetic::div_mod::lemma_small_mod(pattern as nat, m as nat);
        assert(is(pattern));
    }
    if name == "bitreverse"@ {
        let pattern = bitwise::reversed(x, w);
        bitwise::law_reversed(x, w, pattern);
        lemma_bits(scene, at, instance, args, dest, BitOp::ReverseBits, env);
        vstd::arithmetic::div_mod::lemma_small_mod(pattern as nat, m as nat);
        assert(is(pattern));
    }
}

/// Whether a call has two known operands.
pub open spec fn has_two(scene: Scene, at: Moment, args: Seq<Operand>) -> bool {
    args.len() == 2 && numbers::both_known(scene, at, args[0], args[1])
}

/// A rotation moves each bit up, or down, by as many places as the second
/// operand says; a bit that leaves at one end comes in at the other.
pub proof fn law_rotations(
    scene: Scene,
    at: Moment,
    instance: Instance,
    args: Seq<Operand>,
    dest: Place,
    env: Env,
)
    requires
        is_intrinsic(instance, "rotate_left"@) || is_intrinsic(instance, "rotate_right"@),
        has_two(scene, at, args),
        numbers::is_number(operand_of(scene, at, args[0]), env),
        sem::valid_width(operand_of(scene, at, args[0]).ty->width),
        operand_of(scene, at, args[1]).ty == types::unsigned(32),
        operand_of(scene, at, args[1]).bits(env) < sem::modulus(32),
        convert::immediate(scene.program.types, dest.ty) == Ok::<TypeHandle, Failure>(
            operand_of(scene, at, args[0]).ty,
        ),
    ensures
        ({
            let x = operand_of(scene, at, args[0]).bits(env);
            let ty = operand_of(scene, at, args[0]).ty;
            let k = operand_of(scene, at, args[1]).bits(env);
            let r = reply_of(scene, at, instance, args, dest);
            exists|pattern: u128| #[trigger]
                is_result(r, ty, env, pattern as int) && bits::rotated(
                    x,
                    ty->width,
                    if instance.name@ == "rotate_left"@ {
                        k as int
                    } else {
                        -k
                    },
                    pattern,
                )
        }),
{
    lemma_names();
    reveal(intrinsics::reply);
    let value = operand_of(scene, at, args[0]);
    let shift = operand_of(scene, at, args[1]);
    let x = value.bits(env);
    let w = value.ty->width;
    let k = shift.bits(env);
    let left = instance.name@ == "rotate_left"@;
    assert("rotate_left"@ != "rotate_right"@) by {
        reveal_strlit("rotate_left");
        reveal_strlit("rotate_right");
    }
    sem::lemma_wrap_small(128, k as int);
    let by = if left {
        k as int
    } else {
        -k
    };
    assert(bitwise::places(left, w, shift, env) == by);
    let pattern = bitwise::rotation(x, w, by);
    bitwise::law_rotation(x, w, by, pattern);
    sem::lemma_wrap_small(w, pattern as int);
    assert(is_result(reply_of(scene, at, instance, args, dest), value.ty, env, pattern as int));
}

/// Whether a number is the one nearest to another among those of a type.
pub open spec fn is_nearest(ty: TypeHandle, n: int, wanted: int) -> bool {
    &&& conversions::is_within(ty, n)
    &&& conversions::is_within(ty, wanted) ==> n == wanted
    &&& forall|other: int|
        #![trigger conversions::is_within(ty, other)]
        conversions::is_within(ty, other) ==> (wanted - n) * (wanted - n) <= (wanted - other) * (
        wanted - other)
}

/// A saturating sum or difference is the number of the type that is nearest to
/// the true one.
pub proof fn law_saturating(
    scene: Scene,
    at: Moment,
    instance: Instance,
    args: Seq<Operand>,
    dest: Place,
    env: Env,
)
    requires
        is_intrinsic(instance, "saturating_add"@) || is_intrinsic(instance, "saturating_sub"@),
        has_two(scene, at, args),
        numbers::is_number(operand_of(scene, at, args[0]), env),
        operand_of(scene, at, args[0]).ty->width > 1,
        operand_of(scene, at, args[1]).ty == operand_of(scene, at, args[0]).ty,
    ensures
        ({
            let ty = operand_of(scene, at, args[0]).ty;
            let x = numbers::number(operand_of(scene, at, args[0]), env);
            let y = numbers::number(operand_of(scene, at, args[1]), env);
            reply_of(scene, at, instance, args, dest) matches Ok(Reply::Value(lowered))
                && lowered.steps.len() == 0 && lowered.value.ty == ty && (lowered.value.den)(
                env,
            ) is Bits && is_nearest(
                ty,
                numbers::number(lowered.value, env),
                if instance.name@ == "saturating_add"@ {
                    x + y
                } else {
                    x - y
                },
            )
        }),
{
    lemma_names();
    reveal(intrinsics::reply);
    let ty = operand_of(scene, at, args[0]).ty;
    let x = numbers::number(operand_of(scene, at, args[0]), env);
    let y = numbers::number(operand_of(scene, at, args[1]), env);
    let is_add = instance.name@ == "saturating_add"@;
    assert("saturating_add"@ != "saturating_sub"@) by {
        reveal_strlit("saturating_add");
        reveal_strlit("saturating_sub");
        assert("saturating_add"@[11] != "saturating_sub"@[11]);
    }
    let wanted = if is_add {
        x + y
    } else {
        x - y
    };
    let n = arith::saturated(ty->width, ty->signedness, wanted);
    sem::lemma_even(ty->width);
    numbers::lemma_fits(ty->width, ty->signedness, n);
    assert forall|other: int|
        #![trigger conversions::is_within(ty, other)]
        conversions::is_within(ty, other) implies (wanted - n) * (wanted - n) <= (wanted - other)
        * (wanted - other) by {
        if wanted != n {
            assert((wanted - n) * (wanted - n) <= (wanted - other) * (wanted - other))
                by (nonlinear_arith)
                requires
                    (other <= n && n < wanted) || (wanted < n && n <= other),
            ;
        } else {
            assert((wanted - other) * (wanted - other) >= 0) by (nonlinear_arith);
        }
    }
}

/// The number of elements between two pointers is the number of bytes between
/// them by the size of an element.
pub proof fn law_distance(
    scene: Scene,
    at: Moment,
    instance: Instance,
    args: Seq<Operand>,
    dest: Place,
    size: u64,
    env: Env,
)
    requires
        is_intrinsic(instance, "ptr_offset_from_unsigned"@) || is_intrinsic(
            instance,
            "ptr_offset_from"@,
        ),
        has_two(scene, at, args),
        operand_of(scene, at, args[0]).ty.is_ptr(),
        operand_of(scene, at, args[1]).ty.is_ptr(),
        operand_of(scene, at, args[0]).bits(env) < sem::modulus(64),
        operand_of(scene, at, args[1]).bits(env) <= operand_of(scene, at, args[0]).bits(env),
        intrinsics::arg_size(scene.program.types, instance, 0) == Ok::<u64, Failure>(size),
        size > 0,
        convert::immediate(scene.program.types, dest.ty) == Ok::<TypeHandle, Failure>(
            types::unsigned(64),
        ),
    ensures
        ({
            let x = operand_of(scene, at, args[0]).bits(env);
            let y = operand_of(scene, at, args[1]).bits(env);
            is_result(
                reply_of(scene, at, instance, args, dest),
                types::unsigned(64),
                env,
                (x - y) / (size as int),
            )
        }),
{
    lemma_names();
    reveal(intrinsics::reply);
    lemma_distance(operand_of(scene, at, args[0]), operand_of(scene, at, args[1]), size, env);
}

proof fn lemma_distance(lhs: Meaning, rhs: Meaning, size: u64, env: Env)
    requires
        lhs.ty.is_ptr(),
        rhs.ty.is_ptr(),
        lhs.bits(env) < sem::modulus(64),
        rhs.bits(env) <= lhs.bits(env),
        size > 0,
    ensures
        ({
            let r = intrinsics::distance(lhs, rhs, size);
            &&& r.ty == types::unsigned(64)
            &&& (r.den)(env) == Sem::Bits(((lhs.bits(env) - rhs.bits(env)) / (size as int)) as u128)
            &&& r.bits(env) == (lhs.bits(env) - rhs.bits(env)) / (size as int)
        }),
{
    let (x, y) = (lhs.bits(env) as int, rhs.bits(env) as int);
    sem::lemma_wrap_small(64, x);
    sem::lemma_wrap_small(64, y);
    sem::lemma_wrap_small(64, x - y);
    let q = (x - y) / (size as int);
    vstd::arithmetic::div_mod::lemma_div_pos_is_pos(x - y, size as int);
    vstd::arithmetic::div_mod::lemma_div_is_ordered_by_denominator(x - y, 1, size as int);
    vstd::arithmetic::div_mod::lemma_div_basics(x - y);
    sem::lemma_wrap_small(64, q);
}

/// A value that goes through a black box is what it was.
pub proof fn law_black_box(
    scene: Scene,
    at: Moment,
    instance: Instance,
    args: Seq<Operand>,
    dest: Place,
    size: u64,
)
    requires
        is_intrinsic(instance, "black_box"@),
        args.len() == 1,
        operand::operand_value(scene, at, args[0]) is Ok,
        intrinsics::arg_size(scene.program.types, instance, 0) == Ok::<u64, Failure>(size),
        size > 0,
    ensures
        reply_of(scene, at, instance, args, dest) matches Ok(Reply::Value(lowered))
            && lowered.value == operand_of(scene, at, args[0]),
{
    lemma_names();
    reveal(intrinsics::reply);
}

/// An atomic load reads where its operand points, and what an atomic store
/// stored there is what it reads, as long as memory holds it.
pub proof fn law_atomic_cells(
    scene: Scene,
    at: Moment,
    now: Moment,
    store: Instance,
    load: Instance,
    args: Seq<Operand>,
    from: Operand,
    dest: Place,
    ty: TyId,
    kind: TypeHandle,
    env: Env,
)
    requires
        is_intrinsic(store, "atomic_store"@),
        is_intrinsic(load, "atomic_load"@),
        has_two(scene, at, args),
        operand::operand_value(scene, now, from) is Ok,
        intrinsics::type_arg(store, 0) == Ok::<TyId, Failure>(ty),
        intrinsics::type_arg(load, 0) == Ok::<TyId, Failure>(ty),
        convert::storage(scene.program.types, ty) == Ok::<Option<TypeHandle>, Failure>(Some(kind)),
        operand_of(scene, at, args[1]).ty == kind,
        !scene.program.types.is_bool(ty),
        parts::is_shaped(operand_of(scene, at, args[1]), env),
        (operand_of(scene, now, from).den)(env) == (operand_of(scene, at, args[0]).den)(env),
        reply_of(scene, at, store, args, dest) matches Ok(Reply::Done(effect)) ==> meaning::keeps(
            env,
            effect.steps[0],
            now,
        ),
    ensures
        reply_of(scene, at, store, args, dest) matches Ok(Reply::Done(effect)) && effect.steps.len()
            == 1,
        reply_of(scene, now, load, seq![from], dest) matches Ok(Reply::Value(lowered))
            && lowered.value.ty == kind && (lowered.value.den)(env) == (operand_of(
            scene,
            at,
            args[1],
        ).den)(env),
{
    lemma_names();
    reveal(intrinsics::reply);
}

/// The size and the alignment of what a thin pointer points to are those of its
/// layout.
pub proof fn law_measures(
    scene: Scene,
    at: Moment,
    instance: Instance,
    args: Seq<Operand>,
    dest: Place,
    elem: TyId,
    env: Env,
)
    requires
        is_intrinsic(instance, "size_of_val"@) || is_intrinsic(instance, "align_of_val"@),
        args.len() == 1,
        intrinsics::normal_arg(scene.program.types, instance) == Ok::<TyId, Failure>(elem),
        ({
            let table = scene.program.types;
            let kind = table.kind(table.runtime(elem));
            &&& !(kind is Dynamic) && !(kind is Slice)
            &&& layout::real_size(table, elem) is Ok
            &&& layout::real_align(table, elem) is Ok
        }),
    ensures
        is_result(
            reply_of(scene, at, instance, args, dest),
            types::unsigned(64),
            env,
            if instance.name@ == "size_of_val"@ {
                layout::real_size(scene.program.types, elem)->Ok_0 as int
            } else {
                layout::real_align(scene.program.types, elem)->Ok_0 as int
            },
        ),
{
    lemma_names();
    reveal(intrinsics::reply);
    reveal_strlit("size_of_val");
    reveal_strlit("align_of_val");
}

} // verus!
