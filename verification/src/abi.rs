//! How values are passed as arguments.
//!
//! A value is passed as its scalar leaves, or, where it is large or holds
//! arrays, by the address of a copy. Signatures, calls and entry blocks must
//! agree on this: a value without a size takes no argument anywhere.
use crate::callee;
use crate::emit;
use crate::emit::{emit_alloca, emit_extract, emit_insert, emit_load, emit_store, emit_undef};
use crate::error::Failure;
use crate::ir::{BlockId, Context, Inst, Value};
use crate::layout;
use crate::ox;
use crate::sem;
use crate::sem::{Env, Sem};
use crate::types;
use crate::types::{StructBody, TypeHandle, TypeList};
use vstd::arithmetic::power2::pow2;
use vstd::prelude::*;

verus! {

/// An integer as a size, where it fits.
pub open spec fn as_size(value: int) -> Result<u64, Failure> {
    if 0 <= value <= u64::MAX {
        Ok(value as u64)
    } else {
        Err(Failure::TooLarge)
    }
}

/// Whether an alignment is a power of two.
pub open spec fn is_power(align: u64) -> bool {
    exists|k: nat| k < 64 && align == #[trigger] pow2(k)
}

/// The least multiple of a power of two that is not below a size. For a number
/// that is no power of two, the bits of what is one below it are cleared.
pub open spec fn moved_up(value: u64, align: u64) -> u64 {
    let sum = (value + align - 1) as u64;
    if is_power(align) {
        (sum / align * align) as u64
    } else {
        sum & !((align - 1) as u64)
    }
}

/// A size moved up to an alignment.
pub open spec fn aligned(value: u64, align: u64) -> Result<u64, Failure> {
    if align <= 1 {
        Ok(value)
    } else if value + align - 1 <= u64::MAX {
        Ok(moved_up(value, align))
    } else {
        Err(Failure::TooLarge)
    }
}

/// The bits of a mask and the others make up a number.
pub proof fn lemma_mask(sum: u64, mask: u64)
    ensures
        (sum & mask) + (sum & !mask) == sum,
        sum & mask <= mask,
        mask & !mask == 0,
{
    assert((sum & mask) + (sum & !mask) == sum && sum & mask <= mask && mask & !mask == 0)
        by (bit_vector);
}

/// Clearing the bits below a power of two leaves a multiple of it.
proof fn lemma_cleared(sum: u64, align: u64)
    requires
        is_power(align),
    ensures
        align > 0,
        sum & !((align - 1) as u64) == sum / align * align,
{
    let k = choose|k: nat| k < 64 && align == #[trigger] pow2(k);
    vstd::arithmetic::power2::lemma_pow2_pos(k);
    vstd::bits::lemma_u64_low_bits_mask_is_mod(sum, k);
    lemma_mask(sum, (align - 1) as u64);
    vstd::arithmetic::div_mod::lemma_fundamental_div_mod(sum as int, align as int);
    vstd::arithmetic::mul::lemma_mul_is_commutative(sum as int / align as int, align as int);
}

/// The alignments that types have.
pub proof fn lemma_powers()
    ensures
        is_power(1),
        is_power(2),
        is_power(4),
        is_power(8),
        is_power(16),
{
    vstd::arithmetic::power2::lemma2_to64();
    assert(1u64 == pow2(0) && 2u64 == pow2(1) && 4u64 == pow2(2) && 8u64 == pow2(3) && 16u64
        == pow2(4));
}

/// Moves a size up to an alignment.
pub fn align_to(value: u64, align: u64) -> (r: Result<u64, Failure>)
    ensures
        r == aligned(value, align),
{
    if align <= 1 {
        Ok(value)
    } else {
        match value.checked_add(align - 1) {
            Some(sum) => {
                proof {
                    if is_power(align) {
                        lemma_cleared(sum, align);
                    }
                }
                Ok(sum & !(align - 1))
            },
            None => Err(Failure::TooLarge),
        }
    }
}

/// For a power of two, the aligned size is the least multiple of the alignment
/// that is not below the size.
pub proof fn law_align_to(value: u64, align: u64)
    requires
        is_power(align),
        value + align - 1 <= u64::MAX,
    ensures
        aligned(value, align) is Ok,
        aligned(value, align)->Ok_0 % align == 0,
        value <= aligned(value, align)->Ok_0 < value + align,
{
    let sum = (value + align - 1) as u64;
    lemma_cleared(sum, align);
    vstd::arithmetic::div_mod::lemma_fundamental_div_mod(sum as int, align as int);
    vstd::arithmetic::mul::lemma_mul_is_commutative(sum as int / align as int, align as int);
    vstd::arithmetic::div_mod::lemma_mod_bound(sum as int, align as int);
    vstd::arithmetic::div_mod::lemma_mod_multiples_basic(sum as int / align as int, align as int);
}

/// The size of a type in bytes.
pub open spec fn ty_size(ty: TypeHandle) -> Result<u64, Failure>
    decreases ty, 0nat,
{
    match ty {
        TypeHandle::Integer { width, .. } => Ok(
            if width == 0 {
                1
            } else {
                ((width as u64 + 7) / 8) as u64
            },
        ),
        TypeHandle::Pointer { .. } | TypeHandle::MirPtr { .. } | TypeHandle::Fp64 => Ok(8),
        TypeHandle::Fp32 => Ok(4),
        TypeHandle::Unit => Ok(0),
        TypeHandle::Array { elem, size } => match ty_size(*elem) {
            Err(failure) => Err(failure),
            Ok(elem_size) => match ty_align(*elem) {
                Err(failure) => Err(failure),
                Ok(elem_align) => match aligned(elem_size, elem_align) {
                    Err(failure) => Err(failure),
                    Ok(stride) => as_size(stride * size),
                },
            },
        },
        TypeHandle::Struct { body: StructBody::Fields(list), .. } => match struct_size(
            *list,
            0,
            1,
        ) {
            Err(failure) => Err(failure),
            Ok((size, align)) => aligned(size, align),
        },
        TypeHandle::Struct { .. } => Err(Failure::OpaqueSize),
        _ => Err(Failure::UnsizedType(ty)),
    }
}

/// The end of the fields of a list laid out one after the other from an
/// offset on, and the largest of their alignments and a given one. Fields
/// without a size count for nothing.
pub open spec fn struct_size(list: TypeList, size: u64, align: u64) -> Result<(u64, u64), Failure>
    decreases list, 0nat,
{
    match list {
        TypeList::Nil => Ok((size, align)),
        TypeList::Cons(field, rest) => match ty_size(field) {
            Err(failure) => Err(failure),
            Ok(field_size) => if field_size == 0 {
                struct_size(*rest, size, align)
            } else {
                match ty_align(field) {
                    Err(failure) => Err(failure),
                    Ok(field_align) => match aligned(size, field_align) {
                        Err(failure) => Err(failure),
                        Ok(offset) => match as_size(offset + field_size) {
                            Err(failure) => Err(failure),
                            Ok(end) => struct_size(
                                *rest,
                                end,
                                if field_align > align {
                                    field_align
                                } else {
                                    align
                                },
                            ),
                        },
                    },
                }
            },
        },
    }
}

/// The alignment of a type in bytes.
pub open spec fn ty_align(ty: TypeHandle) -> Result<u64, Failure>
    decreases ty, 1nat,
{
    match ty {
        TypeHandle::Unit => Ok(1),
        TypeHandle::Array { elem, .. } => ty_align(*elem),
        TypeHandle::Struct { body: StructBody::Fields(list), .. } => struct_align(*list, 1),
        TypeHandle::Struct { .. } => Err(Failure::OpaqueSize),
        _ => match ty_size(ty) {
            Err(failure) => Err(failure),
            Ok(size) => Ok(
                if size < 1 {
                    1
                } else if size > 8 {
                    8
                } else {
                    size
                },
            ),
        },
    }
}

/// The largest alignment among a given one and those of the fields of a list
/// that have a size.
pub open spec fn struct_align(list: TypeList, align: u64) -> Result<u64, Failure>
    decreases list, 1nat,
{
    match list {
        TypeList::Nil => Ok(align),
        TypeList::Cons(field, rest) => match ty_size(field) {
            Err(failure) => Err(failure),
            Ok(field_size) => if field_size == 0 {
                struct_align(*rest, align)
            } else {
                match ty_align(field) {
                    Err(failure) => Err(failure),
                    Ok(field_align) => struct_align(
                        *rest,
                        if field_align > align {
                            field_align
                        } else {
                            align
                        },
                    ),
                }
            },
        },
    }
}

/// The size of a type in bytes.
pub fn crabbit_ty_size(ty: &TypeHandle) -> (r: Result<u64, Failure>)
    ensures
        r == ty_size(*ty),
    decreases *ty, 0nat,
{
    match ty {
        TypeHandle::Integer { width, .. } => {
            if *width == 0 {
                Ok(1)
            } else {
                Ok((*width as u64 + 7) / 8)
            }
        },
        TypeHandle::Pointer { .. } | TypeHandle::MirPtr { .. } | TypeHandle::Fp64 => Ok(8),
        TypeHandle::Fp32 => Ok(4),
        TypeHandle::Unit => Ok(0),
        TypeHandle::Array { elem, size } => {
            let elem_size: u64 = match crabbit_ty_size(elem) {
                Ok(n) => n,
                Err(failure) => {
                    return Err(failure);
                },
            };
            let elem_align: u64 = match crabbit_ty_align(elem) {
                Ok(n) => n,
                Err(failure) => {
                    return Err(failure);
                },
            };
            let stride: u64 = match align_to(elem_size, elem_align) {
                Ok(n) => n,
                Err(failure) => {
                    return Err(failure);
                },
            };
            assert(0 <= stride * *size) by (nonlinear_arith);
            match stride.checked_mul(*size) {
                Some(total) => Ok(total),
                None => Err(Failure::TooLarge),
            }
        },
        TypeHandle::Struct { body: StructBody::Fields(list), .. } => {
            match fields_size(list, 0, 1) {
                Ok((size, align)) => align_to(size, align),
                Err(failure) => Err(failure),
            }
        },
        TypeHandle::Struct { .. } => Err(Failure::OpaqueSize),
        _ => Err(Failure::UnsizedType(ty.clone())),
    }
}

fn fields_size(list: &TypeList, size: u64, align: u64) -> (r: Result<(u64, u64), Failure>)
    ensures
        r == struct_size(*list, size, align),
    decreases *list, 0nat,
{
    match list {
        TypeList::Nil => Ok((size, align)),
        TypeList::Cons(field, rest) => {
            let field_size: u64 = match crabbit_ty_size(field) {
                Ok(n) => n,
                Err(failure) => {
                    return Err(failure);
                },
            };
            if field_size == 0 {
                return fields_size(rest, size, align);
            }
            let field_align: u64 = match crabbit_ty_align(field) {
                Ok(n) => n,
                Err(failure) => {
                    return Err(failure);
                },
            };
            let offset: u64 = match align_to(size, field_align) {
                Ok(n) => n,
                Err(failure) => {
                    return Err(failure);
                },
            };
            match offset.checked_add(field_size) {
                Some(end) => fields_size(
                    rest,
                    end,
                    if field_align > align {
                        field_align
                    } else {
                        align
                    },
                ),
                None => Err(Failure::TooLarge),
            }
        },
    }
}

/// The alignment of a type in bytes.
pub fn crabbit_ty_align(ty: &TypeHandle) -> (r: Result<u64, Failure>)
    ensures
        r == ty_align(*ty),
    decreases *ty, 1nat,
{
    match ty {
        TypeHandle::Unit => Ok(1),
        TypeHandle::Array { elem, .. } => crabbit_ty_align(elem),
        TypeHandle::Struct { body: StructBody::Fields(list), .. } => fields_align(list, 1),
        TypeHandle::Struct { .. } => Err(Failure::OpaqueSize),
        _ => match crabbit_ty_size(ty) {
            Ok(size) => Ok(
                if size < 1 {
                    1
                } else if size > 8 {
                    8
                } else {
                    size
                },
            ),
            Err(failure) => Err(failure),
        },
    }
}

fn fields_align(list: &TypeList, align: u64) -> (r: Result<u64, Failure>)
    ensures
        r == struct_align(*list, align),
    decreases *list, 1nat,
{
    match list {
        TypeList::Nil => Ok(align),
        TypeList::Cons(field, rest) => {
            let field_size: u64 = match crabbit_ty_size(field) {
                Ok(n) => n,
                Err(failure) => {
                    return Err(failure);
                },
            };
            if field_size == 0 {
                return fields_align(rest, align);
            }
            match crabbit_ty_align(field) {
                Ok(field_align) => fields_align(
                    rest,
                    if field_align > align {
                        field_align
                    } else {
                        align
                    },
                ),
                Err(failure) => Err(failure),
            }
        },
    }
}

/// A scalar part of a value: the path to it, and its type.
pub type Leaf = (Vec<u32>, TypeHandle);

/// The paths and types of the leaves of a list.
pub open spec fn leaves_view(leaves: Seq<Leaf>) -> Seq<(Seq<u32>, TypeHandle)> {
    leaves.map_values(|leaf: Leaf| (leaf.0@, leaf.1))
}

/// How one value is passed.
pub enum ArgAbi {
    /// In its scalar leaves.
    Leaves(Vec<Leaf>),
    /// By the address of a copy on the stack.
    Indirect,
}

/// How one value is passed.
pub enum AbiView {
    Leaves(Seq<(Seq<u32>, TypeHandle)>),
    Indirect,
}

impl View for ArgAbi {
    type V = AbiView;

    open spec fn view(&self) -> AbiView {
        match *self {
            ArgAbi::Leaves(leaves) => AbiView::Leaves(leaves_view(leaves@)),
            ArgAbi::Indirect => AbiView::Indirect,
        }
    }
}

impl AbiView {
    /// The types of the arguments that pass a value.
    pub open spec fn inputs(self) -> Seq<TypeHandle> {
        match self {
            AbiView::Leaves(leaves) => leaves.map_values(|leaf: (Seq<u32>, TypeHandle)| leaf.1),
            AbiView::Indirect => seq![types::pointer()],
        }
    }

    /// Whether the value itself is the one argument.
    pub open spec fn is_whole(self) -> bool {
        self matches AbiView::Leaves(leaves) && leaves.len() == 1 && leaves[0].0.len() == 0
    }
}

/// How one parameter of a function is passed.
pub enum ParamAbi {
    Single(ArgAbi),
    /// Each element of a tuple on its own.
    Spread(Vec<(TypeHandle, ArgAbi)>),
}

/// Whether a type is passed as one scalar.
pub open spec fn is_scalar(ty: TypeHandle) -> bool {
    ty is Integer || ty.is_float() || ty.is_ptr()
}

/// Whether a type is passed as one scalar.
pub fn is_simple_abi_scalar_ty(ty: &TypeHandle) -> (r: bool)
    ensures
        r == is_scalar(*ty),
{
    matches!(
        ty,
        TypeHandle::Integer { .. }
            | TypeHandle::Fp32
            | TypeHandle::Fp64
            | TypeHandle::Pointer { .. }
            | TypeHandle::MirPtr { .. }
    )
}

/// The scalar leaves of a type below a path, from left to right.
pub open spec fn leaves_of(ty: TypeHandle, prefix: Seq<u32>) -> Result<
    Seq<(Seq<u32>, TypeHandle)>,
    Failure,
>
    decreases ty,
{
    if is_scalar(ty) {
        Ok(seq![(prefix, ty)])
    } else {
        match ty {
            TypeHandle::Unit => Ok(Seq::empty()),
            TypeHandle::Struct { body: StructBody::Fields(list), .. } => field_leaves(
                *list,
                prefix,
                0,
            ),
            TypeHandle::Struct { .. } => Err(Failure::OpaqueArgument),
            _ => Err(Failure::AggregateArgument(ty)),
        }
    }
}

/// The scalar leaves of the fields of a list, whose first field has a given
/// index.
pub open spec fn field_leaves(list: TypeList, prefix: Seq<u32>, from: nat) -> Result<
    Seq<(Seq<u32>, TypeHandle)>,
    Failure,
>
    decreases list,
{
    match list {
        TypeList::Nil => Ok(Seq::empty()),
        TypeList::Cons(field, rest) => if from > u32::MAX {
            Err(Failure::TooLarge)
        } else {
            match leaves_of(field, prefix.push(from as u32)) {
                Err(failure) => Err(failure),
                Ok(head) => match field_leaves(*rest, prefix, from + 1) {
                    Err(failure) => Err(failure),
                    Ok(tail) => Ok(head + tail),
                },
            }
        },
    }
}

/// Collects the scalar leaves of a type below a path. Where the type has none
/// the list may have grown by those found before.
pub fn collect_simple_abi_fields(ty: &TypeHandle, prefix: &Vec<u32>, out: &mut Vec<Leaf>) -> (r:
    Result<(), Failure>)
    ensures
        match leaves_of(*ty, prefix@) {
            Ok(leaves) => r is Ok && leaves_view(final(out)@) == leaves_view(old(out)@) + leaves,
            Err(failure) => r == Err::<(), Failure>(failure),
        },
        old(out)@.is_prefix_of(final(out)@),
    decreases *ty,
{
    if is_simple_abi_scalar_ty(ty) {
        let ghost before = out@;
        out.push((clone_path(prefix), ty.clone()));
        assert(leaves_view(out@) =~= leaves_view(before) + seq![(prefix@, *ty)]);
        return Ok(());
    }
    match ty {
        TypeHandle::Unit => {
            assert(leaves_view(out@) =~= leaves_view(out@) + Seq::empty());
            Ok(())
        },
        TypeHandle::Struct { body: StructBody::Fields(list), .. } => {
            collect_list(list, prefix, 0, out)
        },
        TypeHandle::Struct { .. } => Err(Failure::OpaqueArgument),
        _ => Err(Failure::AggregateArgument(ty.clone())),
    }
}

fn collect_list(list: &TypeList, prefix: &Vec<u32>, from: u64, out: &mut Vec<Leaf>) -> (r: Result<
    (),
    Failure,
>)
    requires
        from <= u32::MAX + 1,
    ensures
        match field_leaves(*list, prefix@, from as nat) {
            Ok(leaves) => r is Ok && leaves_view(final(out)@) == leaves_view(old(out)@) + leaves,
            Err(failure) => r == Err::<(), Failure>(failure),
        },
        old(out)@.is_prefix_of(final(out)@),
    decreases *list,
{
    let ghost before = out@;
    match list {
        TypeList::Nil => {
            assert(leaves_view(out@) =~= leaves_view(out@) + Seq::empty());
            Ok(())
        },
        TypeList::Cons(field, rest) => {
            if from > u32::MAX as u64 {
                return Err(Failure::TooLarge);
            }
            let mut field_prefix = clone_path(prefix);
            field_prefix.push(from as u32);
            match collect_simple_abi_fields(field, &field_prefix, out) {
                Ok(()) => {},
                Err(failure) => {
                    return Err(failure);
                },
            }
            let ghost middle = out@;
            let r = collect_list(rest, prefix, from + 1, out);
            proof {
                let head = leaves_of(*field, prefix@.push(from as u32))->Ok_0;
                let later: &TypeList = &**rest;
                match field_leaves(*later, prefix@, (from + 1) as nat) {
                    Ok(tail) => {
                        assert(leaves_view(before) + head + tail =~= leaves_view(before) + (head
                            + tail));
                    },
                    Err(_) => {},
                }
            }
            r
        },
    }
}

fn clone_path(path: &Vec<u32>) -> (r: Vec<u32>)
    ensures
        r@ == path@,
{
    let mut r: Vec<u32> = Vec::new();
    let mut i: usize = 0;
    while i < path.len()
        invariant
            i <= path@.len(),
            r@ == path@.take(i as int),
        decreases path@.len() - i,
    {
        r.push(path[i]);
        i = i + 1;
        assert(r@ =~= path@.take(i as int));
    }
    assert(path@.take(i as int) =~= path@);
    r
}

/// The scalar leaves of a type.
pub fn simple_abi_leaves_for_ty(ty: &TypeHandle) -> (r: Result<Vec<Leaf>, Failure>)
    ensures
        match leaves_of(*ty, Seq::empty()) {
            Ok(leaves) => r matches Ok(list) && leaves_view(list@) == leaves,
            Err(failure) => r matches Err(other) && other == failure,
        },
{
    let mut leaves: Vec<Leaf> = Vec::new();
    let prefix: Vec<u32> = Vec::new();
    assert(prefix@ =~= Seq::empty());
    match collect_simple_abi_fields(ty, &prefix, &mut leaves) {
        Ok(()) => {
            assert(leaves_view(leaves@) =~= leaves_of(*ty, Seq::empty())->Ok_0);
            Ok(leaves)
        },
        Err(failure) => Err(failure),
    }
}

/// How a value of a type is passed. Without a size it takes no argument; an
/// aggregate of more than two registers, or with parts that are no scalars,
/// goes by address.
pub open spec fn arg_abi(ty: TypeHandle) -> Result<AbiView, Failure> {
    if ty_size(ty) == Ok::<u64, Failure>(0) {
        Ok(AbiView::Leaves(Seq::empty()))
    } else if ty is Struct || ty is Array {
        match ty_size(ty) {
            Err(failure) => Err(failure),
            Ok(size) => if size > 16 {
                Ok(AbiView::Indirect)
            } else {
                match leaves_of(ty, Seq::empty()) {
                    Ok(leaves) => Ok(AbiView::Leaves(leaves)),
                    Err(_) => Ok(AbiView::Indirect),
                }
            },
        }
    } else {
        match leaves_of(ty, Seq::empty()) {
            Ok(leaves) => Ok(AbiView::Leaves(leaves)),
            Err(failure) => Err(failure),
        }
    }
}

/// How a value of a type is passed.
pub fn arg_abi_for_ty(ty: &TypeHandle) -> (r: Result<ArgAbi, Failure>)
    ensures
        match arg_abi(*ty) {
            Ok(abi) => r matches Ok(found) && found@ == abi,
            Err(failure) => r matches Err(other) && other == failure,
        },
{
    let size = crabbit_ty_size(ty);
    if let Ok(0) = size {
        let none: Vec<Leaf> = Vec::new();
        assert(leaves_view(none@) =~= Seq::empty());
        return Ok(ArgAbi::Leaves(none));
    }
    if matches!(ty, TypeHandle::Struct { .. } | TypeHandle::Array { .. }) {
        let size: u64 = match size {
            Ok(n) => n,
            Err(failure) => {
                return Err(failure);
            },
        };
        if size > 16 {
            return Ok(ArgAbi::Indirect);
        }
        return match simple_abi_leaves_for_ty(ty) {
            Ok(leaves) => Ok(ArgAbi::Leaves(leaves)),
            Err(_) => Ok(ArgAbi::Indirect),
        };
    }
    match simple_abi_leaves_for_ty(ty) {
        Ok(leaves) => Ok(ArgAbi::Leaves(leaves)),
        Err(failure) => Err(failure),
    }
}

/// A path to a leaf leads to a part of the leaf's type.
proof fn lemma_leaf_types(ty: &TypeHandle, prefix: Seq<u32>)
    requires
        leaves_of(*ty, prefix) is Ok,
    ensures
        forall|k: int|
            0 <= k < leaves_of(*ty, prefix)->Ok_0.len() ==> {
                let leaf = #[trigger] leaves_of(*ty, prefix)->Ok_0[k];
                &&& leaf.0.len() >= prefix.len()
                &&& leaf.0.take(prefix.len() as int) == prefix
                &&& ox::type_at(*ty, leaf.0.skip(prefix.len() as int)) == Some(leaf.1)
                &&& is_scalar(leaf.1)
            },
    decreases *ty,
{
    if is_scalar(*ty) {
        assert(prefix.take(prefix.len() as int) =~= prefix);
        assert(prefix.skip(prefix.len() as int) =~= Seq::<u32>::empty());
    } else {
        match ty {
            TypeHandle::Struct { body: StructBody::Fields(list), .. } => {
                assert(list.seq().skip(0) =~= list.seq());
                lemma_field_leaf_types(list, list, prefix, 0);
                assert forall|k: int| 0 <= k < leaves_of(*ty, prefix)->Ok_0.len() implies {
                    let leaf = #[trigger] leaves_of(*ty, prefix)->Ok_0[k];
                    &&& leaf.0.len() >= prefix.len()
                    &&& leaf.0.take(prefix.len() as int) == prefix
                    &&& ox::type_at(*ty, leaf.0.skip(prefix.len() as int)) == Some(leaf.1)
                    &&& is_scalar(leaf.1)
                } by {
                    let leaf = field_leaves(**list, prefix, 0)->Ok_0[k];
                    assert(leaf_in_list(**list, prefix, leaf));
                    let path = leaf.0.skip(prefix.len() as int);
                    assert(path[0] == leaf.0[prefix.len() as int]);
                    assert(path.skip(1) =~= leaf.0.skip(prefix.len() as int + 1));
                }
            },
            _ => {},
        }
    }
}

spec fn leaf_in_list(list: TypeList, prefix: Seq<u32>, leaf: (Seq<u32>, TypeHandle)) -> bool {
    let n = prefix.len() as int;
    &&& leaf.0.len() > n
    &&& leaf.0.take(n) == prefix
    &&& leaf.0[n] < list.seq().len()
    &&& ox::type_at(list.seq()[leaf.0[n] as int], leaf.0.skip(n + 1)) == Some(leaf.1)
    &&& is_scalar(leaf.1)
}

proof fn lemma_field_leaf_types(
    rest: &TypeList,
    all: &TypeList,
    prefix: Seq<u32>,
    from: nat,
)
    requires
        field_leaves(*rest, prefix, from) is Ok,
        from <= all.seq().len(),
        rest.seq() == all.seq().skip(from as int),
    ensures
        forall|k: int|
            0 <= k < field_leaves(*rest, prefix, from)->Ok_0.len() ==> leaf_in_list(
                *all,
                prefix,
                #[trigger] field_leaves(*rest, prefix, from)->Ok_0[k],
            ),
    decreases *rest,
{
    match rest {
        TypeList::Nil => {},
        TypeList::Cons(field, tail) => {
            let inner = prefix.push(from as u32);
            let n = prefix.len() as int;
            lemma_leaf_types(field, inner);
            assert(rest.seq()[0] == *field);
            assert(rest.seq().len() == all.seq().len() - from);
            assert(all.seq().skip(from as int)[0] == all.seq()[from as int]);
            assert(all.seq()[from as int] == *field);
            assert(tail.seq() =~= all.seq().skip(from as int + 1)) by {
                assert(rest.seq().skip(1) =~= tail.seq());
            }
            lemma_field_leaf_types(tail, all, prefix, from + 1);
            let head = leaves_of(*field, inner)->Ok_0;
            let later: &TypeList = &**tail;
            let after = field_leaves(*later, prefix, from + 1)->Ok_0;
            assert forall|k: int|
                0 <= k < field_leaves(*rest, prefix, from)->Ok_0.len() implies leaf_in_list(
                *all,
                prefix,
                #[trigger] field_leaves(*rest, prefix, from)->Ok_0[k],
            ) by {
                if k < head.len() {
                    let leaf = head[k];
                    assert(leaf.0.take(inner.len() as int) == inner);
                    assert(leaf.0.take(n) =~= leaf.0.take(n + 1).take(n));
                    assert(inner.take(n) =~= prefix);
                    assert(leaf.0[n] == leaf.0.take(n + 1)[n]);
                } else {
                    assert(leaf_in_list(*all, prefix, after[k - head.len()]));
                }
            }
        },
    }
}

/// Whether values are the parts of another at the leaves of its type, each
/// leaf passed as a value of its own.
pub open spec fn are_leaves(
    ctx: Context,
    value: Value,
    leaves: Seq<(Seq<u32>, TypeHandle)>,
    parts: Seq<Value>,
) -> bool {
    &&& parts.len() == leaves.len()
    &&& forall|k: int|
        0 <= k < parts.len() ==> {
            let part = #[trigger] parts[k];
            &&& ctx.has(part)
            &&& part.ty() == leaves[k].1
            &&& forall|env: Env| #[trigger]
                part.den(env) == sem::shaped(
                    leaves[k].1,
                    sem::part_at(value.den(env), leaves[k].0),
                )
        }
}

/// Appends the arguments that pass a value to the list of a call's arguments.
pub fn lower_abi_call_arg(
    ctx: &mut Context,
    insert_block: BlockId,
    value: Value,
    out: &mut Vec<Value>,
) -> (r: Result<(), Failure>)
    requires
        old(ctx).wf(),
        old(ctx).has_block(insert_block),
        old(ctx).has(value),
    ensures
        match arg_abi(value.ty()) {
            Err(failure) => {
                &&& r == Err::<(), Failure>(failure)
                &&& *final(ctx) == *old(ctx)
                &&& final(out)@ == old(out)@
            },
            Ok(AbiView::Indirect) => {
                let slot = final(out)@.last();
                let reserve = Inst::Alloca { elem: value.ty() };
                let copy = Inst::Store { addr: slot, value };
                &&& r is Ok
                &&& final(out)@ == old(out)@.push(slot)
                &&& final(ctx).grew(*old(ctx))
                &&& final(ctx).dialects == old(ctx).dialects
                &&& final(ctx).frame(insert_block) == old(ctx).frame(insert_block).then_in(
                    insert_block,
                    reserve,
                ).then_in(insert_block, copy)
                &&& final(ctx)@ == old(ctx)@.then_in(insert_block, reserve).then_in(
                    insert_block,
                    copy,
                )
                &&& final(ctx).has(slot)
                &&& slot.ty() == emit::slot_type(value.ty())
                &&& forall|env: Env| #[trigger]
                    slot.den(env) == emit::slot_address(old(ctx)@.now(insert_block), env)
            },
            Ok(AbiView::Leaves(leaves)) => {
                &&& r is Ok
                &&& final(ctx).computed_since(*old(ctx), insert_block)
                &&& if (AbiView::Leaves(leaves)).is_whole() {
                    &&& final(out)@ == old(out)@.push(value)
                    &&& *final(ctx) == *old(ctx)
                } else {
                    &&& callee::extracts(
                        final(ctx).kinds(insert_block),
                        old(ctx).kinds(insert_block),
                        leaves.len(),
                    )
                    &&& final(out)@.len() == old(out)@.len() + leaves.len()
                    &&& final(out)@.take(old(out)@.len() as int) == old(out)@
                    &&& are_leaves(
                        *final(ctx),
                        value,
                        leaves,
                        final(out)@.skip(old(out)@.len() as int),
                    )
                }
            },
        },
{
    let ghost before = *ctx;
    let ghost listed = out@;
    let value_ty = ctx.type_of(value);
    match arg_abi_for_ty(&value_ty) {
        Err(failure) => Err(failure),
        Ok(ArgAbi::Indirect) => {
            let slot = emit_alloca(ctx, insert_block, &value_ty);
            emit_store(ctx, insert_block, value, slot);
            out.push(slot);
            Ok(())
        },
        Ok(ArgAbi::Leaves(leaves)) => {
            let ghost view = leaves_view(leaves@);
            assert(leaves@.len() == view.len());
            assert(leaves@.len() > 0 ==> leaves@[0].0@ == view[0].0);
            if leaves.len() == 1 && leaves[0].0.len() == 0 {
                out.push(value);
                return Ok(());
            }
            proof {
                if ty_size(value.ty()) != Ok::<u64, Failure>(0) {
                    lemma_leaf_types(&value_ty, Seq::empty());
                    assert forall|j: int| 0 <= j < view.len() implies ox::type_at(
                        value.ty(),
                        (#[trigger] view[j]).0,
                    ) == Some(view[j].1) by {
                        let leaf = leaves_of(value_ty, Seq::empty())->Ok_0[j];
                        assert(leaf.0.skip(0) =~= leaf.0);
                    }
                }
            }
            let mut k: usize = 0;
            assert(before.kinds(insert_block).take(
                before.kinds(insert_block).len() as int,
            ) =~= before.kinds(insert_block));
            while k < leaves.len()
                invariant
                    k <= leaves@.len(),
                    callee::extracts(
                        ctx.kinds(insert_block),
                        before.kinds(insert_block),
                        k as nat,
                    ),
                    view == leaves_view(leaves@),
                    view.len() == leaves@.len(),
                    ctx.computed_since(before, insert_block),
                    before.has_block(insert_block),
                    before.has(value),
                    out@.len() == listed.len() + k,
                    out@.take(listed.len() as int) == listed,
                    are_leaves(*ctx, value, view.take(k as int), out@.skip(listed.len() as int)),
                    leaves@.len() > 0 ==> leaves_of(value.ty(), Seq::empty()) == Ok::<
                        Seq<(Seq<u32>, TypeHandle)>,
                        Failure,
                    >(view),
                    forall|j: int|
                        0 <= j < view.len() ==> ox::type_at(value.ty(), (#[trigger] view[j]).0)
                            == Some(view[j].1),
                decreases leaves@.len() - k,
            {
                let ghost middle = *ctx;
                let ghost so_far = out@;
                let ghost listing = ctx.kinds(insert_block);
                assert(view[k as int] == (leaves@[k as int].0@, leaves@[k as int].1));
                let path = clone_path(&leaves[k].0);
                let part = emit_extract(ctx, insert_block, value, path);
                out.push(part);
                k = k + 1;
                proof {
                    let kinds = ctx.kinds(insert_block);
                    let first = before.kinds(insert_block);
                    assert(kinds.take(first.len() as int) =~= listing.take(first.len() as int));
                    assert forall|j: int| first.len() <= j < kinds.len() implies #[trigger] kinds[j]
                        is ExtractValue by {
                        if j < listing.len() {
                            assert(kinds[j] == listing[j]);
                        }
                    }
                    let rest = out@.skip(listed.len() as int);
                    assert(out@.take(listed.len() as int) =~= so_far.take(listed.len() as int));
                    assert forall|j: int| 0 <= j < rest.len() implies {
                        let part = #[trigger] rest[j];
                        &&& ctx.has(part)
                        &&& part.ty() == view.take(k as int)[j].1
                        &&& forall|env: Env| #[trigger]
                            part.den(env) == sem::shaped(
                                view.take(k as int)[j].1,
                                sem::part_at(value.den(env), view.take(k as int)[j].0),
                            )
                    } by {
                        if j < k - 1 {
                            assert(rest[j] == so_far.skip(listed.len() as int)[j]);
                            assert(view.take(k as int)[j] == view.take(k - 1)[j]);
                            assert(middle.has(rest[j]));
                        }
                    }
                }
            }
            assert(view.take(k as int) =~= view);
            Ok(())
        },
    }
}

/// Rebuilds one value in the entry block of a function from the arguments
/// that pass it, starting with argument `*block_arg_idx`.
pub fn reassemble_abi_arg(
    ctx: &mut Context,
    entry: BlockId,
    insert_block: BlockId,
    value_ty: &TypeHandle,
    abi: &ArgAbi,
    block_arg_idx: &mut usize,
) -> (r: Value)
    requires
        old(ctx).wf(),
        old(ctx).has_block(entry),
        old(ctx).has_block(insert_block),
        *old(block_arg_idx) + abi@.inputs().len() <= old(ctx)@.args[entry.0 as int].len(),
    ensures
        final(ctx).computed_since(*old(ctx), insert_block),
        final(ctx).has(r),
        *final(block_arg_idx) == *old(block_arg_idx) + abi@.inputs().len(),
        ({
            let args = old(ctx)@.args[entry.0 as int].skip(*old(block_arg_idx) as int);
            match abi@ {
                AbiView::Indirect => {
                    &&& r.ty() == *value_ty
                    &&& forall|env: Env| #[trigger]
                        r.den(env) == sem::shaped(
                            *value_ty,
                            (env.read)(
                                old(ctx)@.now(insert_block),
                                args[0].den(env),
                                *value_ty,
                            ),
                        )
                },
                AbiView::Leaves(leaves) => if abi@.is_whole() {
                    r == args[0]
                } else {
                    &&& r.ty() == *value_ty
                    &&& forall|env: Env| #[trigger]
                        r.den(env) == rebuilt(
                            *value_ty,
                            leaves,
                            args.map_values(|v: Value| v.den(env)),
                            leaves.len(),
                        )
                },
            }
        }),
{
    let ghost before = *ctx;
    let ghost start = *block_arg_idx as int;
    let ghost listed = ctx@.args[entry.0 as int];
    let ghost args = listed.skip(start);
    let available: usize = ctx.block_args(entry).len();
    match abi {
        ArgAbi::Indirect => {
            let ptr = ctx.block_args(entry)[*block_arg_idx];
            assert(args[0] == listed[start]);
            *block_arg_idx = *block_arg_idx + 1;
            emit_load(ctx, insert_block, ptr, value_ty)
        },
        ArgAbi::Leaves(group) => {
            let ghost view = leaves_view(group@);
            assert(group@.len() == view.len());
            assert(abi@.inputs().len() == view.len());
            assert(group@.len() > 0 ==> group@[0].0@ == view[0].0);
            if group.len() == 1 && group[0].0.len() == 0 {
                let arg = ctx.block_args(entry)[*block_arg_idx];
                assert(args[0] == listed[start]);
                *block_arg_idx = *block_arg_idx + 1;
                return arg;
            }
            let mut current = emit_undef(ctx, insert_block, value_ty);
            let mut k: usize = 0;
            while k < group.len()
                invariant
                    k <= group@.len(),
                    view == leaves_view(group@),
                    view.len() == group@.len(),
                    ctx.computed_since(before, insert_block),
                    before.has_block(entry),
                    before.has_block(insert_block),
                    before@.args[entry.0 as int] == listed,
                    args == listed.skip(start),
                    0 <= start,
                    start + group@.len() <= listed.len(),
                    available == listed.len(),
                    *block_arg_idx == start + k,
                    ctx.has(current),
                    current.ty() == *value_ty,
                    forall|env: Env| #[trigger]
                        current.den(env) == rebuilt(
                            *value_ty,
                            view,
                            args.map_values(|v: Value| v.den(env)),
                            k as nat,
                        ),
                decreases group@.len() - k,
            {
                let field = ctx.block_args(entry)[*block_arg_idx];
                assert(args[k as int] == listed[start + k]);
                assert(view[k as int] == (group@[k as int].0@, group@[k as int].1));
                *block_arg_idx = *block_arg_idx + 1;
                let ghost old_current = current;
                let path = clone_path(&group[k].0);
                current = emit_insert(ctx, insert_block, field, current, path);
                k = k + 1;
                assert forall|env: Env| #[trigger]
                    current.den(env) == rebuilt(
                        *value_ty,
                        view,
                        args.map_values(|v: Value| v.den(env)),
                        k as nat,
                    ) by {
                    assert(old_current.den(env) == rebuilt(
                        *value_ty,
                        view,
                        args.map_values(|v: Value| v.den(env)),
                        (k - 1) as nat,
                    ));
                    assert(args.map_values(|v: Value| v.den(env))[k - 1] == field.den(env));
                }
            }
            current
        },
    }
}

/// A value of a type with its first `n` leaves filled in from a list of
/// parts, the rest undefined.
pub open spec fn rebuilt(
    ty: TypeHandle,
    leaves: Seq<(Seq<u32>, TypeHandle)>,
    parts: Seq<Sem>,
    n: nat,
) -> Sem
    decreases n,
{
    if n == 0 {
        sem::shaped(ty, Sem::Undef)
    } else {
        sem::shaped(
            ty,
            sem::with_part(
                rebuilt(ty, leaves, parts, (n - 1) as nat),
                leaves[n - 1].0,
                parts[n - 1],
            ),
        )
    }
}

/// The parts of a value at its leaves.
pub open spec fn parts_at(leaves: Seq<(Seq<u32>, TypeHandle)>, whole: Sem) -> Seq<Sem> {
    leaves.map_values(|leaf: (Seq<u32>, TypeHandle)| sem::part_at(whole, leaf.0))
}

/// A signature, a call and an entry block agree on the number of arguments
/// that pass a value, and a value without a size takes none.
pub proof fn law_argument_counts(ty: TypeHandle)
    requires
        arg_abi(ty) is Ok,
    ensures
        arg_abi(ty)->Ok_0.inputs().len() == match arg_abi(ty)->Ok_0 {
            AbiView::Indirect => 1,
            AbiView::Leaves(leaves) => leaves.len(),
        },
        ty_size(ty) == Ok::<u64, Failure>(0) ==> arg_abi(ty)->Ok_0.inputs().len() == 0,
        ty_size(ty) matches Ok(size) && size > 16 && (ty is Struct || ty is Array) ==> arg_abi(
            ty,
        )->Ok_0 is Indirect,
{
}

/// Every argument that passes a value is a scalar.
pub proof fn law_arguments_are_scalars(ty: TypeHandle)
    requires
        arg_abi(ty) is Ok,
    ensures
        forall|k: int|
            0 <= k < arg_abi(ty)->Ok_0.inputs().len() ==> is_scalar(
                #[trigger] arg_abi(ty)->Ok_0.inputs()[k],
            ),
{
    match arg_abi(ty)->Ok_0 {
        AbiView::Indirect => {},
        AbiView::Leaves(leaves) => {
            if leaves.len() > 0 {
                lemma_leaf_types(&ty, Seq::empty());
                assert forall|k: int| 0 <= k < leaves.len() implies is_scalar(
                    #[trigger] arg_abi(ty)->Ok_0.inputs()[k],
                ) by {
                    assert(leaves[k] == leaves_of(ty, Seq::empty())->Ok_0[k]);
                }
            }
        },
    }
}

/// The parts of a value of a type have the shapes of the types at their paths.
proof fn lemma_part_shaped(ty: &TypeHandle, path: Seq<u32>, whole: Sem)
    requires
        sem::narrow(*ty),
        ox::type_at(*ty, path) is Some,
        sem::shaped(*ty, whole) == whole,
    ensures
        sem::narrow(ox::type_at(*ty, path)->0),
        sem::shaped(ox::type_at(*ty, path)->0, sem::part_at(whole, path)) == sem::part_at(
            whole,
            path,
        ),
    decreases path.len(),
{
    if path.len() > 0 {
        match ty {
            TypeHandle::Array { elem, size } => {
                let e: &TypeHandle = &**elem;
                let i = path[0] as int;
                assert(whole->Agg_0[i] == sem::shaped(*e, sem::part(whole, i)));
                lemma_part_shaped(e, path.skip(1), sem::part(whole, i));
            },
            TypeHandle::Struct { body: StructBody::Fields(list), .. } => {
                let l: &TypeList = &**list;
                let i = path[0] as int;
                sem::lemma_shaped_list(l, whole, 0);
                sem::lemma_narrow_list(l);
                assert(sem::shaped_list(*l, whole, 0)[i] == sem::shaped(
                    l.seq()[i],
                    sem::part(whole, 0 + i),
                ));
                lemma_part_shaped(&l.seq()[i], path.skip(1), sem::part(whole, i));
            },
            _ => {},
        }
    }
}

/// Replacing a part of a value of a type by a value of the part's type gives
/// a value of the type.
proof fn lemma_with_part_shaped(ty: &TypeHandle, path: Seq<u32>, whole: Sem, new: Sem)
    requires
        sem::narrow(*ty),
        ox::type_at(*ty, path) is Some,
        sem::shaped(*ty, whole) == whole,
        sem::shaped(ox::type_at(*ty, path)->0, new) == new,
    ensures
        sem::shaped(*ty, sem::with_part(whole, path, new)) == sem::with_part(whole, path, new),
    decreases path.len(),
{
    if path.len() > 0 {
        let i = path[0] as int;
        let changed = sem::with_part(whole, path, new);
        match ty {
            TypeHandle::Array { elem, size } => {
                let e: &TypeHandle = &**elem;
                assert(whole->Agg_0[i] == sem::shaped(*e, sem::part(whole, i)));
                lemma_with_part_shaped(e, path.skip(1), sem::part(whole, i), new);
                let again = sem::shaped(*ty, changed);
                assert forall|j: int| 0 <= j < *size implies again->Agg_0[j]
                    == changed->Agg_0[j] by {
                    assert(again->Agg_0[j] == sem::shaped(*e, sem::part(changed, j)));
                    assert(whole->Agg_0[j] == sem::shaped(*e, sem::part(whole, j)));
                }
                assert(again->Agg_0 =~= changed->Agg_0);
            },
            TypeHandle::Struct { body: StructBody::Fields(list), .. } => {
                let l: &TypeList = &**list;
                sem::lemma_shaped_list(l, whole, 0);
                sem::lemma_shaped_list(l, changed, 0);
                sem::lemma_narrow_list(l);
                assert(sem::shaped_list(*l, whole, 0)[i] == sem::shaped(
                    l.seq()[i],
                    sem::part(whole, 0 + i),
                ));
                lemma_with_part_shaped(&l.seq()[i], path.skip(1), sem::part(whole, i), new);
                let again = sem::shaped_list(*l, changed, 0);
                assert forall|j: int| 0 <= j < l.seq().len() implies again[j]
                    == changed->Agg_0[j] by {
                    assert(again[j] == sem::shaped(l.seq()[j], sem::part(changed, 0 + j)));
                    assert(sem::shaped_list(*l, whole, 0)[j] == sem::shaped(
                        l.seq()[j],
                        sem::part(whole, 0 + j),
                    ));
                }
                assert(again =~= changed->Agg_0);
            },
            _ => {},
        }
    }
}

/// A value with the parts of another put in at listed paths, of which the
/// first entries are dropped.
spec fn put_all(
    onto: Sem,
    leaves: Seq<(Seq<u32>, TypeHandle)>,
    dropped: nat,
    whole: Sem,
) -> Sem
    decreases leaves.len(),
{
    if leaves.len() == 0 {
        onto
    } else {
        let path = leaves.last().0.skip(dropped as int);
        sem::with_part(
            put_all(onto, leaves.drop_last(), dropped, whole),
            path,
            sem::part_at(whole, path),
        )
    }
}

proof fn lemma_put_all_split(
    onto: Sem,
    first: Seq<(Seq<u32>, TypeHandle)>,
    second: Seq<(Seq<u32>, TypeHandle)>,
    dropped: nat,
    whole: Sem,
)
    ensures
        put_all(onto, first + second, dropped, whole) == put_all(
            put_all(onto, first, dropped, whole),
            second,
            dropped,
            whole,
        ),
    decreases second.len(),
{
    if second.len() == 0 {
        assert(first + second =~= first);
    } else {
        lemma_put_all_split(onto, first, second.drop_last(), dropped, whole);
        assert((first + second).drop_last() =~= first + second.drop_last());
    }
}

/// Putting parts in below one field changes just that field.
proof fn lemma_put_below(
    parts: Seq<Sem>,
    whole: Seq<Sem>,
    leaves: Seq<(Seq<u32>, TypeHandle)>,
    dropped: nat,
    index: u32,
)
    requires
        index < parts.len(),
        parts.len() == whole.len(),
        forall|k: int|
            0 <= k < leaves.len() ==> (#[trigger] leaves[k]).0.len() > dropped
                && leaves[k].0[dropped as int] == index,
    ensures
        put_all(Sem::Agg(parts), leaves, dropped, Sem::Agg(whole)) == Sem::Agg(
            parts.update(
                index as int,
                put_all(parts[index as int], leaves, dropped + 1, whole[index as int]),
            ),
        ),
    decreases leaves.len(),
{
    let i = index as int;
    if leaves.len() == 0 {
        assert(parts.update(i, parts[i]) =~= parts);
    } else {
        assert forall|k: int| 0 <= k < leaves.drop_last().len() implies (
        #[trigger] leaves.drop_last()[k]).0.len() > dropped
            && leaves.drop_last()[k].0[dropped as int] == index by {
            assert(leaves.drop_last()[k] == leaves[k]);
        }
        lemma_put_below(parts, whole, leaves.drop_last(), dropped, index);
        let last = leaves.last();
        assert(last == leaves[leaves.len() - 1]);
        let path = last.0.skip(dropped as int);
        assert(path[0] == index);
        assert(path.skip(1) =~= last.0.skip(dropped as int + 1));
        let inner = put_all(parts[i], leaves.drop_last(), dropped + 1, whole[i]);
        let before = parts.update(i, inner);
        assert(sem::part_at(Sem::Agg(whole), path) == sem::part_at(whole[i], path.skip(1)));
        assert(before.update(
            i,
            sem::with_part(inner, path.skip(1), sem::part_at(whole[i], path.skip(1))),
        ) =~= parts.update(
            i,
            sem::with_part(inner, path.skip(1), sem::part_at(whole[i], path.skip(1))),
        ));
    }
}

/// Putting in all leaves of a type turns any value of the type into the one
/// that the leaves were taken from.
proof fn lemma_put_all(ty: &TypeHandle, prefix: Seq<u32>, onto: Sem, whole: Sem)
    requires
        leaves_of(*ty, prefix) is Ok,
        sem::shaped(*ty, onto) == onto,
        sem::shaped(*ty, whole) == whole,
    ensures
        put_all(onto, leaves_of(*ty, prefix)->Ok_0, prefix.len(), whole) == whole,
    decreases *ty,
{
    let leaves = leaves_of(*ty, prefix)->Ok_0;
    if is_scalar(*ty) {
        assert(leaves.drop_last() =~= Seq::empty());
        assert(leaves.last().0 == prefix);
        assert(prefix.skip(prefix.len() as int) =~= Seq::<u32>::empty());
        assert(put_all(onto, leaves.drop_last(), prefix.len(), whole) == onto);
    } else {
        match ty {
            TypeHandle::Struct { body: StructBody::Fields(list), .. } => {
                let l: &TypeList = &**list;
                sem::lemma_shaped_list(l, onto, 0);
                sem::lemma_shaped_list(l, whole, 0);
                assert(l.seq().skip(0) =~= l.seq());
                lemma_put_fields(l, l, prefix, 0, onto->Agg_0, whole->Agg_0);
            },
            _ => {},
        }
    }
}

proof fn lemma_put_fields(
    rest: &TypeList,
    all: &TypeList,
    prefix: Seq<u32>,
    from: nat,
    onto: Seq<Sem>,
    whole: Seq<Sem>,
)
    requires
        field_leaves(*rest, prefix, from) is Ok,
        from <= all.seq().len(),
        rest.seq() == all.seq().skip(from as int),
        onto.len() == all.seq().len(),
        whole.len() == all.seq().len(),
        forall|j: int| 0 <= j < from ==> onto[j] == whole[j],
        forall|j: int|
            0 <= j < onto.len() ==> sem::shaped(all.seq()[j], #[trigger] onto[j]) == onto[j],
        forall|j: int|
            0 <= j < whole.len() ==> sem::shaped(all.seq()[j], #[trigger] whole[j]) == whole[j],
    ensures
        put_all(
            Sem::Agg(onto),
            field_leaves(*rest, prefix, from)->Ok_0,
            prefix.len(),
            Sem::Agg(whole),
        ) == Sem::Agg(whole),
    decreases *rest,
{
    match rest {
        TypeList::Nil => {
            assert(all.seq().skip(from as int).len() == 0);
            assert(onto =~= whole);
        },
        TypeList::Cons(field, tail) => {
            let later: &TypeList = &**tail;
            let f = from as int;
            let inner = prefix.push(from as u32);
            let head = leaves_of(*field, inner)->Ok_0;
            let after = field_leaves(*later, prefix, from + 1)->Ok_0;
            assert(rest.seq()[0] == *field);
            assert(rest.seq().len() == all.seq().len() - from);
            assert(all.seq().skip(f)[0] == all.seq()[f]);
            assert(rest.seq().skip(1) =~= tail.seq());
            assert(tail.seq() =~= all.seq().skip(f + 1));
            lemma_leaf_types(field, inner);
            assert forall|k: int| 0 <= k < head.len() implies (#[trigger] head[k]).0.len()
                > prefix.len() && head[k].0[prefix.len() as int] == from as u32 by {
                let leaf = leaves_of(*field, inner)->Ok_0[k];
                assert(leaf.0.take(inner.len() as int)[prefix.len() as int]
                    == inner[prefix.len() as int]);
            }
            lemma_put_all_split(Sem::Agg(onto), head, after, prefix.len(), Sem::Agg(whole));
            lemma_put_below(onto, whole, head, prefix.len(), from as u32);
            assert(inner.len() == prefix.len() + 1);
            lemma_put_all(field, inner, onto[f], whole[f]);
            lemma_put_fields(later, all, prefix, from + 1, onto.update(f, whole[f]), whole);
        },
    }
}

/// A type without a size has one value only.
pub proof fn lemma_sizeless(ty: &TypeHandle, whole: Sem)
    requires
        ty_size(*ty) == Ok::<u64, Failure>(0),
    ensures
        sem::shaped(*ty, whole) == sem::shaped(*ty, Sem::Undef),
    decreases *ty,
{
    match ty {
        TypeHandle::Array { elem, size } => {
            let e: &TypeHandle = &**elem;
            let size_of_one = ty_size(*e)->Ok_0;
            layout::lemma_aligned_up(size_of_one, ty_align(*e)->Ok_0);
            let stride = aligned(size_of_one, ty_align(*e)->Ok_0)->Ok_0;
            if *size > 0 {
                assert(stride == 0) by (nonlinear_arith)
                    requires
                        stride * *size == 0,
                        *size > 0,
                ;
                assert forall|i: int| 0 <= i < *size implies sem::shaped(
                    *e,
                    #[trigger] sem::part(whole, i),
                ) == sem::shaped(*e, sem::part(Sem::Undef, i)) by {
                    lemma_sizeless(e, sem::part(whole, i));
                    lemma_sizeless(e, sem::part(Sem::Undef, i));
                }
            }
            assert(sem::shaped(*ty, whole)->Agg_0 =~= sem::shaped(*ty, Sem::Undef)->Agg_0);
        },
        TypeHandle::Struct { body: StructBody::Fields(list), .. } => {
            let l: &TypeList = &**list;
            let (size, align) = struct_size(*l, 0, 1)->Ok_0;
            layout::lemma_aligned_up(size, align);
            lemma_sizeless_list(l, 0, 1, whole, 0);
        },
        _ => {},
    }
}

/// Fields that end where they begin have one value only.
proof fn lemma_sizeless_list(list: &TypeList, size: u64, align: u64, whole: Sem, from: int)
    requires
        struct_size(*list, size, align) is Ok,
    ensures
        size <= struct_size(*list, size, align)->Ok_0.0,
        size == struct_size(*list, size, align)->Ok_0.0 ==> sem::shaped_list(*list, whole, from)
            == sem::shaped_list(*list, Sem::Undef, from),
    decreases *list,
{
    match list {
        TypeList::Nil => {},
        TypeList::Cons(field, rest) => {
            let field_size = ty_size(*field)->Ok_0;
            if field_size == 0 {
                lemma_sizeless(field, sem::part(whole, from));
                lemma_sizeless(field, sem::part(Sem::Undef, from));
                lemma_sizeless_list(rest, size, align, whole, from + 1);
            } else {
                let field_align = ty_align(*field)->Ok_0;
                layout::lemma_aligned_up(size, field_align);
                let offset = aligned(size, field_align)->Ok_0;
                let end = as_size(offset + field_size)->Ok_0;
                let next = if field_align > align {
                    field_align
                } else {
                    align
                };
                lemma_sizeless_list(rest, end, next, whole, from + 1);
            }
        },
    }
}

/// Flattening loses nothing: a value rebuilt from the parts at its leaves is
/// the value.
pub proof fn law_flatten_round_trip(ty: TypeHandle, whole: Sem)
    requires
        sem::narrow(ty),
        leaves_of(ty, Seq::empty()) is Ok,
        sem::shaped(ty, whole) == whole,
    ensures
        ({
            let leaves = leaves_of(ty, Seq::empty())->Ok_0;
            rebuilt(ty, leaves, parts_at(leaves, whole), leaves.len()) == whole
        }),
{
    let leaves = leaves_of(ty, Seq::empty())->Ok_0;
    let undef = sem::shaped(ty, Sem::Undef);
    sem::lemma_shaped_idem(&ty, Sem::Undef);
    lemma_put_all(&ty, Seq::empty(), undef, whole);
    lemma_rebuilt(ty, leaves, whole, leaves.len());
    assert(leaves.take(leaves.len() as int) =~= leaves);
}

/// A value passed as it is is a scalar.
pub proof fn lemma_whole(ty: TypeHandle)
    requires
        arg_abi(ty) matches Ok(view) && view.is_whole(),
    ensures
        arg_abi(ty)->Ok_0.inputs() == seq![ty],
{
    let leaves = arg_abi(ty)->Ok_0->Leaves_0;
    lemma_leaf_types(&ty, Seq::empty());
    assert(leaves[0] == leaves_of(ty, Seq::empty())->Ok_0[0]);
    assert(leaves[0].0.skip(0) =~= Seq::<u32>::empty());
    assert(arg_abi(ty)->Ok_0.inputs() =~= seq![ty]);
}

/// The parts of a value at its leaves have the leaves' shapes.
pub proof fn lemma_leaf_parts(ty: TypeHandle, whole: Sem)
    requires
        sem::narrow(ty),
        leaves_of(ty, Seq::empty()) is Ok,
        sem::shaped(ty, whole) == whole,
    ensures
        forall|k: int|
            0 <= k < leaves_of(ty, Seq::empty())->Ok_0.len() ==> {
                let leaf = #[trigger] leaves_of(ty, Seq::empty())->Ok_0[k];
                sem::shaped(leaf.1, sem::part_at(whole, leaf.0)) == sem::part_at(whole, leaf.0)
            },
{
    let leaves = leaves_of(ty, Seq::empty())->Ok_0;
    lemma_leaf_types(&ty, Seq::empty());
    assert forall|k: int| 0 <= k < leaves.len() implies {
        let leaf = #[trigger] leaves[k];
        sem::shaped(leaf.1, sem::part_at(whole, leaf.0)) == sem::part_at(whole, leaf.0)
    } by {
        let leaf = leaves[k];
        assert(leaf.0.skip(0) =~= leaf.0);
        lemma_part_shaped(&ty, leaf.0, whole);
    }
}

proof fn lemma_rebuilt(
    ty: TypeHandle,
    leaves: Seq<(Seq<u32>, TypeHandle)>,
    whole: Sem,
    n: nat,
)
    requires
        sem::narrow(ty),
        leaves_of(ty, Seq::empty()) == Ok::<Seq<(Seq<u32>, TypeHandle)>, Failure>(leaves),
        sem::shaped(ty, whole) == whole,
        n <= leaves.len(),
    ensures
        ({
            let so_far = rebuilt(ty, leaves, parts_at(leaves, whole), n);
            &&& so_far == put_all(sem::shaped(ty, Sem::Undef), leaves.take(n as int), 0, whole)
            &&& sem::shaped(ty, so_far) == so_far
        }),
    decreases n,
{
    if n == 0 {
        sem::lemma_shaped_idem(&ty, Sem::Undef);
    } else {
        lemma_rebuilt(ty, leaves, whole, (n - 1) as nat);
        lemma_leaf_types(&ty, Seq::empty());
        let leaf = leaves[n - 1];
        assert(leaf == leaves_of(ty, Seq::empty())->Ok_0[n - 1]);
        assert(leaf.0.skip(0) =~= leaf.0);
        assert(leaves.take(n as int).drop_last() =~= leaves.take(n - 1));
        assert(leaves.take(n as int).last() == leaf);
        let before = rebuilt(ty, leaves, parts_at(leaves, whole), (n - 1) as nat);
        lemma_part_shaped(&ty, leaf.0, whole);
        lemma_with_part_shaped(&ty, leaf.0, before, sem::part_at(whole, leaf.0));
        assert(parts_at(leaves, whole)[n - 1] == sem::part_at(whole, leaf.0));
    }
}

} // verus!
