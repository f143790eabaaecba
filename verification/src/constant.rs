//! Constants.

use crate::abi;
use crate::abi::crabbit_ty_size;
use crate::convert;
use crate::convert::{convert_immediate_ty, convert_ty, str_ref_ty};
use crate::error::Failure;
use crate::ir;
use crate::ir::{BlockId, Context, Meaning, Value};
use crate::layout;
use crate::layout::{layout_size_of_ty, rustc_layout_size_of_ty};
use crate::meaning;
use crate::meaning::{
    put_address_of, put_as_type, put_constant, put_load, put_pair, put_past, put_scalar, put_size,
    put_undef, put_with_field,
};
use crate::mir::{Alloc, ConstValue, Constant, Memory, Program, Scalar};
use crate::need;
use crate::need::{
    alloc_symbol_of, allocation_bytes, byte_global_symbol, copy_range, memory_of, static_symbol_of,
    Asked, Demand, Lowered, Need, Needs,
};
use crate::sem::Moment;
use crate::text;
use crate::text::{parse_debug_string_const, parse_rust_byte_string_literal, parse_rust_string_literal};
use crate::ty::{TyId, TyKind};
use crate::types;
use crate::types::{Signedness, StructBody, TypeHandle, TypeList};
use vstd::prelude::*;
use vstd::utf8::encode_utf8;

verus! {

/// The low bytes of a number, from the lowest on.
pub open spec fn le_bytes(bits: u128, size: nat) -> Seq<u8>
    decreases size,
{
    if size == 0 {
        Seq::empty()
    } else {
        seq![(bits % 256) as u8] + le_bytes(bits / 256, (size - 1) as nat)
    }
}

/// The low bytes of a number, from the lowest on.
fn to_le_bytes(bits: u128, size: u64) -> (r: Vec<u8>)
    ensures
        r@ == le_bytes(bits, size as nat),
{
    let mut r: Vec<u8> = Vec::new();
    let mut rest: u128 = bits;
    let mut left: u64 = size;
    while left > 0
        invariant
            r@ + le_bytes(rest, left as nat) == le_bytes(bits, size as nat),
        decreases left,
    {
        let ghost before = r@;
        r.push((rest % 256) as u8);
        proof {
            assert(before + (seq![(rest % 256) as u8] + le_bytes(
                rest / 256,
                (left - 1) as nat,
            )) =~= r@ + le_bytes(rest / 256, (left - 1) as nat));
        }
        rest = rest / 256;
        left = left - 1;
    }
    assert(r@ =~= r@ + le_bytes(rest, 0));
    r
}

/// Asks for bytes without a name and takes their address.
fn put_bytes(ctx: &mut Context, block: BlockId, needs: &mut Needs, bytes: Vec<u8>) -> (r: Value)
    requires
        old(ctx).wf(),
        old(ctx).has_block(block),
    ensures
        final(ctx).computed_since(*old(ctx), block),
        final(ctx).has(r),
        r.meaning@ == meaning::symbol_address(need::byte_symbol(bytes@)),
        final(needs)@ == old(needs)@ + need::asking(old(ctx)@.now(block), Demand::Bytes(bytes@)),
{
    let symbol: String = byte_global_symbol(&bytes);
    needs.ask(ctx, block, Need::Bytes(bytes));
    put_address_of(ctx, block, symbol)
}

/// A value read from bytes without a name.
pub open spec fn read_bytes(at: Moment, bytes: Seq<u8>, ty: TypeHandle) -> Lowered {
    need::needing(
        at,
        meaning::loaded(at, meaning::symbol_address(need::byte_symbol(bytes)), ty),
        Demand::Bytes(bytes),
    )
}

/// The text of a string constant in the source.
pub open spec fn literal_text(constant: Constant) -> Option<Seq<char>> {
    if !constant.is_plain_str {
        None
    } else {
        match ir::text(constant.plain_text) {
            Some(value) => Some(value),
            None => match text::debug_string(constant.printed@) {
                Some(value) => Some(value),
                None => match ir::text(constant.source) {
                    Some(source) => text::string_literal(source),
                    None => None,
                },
            },
        }
    }
}

/// The text of a string constant in the source.
fn literal_string_constant(constant: &Constant) -> (r: Option<String>)
    ensures
        ir::text(r) == literal_text(*constant),
{
    if !constant.is_plain_str {
        return None;
    }
    if let Some(value) = &constant.plain_text {
        return Some(text::before(value.as_str(), value.as_str().unicode_len()));
    }
    if let Some(value) = parse_debug_string_const(constant.printed.as_str()) {
        return Some(value);
    }
    match &constant.source {
        Some(source) => parse_rust_string_literal(source.as_str()),
        None => None,
    }
}

/// The text of a string constant.
pub open spec fn constant_text(constant: Constant) -> Option<Seq<char>> {
    match literal_text(constant) {
        Some(value) => Some(value),
        None => ir::text(constant.text),
    }
}

/// The text of a string constant.
fn string_constant(constant: &Constant) -> (r: Option<String>)
    ensures
        ir::text(r) == constant_text(*constant),
{
    match literal_string_constant(constant) {
        Some(value) => Some(value),
        None => match &constant.text {
            Some(value) => Some(text::before(value.as_str(), value.as_str().unicode_len())),
            None => None,
        },
    }
}

/// A string constant: its bytes with a zero behind them, and their number.
pub open spec fn string_value(at: Moment, constant: Constant) -> Result<Lowered, Failure> {
    match constant_text(constant) {
        None => Err(Failure::StringConstant),
        Some(value) => {
            let bytes = encode_utf8(value).push(0);
            Ok(
                need::needing(
                    at,
                    meaning::pair(
                        convert::sized_pointer(),
                        meaning::symbol_address(need::byte_symbol(bytes)),
                        meaning::constant(types::unsigned(64), encode_utf8(value).len() as u128),
                    ),
                    Demand::Bytes(bytes),
                ),
            )
        },
    }
}

/// Imports a string constant.
pub fn import_str_constant(
    ctx: &mut Context,
    block: BlockId,
    needs: &mut Needs,
    constant: &Constant,
) -> (r: Result<Value, Failure>)
    requires
        old(ctx).wf(),
        old(ctx).has_block(block),
    ensures
        final(ctx).computed_since(*old(ctx), block),
        need::supplies(
            *final(ctx),
            final(needs)@,
            old(needs)@,
            r,
            string_value(old(ctx)@.now(block), *constant),
        ),
{
    let value: String = match string_constant(constant) {
        Some(value) => value,
        None => return Err(Failure::StringConstant),
    };
    let mut bytes: Vec<u8> = value.as_str().as_bytes_vec();
    let len: u64 = bytes.len() as u64;
    bytes.push(0);
    let data: Value = put_bytes(ctx, block, needs, bytes);
    let count: Value = put_size(ctx, block, len);
    let ty: TypeHandle = str_ref_ty();
    Ok(put_pair(ctx, block, &ty, data, count))
}

/// A pointer of an allocation at an offset: what it points to, and how far
/// into that.
pub open spec fn pointer_at(program: Program, memory: Memory, offset: u64) -> Option<(usize, u64)> {
    match pointer_index(memory, offset, memory.pointers@.len()) {
        None => None,
        Some(i) => if offset + 8 <= memory.bytes@.len() {
            Some(
                (
                    memory.pointers@[i].target,
                    word_at(memory.bytes@, offset as int),
                ),
            )
        } else {
            None
        },
    }
}

/// Which of the first pointers of an allocation stands at an offset.
pub open spec fn pointer_index(memory: Memory, offset: u64, count: nat) -> Option<int>
    decreases count,
{
    if count == 0 {
        None
    } else {
        match pointer_index(memory, offset, (count - 1) as nat) {
            Some(i) => Some(i),
            None => if memory.pointers@[count - 1].offset == offset {
                Some(count - 1)
            } else {
                None
            },
        }
    }
}

/// The number in the eight bytes at an offset, with the lowest byte first.
pub open spec fn word_at(bytes: Seq<u8>, offset: int) -> u64 {
    (bytes[offset] + 0x100 * bytes[offset + 1] + 0x1_0000 * bytes[offset + 2] + 0x100_0000
        * bytes[offset + 3] + 0x1_0000_0000 * bytes[offset + 4] + 0x100_0000_0000 * bytes[offset
        + 5] + 0x1_0000_0000_0000 * bytes[offset + 6] + 0x100_0000_0000_0000 * bytes[offset
        + 7]) as u64
}

/// The number in the eight bytes at an offset.
pub fn read_word(bytes: &Vec<u8>, offset: usize) -> (r: u64)
    requires
        offset + 8 <= bytes@.len(),
    ensures
        r == word_at(bytes@, offset as int),
{
    let total: usize = bytes.len();
    let low: u64 = bytes[offset] as u64 + 0x100 * bytes[offset + 1] as u64 + 0x1_0000
        * bytes[offset + 2] as u64 + 0x100_0000 * bytes[offset + 3] as u64;
    let high: u64 = bytes[offset + 4] as u64 + 0x100 * bytes[offset + 5] as u64 + 0x1_0000
        * bytes[offset + 6] as u64 + 0x100_0000 * bytes[offset + 7] as u64;
    low + 0x1_0000_0000 * high
}

fn find_pointer(memory: &Memory, offset: u64) -> (r: Option<usize>)
    ensures
        match r {
            Some(i) => pointer_index(*memory, offset, memory.pointers@.len()) == Some(i as int)
                && i < memory.pointers@.len(),
            None => pointer_index(*memory, offset, memory.pointers@.len()) is None,
        },
{
    let mut found: Option<usize> = None;
    let mut i: usize = 0;
    while i < memory.pointers.len()
        invariant
            i <= memory.pointers@.len(),
            match found {
                Some(k) => k < i && pointer_index(*memory, offset, i as nat) == Some(k as int),
                None => pointer_index(*memory, offset, i as nat) is None,
            },
        decreases memory.pointers@.len() - i,
    {
        if found.is_none() && memory.pointers[i].offset == offset {
            found = Some(i);
        }
        i = i + 1;
    }
    found
}

/// The bytes that a reference to an array of bytes refers to.
pub open spec fn referred_bytes(program: Program, constant: Constant, len: u64) -> Option<Seq<u8>> {
    match constant.value {
        None => None,
        Some(ConstValue::Scalar(Scalar::Int { .. })) => None,
        Some(ConstValue::Scalar(Scalar::Ptr { alloc, offset })) => need::bytes_at(
            program,
            alloc,
            offset,
            len,
        ),
        Some(ConstValue::Slice { alloc, len }) => need::bytes_at(program, alloc, 0, len),
        Some(ConstValue::Indirect { alloc, offset }) => match need::memory_at(program, alloc) {
            None => None,
            Some(memory) => match pointer_at(program, memory, offset) {
                None => None,
                Some((target, start)) => need::bytes_at(program, target, start, len),
            },
        },
        Some(ConstValue::ZeroSized) => Some(Seq::empty()),
    }
}

/// The view of optional bytes.
pub open spec fn bytes_view(bytes: Option<Vec<u8>>) -> Option<Seq<u8>> {
    match bytes {
        Some(bytes) => Some(bytes@),
        None => None,
    }
}

fn evaluated_byte_string_constant(program: &Program, constant: &Constant, len: u64) -> (r: Option<
    Vec<u8>,
>)
    ensures
        bytes_view(r) == referred_bytes(*program, *constant, len),
{
    match &constant.value {
        None => None,
        Some(ConstValue::Scalar(Scalar::Int { .. })) => None,
        Some(ConstValue::Scalar(Scalar::Ptr { alloc, offset })) => allocation_bytes(
            program,
            *alloc,
            *offset,
            len,
        ),
        Some(ConstValue::Slice { alloc, len }) => allocation_bytes(program, *alloc, 0, *len),
        Some(ConstValue::Indirect { alloc, offset }) => {
            let memory: &Memory = match memory_of(program, *alloc) {
                Some(memory) => memory,
                None => return None,
            };
            let i: usize = match find_pointer(memory, *offset) {
                Some(i) => i,
                None => return None,
            };
            let total: usize = memory.bytes.len();
            if total < 8 || *offset > (total - 8) as u64 {
                return None;
            }
            let start: u64 = read_word(&memory.bytes, *offset as usize);
            allocation_bytes(program, memory.pointers[i].target, start, len)
        },
        Some(ConstValue::ZeroSized) => {
            let r: Vec<u8> = Vec::new();
            assert(r@ =~= Seq::<u8>::empty());
            Some(r)
        },
    }
}

/// The bytes of a constant that is a reference to an array of bytes.
pub open spec fn byte_text(program: Program, constant: Constant) -> Option<Seq<u8>> {
    match program.types.byte_array_len(constant.ty) {
        None => None,
        Some(len) => match ir::text(constant.source) {
            None => referred_bytes(program, constant, len),
            Some(source) => match text::byte_string_literal(source) {
                Some(bytes) => Some(bytes),
                None => referred_bytes(program, constant, len),
            },
        },
    }
}

fn byte_string_constant(program: &Program, constant: &Constant) -> (r: Option<Vec<u8>>)
    requires
        program.types.wf(),
        program.types.has(constant.ty),
    ensures
        bytes_view(r) == byte_text(*program, *constant),
{
    let len: u64 = match program.types.byte_array_ref_len(constant.ty) {
        Some(len) => len,
        None => return None,
    };
    if let Some(source) = &constant.source {
        if let Some(bytes) = parse_rust_byte_string_literal(source.as_str()) {
            return Some(bytes);
        }
    }
    evaluated_byte_string_constant(program, constant, len)
}

/// The first byte of a constant.
pub open spec fn first_byte(program: Program, constant: Constant) -> Option<u8> {
    match constant.value {
        Some(ConstValue::Indirect { alloc, offset }) => match need::bytes_at(
            program,
            alloc,
            offset,
            1,
        ) {
            Some(bytes) => Some(bytes[0]),
            None => None,
        },
        Some(ConstValue::Scalar(Scalar::Int { bits, .. })) => Some((bits % 256) as u8),
        _ => None,
    }
}

fn evaluated_constant_byte(program: &Program, constant: &Constant) -> (r: Option<u8>)
    ensures
        r == first_byte(*program, *constant),
{
    match &constant.value {
        Some(ConstValue::Indirect { alloc, offset }) => {
            match allocation_bytes(program, *alloc, *offset, 1) {
                Some(bytes) => Some(bytes[0]),
                None => None,
            }
        },
        Some(ConstValue::Scalar(Scalar::Int { bits, .. })) => Some((*bits % 256) as u8),
        _ => None,
    }
}

/// A byte in the representation of a byte that may be uninitialized.
pub open spec fn wrapped_byte(ty: TypeHandle, byte: u8) -> Meaning {
    meaning::with_field(
        meaning::undefined(ty),
        0,
        meaning::with_field(
            meaning::undefined(types::array_of(types::unsigned(8), 1)),
            0,
            meaning::constant(types::unsigned(8), byte as u128),
        ),
    )
}

fn put_wrapped_byte(ctx: &mut Context, block: BlockId, ty: &TypeHandle, byte: u8) -> (r: Value)
    requires
        old(ctx).wf(),
        old(ctx).has_block(block),
    ensures
        final(ctx).computed_since(*old(ctx), block),
        final(ctx).has(r),
        r.meaning@ == wrapped_byte(*ty, byte),
{
    let byte_ty: TypeHandle = TypeHandle::integer(8, Signedness::Unsigned);
    let value: Value = put_constant(ctx, block, &byte_ty, byte as u128);
    let array_ty: TypeHandle = TypeHandle::array(byte_ty, 1);
    let array: Value = put_undef(ctx, block, &array_ty);
    let array: Value = put_with_field(ctx, block, array, 0, value);
    let whole: Value = put_undef(ctx, block, ty);
    put_with_field(ctx, block, whole, 0, array)
}

/// Whether values of a type may take up memory.
pub open spec fn may_have_size(ty: TypeHandle) -> bool {
    match abi::ty_size(ty) {
        Ok(size) => size > 0,
        Err(_) => true,
    }
}

fn may_be_sized(ty: &TypeHandle) -> (r: bool)
    ensures
        r == may_have_size(*ty),
{
    match crabbit_ty_size(ty) {
        Ok(size) => size > 0,
        Err(_) => true,
    }
}

/// Whether any type of a list may have values that take up memory.
pub open spec fn any_sized(list: TypeList) -> bool
    decreases list,
{
    match list {
        TypeList::Nil => false,
        TypeList::Cons(head, tail) => may_have_size(head) || any_sized(*tail),
    }
}

fn has_sized(list: &TypeList) -> (r: bool)
    ensures
        r == any_sized(*list),
    decreases *list,
{
    match list {
        TypeList::Nil => false,
        TypeList::Cons(head, tail) => may_be_sized(head) || has_sized(&**tail),
    }
}

/// A constant in the only scalar that a type holds, however deeply.
pub open spec fn wrapped_scalar(ty: TypeHandle, bits: u128) -> Option<Meaning>
    decreases ty,
{
    if meaning::has_constants(ty) {
        Some(meaning::scalar(ty, bits))
    } else {
        match ty {
            TypeHandle::Struct { body: StructBody::Fields(list), .. } => match inner_scalar(
                *list,
                bits,
                0,
            ) {
                Some((index, inner)) => Some(
                    meaning::with_field(meaning::undefined(ty), index, inner),
                ),
                None => None,
            },
            _ => None,
        }
    }
}

/// The position of the only field that takes up memory, and a constant in it.
pub open spec fn inner_scalar(list: TypeList, bits: u128, from: u32) -> Option<(u32, Meaning)>
    decreases list,
{
    match list {
        TypeList::Nil => None,
        TypeList::Cons(head, tail) => if may_have_size(head) {
            if any_sized(*tail) {
                None
            } else {
                match wrapped_scalar(head, bits) {
                    Some(inner) => Some((from, inner)),
                    None => None,
                }
            }
        } else if from == u32::MAX {
            None
        } else {
            inner_scalar(*tail, bits, (from + 1) as u32)
        },
    }
}

/// A constant in the only scalar that a type holds, however deeply.
pub fn scalar_constant_in_aggregate(
    ctx: &mut Context,
    block: BlockId,
    ty: &TypeHandle,
    bits: u128,
) -> (r: Option<Value>)
    requires
        old(ctx).wf(),
        old(ctx).has_block(block),
    ensures
        final(ctx).computed_since(*old(ctx), block),
        meaning::meaning_of(r) == wrapped_scalar(*ty, bits),
        r matches Some(v) ==> final(ctx).has(v),
    decreases *ty,
{
    match ty {
        TypeHandle::Integer { .. } | TypeHandle::Fp32 | TypeHandle::Fp64 => Some(
            put_scalar(ctx, block, ty, bits),
        ),
        TypeHandle::Struct { body: StructBody::Fields(list), .. } => {
            let (index, inner): (u32, Value) = match inner_constant(ctx, block, &**list, bits, 0) {
                Some(found) => found,
                None => return None,
            };
            let whole: Value = put_undef(ctx, block, ty);
            Some(put_with_field(ctx, block, whole, index, inner))
        },
        _ => None,
    }
}

fn inner_constant(ctx: &mut Context, block: BlockId, list: &TypeList, bits: u128, from: u32) -> (r:
    Option<(u32, Value)>)
    requires
        old(ctx).wf(),
        old(ctx).has_block(block),
    ensures
        final(ctx).computed_since(*old(ctx), block),
        match r {
            Some((index, v)) => inner_scalar(*list, bits, from) == Some((index, v.meaning@))
                && final(ctx).has(v),
            None => inner_scalar(*list, bits, from) is None,
        },
    decreases *list,
{
    match list {
        TypeList::Nil => None,
        TypeList::Cons(head, tail) => {
            if may_be_sized(head) {
                if has_sized(&**tail) {
                    return None;
                }
                match scalar_constant_in_aggregate(ctx, block, head, bits) {
                    Some(inner) => Some((from, inner)),
                    None => None,
                }
            } else if from == u32::MAX {
                None
            } else {
                inner_constant(ctx, block, &**tail, bits, from + 1)
            }
        },
    }
}

/// The rest of the bytes of plain memory without pointers.
pub open spec fn plain_rest(program: Program, alloc: usize, offset: u64) -> Option<
    Result<Seq<u8>, Failure>,
> {
    match need::memory_at(program, alloc) {
        None => None,
        Some(memory) => if memory.pointers@.len() > 0 {
            None
        } else if offset > memory.bytes@.len() {
            Some(Err(Failure::Malformed))
        } else {
            Some(Ok(memory.bytes@.skip(offset as int)))
        },
    }
}

fn plain_bytes(program: &Program, alloc: usize, offset: u64) -> (r: Option<
    Result<Vec<u8>, Failure>,
>)
    ensures
        match plain_rest(*program, alloc, offset) {
            None => r is None,
            Some(Err(failure)) => r matches Some(Err(other)) && other == failure,
            Some(Ok(bytes)) => r matches Some(Ok(found)) && found@ == bytes,
        },
{
    match memory_of(program, alloc) {
        None => None,
        Some(memory) => {
            let total: usize = memory.bytes.len();
            if memory.pointers.len() > 0 {
                None
            } else if offset > total as u64 {
                Some(Err(Failure::Malformed))
            } else {
                let bytes: Vec<u8> = copy_range(&memory.bytes, offset as usize, total);
                assert(bytes@ =~= memory.bytes@.skip(offset as int));
                Some(Ok(bytes))
            }
        },
    }
}

/// A constant in memory without pointers.
pub open spec fn memory_value(
    program: Program,
    at: Moment,
    constant: Constant,
    ty: TypeHandle,
) -> Result<Option<Lowered>, Failure> {
    match constant.value {
        Some(ConstValue::Indirect { alloc, offset }) => match plain_rest(program, alloc, offset) {
            None => Ok(None),
            Some(Err(failure)) => Err(failure),
            Some(Ok(bytes)) => Ok(Some(read_bytes(at, bytes, ty))),
        },
        _ => Ok(None),
    }
}

/// Imports a constant in memory without pointers.
pub fn import_memory_constant(
    program: &Program,
    ctx: &mut Context,
    block: BlockId,
    needs: &mut Needs,
    constant: &Constant,
    ty: &TypeHandle,
) -> (r: Result<Option<Value>, Failure>)
    requires
        old(ctx).wf(),
        old(ctx).has_block(block),
    ensures
        final(ctx).computed_since(*old(ctx), block),
        need::supplies_if(
            *final(ctx),
            final(needs)@,
            old(needs)@,
            r,
            memory_value(*program, old(ctx)@.now(block), *constant, *ty),
        ),
{
    match &constant.value {
        Some(ConstValue::Indirect { alloc, offset }) => {
            match plain_bytes(program, *alloc, *offset) {
                None => Ok(None),
                Some(Err(failure)) => Err(failure),
                Some(Ok(bytes)) => {
                    let addr: Value = put_bytes(ctx, block, needs, bytes);
                    Ok(Some(put_load(ctx, block, addr, ty)))
                },
            }
        },
        _ => Ok(None),
    }
}

/// What a type points to, where it is a pointer.
pub open spec fn pointed_to(program: Program, ty: TyId) -> Option<TyId> {
    match program.types.kind(program.types.runtime(ty)) {
        TyKind::Ref(inner) => Some(program.types.runtime(inner)),
        TyKind::RawPtr(inner) => Some(program.types.runtime(inner)),
        _ => None,
    }
}

fn pointed_type(program: &Program, ty: TyId) -> (r: Option<TyId>)
    requires
        program.types.wf(),
        program.types.has(ty),
    ensures
        r == pointed_to(*program, ty),
        r matches Some(inner) ==> program.types.has(inner),
{
    let runtime: TyId = program.types.runtime_ty(ty);
    proof {
        assert(program.types.ty_wf(runtime));
    }
    match &program.types.types[runtime.0].kind {
        TyKind::Ref(inner) => Some(program.types.runtime_ty(*inner)),
        TyKind::RawPtr(inner) => Some(program.types.runtime_ty(*inner)),
        _ => None,
    }
}

/// A product, or the largest number where it is too large.
pub open spec fn saturating_product(a: u64, b: u64) -> u64 {
    if a * b > u64::MAX {
        u64::MAX
    } else {
        (a * b) as u64
    }
}

fn saturating_times(a: u64, b: u64) -> (r: u64)
    ensures
        r == saturating_product(a, b),
{
    match a.checked_mul(b) {
        Some(r) => r,
        None => u64::MAX,
    }
}

/// A constant that points to memory without pointers.
pub open spec fn plain_pointer_value(
    program: Program,
    at: Moment,
    constant: Constant,
    ty: TypeHandle,
) -> Result<Option<Lowered>, Failure> {
    match pointed_to(program, constant.ty) {
        None => Ok(None),
        Some(pointee) => match constant.value {
            Some(ConstValue::Scalar(Scalar::Ptr { alloc, offset })) => match plain_rest(
                program,
                alloc,
                offset,
            ) {
                None => Ok(None),
                Some(Err(failure)) => Err(failure),
                Some(Ok(bytes)) => Ok(
                    Some(
                        need::needing(
                            at,
                            meaning::symbol_address(need::byte_symbol(bytes)),
                            Demand::Bytes(bytes),
                        ),
                    ),
                ),
            },
            Some(ConstValue::Slice { alloc, len }) => match program.types.kind(pointee) {
                TyKind::Slice(elem) => match layout::size_of(program.types, elem) {
                    Err(failure) => Err(failure),
                    Ok(size) => match need::bytes_at(
                        program,
                        alloc,
                        0,
                        saturating_product(len, size),
                    ) {
                        None => Ok(None),
                        Some(bytes) => Ok(
                            Some(
                                need::needing(
                                    at,
                                    meaning::pair(
                                        ty,
                                        meaning::symbol_address(need::byte_symbol(bytes)),
                                        meaning::constant(types::unsigned(64), len as u128),
                                    ),
                                    Demand::Bytes(bytes),
                                ),
                            ),
                        ),
                    },
                },
                _ => Ok(None),
            },
            _ => Ok(None),
        },
    }
}

/// Imports a constant that points to memory without pointers.
pub fn import_pointer_to_plain_data_constant(
    program: &Program,
    ctx: &mut Context,
    block: BlockId,
    needs: &mut Needs,
    constant: &Constant,
    ty: &TypeHandle,
) -> (r: Result<Option<Value>, Failure>)
    requires
        program.types.wf(),
        program.types.has(constant.ty),
        old(ctx).wf(),
        old(ctx).has_block(block),
    ensures
        final(ctx).computed_since(*old(ctx), block),
        need::supplies_if(
            *final(ctx),
            final(needs)@,
            old(needs)@,
            r,
            plain_pointer_value(*program, old(ctx)@.now(block), *constant, *ty),
        ),
{
    let pointee: TyId = match pointed_type(program, constant.ty) {
        Some(pointee) => pointee,
        None => return Ok(None),
    };
    match &constant.value {
        Some(ConstValue::Scalar(Scalar::Ptr { alloc, offset })) => {
            match plain_bytes(program, *alloc, *offset) {
                None => Ok(None),
                Some(Err(failure)) => Err(failure),
                Some(Ok(bytes)) => Ok(Some(put_bytes(ctx, block, needs, bytes))),
            }
        },
        Some(ConstValue::Slice { alloc, len }) => {
            proof {
                assert(program.types.ty_wf(pointee));
            }
            match &program.types.types[pointee.0].kind {
                TyKind::Slice(elem) => {
                    assert(program.types.parts(pointee)[0] == *elem);
                    let size: u64 = layout_size_of_ty(&program.types, *elem)?;
                    match allocation_bytes(program, *alloc, 0, saturating_times(*len, size)) {
                        None => Ok(None),
                        Some(bytes) => {
                            let data: Value = put_bytes(ctx, block, needs, bytes);
                            let count: Value = put_size(ctx, block, *len);
                            Ok(Some(put_pair(ctx, block, ty, data, count)))
                        },
                    }
                },
                _ => Ok(None),
            }
        },
        _ => Ok(None),
    }
}

/// Whether an allocation stands for the identity of a type.
pub open spec fn is_type_id(program: Program, alloc: usize) -> bool {
    alloc < program.allocs@.len() && program.allocs@[alloc as int] is TypeId
}

/// The address of an allocation, and that the allocation is needed.
pub open spec fn alloc_address(program: Program, alloc: usize) -> Result<Meaning, Failure> {
    match need::alloc_symbol(program, alloc) {
        Err(failure) => Err(failure),
        Ok(symbol) => Ok(meaning::symbol_address(symbol)),
    }
}

/// A constant with pointers, by the memory that they point to.
pub open spec fn pointer_value(
    program: Program,
    at: Moment,
    constant: Constant,
    ty: TypeHandle,
) -> Result<Option<Lowered>, Failure> {
    match constant.value {
        Some(ConstValue::Scalar(Scalar::Ptr { alloc, offset })) => if is_type_id(program, alloc) {
            Ok(
                Some(
                    need::plain(
                        meaning::as_type(
                            meaning::constant(types::unsigned(64), offset as u128),
                            ty,
                        ),
                    ),
                ),
            )
        } else {
            match alloc_address(program, alloc) {
                Err(failure) => Err(failure),
                Ok(addr) => Ok(
                    Some(
                        need::needing(
                            at,
                            meaning::as_type(meaning::past(addr, offset), ty),
                            Demand::Alloc(alloc),
                        ),
                    ),
                ),
            }
        },
        Some(ConstValue::Slice { alloc, len }) => match alloc_address(program, alloc) {
            Err(failure) => Err(failure),
            Ok(addr) => Ok(
                Some(
                    need::needing(
                        at,
                        meaning::pair(
                            ty,
                            addr,
                            meaning::constant(types::unsigned(64), len as u128),
                        ),
                        Demand::Alloc(alloc),
                    ),
                ),
            ),
        },
        Some(ConstValue::Indirect { alloc, offset }) => match alloc_address(program, alloc) {
            Err(failure) => Err(failure),
            Ok(addr) => Ok(
                Some(
                    need::needing(
                        at,
                        meaning::loaded(at, meaning::past(addr, offset), ty),
                        Demand::Alloc(alloc),
                    ),
                ),
            ),
        },
        _ => Ok(None),
    }
}

/// Asks for an allocation and takes its address.
fn put_alloc(
    program: &Program,
    ctx: &mut Context,
    block: BlockId,
    needs: &mut Needs,
    alloc: usize,
) -> (r: Result<Value, Failure>)
    requires
        old(ctx).wf(),
        old(ctx).has_block(block),
    ensures
        final(ctx).computed_since(*old(ctx), block),
        match alloc_address(*program, alloc) {
            Ok(addr) => r matches Ok(v) && final(ctx).has(v) && v.meaning@ == addr
                && final(needs)@ == old(needs)@ + need::asking(
                old(ctx)@.now(block),
                Demand::Alloc(alloc),
            ),
            Err(failure) => r matches Err(other) && other == failure && final(needs)@ == old(
                needs,
            )@,
        },
{
    let symbol: String = alloc_symbol_of(program, alloc)?;
    needs.ask(ctx, block, Need::Alloc(alloc));
    Ok(put_address_of(ctx, block, symbol))
}

/// Imports a constant with pointers.
pub fn import_pointer_constant(
    program: &Program,
    ctx: &mut Context,
    block: BlockId,
    needs: &mut Needs,
    constant: &Constant,
    ty: &TypeHandle,
) -> (r: Result<Option<Value>, Failure>)
    requires
        old(ctx).wf(),
        old(ctx).has_block(block),
    ensures
        final(ctx).computed_since(*old(ctx), block),
        need::supplies_if(
            *final(ctx),
            final(needs)@,
            old(needs)@,
            r,
            pointer_value(*program, old(ctx)@.now(block), *constant, *ty),
        ),
{
    match &constant.value {
        Some(ConstValue::Scalar(Scalar::Ptr { alloc, offset })) => {
            if *alloc < program.allocs.len() {
                if let Alloc::TypeId(_) = &program.allocs[*alloc] {
                    let hash: Value = put_size(ctx, block, *offset);
                    let value: Value = put_as_type(ctx, block, hash, ty);
                    assert(needs@ =~= old(needs)@ + Seq::<Asked>::empty());
                    return Ok(Some(value));
                }
            }
            let addr: Value = put_alloc(program, ctx, block, needs, *alloc)?;
            let addr: Value = put_past(ctx, block, addr, *offset);
            Ok(Some(put_as_type(ctx, block, addr, ty)))
        },
        Some(ConstValue::Slice { alloc, len }) => {
            let data: Value = put_alloc(program, ctx, block, needs, *alloc)?;
            let count: Value = put_size(ctx, block, *len);
            Ok(Some(put_pair(ctx, block, ty, data, count)))
        },
        Some(ConstValue::Indirect { alloc, offset }) => {
            let addr: Value = put_alloc(program, ctx, block, needs, *alloc)?;
            let addr: Value = put_past(ctx, block, addr, *offset);
            Ok(Some(put_load(ctx, block, addr, ty)))
        },
        _ => Ok(None),
    }
}

/// The bytes of a constant of an enum type, where it holds no pointers.
pub open spec fn enum_bytes(program: Program, constant: Constant, size: u64) -> Option<
    Result<Seq<u8>, Failure>,
> {
    match constant.value {
        Some(ConstValue::Scalar(Scalar::Int { bits, .. })) => Some(Ok(le_bytes(bits, size as nat))),
        Some(ConstValue::Indirect { alloc, offset }) => match need::memory_at(program, alloc) {
            None => None,
            Some(memory) => if memory.pointers@.len() > 0 {
                None
            } else if offset + size > memory.bytes@.len() {
                Some(Err(Failure::Malformed))
            } else {
                Some(Ok(memory.bytes@.subrange(offset as int, offset + size)))
            },
        },
        _ => None,
    }
}

fn enum_constant_bytes(program: &Program, constant: &Constant, size: u64) -> (r: Option<
    Result<Vec<u8>, Failure>,
>)
    ensures
        match enum_bytes(*program, *constant, size) {
            None => r is None,
            Some(Err(failure)) => r matches Some(Err(other)) && other == failure,
            Some(Ok(bytes)) => r matches Some(Ok(found)) && found@ == bytes,
        },
{
    match &constant.value {
        Some(ConstValue::Scalar(Scalar::Int { bits, .. })) => Some(Ok(to_le_bytes(*bits, size))),
        Some(ConstValue::Indirect { alloc, offset }) => {
            match memory_of(program, *alloc) {
                None => None,
                Some(memory) => {
                    let total: usize = memory.bytes.len();
                    if memory.pointers.len() > 0 {
                        None
                    } else if *offset > total as u64 || size > total as u64 - *offset {
                        Some(Err(Failure::Malformed))
                    } else {
                        Some(
                            Ok(
                                copy_range(
                                    &memory.bytes,
                                    *offset as usize,
                                    (*offset + size) as usize,
                                ),
                            ),
                        )
                    }
                },
            }
        },
        _ => None,
    }
}

/// A constant of an enum type.
pub open spec fn enum_value(
    program: Program,
    at: Moment,
    constant: Constant,
    ty: TypeHandle,
) -> Result<Lowered, Failure> {
    match layout::real_size(program.types, program.types.normal(constant.ty)) {
        Err(failure) => Err(failure),
        Ok(size) => if size == 0 {
            Ok(need::plain(meaning::undefined(ty)))
        } else {
            match enum_bytes(program, constant, size) {
                Some(Ok(bytes)) => Ok(read_bytes(at, bytes, ty)),
                Some(Err(failure)) => Err(failure),
                None => match pointer_value(program, at, constant, ty) {
                    Err(failure) => Err(failure),
                    Ok(Some(lowered)) => Ok(lowered),
                    Ok(None) => Err(Failure::EnumConstant),
                },
            }
        },
    }
}

/// Imports a constant of an enum type.
pub fn import_enum_constant(
    program: &Program,
    ctx: &mut Context,
    block: BlockId,
    needs: &mut Needs,
    constant: &Constant,
    ty: &TypeHandle,
) -> (r: Result<Value, Failure>)
    requires
        program.types.wf(),
        program.types.has(constant.ty),
        old(ctx).wf(),
        old(ctx).has_block(block),
    ensures
        final(ctx).computed_since(*old(ctx), block),
        need::supplies(
            *final(ctx),
            final(needs)@,
            old(needs)@,
            r,
            enum_value(*program, old(ctx)@.now(block), *constant, *ty),
        ),
{
    let normal: TyId = program.types.normalize_ty(constant.ty);
    let size: u64 = rustc_layout_size_of_ty(&program.types, normal)?;
    if size == 0 {
        assert(needs@ =~= old(needs)@ + Seq::<Asked>::empty());
        return Ok(put_undef(ctx, block, ty));
    }
    match enum_constant_bytes(program, constant, size) {
        Some(Ok(bytes)) => {
            let addr: Value = put_bytes(ctx, block, needs, bytes);
            Ok(put_load(ctx, block, addr, ty))
        },
        Some(Err(failure)) => Err(failure),
        None => {
            match import_pointer_constant(program, ctx, block, needs, constant, ty)? {
                Some(value) => Ok(value),
                None => Err(Failure::EnumConstant),
            }
        },
    }
}

/// The first of two optional results.
pub open spec fn or_else(
    first: Result<Option<Lowered>, Failure>,
    second: Result<Option<Lowered>, Failure>,
) -> Result<Option<Lowered>, Failure> {
    match first {
        Ok(None) => second,
        other => other,
    }
}

/// A constant that is no string, by its type in a register.
pub open spec fn other_value(
    program: Program,
    at: Moment,
    constant: Constant,
    ty: TypeHandle,
) -> Result<Lowered, Failure> {
    match constant.static_item {
        Some(index) => match need::static_symbol(program, index) {
            Err(failure) => Err(failure),
            Ok(symbol) => Ok(
                need::needing(at, meaning::symbol_address(symbol), Demand::Static(index)),
            ),
        },
        None => match layout::size_of(program.types, constant.ty) {
            Err(failure) => Err(failure),
            Ok(size) => if size == 0 {
                Ok(need::plain(meaning::undefined(ty)))
            } else if program.types.is_maybe_uninit_byte(constant.ty) && first_byte(
                program,
                constant,
            ) is Some {
                Ok(need::plain(wrapped_byte(ty, first_byte(program, constant)->0)))
            } else if program.types.holds_maybe_uninit(constant.ty) {
                Ok(need::plain(meaning::undefined(ty)))
            } else if program.types.is_enum(constant.ty) {
                enum_value(program, at, constant, ty)
            } else {
                match constant.bits {
                    Some(bits) => Ok(
                        need::plain(
                            match wrapped_scalar(ty, bits) {
                                Some(value) => value,
                                None => meaning::undefined(ty),
                            },
                        ),
                    ),
                    None => match or_else(
                        memory_value(program, at, constant, ty),
                        or_else(
                            plain_pointer_value(program, at, constant, ty),
                            pointer_value(program, at, constant, ty),
                        ),
                    ) {
                        Err(failure) => Err(failure),
                        Ok(Some(lowered)) => Ok(lowered),
                        Ok(None) => Err(
                            if constant.value is Some {
                                Failure::Constant
                            } else {
                                Failure::ConstantEvaluation
                            },
                        ),
                    },
                }
            },
        },
    }
}

/// What a constant is.
pub open spec fn constant_value(program: Program, at: Moment, constant: Constant) -> Result<
    Lowered,
    Failure,
> {
    if program.types.is_str_ref(constant.ty) {
        string_value(at, constant)
    } else {
        match byte_text(program, constant) {
            Some(bytes) => match convert::converted(program.types, constant.ty) {
                Err(failure) => Err(failure),
                Ok(_) => Ok(
                    need::needing(
                        at,
                        meaning::symbol_address(need::byte_symbol(bytes)),
                        Demand::Bytes(bytes),
                    ),
                ),
            },
            None => match convert::immediate(program.types, constant.ty) {
                Err(failure) => Err(failure),
                Ok(ty) => other_value(program, at, constant, ty),
            },
        }
    }
}

/// Imports a constant that is neither zero-sized nor a string nor a static.
fn import_value_constant(
    program: &Program,
    ctx: &mut Context,
    block: BlockId,
    needs: &mut Needs,
    constant: &Constant,
    ty: &TypeHandle,
) -> (r: Result<Value, Failure>)
    requires
        program.types.wf(),
        program.types.has(constant.ty),
        old(ctx).wf(),
        old(ctx).has_block(block),
    ensures
        final(ctx).computed_since(*old(ctx), block),
        need::supplies(
            *final(ctx),
            final(needs)@,
            old(needs)@,
            r,
            other_value(*program, old(ctx)@.now(block), *constant, *ty),
        ),
{
    proof {
        assert(needs@ =~= old(needs)@ + Seq::<Asked>::empty());
    }
    if let Some(index) = constant.static_item {
        let symbol: String = static_symbol_of(program, index)?;
        needs.ask(ctx, block, Need::Static(index));
        return Ok(put_address_of(ctx, block, symbol));
    }
    let size: u64 = layout_size_of_ty(&program.types, constant.ty)?;
    if size == 0 {
        return Ok(put_undef(ctx, block, ty));
    }
    if program.types.is_maybe_uninit_u8_ty(constant.ty) {
        if let Some(byte) = evaluated_constant_byte(program, constant) {
            return Ok(put_wrapped_byte(ctx, block, ty, byte));
        }
    }
    if program.types.contains_maybe_uninit_ty(constant.ty) {
        return Ok(put_undef(ctx, block, ty));
    }
    if program.types.is_enum_ty(constant.ty) {
        return import_enum_constant(program, ctx, block, needs, constant, ty);
    }
    match constant.bits {
        Some(bits) => {
            match scalar_constant_in_aggregate(ctx, block, ty, bits) {
                Some(value) => Ok(value),
                None => Ok(put_undef(ctx, block, ty)),
            }
        },
        None => {
            if let Some(value) = import_memory_constant(program, ctx, block, needs, constant, ty)? {
                return Ok(value);
            }
            if let Some(value) = import_pointer_to_plain_data_constant(
                program,
                ctx,
                block,
                needs,
                constant,
                ty,
            )? {
                return Ok(value);
            }
            if let Some(value) = import_pointer_constant(program, ctx, block, needs, constant, ty)? {
                return Ok(value);
            }
            if constant.value.is_some() {
                Err(Failure::Constant)
            } else {
                Err(Failure::ConstantEvaluation)
            }
        },
    }
}

/// Imports a constant.
pub fn import_constant(
    program: &Program,
    ctx: &mut Context,
    block: BlockId,
    needs: &mut Needs,
    constant: &Constant,
) -> (r: Result<Value, Failure>)
    requires
        program.types.wf(),
        program.types.has(constant.ty),
        old(ctx).wf(),
        old(ctx).has_block(block),
    ensures
        final(ctx).computed_since(*old(ctx), block),
        need::supplies(
            *final(ctx),
            final(needs)@,
            old(needs)@,
            r,
            constant_value(*program, old(ctx)@.now(block), *constant),
        ),
{
    if program.types.is_str_ref_ty(constant.ty) {
        return import_str_constant(ctx, block, needs, constant);
    }
    if let Some(bytes) = byte_string_constant(program, constant) {
        let _converted: TypeHandle = convert_ty(&program.types, constant.ty)?;
        return Ok(put_bytes(ctx, block, needs, bytes));
    }
    let ty: TypeHandle = convert_immediate_ty(&program.types, constant.ty)?;
    import_value_constant(program, ctx, block, needs, constant, &ty)
}

} // verus!
