//! The types of the program to import.
//!
//! All types that occur in a program stand in one table and refer to each
//! other by number. What the front end knows of a type, such as its layout in
//! memory, stands beside it.

use crate::text;
use crate::text::contains;
use vstd::prelude::*;

verus! {

/// A type of the table.
#[derive(Clone, Copy, PartialEq, Eq, Debug, Structural)]
pub struct TyId(pub usize);

/// The signed integer types.
#[derive(Clone, Copy, PartialEq, Eq, Debug, Structural)]
pub enum IntTy {
    I8,
    I16,
    I32,
    I64,
    I128,
    Isize,
}

/// The unsigned integer types.
#[derive(Clone, Copy, PartialEq, Eq, Debug, Structural)]
pub enum UintTy {
    U8,
    U16,
    U32,
    U64,
    U128,
    Usize,
}

/// The kinds of nominal types.
#[derive(Clone, Copy, PartialEq, Eq, Debug, Structural)]
pub enum AdtKind {
    Struct,
    Union,
    Enum,
}

/// A variant of an enum.
pub struct Variant {
    pub name: String,
    /// How many fields the variant has.
    pub fields: usize,
    /// The value of the variant's discriminant.
    pub discriminant: u128,
}

/// What a type is.
pub enum TyKind {
    Bool,
    Char,
    Str,
    Never,
    FnPtr,
    Int(IntTy),
    Uint(UintTy),
    F32,
    F64,
    OtherFloat,
    /// A function item, by its number in the program.
    FnDef(usize),
    /// A trait object, with the number of its principal trait.
    Dynamic(Option<usize>),
    Tuple(Vec<TyId>),
    /// A closure, with the types that it captures.
    Closure(Vec<TyId>),
    /// An array; its length is unknown where it is not constant.
    Array(TyId, Option<u64>),
    Slice(TyId),
    Ref(TyId),
    RawPtr(TyId),
    /// A nominal type: the fields of a struct or union, the variants of an
    /// enum.
    Adt(AdtKind, Vec<TyId>, Vec<Variant>),
    /// A type restricted by a pattern.
    Pat(TyId),
    Other,
}

/// How an enum tells its variants apart in memory.
pub enum TagEncoding {
    /// The tag holds the discriminant.
    Direct,
    /// Some bit patterns of a field stand for variants: `start` for the first
    /// of the tagged variants, and so on; all others for the untagged one.
    Niche { untagged: u32, first: u32, last: u32, start: u128 },
}

/// Which variants a layout distinguishes.
pub enum Variants {
    Empty,
    Single(u32),
    /// A tag of a width at an offset, which may be a signed number. For each
    /// variant, the tag that marks it, where it needs one.
    Multiple {
        offset: u64,
        width: u32,
        signed: bool,
        encoding: TagEncoding,
        tags: Vec<Option<u128>>,
    },
}

/// The layout of a type in memory.
pub struct Layout {
    pub size: u64,
    pub align: u64,
    /// The fields in the order in which they lie in memory, where the layout
    /// is that of a struct.
    pub order: Option<Vec<usize>>,
    /// The offset of each field.
    pub offsets: Vec<u64>,
    pub variants: Variants,
    /// For each variant, the offset of each of its fields.
    pub variant_offsets: Vec<Vec<u64>>,
}

/// A type and what is known of it.
pub struct TyInfo {
    pub kind: TyKind,
    /// The type with associated types resolved.
    pub normal: TyId,
    /// The type in print.
    pub printed: String,
    /// The type in print, with the crate of each name.
    pub full_name: String,
    /// The path of a nominal type's definition.
    pub path: String,
    /// The types that a nominal type is applied to.
    pub args: Vec<TyId>,
    pub sized: bool,
    /// What the last field of the last field, and so on, is.
    pub tail: TyId,
    pub needs_drop: bool,
    /// The instance that drops a value in place.
    pub drop_glue: Option<usize>,
    /// What a box holds.
    pub boxed: Option<TyId>,
    /// The type of discriminants.
    pub discriminant: TyId,
    pub layout: Option<Layout>,
    /// How deeply types are nested in the way the type is written.
    pub depth: usize,
}

/// The types of a program.
pub struct TyTable {
    pub types: Vec<TyInfo>,
}

/// The width of a signed integer type.
pub open spec fn int_bits(kind: IntTy) -> u32 {
    match kind {
        IntTy::I8 => 8,
        IntTy::I16 => 16,
        IntTy::I32 => 32,
        IntTy::I64 => 64,
        IntTy::I128 => 128,
        IntTy::Isize => 64,
    }
}

/// The width of an unsigned integer type.
pub open spec fn uint_bits(kind: UintTy) -> u32 {
    match kind {
        UintTy::U8 => 8,
        UintTy::U16 => 16,
        UintTy::U32 => 32,
        UintTy::U64 => 64,
        UintTy::U128 => 128,
        UintTy::Usize => 64,
    }
}

/// The width of a signed integer type.
pub fn int_width(kind: IntTy) -> (r: u32)
    ensures
        r == int_bits(kind),
{
    match kind {
        IntTy::I8 => 8,
        IntTy::I16 => 16,
        IntTy::I32 => 32,
        IntTy::I64 => 64,
        IntTy::I128 => 128,
        IntTy::Isize => 64,
    }
}

/// The width of an unsigned integer type.
pub fn uint_width(kind: UintTy) -> (r: u32)
    ensures
        r == uint_bits(kind),
{
    match kind {
        UintTy::U8 => 8,
        UintTy::U16 => 16,
        UintTy::U32 => 32,
        UintTy::U64 => 64,
        UintTy::U128 => 128,
        UintTy::Usize => 64,
    }
}

/// What decides the second word of a fat pointer.
#[derive(Clone, Copy, PartialEq, Eq, Debug, Structural)]
pub enum Tail {
    Str,
    Slice(TyId),
    Dynamic,
}

/// A permutation of positions: element `i` is the source index of the field at
/// memory position `i`.
pub open spec fn identity(count: nat) -> Seq<usize> {
    Seq::new(count, |i: int| i as usize)
}

/// Whether a sequence holds each of the positions in it once.
pub open spec fn is_permutation(order: Seq<usize>) -> bool {
    &&& forall|i: int| 0 <= i < order.len() ==> #[trigger] order[i] < order.len()
    &&& forall|i: int, j: int| 0 <= i < j < order.len() ==> order[i] != order[j]
}

/// The first position of an item.
pub open spec fn index_in(items: Seq<usize>, item: usize) -> Option<int>
    decreases items.len(),
{
    if items.len() == 0 {
        None
    } else {
        match index_in(items.drop_last(), item) {
            Some(i) => Some(i),
            None => if items.last() == item {
                Some(items.len() - 1)
            } else {
                None
            },
        }
    }
}

pub proof fn lemma_index_in(items: Seq<usize>, item: usize)
    ensures
        match index_in(items, item) {
            Some(i) => 0 <= i < items.len() && items[i] == item && forall|j: int|
                0 <= j < i ==> items[j] != item,
            None => forall|j: int| 0 <= j < items.len() ==> items[j] != item,
        },
    decreases items.len(),
{
    if items.len() > 0 {
        lemma_index_in(items.drop_last(), item);
        assert forall|j: int| 0 <= j < items.len() - 1 implies #[trigger] items[j]
            == items.drop_last()[j] by {}
    }
}

/// A permutation holds every position.
proof fn lemma_onto(order: Seq<usize>, item: usize)
    requires
        is_permutation(order),
        item < order.len(),
    ensures
        exists|j: int| 0 <= j < order.len() && order[j] == item,
{
    let n = order.len() as int;
    let ints = Seq::new(order.len(), |i: int| order[i] as int);
    let all = vstd::set_lib::set_int_range(0, n);
    vstd::set_lib::lemma_int_range(0, n);
    assert(ints.no_duplicates());
    ints.unique_seq_to_set();
    if forall|j: int| 0 <= j < order.len() ==> order[j] != item {
        assert(ints.to_set().subset_of(all.remove(item as int))) by {
            assert forall|x: int| ints.to_set().contains(x) implies all.remove(
                item as int,
            ).contains(x) by {
                let i = choose|i: int| 0 <= i < ints.len() && ints[i] == x;
                assert(order[i] < order.len());
            }
        }
        vstd::set_lib::lemma_len_subset(ints.to_set(), all.remove(item as int));
    }
}

impl TyTable {
    /// Whether a type stands in the table.
    pub open spec fn has(self, ty: TyId) -> bool {
        ty.0 < self.types@.len()
    }

    /// A type of the table.
    pub open spec fn info(self, ty: TyId) -> TyInfo {
        self.types@[ty.0 as int]
    }

    /// What a type is.
    pub open spec fn kind(self, ty: TyId) -> TyKind {
        self.types@[ty.0 as int].kind
    }

    /// Whether each of a list of types comes before another in the table.
    pub open spec fn precede(self, list: Seq<TyId>, ty: TyId) -> bool {
        forall|i: int| 0 <= i < list.len() ==> (#[trigger] list[i]).0 < ty.0
    }

    /// Whether each of a list of types is nested less deeply than another.
    pub open spec fn nested(self, list: Seq<TyId>, ty: TyId) -> bool {
        forall|i: int|
            0 <= i < list.len() ==> self.has(#[trigger] list[i]) && self.info(list[i]).depth
                < self.info(ty).depth
    }

    /// The type under all patterns.
    pub open spec fn runtime(self, ty: TyId) -> TyId
        decreases ty.0,
    {
        match self.kind(ty) {
            TyKind::Pat(base) => if base.0 < ty.0 {
                self.runtime(base)
            } else {
                ty
            },
            _ => ty,
        }
    }

    /// The type under all patterns, with associated types resolved.
    pub open spec fn normal(self, ty: TyId) -> TyId {
        self.info(self.runtime(ty)).normal
    }

    /// The parts of a type that a value of it holds.
    pub open spec fn parts(self, ty: TyId) -> Seq<TyId> {
        match self.kind(ty) {
            TyKind::Tuple(fields) => fields@,
            TyKind::Closure(fields) => fields@,
            TyKind::Adt(_, fields, _) => fields@,
            TyKind::Array(elem, _) => seq![elem],
            TyKind::Slice(elem) => seq![elem],
            TyKind::Pat(base) => seq![base],
            _ => Seq::empty(),
        }
    }

    /// The types that a type is written with.
    pub open spec fn components(self, ty: TyId) -> Seq<TyId> {
        match self.kind(ty) {
            TyKind::Tuple(fields) => fields@,
            TyKind::Array(elem, _) => seq![elem],
            TyKind::Slice(elem) => seq![elem],
            TyKind::Ref(inner) => seq![inner],
            TyKind::RawPtr(inner) => seq![inner],
            TyKind::Pat(base) => seq![base],
            TyKind::Adt(_, _, _) => self.info(ty).args@,
            _ => Seq::empty(),
        }
    }

    /// What decides the second word of a pointer to a type; nothing where the
    /// pointer is thin.
    pub open spec fn unsized_tail(self, pointee: TyId) -> Option<Tail> {
        let pointee = self.runtime(pointee);
        match as_tail(self.kind(pointee)) {
            Some(tail) => Some(tail),
            None => if self.info(pointee).sized {
                None
            } else {
                as_tail(self.kind(self.runtime(self.info(pointee).tail)))
            },
        }
    }

    /// What a type refers to stands in the table: the parts of a type before
    /// it, and so does what a slice that it points to holds.
    pub open spec fn ty_wf(self, ty: TyId) -> bool {
        let info = self.info(ty);
        &&& (info.layout matches Some(layout) ==> layout.order matches Some(order)
            ==> is_permutation(order@))
        &&& info.normal.0 <= ty.0
        &&& self.has(info.tail)
        &&& self.has(info.discriminant)
        &&& (info.boxed matches Some(inner) ==> self.has(inner))
        &&& self.precede(self.parts(ty), ty)
        &&& self.nested(self.components(ty), ty)
        &&& match info.kind {
            TyKind::Ref(inner) => self.has(inner) && (self.unsized_tail(inner) matches Some(
                Tail::Slice(elem),
            ) ==> elem.0 < ty.0),
            TyKind::RawPtr(inner) => self.has(inner) && (self.unsized_tail(inner) matches Some(
                Tail::Slice(elem),
            ) ==> elem.0 < ty.0),
            _ => true,
        }
    }

    /// Types refer to types of the table, and those that a value of a type
    /// holds come before it.
    pub open spec fn wf(self) -> bool {
        forall|ty: TyId| self.has(ty) ==> #[trigger] self.ty_wf(ty)
    }

    proof fn lemma_runtime(&self, ty: TyId)
        requires
            self.wf(),
            self.has(ty),
        ensures
            self.has(self.runtime(ty)),
            self.runtime(ty).0 <= ty.0,
            !(self.kind(self.runtime(ty)) is Pat),
        decreases ty.0,
    {
        assert(self.ty_wf(ty));
        if let TyKind::Pat(base) = self.kind(ty) {
            assert(self.parts(ty)[0] == base);
            self.lemma_runtime(base);
        }
    }

    /// The type under all patterns comes no later, and the resolved type
    /// neither.
    pub broadcast proof fn lemma_normal(&self, ty: TyId)
        requires
            self.wf(),
            self.has(ty),
        ensures
            #![trigger self.normal(ty)]
            #![trigger self.runtime(ty)]
            self.has(self.runtime(ty)),
            self.runtime(ty).0 <= ty.0,
            self.has(self.normal(ty)),
            self.normal(ty).0 <= ty.0,
    {
        self.lemma_runtime(ty);
        assert(self.ty_wf(self.runtime(ty)));
    }

    /// The type under all patterns.
    pub fn runtime_ty(&self, ty: TyId) -> (r: TyId)
        requires
            self.wf(),
            self.has(ty),
        ensures
            r == self.runtime(ty),
            self.has(r),
            r.0 <= ty.0,
        decreases ty.0,
    {
        proof {
            assert(self.ty_wf(ty));
        }
        match &self.types[ty.0].kind {
            TyKind::Pat(base) => {
                proof {
                    assert(self.parts(ty)[0] == *base);
                }
                self.runtime_ty(*base)
            },
            _ => ty,
        }
    }

    /// The type under all patterns, with associated types resolved.
    pub fn normalize_ty(&self, ty: TyId) -> (r: TyId)
        requires
            self.wf(),
            self.has(ty),
        ensures
            r == self.normal(ty),
            self.has(r),
            r.0 <= ty.0,
    {
        let ty: TyId = self.runtime_ty(ty);
        proof {
            assert(self.ty_wf(ty));
        }
        self.types[ty.0].normal
    }

    /// What decides the second word of a pointer to a type.
    pub fn pointee_unsized_tail(&self, pointee: TyId) -> (r: Option<Tail>)
        requires
            self.wf(),
            self.has(pointee),
        ensures
            r == self.unsized_tail(pointee),
            r matches Some(Tail::Slice(elem)) ==> self.has(elem),
    {
        let pointee: TyId = self.runtime_ty(pointee);
        proof {
            assert(self.ty_wf(pointee));
        }
        let own: Option<Tail> = kind_tail(&self.types[pointee.0].kind);
        if own.is_some() {
            proof {
                if let Some(Tail::Slice(elem)) = own {
                    assert(self.parts(pointee)[0] == elem);
                }
            }
            return own;
        }
        if self.types[pointee.0].sized {
            return None;
        }
        let last: TyId = self.runtime_ty(self.types[pointee.0].tail);
        let r: Option<Tail> = kind_tail(&self.types[last.0].kind);
        proof {
            assert(self.ty_wf(last));
            if let Some(Tail::Slice(elem)) = r {
                assert(self.parts(last)[0] == elem);
            }
        }
        r
    }

    /// The order in which the fields of a struct-like type lie in memory: that
    /// of its layout, or that of its source where there is no fitting layout.
    pub open spec fn memory_order(self, ty: TyId, count: nat) -> Seq<usize> {
        match self.info(ty).layout {
            Some(layout) => match layout.order {
                Some(order) if order@.len() == count => order@,
                _ => identity(count),
            },
            None => identity(count),
        }
    }

    /// The memory order of fields is a permutation of them.
    pub proof fn law_memory_order(&self, ty: TyId, count: nat)
        requires
            self.wf(),
            self.has(ty),
            count <= usize::MAX,
        ensures
            self.memory_order(ty, count).len() == count,
            is_permutation(self.memory_order(ty, count)),
    {
        assert(self.ty_wf(ty));
    }

    /// The order in which the fields of a struct-like type lie in memory.
    pub fn struct_memory_order(&self, ty: TyId, count: usize) -> (r: Vec<usize>)
        requires
            self.has(ty),
        ensures
            r@ == self.memory_order(ty, count as nat),
    {
        if let Some(layout) = &self.types[ty.0].layout {
            if let Some(order) = &layout.order {
                if order.len() == count {
                    let mut out: Vec<usize> = Vec::new();
                    let mut i: usize = 0;
                    while i < order.len()
                        invariant
                            i <= order@.len(),
                            out@ == order@.take(i as int),
                        decreases order@.len() - i,
                    {
                        out.push(order[i]);
                        i = i + 1;
                        assert(order@.take(i as int) =~= order@.take(i - 1).push(order@[i - 1]));
                    }
                    assert(order@.take(i as int) =~= order@);
                    return out;
                }
            }
        }
        let mut out: Vec<usize> = Vec::new();
        let mut i: usize = 0;
        while i < count
            invariant
                i <= count,
                out@ == identity(i as nat),
            decreases count - i,
        {
            out.push(i);
            i = i + 1;
            assert(out@ =~= identity(i as nat));
        }
        out
    }

    /// The place in memory order of a field of a struct-like type.
    pub open spec fn memory_position(self, ty: TyId, count: nat, index: usize) -> int {
        match self.info(ty).layout {
            Some(layout) => match layout.order {
                Some(order) if order@.len() == count => match index_in(order@, index) {
                    Some(position) => position,
                    None => index as int,
                },
                _ => index as int,
            },
            None => index as int,
        }
    }

    /// A field stands in memory order at its position, and no two fields share
    /// one.
    pub proof fn law_memory_position(&self, ty: TyId, count: nat, index: usize)
        requires
            self.wf(),
            self.has(ty),
            index < count <= usize::MAX,
        ensures
            0 <= self.memory_position(ty, count, index) < count,
            self.memory_order(ty, count)[self.memory_position(ty, count, index)] == index,
    {
        assert(self.ty_wf(ty));
        let order = self.memory_order(ty, count);
        lemma_index_in(order, index);
        lemma_onto(order, index);
    }

    /// The place in memory order of a field of a struct-like type.
    #[verifier::loop_isolation(false)]
    pub fn field_memory_position(&self, ty: TyId, count: usize, index: usize) -> (r: usize)
        requires
            self.has(ty),
        ensures
            r == self.memory_position(ty, count as nat, index),
    {
        if let Some(layout) = &self.types[ty.0].layout {
            if let Some(order) = &layout.order {
                if order.len() == count {
                    let mut i: usize = 0;
                    while i < order.len()
                        invariant
                            i <= order@.len(),
                            forall|j: int| 0 <= j < i ==> order@[j] != index,
                        decreases order@.len() - i,
                    {
                        if order[i] == index {
                            proof {
                                lemma_index_in(order@, index);
                            }
                            return i;
                        }
                        i = i + 1;
                    }
                    proof {
                        lemma_index_in(order@, index);
                    }
                    return index;
                }
            }
        }
        index
    }

    /// Whether a type is the argument type of the formatting runtime.
    pub open spec fn is_fmt_argument(self, ty: TyId) -> bool {
        text::occurs(self.info(ty).path@, "fmt::rt::ArgumentType"@)
    }

    /// Whether a type is the argument type of the formatting runtime.
    pub fn is_fmt_rt_argument_type(&self, ty: TyId) -> (r: bool)
        requires
            self.has(ty),
        ensures
            r == self.is_fmt_argument(ty),
    {
        contains(self.types[ty.0].path.as_str(), "fmt::rt::ArgumentType")
    }

    /// The fields of a type whose fields are reordered in memory: a tuple, a
    /// closure or a struct.
    pub open spec fn source_fields(self, ty: TyId) -> Option<Seq<TyId>> {
        let ty = self.runtime(ty);
        match self.kind(ty) {
            TyKind::Tuple(fields) => Some(fields@),
            TyKind::Closure(fields) => Some(fields@),
            TyKind::Adt(AdtKind::Struct, fields, _) => if self.is_fmt_argument(ty) {
                None
            } else {
                Some(fields@)
            },
            _ => None,
        }
    }

    /// The fields of a type whose fields are reordered in memory.
    pub fn struct_like_source_fields(&self, ty: TyId) -> (r: Option<&Vec<TyId>>)
        requires
            self.wf(),
            self.has(ty),
        ensures
            match r {
                Some(fields) => {
                    &&& self.source_fields(ty) == Some(fields@)
                    &&& self.precede(fields@, ty)
                },
                None => self.source_fields(ty) is None,
            },
    {
        let inner: TyId = self.runtime_ty(ty);
        proof {
            assert(self.ty_wf(inner));
        }
        match &self.types[inner.0].kind {
            TyKind::Tuple(fields) => Some(fields),
            TyKind::Closure(fields) => Some(fields),
            TyKind::Adt(AdtKind::Struct, fields, _) => if self.is_fmt_rt_argument_type(inner) {
                None
            } else {
                Some(fields)
            },
            _ => None,
        }
    }

    /// Whether a type is `bool`.
    pub open spec fn is_bool(self, ty: TyId) -> bool {
        self.kind(self.runtime(ty)) is Bool
    }

    /// Whether a type is `bool`.
    pub fn is_bool_ty(&self, ty: TyId) -> (r: bool)
        requires
            self.wf(),
            self.has(ty),
        ensures
            r == self.is_bool(ty),
    {
        let ty: TyId = self.runtime_ty(ty);
        matches!(self.types[ty.0].kind, TyKind::Bool)
    }

    /// Whether a type is an enum.
    pub open spec fn is_enum(self, ty: TyId) -> bool {
        self.kind(self.runtime(ty)) matches TyKind::Adt(AdtKind::Enum, _, _)
    }

    /// Whether a type is an enum.
    pub fn is_enum_ty(&self, ty: TyId) -> (r: bool)
        requires
            self.wf(),
            self.has(ty),
        ensures
            r == self.is_enum(ty),
    {
        let ty: TyId = self.runtime_ty(ty);
        matches!(self.types[ty.0].kind, TyKind::Adt(AdtKind::Enum, _, _))
    }

    /// Whether a type is a union.
    pub open spec fn is_union(self, ty: TyId) -> bool {
        self.kind(self.runtime(ty)) matches TyKind::Adt(AdtKind::Union, _, _)
    }

    /// Whether a type is a union.
    pub fn is_union_ty(&self, ty: TyId) -> (r: bool)
        requires
            self.wf(),
            self.has(ty),
        ensures
            r == self.is_union(ty),
    {
        let ty: TyId = self.runtime_ty(ty);
        matches!(self.types[ty.0].kind, TyKind::Adt(AdtKind::Union, _, _))
    }

    /// Whether a type is a reference to a string slice.
    pub open spec fn is_str_ref(self, ty: TyId) -> bool {
        self.kind(self.runtime(ty)) matches TyKind::Ref(inner) && self.kind(inner) is Str
    }

    /// Whether a type is a reference to a string slice.
    pub fn is_str_ref_ty(&self, ty: TyId) -> (r: bool)
        requires
            self.wf(),
            self.has(ty),
        ensures
            r == self.is_str_ref(ty),
    {
        let ty: TyId = self.runtime_ty(ty);
        proof {
            assert(self.ty_wf(ty));
        }
        match &self.types[ty.0].kind {
            TyKind::Ref(inner) => matches!(self.types[inner.0].kind, TyKind::Str),
            _ => false,
        }
    }

    /// The length of a byte array that a type is a reference to.
    pub open spec fn byte_array_len(self, ty: TyId) -> Option<u64> {
        match self.kind(self.runtime(ty)) {
            TyKind::Ref(inner) => match self.kind(self.runtime(inner)) {
                TyKind::Array(elem, len) => match self.kind(self.runtime(elem)) {
                    TyKind::Uint(UintTy::U8) => len,
                    _ => None,
                },
                _ => None,
            },
            _ => None,
        }
    }

    /// The length of a byte array that a type is a reference to.
    pub fn byte_array_ref_len(&self, ty: TyId) -> (r: Option<u64>)
        requires
            self.wf(),
            self.has(ty),
        ensures
            r == self.byte_array_len(ty),
    {
        let ty: TyId = self.runtime_ty(ty);
        proof {
            assert(self.ty_wf(ty));
        }
        match &self.types[ty.0].kind {
            TyKind::Ref(inner) => {
                let inner: TyId = self.runtime_ty(*inner);
                proof {
                    assert(self.ty_wf(inner));
                }
                match &self.types[inner.0].kind {
                    TyKind::Array(elem, len) => {
                        proof {
                            assert(self.parts(inner)[0] == *elem);
                        }
                        let elem: TyId = self.runtime_ty(*elem);
                        match &self.types[elem.0].kind {
                            TyKind::Uint(UintTy::U8) => *len,
                            _ => None,
                        }
                    },
                    _ => None,
                }
            },
            _ => None,
        }
    }

    proof fn lemma_runtime_depth(&self, ty: TyId)
        requires
            self.wf(),
            self.has(ty),
        ensures
            self.info(self.runtime(ty)).depth <= self.info(ty).depth,
        decreases ty.0,
    {
        assert(self.ty_wf(ty));
        if let TyKind::Pat(base) = self.kind(ty) {
            assert(self.parts(ty)[0] == base);
            assert(self.components(ty)[0] == base);
            self.lemma_runtime_depth(base);
        }
    }

    /// Whether memory that may be uninitialized occurs in the way a type is
    /// written.
    pub open spec fn holds_maybe_uninit(self, ty: TyId) -> bool
        decreases self.info(ty).depth, 1nat, 0nat,
        when self.wf() && self.has(ty)
        via Self::maybe_uninit_decreases
    {
        let inner = self.runtime(ty);
        ||| text::occurs(self.info(inner).printed@, "MaybeUninit"@)
        ||| self.kind(inner) is Adt && text::occurs(
            self.info(inner).path@,
            "mem::maybe_uninit::MaybeUninit"@,
        )
        ||| self.any_maybe_uninit(inner, self.components(inner).len())
    }

    #[via_fn]
    proof fn maybe_uninit_decreases(self, ty: TyId) {
        self.lemma_normal(ty);
        self.lemma_runtime_depth(ty);
        assert(self.ty_wf(self.runtime(ty)));
    }

    /// Whether memory that may be uninitialized occurs in one of the first
    /// components of a type.
    pub open spec fn any_maybe_uninit(self, ty: TyId, count: nat) -> bool
        decreases self.info(ty).depth, 0nat, count,
        when self.wf() && self.has(ty) && count <= self.components(ty).len()
        via Self::any_maybe_uninit_decreases
    {
        if count == 0 {
            false
        } else {
            let part = self.components(ty)[count - 1];
            self.any_maybe_uninit(ty, (count - 1) as nat) || self.holds_maybe_uninit(part)
        }
    }

    #[via_fn]
    proof fn any_maybe_uninit_decreases(self, ty: TyId, count: nat) {
        assert(self.ty_wf(ty));
        if count > 0 {
            assert(self.nested(self.components(ty), ty));
            let part = self.components(ty)[count - 1];
            assert(self.info(part).depth < self.info(ty).depth);
        }
    }

    /// Whether memory that may be uninitialized occurs in the way a type is
    /// written.
    pub fn contains_maybe_uninit_ty(&self, ty: TyId) -> (r: bool)
        requires
            self.wf(),
            self.has(ty),
        ensures
            r == self.holds_maybe_uninit(ty),
        decreases self.info(ty).depth, 1nat, 0nat,
    {
        proof {
            self.lemma_runtime(ty);
            self.lemma_runtime_depth(ty);
        }
        let ty: TyId = self.runtime_ty(ty);
        proof {
            assert(self.ty_wf(ty));
        }
        if contains(self.types[ty.0].printed.as_str(), "MaybeUninit") {
            return true;
        }
        match &self.types[ty.0].kind {
            TyKind::Adt(_, _, _) => {
                contains(self.types[ty.0].path.as_str(), "mem::maybe_uninit::MaybeUninit")
                    || self.any_contains_maybe_uninit(ty, &self.types[ty.0].args)
            },
            TyKind::Tuple(fields) => self.any_contains_maybe_uninit(ty, fields),
            TyKind::Array(elem, _) => {
                let list: Vec<TyId> = vec![*elem];
                assert(list@ =~= self.components(ty));
                self.any_contains_maybe_uninit(ty, &list)
            },
            TyKind::Slice(elem) => {
                let list: Vec<TyId> = vec![*elem];
                assert(list@ =~= self.components(ty));
                self.any_contains_maybe_uninit(ty, &list)
            },
            TyKind::Ref(elem) => {
                let list: Vec<TyId> = vec![*elem];
                assert(list@ =~= self.components(ty));
                self.any_contains_maybe_uninit(ty, &list)
            },
            TyKind::RawPtr(elem) => {
                let list: Vec<TyId> = vec![*elem];
                assert(list@ =~= self.components(ty));
                self.any_contains_maybe_uninit(ty, &list)
            },
            _ => {
                assert(self.components(ty).len() == 0);
                false
            },
        }
    }

    fn any_contains_maybe_uninit(&self, ty: TyId, parts: &Vec<TyId>) -> (r: bool)
        requires
            self.wf(),
            self.has(ty),
            parts@ == self.components(ty),
        ensures
            r == self.any_maybe_uninit(ty, parts@.len()),
        decreases self.info(ty).depth, 0nat, 1nat,
    {
        proof {
            assert(self.ty_wf(ty));
        }
        let mut found: bool = false;
        let mut i: usize = 0;
        while i < parts.len()
            invariant
                self.wf(),
                self.has(ty),
                self.ty_wf(ty),
                parts@ == self.components(ty),
                i <= parts@.len(),
                found == self.any_maybe_uninit(ty, i as nat),
            decreases parts@.len() - i,
        {
            let part: TyId = parts[i];
            assert(self.components(ty)[i as int] == part);
            if self.contains_maybe_uninit_ty(part) {
                found = true;
            }
            i = i + 1;
            assert(self.components(ty)[i - 1] == part);
        }
        found
    }

    /// Whether a type is a byte that may be uninitialized.
    pub open spec fn is_maybe_uninit_byte(self, ty: TyId) -> bool {
        let ty = self.runtime(ty);
        &&& self.kind(ty) is Adt
        &&& text::occurs(self.info(ty).path@, "MaybeUninit"@) || text::occurs(
            self.info(ty).printed@,
            "MaybeUninit"@,
        )
        &&& exists|i: int|
            0 <= i < self.info(ty).args@.len() && self.kind(
                self.runtime(#[trigger] self.info(ty).args@[i]),
            ) == TyKind::Uint(UintTy::U8)
    }

    /// Whether a type is a byte that may be uninitialized.
    #[verifier::loop_isolation(false)]
    pub fn is_maybe_uninit_u8_ty(&self, ty: TyId) -> (r: bool)
        requires
            self.wf(),
            self.has(ty),
        ensures
            r == self.is_maybe_uninit_byte(ty),
    {
        let ty: TyId = self.runtime_ty(ty);
        proof {
            assert(self.ty_wf(ty));
        }
        if !matches!(self.types[ty.0].kind, TyKind::Adt(_, _, _)) {
            return false;
        }
        if !contains(self.types[ty.0].path.as_str(), "MaybeUninit") && !contains(
            self.types[ty.0].printed.as_str(),
            "MaybeUninit",
        ) {
            return false;
        }
        let args: &Vec<TyId> = &self.types[ty.0].args;
        let mut i: usize = 0;
        while i < args.len()
            invariant
                self.wf(),
                self.has(ty),
                self.ty_wf(ty),
                self.kind(ty) is Adt,
                *args == self.info(ty).args,
                i <= args@.len(),
                forall|j: int|
                    0 <= j < i ==> self.kind(self.runtime(#[trigger] args@[j])) != TyKind::Uint(
                        UintTy::U8,
                    ),
            decreases args@.len() - i,
        {
            assert(self.components(ty)[i as int] == args@[i as int]);
            let arg: TyId = self.runtime_ty(args[i]);
            if matches!(self.types[arg.0].kind, TyKind::Uint(UintTy::U8)) {
                assert(self.info(ty).args@[i as int] == args@[i as int]);
                return true;
            }
            i = i + 1;
        }
        false
    }
}

/// What a type of a kind makes of a pointer to it.
pub open spec fn as_tail(kind: TyKind) -> Option<Tail> {
    match kind {
        TyKind::Str => Some(Tail::Str),
        TyKind::Slice(elem) => Some(Tail::Slice(elem)),
        TyKind::Dynamic(_) => Some(Tail::Dynamic),
        _ => None,
    }
}

/// What decides the second word of a pointer to a type of a kind.
pub fn kind_tail(kind: &TyKind) -> (r: Option<Tail>)
    ensures
        r == as_tail(*kind),
{
    match kind {
        TyKind::Str => Some(Tail::Str),
        TyKind::Slice(elem) => Some(Tail::Slice(*elem)),
        TyKind::Dynamic(_) => Some(Tail::Dynamic),
        _ => None,
    }
}

} // verus!
