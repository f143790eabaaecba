//! The types of the intermediate representation.
//!
//! A [`TypeHandle`] is a plain tree: two handles denote the same type exactly
//! when they are equal, so no table is needed to look inside one. A named
//! struct is named after the type of the program that it stands for.
use std::rc::Rc;
use vstd::prelude::*;

verus! {

/// How the bits of an integer type are read by sign-sensitive operations.
#[derive(Clone, Copy, PartialEq, Eq, Debug, Structural)]
pub enum Signedness {
    Signless,
    Signed,
    Unsigned,
}

/// The name of a named struct type: the symbol of a type of the program, with
/// as many `__llvm` suffixes as its declarations were mirrored.
#[derive(Clone, Copy, PartialEq, Eq, Debug, Structural)]
pub struct NameId {
    pub ty: usize,
    pub mirrored: u32,
}

/// A type of the intermediate representation.
#[derive(Debug)]
pub enum TypeHandle {
    Integer { width: u32, signedness: Signedness },
    Fp32,
    Fp64,
    Unit,
    Void,
    Pointer { address_space: u32 },
    /// A pointer of the `mir` dialect. The pointee is advisory.
    MirPtr { pointee: Rc<TypeHandle>, mutable: bool, address_space: u32 },
    Array { elem: Rc<TypeHandle>, size: u64 },
    Struct { name: Option<NameId>, body: StructBody },
    Function { inputs: Rc<TypeList>, results: Rc<TypeList> },
    LlvmFunction { result: Rc<TypeHandle>, inputs: Rc<TypeList>, variadic: bool },
}

/// The fields of a struct type, or the lack of a body.
#[derive(Debug)]
pub enum StructBody {
    Opaque,
    Fields(Rc<TypeList>),
}

/// A list of types.
#[derive(Debug)]
pub enum TypeList {
    Nil,
    Cons(TypeHandle, Rc<TypeList>),
}

impl Clone for TypeHandle {
    fn clone(&self) -> (r: Self)
        ensures
            r == *self,
    {
        match self {
            TypeHandle::Integer { width, signedness } => TypeHandle::Integer {
                width: *width,
                signedness: *signedness,
            },
            TypeHandle::Fp32 => TypeHandle::Fp32,
            TypeHandle::Fp64 => TypeHandle::Fp64,
            TypeHandle::Unit => TypeHandle::Unit,
            TypeHandle::Void => TypeHandle::Void,
            TypeHandle::Pointer { address_space } => TypeHandle::Pointer {
                address_space: *address_space,
            },
            TypeHandle::MirPtr { pointee, mutable, address_space } => TypeHandle::MirPtr {
                pointee: pointee.clone(),
                mutable: *mutable,
                address_space: *address_space,
            },
            TypeHandle::Array { elem, size } => TypeHandle::Array {
                elem: elem.clone(),
                size: *size,
            },
            TypeHandle::Struct { name, body } => TypeHandle::Struct {
                name: *name,
                body: body.clone(),
            },
            TypeHandle::Function { inputs, results } => TypeHandle::Function {
                inputs: inputs.clone(),
                results: results.clone(),
            },
            TypeHandle::LlvmFunction { result, inputs, variadic } => TypeHandle::LlvmFunction {
                result: result.clone(),
                inputs: inputs.clone(),
                variadic: *variadic,
            },
        }
    }
}

impl Clone for StructBody {
    fn clone(&self) -> (r: Self)
        ensures
            r == *self,
    {
        match self {
            StructBody::Opaque => StructBody::Opaque,
            StructBody::Fields(fields) => StructBody::Fields(fields.clone()),
        }
    }
}

impl TypeList {
    /// The types of the list, in order.
    pub open spec fn seq(self) -> Seq<TypeHandle>
        decreases self,
    {
        match self {
            TypeList::Nil => Seq::empty(),
            TypeList::Cons(head, tail) => seq![head] + tail.seq(),
        }
    }

    /// The list that holds the types of a sequence.
    pub open spec fn of(types: Seq<TypeHandle>) -> TypeList
        decreases types.len(),
    {
        if types.len() == 0 {
            TypeList::Nil
        } else {
            TypeList::Cons(types[0], Rc::new(TypeList::of(types.skip(1))))
        }
    }

    /// A list and the sequence of its types determine each other.
    pub proof fn of_seq(&self)
        ensures
            TypeList::of(self.seq()) == *self,
        decreases *self,
    {
        match self {
            TypeList::Nil => {},
            TypeList::Cons(head, tail) => {
                tail.of_seq();
                assert(self.seq().skip(1) =~= tail.seq());
            },
        }
    }

    /// Listing a sequence loses nothing.
    pub proof fn seq_of(types: Seq<TypeHandle>)
        ensures
            TypeList::of(types).seq() == types,
        decreases types.len(),
    {
        if types.len() > 0 {
            TypeList::seq_of(types.skip(1));
            assert(seq![types[0]] + types.skip(1) =~= types);
        }
    }

    /// The list of the first `n` types of a vector followed by a list.
    fn prepend(types: &Vec<TypeHandle>, n: usize, tail: TypeList) -> (r: TypeList)
        requires
            n <= types@.len(),
        ensures
            r.seq() == types@.take(n as int) + tail.seq(),
        decreases n,
    {
        if n == 0 {
            assert(types@.take(0) + tail.seq() =~= tail.seq());
            tail
        } else {
            let cell = TypeList::Cons(types[n - 1].clone(), Rc::new(tail));
            assert(types@.take(n as int) + tail.seq() =~= types@.take(n - 1) + cell.seq());
            TypeList::prepend(types, n - 1, cell)
        }
    }

    /// The list of the types of a vector.
    pub fn from_vec(types: &Vec<TypeHandle>) -> (r: TypeList)
        ensures
            r == TypeList::of(types@),
            r.seq() == types@,
    {
        let r = TypeList::prepend(types, types.len(), TypeList::Nil);
        proof {
            assert(r.seq() =~= types@);
            r.of_seq();
        }
        r
    }

    /// The types of the list as a vector.
    pub fn to_vec(&self) -> (r: Vec<TypeHandle>)
        ensures
            r@ == self.seq(),
    {
        let mut out: Vec<TypeHandle> = Vec::new();
        let mut rest: &TypeList = self;
        loop
            invariant
                out@ + rest.seq() == self.seq(),
            ensures
                out@ == self.seq(),
            decreases *rest,
        {
            match rest {
                TypeList::Nil => {
                    assert(out@ + Seq::<TypeHandle>::empty() =~= out@);
                    break;
                },
                TypeList::Cons(head, tail) => {
                    let ghost before = out@;
                    out.push(head.clone());
                    assert(before.push(*head) + tail.seq() =~= before + rest.seq());
                    rest = tail;
                },
            }
        }
        out
    }

    /// Whether two lists hold the same types.
    pub fn same(&self, other: &TypeList) -> (r: bool)
        ensures
            r == (*self == *other),
        decreases *self,
    {
        match (self, other) {
            (TypeList::Nil, TypeList::Nil) => true,
            (TypeList::Cons(a, rest), TypeList::Cons(b, other_rest)) => {
                a.same(b) && rest.same(other_rest)
            },
            _ => false,
        }
    }
}

impl StructBody {
    /// Whether two bodies are the same.
    pub fn same(&self, other: &StructBody) -> (r: bool)
        ensures
            r == (*self == *other),
        decreases *self,
    {
        match (self, other) {
            (StructBody::Opaque, StructBody::Opaque) => true,
            (StructBody::Fields(a), StructBody::Fields(b)) => a.same(b),
            _ => false,
        }
    }
}

/// The unsigned integer type of a width.
pub open spec fn unsigned(width: u32) -> TypeHandle {
    TypeHandle::Integer { width, signedness: Signedness::Unsigned }
}

/// The signed integer type of a width.
pub open spec fn signed(width: u32) -> TypeHandle {
    TypeHandle::Integer { width, signedness: Signedness::Signed }
}

/// The signless integer type of a width.
pub open spec fn signless(width: u32) -> TypeHandle {
    TypeHandle::Integer { width, signedness: Signedness::Signless }
}

/// A function type of the `mir` dialect with at most one result.
pub open spec fn function_of(inputs: Seq<TypeHandle>, result: Option<TypeHandle>) -> TypeHandle {
    TypeHandle::Function {
        inputs: Rc::new(TypeList::of(inputs)),
        results: Rc::new(
            TypeList::of(
                match result {
                    Some(ty) => seq![ty],
                    None => Seq::empty(),
                },
            ),
        ),
    }
}

/// The opaque pointer type of the default address space.
pub open spec fn pointer() -> TypeHandle {
    TypeHandle::Pointer { address_space: 0 }
}

/// The array type of `size` elements.
pub open spec fn array_of(elem: TypeHandle, size: u64) -> TypeHandle {
    TypeHandle::Array { elem: Rc::new(elem), size }
}

/// The anonymous struct type with the given fields.
pub open spec fn struct_of(fields: Seq<TypeHandle>) -> TypeHandle {
    TypeHandle::Struct { name: None, body: StructBody::Fields(Rc::new(TypeList::of(fields))) }
}

/// The anonymous struct type of two fields.
pub open spec fn pair_of(first: TypeHandle, second: TypeHandle) -> TypeHandle {
    struct_of(seq![first, second])
}

/// The address space of ordinary memory.
pub const GENERIC: u32 = 0;

impl TypeHandle {
    /// The integer type of a width and signedness.
    pub fn integer(width: u32, signedness: Signedness) -> (r: TypeHandle)
        ensures
            r == (TypeHandle::Integer { width, signedness }),
    {
        TypeHandle::Integer { width, signedness }
    }

    /// An array type.
    pub fn array(elem: TypeHandle, size: u64) -> (r: TypeHandle)
        ensures
            r == array_of(elem, size),
    {
        TypeHandle::Array { elem: Rc::new(elem), size }
    }

    /// An anonymous struct type.
    pub fn unnamed_struct(fields: &Vec<TypeHandle>) -> (r: TypeHandle)
        ensures
            r == struct_of(fields@),
    {
        TypeHandle::Struct {
            name: None,
            body: StructBody::Fields(Rc::new(TypeList::from_vec(fields))),
        }
    }

    /// An anonymous struct type of two fields.
    pub fn pair(first: TypeHandle, second: TypeHandle) -> (r: TypeHandle)
        ensures
            r == pair_of(first, second),
    {
        let fields: Vec<TypeHandle> = vec![first, second];
        assert(fields@ =~= seq![first, second]);
        TypeHandle::unnamed_struct(&fields)
    }

    /// A function type of the `mir` dialect.
    pub fn function(inputs: &Vec<TypeHandle>, results: &Vec<TypeHandle>) -> (r: TypeHandle)
        ensures
            r == (TypeHandle::Function {
                inputs: Rc::new(TypeList::of(inputs@)),
                results: Rc::new(TypeList::of(results@)),
            }),
    {
        TypeHandle::Function {
            inputs: Rc::new(TypeList::from_vec(inputs)),
            results: Rc::new(TypeList::from_vec(results)),
        }
    }

    /// A function type of the `llvm` dialect.
    pub fn llvm_function(result: TypeHandle, inputs: &Vec<TypeHandle>) -> (r: TypeHandle)
        ensures
            r == (TypeHandle::LlvmFunction {
                result: Rc::new(result),
                inputs: Rc::new(TypeList::of(inputs@)),
                variadic: false,
            }),
    {
        TypeHandle::LlvmFunction {
            result: Rc::new(result),
            inputs: Rc::new(TypeList::from_vec(inputs)),
            variadic: false,
        }
    }

    /// Whether two handles denote the same type.
    pub fn same(&self, other: &TypeHandle) -> (r: bool)
        ensures
            r == (*self == *other),
        decreases *self,
    {
        match (self, other) {
            (
                TypeHandle::Integer { width: a, signedness: s },
                TypeHandle::Integer { width: b, signedness: t },
            ) => *a == *b && *s == *t,
            (TypeHandle::Fp32, TypeHandle::Fp32) => true,
            (TypeHandle::Fp64, TypeHandle::Fp64) => true,
            (TypeHandle::Unit, TypeHandle::Unit) => true,
            (TypeHandle::Void, TypeHandle::Void) => true,
            (
                TypeHandle::Pointer { address_space: a },
                TypeHandle::Pointer { address_space: b },
            ) => *a == *b,
            (
                TypeHandle::MirPtr { pointee: p, mutable: m, address_space: a },
                TypeHandle::MirPtr { pointee: q, mutable: n, address_space: b },
            ) => *m == *n && *a == *b && p.same(q),
            (
                TypeHandle::Array { elem: p, size: m },
                TypeHandle::Array { elem: q, size: n },
            ) => *m == *n && p.same(q),
            (
                TypeHandle::Struct { name: m, body: p },
                TypeHandle::Struct { name: n, body: q },
            ) => same_name(*m, *n) && p.same(q),
            (
                TypeHandle::Function { inputs: i, results: o },
                TypeHandle::Function { inputs: j, results: p },
            ) => i.same(j) && o.same(p),
            (
                TypeHandle::LlvmFunction { result: o, inputs: i, variadic: m },
                TypeHandle::LlvmFunction { result: p, inputs: j, variadic: n },
            ) => *m == *n && o.same(p) && i.same(j),
            _ => false,
        }
    }

    /// The width and signedness of an integer type.
    pub fn as_integer(&self) -> (r: Option<(u32, Signedness)>)
        ensures
            r == (match *self {
                TypeHandle::Integer { width, signedness } => Some((width, signedness)),
                _ => None,
            }),
    {
        match self {
            TypeHandle::Integer { width, signedness } => Some((*width, *signedness)),
            _ => None,
        }
    }

    /// Whether a type is a pointer of either dialect.
    pub open spec fn is_ptr(self) -> bool {
        self is MirPtr || self is Pointer
    }

    /// Whether a type is one of the two float types.
    pub open spec fn is_float(self) -> bool {
        self is Fp32 || self is Fp64
    }

    /// The fields of a struct type with a body.
    pub open spec fn fields(self) -> Option<Seq<TypeHandle>> {
        match self {
            TypeHandle::Struct { body: StructBody::Fields(list), .. } => Some(list.seq()),
            _ => None,
        }
    }

    /// The fields of a struct type with a body.
    pub fn struct_fields(&self) -> (r: Option<Vec<TypeHandle>>)
        ensures
            match r {
                Some(list) => self.fields() == Some(list@),
                None => self.fields() is None,
            },
    {
        match self {
            TypeHandle::Struct { body: StructBody::Fields(list), .. } => Some(list.to_vec()),
            _ => None,
        }
    }
}

fn same_name(a: Option<NameId>, b: Option<NameId>) -> (r: bool)
    ensures
        r == (a == b),
{
    match (a, b) {
        (Some(x), Some(y)) => x == y,
        (None, None) => true,
        _ => false,
    }
}

} // verus!
