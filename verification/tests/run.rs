//! Imports small programs and runs what comes out.

use crabbit::abi::{align_to, crabbit_ty_align, crabbit_ty_size};
use crabbit::arith::lower_overflow_binary;
use crabbit::callee::split_dyn_receiver;
use crabbit::emit::{emit_extract, emit_insert, emit_undef};
use crabbit::error::{Failure, PlaceTy};
use crabbit::importer::{import_crate, ImportedCrate};
use crabbit::ir::{
    BlockId, Context, Dialect, GlobalInit, Linkage, OpId, OpKind, ValueSource,
};
use crabbit::meaning::put_return;
use crabbit::mir::{
    AggregateKind, Alloc, BinOp, BlockData, Body, CastKind, ConstValue, Constant, FnItem,
    Instance, InstanceKind, Memory, Operand, Owner, Place, Pointer, Program, Projection, Rvalue,
    Scalar, Signature, Statement, Static, TableFor, Tails, Terminator, UnOp,
};
use crabbit::need::Purpose;
use crabbit::ox::FuncOp;
use crabbit::sem::{BinKind, MirCastKind, Relation};
use crabbit::ty::{
    AdtKind, IntTy, Layout, TagEncoding, TyId, TyInfo, TyKind, TyTable, UintTy, Variant, Variants,
};
use crabbit::types::{Signedness, TypeHandle};
use crabbit::valid::is_well_formed;

/// What a value is in a run.
#[derive(Clone, Debug, PartialEq)]
enum V {
    Bits(u128),
    Agg(Vec<V>),
    Undef,
}

impl V {
    fn bits(&self) -> u128 {
        match self {
            V::Bits(bits) => *bits,
            other => panic!("no bits: {:?}", other),
        }
    }
}

fn width_of(ty: &TypeHandle) -> u32 {
    match ty {
        TypeHandle::Integer { width, .. } => *width,
        TypeHandle::Fp32 => 32,
        _ => 64,
    }
}

fn is_signed(ty: &TypeHandle) -> bool {
    match ty {
        TypeHandle::Integer { signedness, .. } => *signedness == Signedness::Signed,
        _ => false,
    }
}

fn cut(width: u32, value: u128) -> u128 {
    if width >= 128 {
        value
    } else {
        value & ((1u128 << width) - 1)
    }
}

fn signed(width: u32, bits: u128) -> i128 {
    if width >= 128 {
        bits as i128
    } else {
        let shift = 128 - width;
        ((bits << shift) as i128) >> shift
    }
}

/// Memory of a run, and the functions that it knows.
struct Machine<'a> {
    ctx: &'a Context,
    module: BlockId,
    memory: Vec<u8>,
    symbols: Vec<(String, u128)>,
    /// The calls of functions without a body.
    log: Vec<(String, Vec<V>)>,
    reply: V,
}

impl<'a> Machine<'a> {
    fn new(ctx: &'a Context, module: OpId) -> Machine<'a> {
        let region = ctx.ops[module.0].region.expect("a module has a region");
        let block = ctx.regions[region.0][0];
        let mut machine = Machine {
            ctx,
            module: block,
            memory: vec![0; 64],
            symbols: Vec::new(),
            log: Vec::new(),
            reply: V::Undef,
        };
        machine.lay_out_globals();
        machine
    }

    fn lay_out_globals(&mut self) {
        let ctx = self.ctx;
        let mut relocs: Vec<(u128, u64, &String, i64)> = Vec::new();
        for op in &ctx.blocks[self.module.0].ops {
            if let OpKind::Global { symbol, init, .. } = &ctx.ops[op.0].kind {
                let at = self.address_of(symbol);
                match init {
                    GlobalInit::Declared => {}
                    GlobalInit::Bytes(bytes) => {
                        let end = at as usize + bytes.len();
                        if self.memory.len() < end {
                            self.memory.resize(end, 0);
                        }
                        self.memory[at as usize..end].copy_from_slice(bytes);
                    }
                    GlobalInit::Data { bytes, relocs: list, .. } => {
                        let end = at as usize + bytes.len();
                        if self.memory.len() < end {
                            self.memory.resize(end, 0);
                        }
                        self.memory[at as usize..end].copy_from_slice(bytes);
                        for reloc in list {
                            relocs.push((at, reloc.offset, &reloc.symbol, reloc.addend));
                        }
                    }
                }
            }
        }
        for (at, offset, symbol, addend) in relocs {
            let target = self.address_of(symbol).wrapping_add(addend as u128);
            let from = (at as u64 + offset) as usize;
            self.memory[from..from + 8].copy_from_slice(&(target as u64).to_le_bytes());
        }
    }

    fn reserve(&mut self, size: u64) -> u128 {
        let at = (self.memory.len() + 15) / 16 * 16;
        self.memory.resize(at + size as usize + 16, 0);
        at as u128
    }

    fn address_of(&mut self, symbol: &String) -> u128 {
        for (name, at) in &self.symbols {
            if name == symbol {
                return *at;
            }
        }
        let at = self.reserve(256);
        self.symbols.push((symbol.clone(), at));
        at
    }

    fn symbol_at(&self, at: u128) -> String {
        for (name, place) in &self.symbols {
            if *place == at {
                return name.clone();
            }
        }
        panic!("no symbol at {}", at)
    }

    fn function(&self, symbol: &str) -> Option<OpId> {
        for op in &self.ctx.blocks[self.module.0].ops {
            let name = match &self.ctx.ops[op.0].kind {
                OpKind::MirFunc { symbol, .. } | OpKind::LlvmFunc { symbol, .. } => symbol,
                _ => continue,
            };
            if name == symbol && self.ctx.ops[op.0].region.is_some() {
                return Some(*op);
            }
        }
        None
    }

    fn offsets(fields: &Vec<TypeHandle>) -> Vec<u64> {
        let mut offsets = Vec::new();
        let mut end = 0;
        for field in fields {
            let size = crabbit_ty_size(field).ok().expect("a size");
            if size > 0 {
                end = align_to(end, crabbit_ty_align(field).ok().expect("an alignment"))
                    .ok()
                    .expect("fits");
            }
            offsets.push(end);
            end += size;
        }
        offsets
    }

    fn write(&mut self, at: u128, ty: &TypeHandle, value: &V) {
        match ty {
            TypeHandle::Unit => {}
            TypeHandle::Array { elem, size } => {
                let step = crabbit_ty_size(elem).ok().expect("a size");
                for i in 0..*size {
                    let part = match value {
                        V::Agg(parts) => parts[i as usize].clone(),
                        _ => V::Undef,
                    };
                    self.write(at + (i * step) as u128, elem, &part);
                }
            }
            TypeHandle::Struct { .. } => {
                let fields = ty.struct_fields().expect("fields");
                for (i, offset) in Machine::offsets(&fields).iter().enumerate() {
                    let part = match value {
                        V::Agg(parts) => parts[i].clone(),
                        _ => V::Undef,
                    };
                    self.write(at + *offset as u128, &fields[i], &part);
                }
            }
            _ => {
                if let V::Bits(bits) = value {
                    let size = crabbit_ty_size(ty).ok().expect("a size") as usize;
                    self.memory[at as usize..at as usize + size]
                        .copy_from_slice(&bits.to_le_bytes()[..size]);
                }
            }
        }
    }

    fn read(&self, at: u128, ty: &TypeHandle) -> V {
        match ty {
            TypeHandle::Unit => V::Undef,
            TypeHandle::Array { elem, size } => {
                let step = crabbit_ty_size(elem).ok().expect("a size");
                V::Agg((0..*size).map(|i| self.read(at + (i * step) as u128, elem)).collect())
            }
            TypeHandle::Struct { .. } => {
                let fields = ty.struct_fields().expect("fields");
                let offsets = Machine::offsets(&fields);
                V::Agg(
                    (0..fields.len())
                        .map(|i| self.read(at + offsets[i] as u128, &fields[i]))
                        .collect(),
                )
            }
            _ => {
                let size = crabbit_ty_size(ty).ok().expect("a size") as usize;
                let mut bytes = [0u8; 16];
                bytes[..size].copy_from_slice(&self.memory[at as usize..at as usize + size]);
                V::Bits(cut(width_of(ty), u128::from_le_bytes(bytes)))
            }
        }
    }

    fn undef(ty: &TypeHandle) -> V {
        match ty {
            TypeHandle::Array { elem, size } => {
                V::Agg((0..*size).map(|_| Machine::undef(elem)).collect())
            }
            TypeHandle::Struct { .. } => V::Agg(
                ty.struct_fields().expect("fields").iter().map(Machine::undef).collect(),
            ),
            _ => V::Undef,
        }
    }

    fn float(ty: &TypeHandle, bits: u128) -> f64 {
        match ty {
            TypeHandle::Fp32 => f32::from_bits(bits as u32) as f64,
            _ => f64::from_bits(bits as u64),
        }
    }

    fn float_bits(ty: &TypeHandle, value: f64) -> u128 {
        match ty {
            TypeHandle::Fp32 => (value as f32).to_bits() as u128,
            _ => value.to_bits() as u128,
        }
    }

    fn binary(kind: BinKind, ty: &TypeHandle, unsigned: bool, a: u128, b: u128) -> u128 {
        if matches!(ty, TypeHandle::Fp32 | TypeHandle::Fp64) {
            let (x, y) = (Machine::float(ty, a), Machine::float(ty, b));
            let value = match kind {
                BinKind::Add => x + y,
                BinKind::Sub => x - y,
                BinKind::Mul => x * y,
                BinKind::Div => x / y,
                BinKind::Rem => x % y,
                _ => panic!("no float arithmetic"),
            };
            return Machine::float_bits(ty, value);
        }
        let width = width_of(ty);
        let signed_op = is_signed(ty) && !unsigned;
        let value = match kind {
            BinKind::Add => a.wrapping_add(b),
            BinKind::Sub => a.wrapping_sub(b),
            BinKind::Mul => a.wrapping_mul(b),
            BinKind::Div => {
                if signed_op {
                    signed(width, a).wrapping_div(signed(width, b)) as u128
                } else {
                    a / b
                }
            }
            BinKind::Rem => {
                if signed_op {
                    signed(width, a).wrapping_rem(signed(width, b)) as u128
                } else {
                    a % b
                }
            }
            BinKind::And => a & b,
            BinKind::Or => a | b,
            BinKind::Xor => a ^ b,
            BinKind::Shl => {
                assert!(b < width as u128, "shift by {} of {}", b, width);
                a << b
            }
            BinKind::Shr => {
                assert!(b < width as u128, "shift by {} of {}", b, width);
                if signed_op {
                    (signed(width, a) >> b) as u128
                } else {
                    a >> b
                }
            }
            BinKind::LShr => {
                assert!(b < width as u128, "shift by {} of {}", b, width);
                a >> b
            }
        };
        cut(width, value)
    }

    fn holds<T: PartialOrd>(relation: Relation, a: T, b: T) -> bool {
        match relation {
            Relation::Eq => a == b,
            Relation::Ne => a != b,
            Relation::Lt => a < b,
            Relation::Le => a <= b,
            Relation::Gt => a > b,
            Relation::Ge => a >= b,
        }
    }

    fn compare(relation: Relation, ty: &TypeHandle, a: u128, b: u128) -> u128 {
        let yes = if matches!(ty, TypeHandle::Fp32 | TypeHandle::Fp64) {
            Machine::holds(relation, Machine::float(ty, a), Machine::float(ty, b))
        } else if is_signed(ty) {
            Machine::holds(relation, signed(width_of(ty), a), signed(width_of(ty), b))
        } else {
            Machine::holds(relation, a, b)
        };
        yes as u128
    }

    fn cast(kind: MirCastKind, from: &TypeHandle, to: &TypeHandle, a: u128) -> u128 {
        match kind {
            MirCastKind::IntToFloat => {
                let value = if is_signed(from) {
                    signed(width_of(from), a) as f64
                } else {
                    a as f64
                };
                Machine::float_bits(to, value)
            }
            MirCastKind::FloatToInt => {
                let value = Machine::float(from, a);
                let whole = if is_signed(to) { value as i128 as u128 } else { value as u128 };
                cut(width_of(to), whole)
            }
            MirCastKind::FloatToFloat => Machine::float_bits(to, Machine::float(from, a)),
            _ => {
                let value =
                    if is_signed(from) { signed(width_of(from), a) as u128 } else { a };
                cut(width_of(to), value)
            }
        }
    }

    fn part(value: &V, path: &[u32]) -> V {
        match (value, path) {
            (_, []) => value.clone(),
            (V::Agg(parts), [first, rest @ ..]) => Machine::part(&parts[*first as usize], rest),
            (other, _) => panic!("no parts: {:?}", other),
        }
    }

    fn with_part(value: &V, path: &[u32], new: &V) -> V {
        match (value, path) {
            (_, []) => new.clone(),
            (V::Agg(parts), [first, rest @ ..]) => {
                let mut parts = parts.clone();
                let i = *first as usize;
                parts[i] = Machine::with_part(&parts[i], rest, new);
                V::Agg(parts)
            }
            (other, _) => panic!("no parts: {:?}", other),
        }
    }

    fn first_word(value: &V) -> u128 {
        match value {
            V::Bits(bits) => *bits,
            V::Agg(parts) => Machine::first_word(&parts[0]),
            V::Undef => panic!("no address"),
        }
    }

    fn call(&mut self, symbol: &str, args: Vec<V>) -> V {
        match self.function(symbol) {
            Some(op) => self.run(op, args),
            None => {
                self.log.push((symbol.to_string(), args));
                self.reply.clone()
            }
        }
    }

    fn run(&mut self, function: OpId, args: Vec<V>) -> V {
        let ctx = self.ctx;
        let region = ctx.ops[function.0].region.expect("a body");
        let mut block = ctx.regions[region.0][0];
        assert_eq!(ctx.blocks[block.0].args.len(), args.len());
        let mut results: Vec<Option<V>> = vec![None; ctx.ops.len()];
        let mut handed: Vec<Vec<V>> = vec![Vec::new(); ctx.blocks.len()];
        handed[block.0] = args;
        for _ in 0..10_000 {
            let mut next = None;
            for id in &ctx.blocks[block.0].ops {
                let op = &ctx.ops[id.0];
                let operands: Vec<V> = op
                    .operands
                    .iter()
                    .map(|v| match v.source {
                        ValueSource::Op(id) => results[id.0].clone().expect("computed"),
                        ValueSource::Arg(b, i) => handed[b.0][i].clone(),
                    })
                    .collect();
                let types: Vec<TypeHandle> =
                    op.operands.iter().map(|v| ctx.type_of(*v)).collect();
                let result_ty = op.result_ty.clone();
                let result = match &op.kind {
                    OpKind::IntConstant { bits } => {
                        V::Bits(cut(width_of(result_ty.as_ref().unwrap()), *bits))
                    }
                    OpKind::F32Constant { bits } => V::Bits(*bits as u128),
                    OpKind::F64Constant { bits } => V::Bits(*bits as u128),
                    OpKind::Undef => Machine::undef(result_ty.as_ref().unwrap()),
                    OpKind::AddressOf { symbol } => V::Bits(self.address_of(symbol)),
                    OpKind::Alloca { elem } => {
                        let size = crabbit_ty_size(elem).ok().expect("a size");
                        V::Bits(self.reserve(size))
                    }
                    OpKind::Load => {
                        self.read(Machine::first_word(&operands[0]), result_ty.as_ref().unwrap())
                    }
                    OpKind::Store => {
                        self.write(Machine::first_word(&operands[0]), &types[1], &operands[1]);
                        V::Undef
                    }
                    OpKind::ByteOffset => V::Bits(cut(
                        64,
                        Machine::first_word(&operands[0]).wrapping_add(if is_signed(&types[1]) {
                            signed(width_of(&types[1]), operands[1].bits()) as u128
                        } else {
                            operands[1].bits()
                        }),
                    )),
                    OpKind::Cast { kind } => V::Bits(Machine::cast(
                        *kind,
                        &types[0],
                        result_ty.as_ref().unwrap(),
                        Machine::first_word(&operands[0]),
                    )),
                    OpKind::Bitcast => {
                        let at = self.reserve(256);
                        self.write(at, &types[0], &operands[0]);
                        self.read(at, result_ty.as_ref().unwrap())
                    }
                    OpKind::ExtractValue { indices } => Machine::part(&operands[0], indices),
                    OpKind::InsertValue { indices } => {
                        Machine::with_part(&operands[0], indices, &operands[1])
                    }
                    OpKind::Return { .. } => {
                        return operands.first().cloned().unwrap_or(V::Undef);
                    }
                    OpKind::Goto => {
                        next = Some(op.successors[0]);
                        V::Undef
                    }
                    OpKind::CondBr { .. } => {
                        let yes = operands[0].bits() != 0;
                        next = Some(op.successors[if yes { 0 } else { 1 }]);
                        V::Undef
                    }
                    OpKind::Unreachable => panic!("reached what is unreachable"),
                    OpKind::Call { callee } | OpKind::LlvmCall { callee, .. } => {
                        self.call(callee, operands)
                    }
                    OpKind::IndirectCall { .. } => {
                        let callee = self.symbol_at(operands[0].bits());
                        self.call(&callee, operands[1..].to_vec())
                    }
                    OpKind::Binary { kind, dialect } => V::Bits(Machine::binary(
                        *kind,
                        &types[0],
                        *dialect == Dialect::Llvm,
                        operands[0].bits(),
                        operands[1].bits(),
                    )),
                    OpKind::Compare { relation, .. } => V::Bits(Machine::compare(
                        *relation,
                        &types[0],
                        operands[0].bits(),
                        operands[1].bits(),
                    )),
                    OpKind::Neg => match &types[0] {
                        TypeHandle::Fp32 | TypeHandle::Fp64 => V::Bits(Machine::float_bits(
                            &types[0],
                            -Machine::float(&types[0], operands[0].bits()),
                        )),
                        other => V::Bits(cut(
                            width_of(other),
                            0u128.wrapping_sub(operands[0].bits()),
                        )),
                    },
                    _ => panic!("no operation of a body"),
                };
                results[id.0] = Some(result);
            }
            block = next.expect("a block ends in a branch");
        }
        panic!("a run without an end")
    }
}

/// A table of types in the making. Each type is deeper than those before it.
struct Types {
    types: Vec<TyInfo>,
}

impl Types {
    fn new() -> Types {
        Types { types: Vec::new() }
    }

    fn put(&mut self, kind: TyKind, size: u64, align: u64) -> TyId {
        let id = TyId(self.types.len());
        self.types.push(TyInfo {
            kind,
            normal: id,
            printed: String::new(),
            full_name: String::new(),
            path: String::new(),
            args: Vec::new(),
            sized: true,
            tail: id,
            needs_drop: false,
            drop_glue: None,
            boxed: None,
            discriminant: id,
            layout: Some(Layout {
                size,
                align,
                order: None,
                offsets: Vec::new(),
                variants: Variants::Single(0),
                variant_offsets: Vec::new(),
            }),
            depth: id.0,
        });
        id
    }

    fn signed_int(&mut self, kind: IntTy, size: u64) -> TyId {
        self.put(TyKind::Int(kind), size, if size > 8 { 16 } else { size })
    }

    fn unsigned_int(&mut self, kind: UintTy, size: u64) -> TyId {
        self.put(TyKind::Uint(kind), size, if size > 8 { 16 } else { size })
    }

    fn unsized_ty(&mut self, kind: TyKind) -> TyId {
        let id = self.put(kind, 0, 1);
        self.types[id.0].sized = false;
        self.types[id.0].layout = None;
        id
    }

    fn done(self) -> TyTable {
        TyTable { types: self.types }
    }
}

fn place(local: usize, ty: TyId) -> Place {
    Place { local, projection: Vec::new(), ty }
}

fn projected(local: usize, projection: Vec<Projection>, ty: TyId) -> Place {
    Place { local, projection, ty }
}

fn copy(local: usize, ty: TyId) -> Operand {
    Operand::Copy(place(local, ty))
}

fn number(ty: TyId, bits: u128, size: u8) -> Operand {
    Operand::Constant(Constant {
        ty,
        is_plain_str: false,
        plain_text: None,
        text: None,
        printed: String::new(),
        source: None,
        value: Some(ConstValue::Scalar(Scalar::Int { bits, size })),
        bits: Some(bits),
        static_item: None,
    })
}

fn constant(ty: TyId, value: ConstValue) -> Operand {
    Operand::Constant(Constant {
        ty,
        is_plain_str: false,
        plain_text: None,
        text: None,
        printed: String::new(),
        source: None,
        value: Some(value),
        bits: None,
        static_item: None,
    })
}

fn assign(to: Place, value: Rvalue) -> Statement {
    Statement::Assign(to, value)
}

fn block(statements: Vec<Statement>, terminator: Terminator) -> BlockData {
    BlockData { statements, terminator }
}

fn body(locals: Vec<TyId>, arg_count: usize, blocks: Vec<BlockData>) -> Body {
    Body { locals, arg_count, spread_arg: None, blocks }
}

fn no_body(unit: TyId) -> Body {
    body(vec![unit], 0, vec![block(vec![], Terminator::Return)])
}

fn owner(name: &str, body: Body) -> Owner {
    Owner {
        path: format!("krate::{}", name),
        is_codegen: true,
        is_generic: false,
        export_name: None,
        no_mangle: false,
        name: name.to_string(),
        mangled: name.to_string(),
        body,
    }
}

fn item(path: &str, instance: Option<usize>) -> FnItem {
    FnItem {
        path: path.to_string(),
        is_local: false,
        is_rust_call: false,
        export_name: None,
        no_mangle: false,
        name: path.to_string(),
        instance,
        pointed: instance,
    }
}

fn instance(kind: InstanceKind, name: &str, inputs: Vec<TyId>, output: TyId, body: Body) -> Instance {
    Instance {
        kind,
        mangled: name.to_string(),
        path: format!("other::{}", name),
        name: name.to_string(),
        args: Vec::new(),
        signature: Signature { inputs, output },
        body,
    }
}

fn program(types: Types) -> Program {
    Program {
        types: types.done(),
        items: Vec::new(),
        instances: Vec::new(),
        allocs: Vec::new(),
        statics: Vec::new(),
        tables: Vec::new(),
        tails: Vec::new(),
        owners: Vec::new(),
        entry: None,
        allocator: vec![
            "shim_alloc".to_string(),
            "shim_dealloc".to_string(),
            "shim_realloc".to_string(),
            "shim_alloc_zeroed".to_string(),
            "shim_no_alloc".to_string(),
        ],
        is_aarch64_linux: false,
        export_all: false,
    }
}

fn imported(program: &Program) -> ImportedCrate {
    assert!(is_well_formed(program));
    import_crate(program)
}

/// Imports a program that is supported throughout.
fn clean(program: &Program) -> ImportedCrate {
    let r = imported(program);
    for report in &r.unsupported {
        panic!("unsupported: {}", report.item);
    }
    for op in &r.ctx.ops {
        if let (OpKind::MirFunc { .. }, Some(region)) = (&op.kind, op.region) {
            for block in &r.ctx.regions[region.0] {
                assert!(is_whole(&r.ctx, *block));
            }
        }
    }
    r
}

/// Whether the last operation of a block ends it, and no other does.
fn is_whole(ctx: &Context, block: BlockId) -> bool {
    let ops = &ctx.blocks[block.0].ops;
    let ends: Vec<bool> = ops
        .iter()
        .map(|op| {
            matches!(
                ctx.ops[op.0].kind,
                OpKind::Return { .. } | OpKind::Goto | OpKind::CondBr { .. } | OpKind::Unreachable
            )
        })
        .collect();
    ends.iter().filter(|end| **end).count() == 1 && ends.last() == Some(&true)
}

fn run(program: &Program, symbol: &str, args: Vec<V>) -> V {
    let r = clean(program);
    let mut machine = Machine::new(&r.ctx, r.module);
    machine.call(symbol, args)
}

/// The linkages of the functions that stand under a symbol.
fn linkages(r: &ImportedCrate, name: &str) -> Vec<Option<Linkage>> {
    let region = r.ctx.ops[r.module.0].region.unwrap();
    let mut found = Vec::new();
    for op in &r.ctx.blocks[r.ctx.regions[region.0][0].0].ops {
        if let OpKind::MirFunc { symbol, linkage, .. } = &r.ctx.ops[op.0].kind {
            if symbol == name {
                found.push(*linkage);
            }
        }
    }
    found
}

fn fn_value(ty: TyId) -> Operand {
    constant(ty, ConstValue::ZeroSized)
}

#[test]
fn checked_addition_returns_the_sum() {
    let mut t = Types::new();
    let int = t.signed_int(IntTy::I32, 4);
    let truth = t.put(TyKind::Bool, 1, 1);
    let pair = t.put(TyKind::Tuple(vec![int, truth]), 8, 4);
    let mut p = program(t);
    p.owners.push(owner(
        "sum",
        body(
            vec![int, int, int, pair],
            2,
            vec![
                block(
                    vec![assign(
                        place(3, pair),
                        Rvalue::BinaryOp(BinOp::AddWithOverflow, copy(1, int), copy(2, int), pair),
                    )],
                    Terminator::Assert(1),
                ),
                block(
                    vec![assign(
                        place(0, int),
                        Rvalue::Use(Operand::Move(projected(
                            3,
                            vec![Projection::Field(0, int)],
                            int,
                        ))),
                    )],
                    Terminator::Return,
                ),
            ],
        ),
    ));
    assert_eq!(run(&p, "sum", vec![V::Bits(40), V::Bits(2)]), V::Bits(42));
    let minus_three = cut(32, (-3i128) as u128);
    assert_eq!(run(&p, "sum", vec![V::Bits(1), V::Bits(minus_three)]), V::Bits(cut(32, (-2i128) as u128)));
}

/// A function that applies an operation with an overflow flag, and returns the
/// flag.
fn overflow_flag(kind: TyKind, size: u64, op: BinOp, a: u128, b: u128) -> (u128, u128) {
    let mut t = Types::new();
    let int = t.put(kind, size, if size > 8 { 16 } else { size });
    let truth = t.put(TyKind::Bool, 1, 1);
    let pair = t.put(TyKind::Tuple(vec![int, truth]), 2 * size, if size > 8 { 16 } else { size });
    let mut p = program(t);
    let whole = |field: usize, ty: TyId| {
        body(
            vec![ty, int, int, pair],
            2,
            vec![block(
                vec![
                    assign(
                        place(3, pair),
                        Rvalue::BinaryOp(op, copy(1, int), copy(2, int), pair),
                    ),
                    assign(
                        place(0, ty),
                        Rvalue::Use(Operand::Copy(projected(
                            3,
                            vec![Projection::Field(field, ty)],
                            ty,
                        ))),
                    ),
                ],
                Terminator::Return,
            )],
        )
    };
    p.owners.push(owner("value", whole(0, int)));
    p.owners.push(owner("flag", whole(1, truth)));
    let args = vec![V::Bits(a), V::Bits(b)];
    (run(&p, "value", args.clone()).bits(), run(&p, "flag", args).bits())
}

#[test]
fn overflow_flags_are_exact() {
    let u8_ty = || TyKind::Uint(UintTy::U8);
    let i8_ty = || TyKind::Int(IntTy::I8);
    assert_eq!(overflow_flag(u8_ty(), 1, BinOp::AddWithOverflow, 250, 5), (255, 0));
    assert_eq!(overflow_flag(u8_ty(), 1, BinOp::AddWithOverflow, 250, 6), (0, 1));
    assert_eq!(overflow_flag(u8_ty(), 1, BinOp::SubWithOverflow, 5, 6), (255, 1));
    assert_eq!(overflow_flag(u8_ty(), 1, BinOp::MulWithOverflow, 16, 16), (0, 1));
    assert_eq!(overflow_flag(u8_ty(), 1, BinOp::MulWithOverflow, 15, 17), (255, 0));
    assert_eq!(overflow_flag(i8_ty(), 1, BinOp::AddWithOverflow, 127, 1), (128, 1));
    assert_eq!(overflow_flag(i8_ty(), 1, BinOp::SubWithOverflow, 128, 1), (127, 1));
    assert_eq!(overflow_flag(i8_ty(), 1, BinOp::MulWithOverflow, 128, 255), (128, 1));
    assert_eq!(overflow_flag(i8_ty(), 1, BinOp::MulWithOverflow, 255, 255), (1, 0));
    let top = 1u128 << 127;
    assert_eq!(
        overflow_flag(TyKind::Int(IntTy::I128), 16, BinOp::MulWithOverflow, top, u128::MAX),
        (top, 1)
    );
    assert_eq!(
        overflow_flag(TyKind::Uint(UintTy::U128), 16, BinOp::MulWithOverflow, 1 << 64, 1 << 64),
        (0, 1)
    );
    assert_eq!(
        overflow_flag(
            TyKind::Uint(UintTy::U64),
            8,
            BinOp::MulWithOverflow,
            0xffff_ffff,
            0x1_0000_0001,
        ),
        (0xffff_ffff_ffff_ffff, 0)
    );
}

/// Runs a function that calls one intrinsic.
fn intrinsic(
    name: &str,
    inputs: Vec<(TyKind, u64)>,
    output: (TyKind, u64),
    args: Vec<u128>,
) -> u128 {
    let mut t = Types::new();
    let r = t.put(output.0, output.1, if output.1 > 8 { 16 } else { output.1 });
    let mut locals = vec![r];
    let mut operands = Vec::new();
    for (kind, size) in inputs {
        let ty = t.put(kind, size, if size > 8 { 16 } else { size });
        operands.push(copy(locals.len(), ty));
        locals.push(ty);
    }
    let called = t.put(TyKind::FnDef(0), 0, 1);
    let count = operands.len();
    let mut p = program(t);
    p.items.push(item(name, Some(0)));
    p.instances.push(instance(
        InstanceKind::Intrinsic,
        name,
        locals[1..].to_vec(),
        r,
        no_body(r),
    ));
    p.owners.push(owner(
        "call_it",
        body(
            locals,
            count,
            vec![
                block(
                    vec![],
                    Terminator::Call {
                        func: fn_value(called),
                        args: operands,
                        destination: place(0, r),
                        target: Some(1),
                    },
                ),
                block(vec![], Terminator::Return),
            ],
        ),
    ));
    run(&p, "call_it", args.into_iter().map(V::Bits).collect()).bits()
}

#[test]
fn bits_are_counted() {
    let u32_ty = || (TyKind::Uint(UintTy::U32), 4);
    let u8_ty = || (TyKind::Uint(UintTy::U8), 1);
    let u64_ty = || (TyKind::Uint(UintTy::U64), 8);
    let u128_ty = || (TyKind::Uint(UintTy::U128), 16);
    assert_eq!(intrinsic("ctpop", vec![u8_ty()], u32_ty(), vec![0xa7]), 5);
    assert_eq!(intrinsic("ctpop", vec![u64_ty()], u32_ty(), vec![u64::MAX as u128]), 64);
    assert_eq!(intrinsic("ctpop", vec![u128_ty()], u32_ty(), vec![u128::MAX >> 3]), 125);
    assert_eq!(intrinsic("cttz", vec![u8_ty()], u32_ty(), vec![0b0101_0000]), 4);
    assert_eq!(intrinsic("cttz", vec![u8_ty()], u32_ty(), vec![0]), 8);
    assert_eq!(intrinsic("cttz", vec![u128_ty()], u32_ty(), vec![1 << 100]), 100);
    assert_eq!(intrinsic("ctlz", vec![u8_ty()], u32_ty(), vec![0b0001_0000]), 3);
    assert_eq!(intrinsic("ctlz", vec![u8_ty()], u32_ty(), vec![0]), 8);
    assert_eq!(intrinsic("ctlz", vec![u64_ty()], u32_ty(), vec![1]), 63);
    assert_eq!(intrinsic("ctlz", vec![u128_ty()], u32_ty(), vec![1 << 60]), 67);
}

#[test]
fn patterns_swapped_reversed_and_rotated_twice_come_back() {
    let u32_ty = || (TyKind::Uint(UintTy::U32), 4);
    let u16_ty = || (TyKind::Uint(UintTy::U16), 2);
    let swapped = intrinsic("bswap", vec![u32_ty()], u32_ty(), vec![0x1234_5678]);
    assert_eq!(swapped, 0x7856_3412);
    assert_eq!(intrinsic("bswap", vec![u32_ty()], u32_ty(), vec![swapped]), 0x1234_5678);
    let reversed = intrinsic("bitreverse", vec![u16_ty()], u16_ty(), vec![0x8001 | 0x0010]);
    assert_eq!(reversed, 0x8801);
    assert_eq!(intrinsic("bitreverse", vec![u16_ty()], u16_ty(), vec![reversed]), 0x8011);
    let up = intrinsic("rotate_left", vec![u32_ty(), u32_ty()], u32_ty(), vec![0x8000_0001, 4]);
    assert_eq!(up, 0x0000_0018);
    assert_eq!(
        intrinsic("rotate_right", vec![u32_ty(), u32_ty()], u32_ty(), vec![up, 4]),
        0x8000_0001
    );
    for (name, places) in [("rotate_left", 32), ("rotate_left", 0), ("rotate_right", 64)] {
        assert_eq!(
            intrinsic(name, vec![u32_ty(), u32_ty()], u32_ty(), vec![0x8000_0001, places]),
            0x8000_0001
        );
    }
}

#[test]
fn saturating_arithmetic_stops_at_the_bounds() {
    let u8_ty = || (TyKind::Uint(UintTy::U8), 1);
    let i8_ty = || (TyKind::Int(IntTy::I8), 1);
    let two = |k: fn() -> (TyKind, u64)| vec![k(), k()];
    fn u() -> (TyKind, u64) {
        (TyKind::Uint(UintTy::U8), 1)
    }
    fn i() -> (TyKind, u64) {
        (TyKind::Int(IntTy::I8), 1)
    }
    assert_eq!(intrinsic("saturating_add", two(u), u8_ty(), vec![250, 10]), 255);
    assert_eq!(intrinsic("saturating_sub", two(u), u8_ty(), vec![5, 6]), 0);
    assert_eq!(intrinsic("saturating_add", two(i), i8_ty(), vec![100, 100]), 127);
    assert_eq!(intrinsic("saturating_sub", two(i), i8_ty(), vec![0x80, 1]), 0x80);
    assert_eq!(intrinsic("saturating_add", two(i), i8_ty(), vec![0xff, 2]), 1);
    assert_eq!(intrinsic("exact_div", two(i), i8_ty(), vec![0xf8, 2]), 0xfc);
}

#[test]
fn switches_pick_the_first_case_that_fits() {
    let mut t = Types::new();
    let byte = t.unsigned_int(UintTy::U8, 1);
    let word = t.unsigned_int(UintTy::U32, 4);
    let mut p = program(t);
    let give = |n: u128| {
        block(vec![assign(place(0, word), Rvalue::Use(number(word, n, 4)))], Terminator::Return)
    };
    p.owners.push(owner(
        "classify",
        body(
            vec![word, byte],
            1,
            vec![
                block(
                    vec![],
                    Terminator::SwitchInt {
                        discr: copy(1, byte),
                        cases: vec![(0, 1), (7, 2), (0, 3)],
                        otherwise: 3,
                    },
                ),
                give(10),
                give(20),
                give(30),
            ],
        ),
    ));
    assert_eq!(run(&p, "classify", vec![V::Bits(0)]), V::Bits(10));
    assert_eq!(run(&p, "classify", vec![V::Bits(7)]), V::Bits(20));
    assert_eq!(run(&p, "classify", vec![V::Bits(8)]), V::Bits(30));
    let r = clean(&p);
    let function = Machine::new(&r.ctx, r.module).function("classify").unwrap();
    let region = r.ctx.ops[function.0].region.unwrap();
    let labels: Vec<&str> =
        r.ctx.regions[region.0].iter().map(|block| r.ctx.blocks[block.0].label.as_str()).collect();
    assert_eq!(labels, vec!["entry", "bb1", "bb2", "bb3", "switch1", "switch2"]);
}

#[test]
fn loops_run_until_their_condition_fails() {
    let mut t = Types::new();
    let word = t.unsigned_int(UintTy::U64, 8);
    let truth = t.put(TyKind::Bool, 1, 1);
    let mut p = program(t);
    p.owners.push(owner(
        "sum_below",
        body(
            vec![word, word, word, truth],
            1,
            vec![
                block(
                    vec![
                        assign(place(0, word), Rvalue::Use(number(word, 0, 8))),
                        assign(place(2, word), Rvalue::Use(number(word, 0, 8))),
                    ],
                    Terminator::Goto(1),
                ),
                block(
                    vec![assign(
                        place(3, truth),
                        Rvalue::BinaryOp(BinOp::Lt, copy(2, word), copy(1, word), truth),
                    )],
                    Terminator::SwitchInt {
                        discr: copy(3, truth),
                        cases: vec![(0, 3)],
                        otherwise: 2,
                    },
                ),
                block(
                    vec![
                        assign(
                            place(0, word),
                            Rvalue::BinaryOp(BinOp::Add, copy(0, word), copy(2, word), word),
                        ),
                        assign(
                            place(2, word),
                            Rvalue::BinaryOp(BinOp::Add, copy(2, word), number(word, 1, 8), word),
                        ),
                        Statement::Nop,
                    ],
                    Terminator::Goto(1),
                ),
                block(vec![], Terminator::Return),
            ],
        ),
    ));
    assert_eq!(run(&p, "sum_below", vec![V::Bits(10)]), V::Bits(45));
    assert_eq!(run(&p, "sum_below", vec![V::Bits(0)]), V::Bits(0));
}

/// Runs a function of one operation.
fn operate(op: BinOp, kind: fn() -> (TyKind, u64), a: u128, b: u128) -> u128 {
    let mut t = Types::new();
    let (kind, size) = kind();
    let ty = t.put(kind, size, size);
    let truth = t.put(TyKind::Bool, 1, 1);
    let result = match op {
        BinOp::Eq | BinOp::Ne | BinOp::Lt | BinOp::Le | BinOp::Gt | BinOp::Ge => truth,
        _ => ty,
    };
    let mut p = program(t);
    p.owners.push(owner(
        "operate",
        body(
            vec![result, ty, ty],
            2,
            vec![block(
                vec![assign(
                    place(0, result),
                    Rvalue::BinaryOp(op, copy(1, ty), copy(2, ty), result),
                )],
                Terminator::Return,
            )],
        ),
    ));
    run(&p, "operate", vec![V::Bits(a), V::Bits(b)]).bits()
}

#[test]
fn operators_follow_the_signs_of_their_types() {
    fn i16_ty() -> (TyKind, u64) {
        (TyKind::Int(IntTy::I16), 2)
    }
    fn u16_ty() -> (TyKind, u64) {
        (TyKind::Uint(UintTy::U16), 2)
    }
    fn f32_ty() -> (TyKind, u64) {
        (TyKind::F32, 4)
    }
    assert_eq!(operate(BinOp::Div, i16_ty, 0xfff9, 2), 0xfffd);
    assert_eq!(operate(BinOp::Rem, i16_ty, 0xfff9, 2), 0xffff);
    assert_eq!(operate(BinOp::Div, u16_ty, 0xfff9, 2), 0x7ffc);
    assert_eq!(operate(BinOp::Shr, i16_ty, 0x8000, 15), 0xffff);
    assert_eq!(operate(BinOp::Shr, u16_ty, 0x8000, 15), 1);
    assert_eq!(operate(BinOp::Lt, i16_ty, 0xffff, 0), 1);
    assert_eq!(operate(BinOp::Lt, u16_ty, 0xffff, 0), 0);
    assert_eq!(operate(BinOp::Mul, u16_ty, 0x100, 0x101), 0x100);
    assert_eq!(operate(BinOp::BitXor, u16_ty, 0xff00, 0x0ff0), 0xf0f0);
    let (a, b) = (1.5f32.to_bits() as u128, 2.25f32.to_bits() as u128);
    assert_eq!(operate(BinOp::Add, f32_ty, a, b), 3.75f32.to_bits() as u128);
    assert_eq!(operate(BinOp::Ge, f32_ty, a, b), 0);
}

#[test]
fn three_way_comparison_gives_minus_one_zero_and_one() {
    let mut t = Types::new();
    let word = t.signed_int(IntTy::I32, 4);
    let tag = t.signed_int(IntTy::I8, 1);
    let named = |name: &str, discriminant: u128| Variant {
        name: name.to_string(),
        fields: 0,
        discriminant,
    };
    let ordering = t.put(
        TyKind::Adt(
            AdtKind::Enum,
            vec![],
            vec![named("Less", u128::MAX), named("Equal", 0), named("Greater", 1)],
        ),
        1,
        1,
    );
    t.types[ordering.0].discriminant = tag;
    t.types[ordering.0].layout = Some(Layout {
        size: 1,
        align: 1,
        order: None,
        offsets: vec![],
        variants: Variants::Multiple {
            offset: 0,
            width: 8,
            signed: true,
            encoding: TagEncoding::Direct,
            tags: vec![Some(255), Some(0), Some(1)],
        },
        variant_offsets: vec![vec![], vec![], vec![]],
    });
    let mut p = program(t);
    p.owners.push(owner(
        "order",
        body(
            vec![tag, word, word, ordering],
            2,
            vec![block(
                vec![
                    assign(
                        place(3, ordering),
                        Rvalue::BinaryOp(BinOp::Cmp, copy(1, word), copy(2, word), ordering),
                    ),
                    assign(place(0, tag), Rvalue::Discriminant(place(3, ordering))),
                ],
                Terminator::Return,
            )],
        ),
    ));
    let minus_one = V::Bits(cut(32, u128::MAX));
    assert_eq!(run(&p, "order", vec![minus_one.clone(), V::Bits(1)]), V::Bits(255));
    assert_eq!(run(&p, "order", vec![V::Bits(4), V::Bits(4)]), V::Bits(0));
    assert_eq!(run(&p, "order", vec![V::Bits(4), minus_one]), V::Bits(1));
}

/// Runs a function that gives the discriminant of an enum with a tag of eight
/// bits and discriminants of the size of a word.
fn wide_discriminant(signed: bool, variant: u32) -> V {
    let mut t = Types::new();
    let word = t.signed_int(IntTy::Isize, 8);
    let named = |name: &str, discriminant: u128| Variant {
        name: name.to_string(),
        fields: 0,
        discriminant,
    };
    let variants = vec![named("A", u128::MAX), named("B", 0)];
    let small = t.put(TyKind::Adt(AdtKind::Enum, vec![], variants), 1, 1);
    t.types[small.0].discriminant = word;
    t.types[small.0].layout = Some(Layout {
        size: 1,
        align: 1,
        order: None,
        offsets: vec![],
        variants: Variants::Multiple {
            offset: 0,
            width: 8,
            signed,
            encoding: TagEncoding::Direct,
            tags: vec![Some(255), Some(0)],
        },
        variant_offsets: vec![vec![], vec![]],
    });
    let mut p = program(t);
    p.owners.push(owner(
        "discriminant",
        body(
            vec![word, small],
            0,
            vec![block(
                vec![
                    Statement::SetDiscriminant(place(1, small), variant),
                    assign(place(0, word), Rvalue::Discriminant(place(1, small))),
                ],
                Terminator::Return,
            )],
        ),
    ));
    run(&p, "discriminant", vec![])
}

#[test]
fn tags_are_widened_with_their_own_sign() {
    assert_eq!(wide_discriminant(true, 0), V::Bits(cut(64, u128::MAX)));
    assert_eq!(wide_discriminant(true, 1), V::Bits(0));
    assert_eq!(wide_discriminant(false, 0), V::Bits(255));
}

#[test]
fn niches_tell_the_variants_apart() {
    let mut t = Types::new();
    let byte = t.unsigned_int(UintTy::U8, 1);
    let word = t.signed_int(IntTy::Isize, 8);
    let pointer = t.put(TyKind::Ref(byte), 8, 8);
    let variants = vec![
        Variant { name: "None".to_string(), fields: 0, discriminant: 0 },
        Variant { name: "Some".to_string(), fields: 1, discriminant: 1 },
    ];
    let option = t.put(TyKind::Adt(AdtKind::Enum, vec![pointer], variants), 8, 8);
    t.types[option.0].discriminant = word;
    t.types[option.0].layout = Some(Layout {
        size: 8,
        align: 8,
        order: None,
        offsets: vec![],
        variants: Variants::Multiple {
            offset: 0,
            width: 64,
            signed: false,
            encoding: TagEncoding::Niche { untagged: 1, first: 0, last: 0, start: 0 },
            tags: vec![Some(0), None],
        },
        variant_offsets: vec![vec![], vec![0]],
    });
    let mut p = program(t);
    p.owners.push(owner(
        "tag",
        body(
            vec![word, option],
            1,
            vec![block(
                vec![assign(place(0, word), Rvalue::Discriminant(place(1, option)))],
                Terminator::Return,
            )],
        ),
    ));
    p.owners.push(owner(
        "none",
        body(
            vec![word, option],
            0,
            vec![block(
                vec![
                    Statement::SetDiscriminant(place(1, option), 0),
                    assign(place(0, word), Rvalue::Discriminant(place(1, option))),
                ],
                Terminator::Return,
            )],
        ),
    ));
    p.owners.push(owner(
        "some",
        body(
            vec![word, pointer, option],
            1,
            vec![block(
                vec![
                    assign(
                        place(2, option),
                        Rvalue::Aggregate(AggregateKind::Adt(option, 1), vec![copy(1, pointer)]),
                    ),
                    assign(place(0, word), Rvalue::Discriminant(place(2, option))),
                ],
                Terminator::Return,
            )],
        ),
    ));
    let r = clean(&p);
    let mut machine = Machine::new(&r.ctx, r.module);
    let function = machine.function("tag").expect("imported");
    let entry = r.ctx.regions[r.ctx.ops[function.0].region.unwrap().0][0];
    assert_eq!(r.ctx.blocks[entry.0].args.len(), 1);
    assert_eq!(machine.call("none", vec![]), V::Bits(0));
    assert_eq!(machine.call("some", vec![V::Bits(48)]), V::Bits(1));
}

#[test]
fn fields_are_written_and_read_back_where_they_lie() {
    let mut t = Types::new();
    let byte = t.unsigned_int(UintTy::U8, 1);
    let word = t.unsigned_int(UintTy::U32, 4);
    let named = vec![Variant { name: "S".to_string(), fields: 2, discriminant: 0 }];
    let record = t.put(TyKind::Adt(AdtKind::Struct, vec![byte, word], named), 8, 4);
    t.types[record.0].layout.as_mut().unwrap().order = Some(vec![1, 0]);
    t.types[record.0].layout.as_mut().unwrap().offsets = vec![4, 0];
    t.types[record.0].full_name = "krate::S".to_string();
    let reference = t.put(TyKind::Ref(record), 8, 8);
    let mut p = program(t);
    p.owners.push(owner(
        "swap_out",
        body(
            vec![word, reference],
            1,
            vec![block(
                vec![
                    assign(
                        place(0, word),
                        Rvalue::Use(Operand::Copy(projected(
                            1,
                            vec![Projection::Deref, Projection::Field(1, word)],
                            word,
                        ))),
                    ),
                    assign(
                        projected(1, vec![Projection::Deref, Projection::Field(0, byte)], byte),
                        Rvalue::Use(number(byte, 9, 1)),
                    ),
                ],
                Terminator::Return,
            )],
        ),
    ));
    let r = clean(&p);
    let mut machine = Machine::new(&r.ctx, r.module);
    let at = machine.reserve(8);
    machine.memory[at as usize..at as usize + 8].copy_from_slice(&[1, 2, 3, 4, 5, 6, 7, 8]);
    assert_eq!(machine.call("swap_out", vec![V::Bits(at)]), V::Bits(0x0403_0201));
    assert_eq!(machine.memory[at as usize..at as usize + 8], [1, 2, 3, 4, 9, 6, 7, 8]);
}

/// A program in which `caller` calls `callee`, both of one argument of a type.
fn calling(kind: TyKind, size: u64, align: u64, local: bool) -> (Program, TyId) {
    let mut t = Types::new();
    let word = t.unsigned_int(UintTy::U64, 8);
    let kind = match kind {
        TyKind::Tuple(fields) => TyKind::Tuple(fields.iter().map(|_| word).collect()),
        other => other,
    };
    let arg = t.put(kind, size, align);
    let called = t.put(TyKind::FnDef(0), 0, 1);
    let mut p = program(t);
    let mut called_item = item("callee", Some(0));
    called_item.is_local = local;
    p.items.push(called_item);
    p.instances.push(instance(
        InstanceKind::Item { has_body: true, is_ctor: false },
        "callee",
        vec![arg],
        arg,
        body(
            vec![arg, arg],
            1,
            vec![block(
                vec![assign(place(0, arg), Rvalue::Use(copy(1, arg)))],
                Terminator::Return,
            )],
        ),
    ));
    p.owners.push(owner(
        "caller",
        body(
            vec![arg, arg],
            1,
            vec![
                block(
                    vec![],
                    Terminator::Call {
                        func: fn_value(called),
                        args: vec![copy(1, arg)],
                        destination: place(0, arg),
                        target: Some(1),
                    },
                ),
                block(vec![], Terminator::Return),
            ],
        ),
    ));
    (p, arg)
}

#[test]
fn values_arrive_as_they_were_passed() {
    let (p, _) = calling(TyKind::Bool, 1, 1, true);
    assert_eq!(run(&p, "caller", vec![V::Bits(1)]), V::Bits(1));
    let word = TyId(0);
    let (p, _) = calling(TyKind::Tuple(vec![word, word]), 16, 8, false);
    let pair = V::Agg(vec![V::Bits(3), V::Bits(4)]);
    assert_eq!(run(&p, "caller", vec![V::Bits(3), V::Bits(4)]), pair);
    let (p, _) = calling(TyKind::Tuple(vec![word, word, word]), 24, 8, false);
    let r = clean(&p);
    let mut machine = Machine::new(&r.ctx, r.module);
    let at = machine.reserve(24);
    for i in 0..3 {
        machine.memory[at as usize + 8 * i] = 5 + i as u8;
    }
    let triple = V::Agg(vec![V::Bits(5), V::Bits(6), V::Bits(7)]);
    assert_eq!(machine.call("caller", vec![V::Bits(at)]), triple);
    let (p, _) = calling(TyKind::Tuple(vec![]), 0, 1, false);
    clean(&p);
}

#[test]
fn a_function_that_is_called_is_imported_once() {
    let (mut p, arg) = calling(TyKind::Uint(UintTy::U8), 1, 1, false);
    let called = TyId(2);
    p.owners.push(owner(
        "again",
        body(
            vec![arg, arg],
            1,
            vec![
                block(
                    vec![],
                    Terminator::Call {
                        func: fn_value(called),
                        args: vec![copy(1, arg)],
                        destination: place(0, arg),
                        target: Some(1),
                    },
                ),
                block(vec![], Terminator::Return),
            ],
        ),
    ));
    let r = clean(&p);
    assert_eq!(linkages(&r, "callee"), vec![Some(Linkage::Internal)]);
    assert_eq!(linkages(&r, "caller"), vec![None]);
    assert_eq!(linkages(&r, "again"), vec![None]);
    p.export_all = true;
    assert_eq!(linkages(&clean(&p), "callee"), vec![None]);
}

#[test]
fn functions_without_a_body_are_declared() {
    let (mut p, _) = calling(TyKind::Uint(UintTy::U32), 4, 4, false);
    p.instances[0].kind = InstanceKind::Item { has_body: false, is_ctor: false };
    let r = clean(&p);
    let mut machine = Machine::new(&r.ctx, r.module);
    machine.reply = V::Bits(77);
    assert_eq!(machine.call("caller", vec![V::Bits(5)]), V::Bits(77));
    assert_eq!(machine.log, vec![("callee".to_string(), vec![V::Bits(5)])]);
    let region = r.ctx.ops[r.module.0].region.unwrap();
    let declared = r.ctx.blocks[r.ctx.regions[region.0][0].0].ops.iter().any(|op| {
        matches!(&r.ctx.ops[op.0].kind, OpKind::LlvmFunc { symbol, .. } if symbol == "callee")
    });
    assert!(declared);
}

#[test]
fn tuples_are_taken_apart_for_closures_and_put_together_again() {
    let mut t = Types::new();
    let a = t.unsigned_int(UintTy::U64, 8);
    let b = t.unsigned_int(UintTy::U16, 2);
    let pair = t.put(TyKind::Tuple(vec![a, b]), 16, 8);
    let unit = t.put(TyKind::Tuple(vec![]), 0, 1);
    let called = t.put(TyKind::FnDef(0), 0, 1);
    let mut p = program(t);
    let mut call_it = item("call_once", Some(0));
    call_it.is_rust_call = true;
    p.items.push(call_it);
    let mut second = body(
        vec![b, unit, pair],
        2,
        vec![block(
            vec![assign(
                place(0, b),
                Rvalue::Use(Operand::Copy(projected(2, vec![Projection::Field(1, b)], b))),
            )],
            Terminator::Return,
        )],
    );
    second.spread_arg = Some(2);
    p.instances.push(instance(
        InstanceKind::Item { has_body: true, is_ctor: false },
        "call_once",
        vec![unit, pair],
        b,
        second,
    ));
    p.owners.push(owner(
        "apply",
        body(
            vec![b, a, b, pair, unit],
            2,
            vec![
                block(
                    vec![assign(
                        place(3, pair),
                        Rvalue::Aggregate(
                            AggregateKind::Tuple(pair),
                            vec![copy(1, a), copy(2, b)],
                        ),
                    )],
                    Terminator::Call {
                        func: fn_value(called),
                        args: vec![copy(4, unit), copy(3, pair)],
                        destination: place(0, b),
                        target: Some(1),
                    },
                ),
                block(vec![], Terminator::Return),
            ],
        ),
    ));
    assert_eq!(run(&p, "apply", vec![V::Bits(1), V::Bits(2)]), V::Bits(2));
}

#[test]
fn tuples_are_laid_out_in_the_order_of_their_layout() {
    let mut t = Types::new();
    let byte = t.unsigned_int(UintTy::U8, 1);
    let word = t.unsigned_int(UintTy::U64, 8);
    let pair = t.put(TyKind::Tuple(vec![byte, word]), 16, 8);
    t.types[pair.0].layout.as_mut().unwrap().order = Some(vec![1, 0]);
    t.types[pair.0].layout.as_mut().unwrap().offsets = vec![8, 0];
    let reference = t.put(TyKind::Ref(pair), 8, 8);
    let mut p = program(t);
    let made = assign(
        place(3, pair),
        Rvalue::Aggregate(AggregateKind::Tuple(pair), vec![copy(1, byte), copy(2, word)]),
    );
    p.owners.push(owner(
        "second",
        body(
            vec![word, byte, word, pair],
            2,
            vec![block(
                vec![
                    made,
                    assign(
                        place(0, word),
                        Rvalue::Use(Operand::Copy(projected(
                            3,
                            vec![Projection::Field(1, word)],
                            word,
                        ))),
                    ),
                ],
                Terminator::Return,
            )],
        ),
    ));
    p.owners.push(owner(
        "first",
        body(
            vec![byte, byte, word, reference],
            3,
            vec![block(
                vec![
                    assign(
                        projected(3, vec![Projection::Deref], pair),
                        Rvalue::Aggregate(
                            AggregateKind::Tuple(pair),
                            vec![copy(1, byte), copy(2, word)],
                        ),
                    ),
                    assign(
                        place(0, byte),
                        Rvalue::Use(Operand::Copy(projected(
                            3,
                            vec![Projection::Deref, Projection::Field(0, byte)],
                            byte,
                        ))),
                    ),
                ],
                Terminator::Return,
            )],
        ),
    ));
    let r = clean(&p);
    let mut machine = Machine::new(&r.ctx, r.module);
    assert_eq!(machine.call("second", vec![V::Bits(7), V::Bits(0x1234)]), V::Bits(0x1234));
    let at = machine.reserve(16);
    let args = vec![V::Bits(7), V::Bits(0x1234), V::Bits(at)];
    assert_eq!(machine.call("first", args), V::Bits(7));
    assert_eq!(machine.memory[at as usize..at as usize + 2], [0x34, 0x12]);
    assert_eq!(machine.memory[at as usize + 8], 7);
}

#[test]
fn a_function_whose_address_stands_in_its_own_memory_stays_visible() {
    let (mut p, _) = calling(TyKind::Uint(UintTy::U64), 8, 8, false);
    let word = TyId(1);
    let pointer = TyId(p.types.types.len());
    let mut t = Types { types: std::mem::take(&mut p.types.types) };
    assert_eq!(t.put(TyKind::RawPtr(word), 8, 8), pointer);
    p.types = t.done();
    p.allocs.push(Alloc::Memory(Memory {
        name: "holder".to_string(),
        bytes: vec![0; 8],
        init: vec![true; 8],
        align: 8,
        mutable: false,
        pointers: vec![Pointer { offset: 0, target: 1 }],
    }));
    p.allocs.push(Alloc::Function(0));
    p.instances[0].body.locals.push(pointer);
    p.instances[0].body.blocks[0].statements.push(assign(
        place(2, pointer),
        Rvalue::Use(constant(
            pointer,
            ConstValue::Scalar(Scalar::Ptr { alloc: 0, offset: 0 }),
        )),
    ));
    let r = clean(&p);
    assert_eq!(linkages(&r, "callee"), vec![Some(Linkage::WeakOdr)]);
    assert_eq!(linkages(&r, "caller"), vec![None]);
}

#[test]
fn function_pointers_are_called_through_their_symbol() {
    let mut t = Types::new();
    let word = t.unsigned_int(UintTy::U32, 4);
    let called = t.put(TyKind::FnDef(0), 0, 1);
    let pointer = t.put(TyKind::FnPtr, 8, 8);
    let mut p = program(t);
    p.items.push(item("plus_one", Some(0)));
    p.instances.push(instance(
        InstanceKind::Item { has_body: true, is_ctor: false },
        "plus_one",
        vec![word],
        word,
        body(
            vec![word, word],
            1,
            vec![block(
                vec![assign(
                    place(0, word),
                    Rvalue::BinaryOp(BinOp::AddUnchecked, copy(1, word), number(word, 1, 4), word),
                )],
                Terminator::Return,
            )],
        ),
    ));
    p.owners.push(owner(
        "through",
        body(
            vec![word, word, pointer],
            1,
            vec![
                block(
                    vec![assign(
                        place(2, pointer),
                        Rvalue::Cast(CastKind::ReifyFnPointer, fn_value(called), pointer),
                    )],
                    Terminator::Call {
                        func: copy(2, pointer),
                        args: vec![copy(1, word)],
                        destination: place(0, word),
                        target: Some(1),
                    },
                ),
                block(vec![], Terminator::Return),
            ],
        ),
    ));
    assert_eq!(run(&p, "through", vec![V::Bits(41)]), V::Bits(42));
    p.instances[0].kind = InstanceKind::Item { has_body: false, is_ctor: false };
    let r = clean(&p);
    let mut machine = Machine::new(&r.ctx, r.module);
    machine.reply = V::Bits(9);
    assert_eq!(machine.call("through", vec![V::Bits(41)]), V::Bits(9));
    assert_eq!(machine.log, vec![("plus_one".to_string(), vec![V::Bits(41)])]);
    assert!(machine.function("plus_one__crabbit_fnptr_thunk").is_some());
}

#[test]
fn arrays_become_slices_with_their_length() {
    let mut t = Types::new();
    let word = t.unsigned_int(UintTy::U32, 4);
    let size = t.unsigned_int(UintTy::Usize, 8);
    let array = t.put(TyKind::Array(word, Some(3)), 12, 4);
    let slice = t.unsized_ty(TyKind::Slice(word));
    let array_ref = t.put(TyKind::Ref(array), 8, 8);
    let slice_ref = t.put(TyKind::Ref(slice), 16, 8);
    let mut p = program(t);
    p.tails.push(Tails { source: array, target: slice, source_tail: array, target_tail: slice });
    let unsize = assign(
        place(2, slice_ref),
        Rvalue::Cast(CastKind::Unsize, copy(1, array_ref), slice_ref),
    );
    p.owners.push(owner(
        "length",
        body(
            vec![size, array_ref, slice_ref],
            1,
            vec![block(
                vec![
                    unsize,
                    assign(
                        place(0, size),
                        Rvalue::UnaryOp(UnOp::PtrMetadata, copy(2, slice_ref)),
                    ),
                ],
                Terminator::Return,
            )],
        ),
    ));
    let read = |elem: Projection| {
        body(
            vec![word, array_ref, slice_ref, size],
            1,
            vec![block(
                vec![
                    assign(
                        place(2, slice_ref),
                        Rvalue::Cast(CastKind::Unsize, copy(1, array_ref), slice_ref),
                    ),
                    assign(place(3, size), Rvalue::Use(number(size, 1, 8))),
                    assign(
                        place(0, word),
                        Rvalue::Use(Operand::Copy(projected(
                            2,
                            vec![Projection::Deref, elem],
                            word,
                        ))),
                    ),
                ],
                Terminator::Return,
            )],
        )
    };
    p.owners.push(owner("at", read(Projection::Index(3))));
    p.owners.push(owner(
        "first",
        read(Projection::ConstantIndex { offset: 0, min_length: 1, from_end: false }),
    ));
    p.owners.push(owner(
        "last",
        read(Projection::ConstantIndex { offset: 1, min_length: 3, from_end: true }),
    ));
    let r = clean(&p);
    let mut machine = Machine::new(&r.ctx, r.module);
    let at = machine.reserve(12);
    for i in 0..3 {
        machine.memory[at as usize + 4 * i] = 10 + i as u8;
    }
    assert_eq!(machine.call("length", vec![V::Bits(at)]), V::Bits(3));
    assert_eq!(machine.call("at", vec![V::Bits(at)]), V::Bits(11));
    assert_eq!(machine.call("first", vec![V::Bits(at)]), V::Bits(10));
    assert_eq!(machine.call("last", vec![V::Bits(at)]), V::Bits(12));
}

#[test]
fn methods_of_objects_are_found_in_their_tables() {
    let mut t = Types::new();
    let word = t.unsigned_int(UintTy::U32, 4);
    let object = t.unsized_ty(TyKind::Dynamic(Some(0)));
    let word_ref = t.put(TyKind::Ref(word), 8, 8);
    let object_ref = t.put(TyKind::Ref(object), 16, 8);
    let method = t.put(TyKind::FnDef(0), 0, 1);
    let mut p = program(t);
    p.items.push(item("Trait::method", Some(0)));
    p.instances.push(instance(
        InstanceKind::Virtual(3),
        "virtual_method",
        vec![object_ref],
        word,
        no_body(word),
    ));
    p.instances.push(instance(
        InstanceKind::Item { has_body: true, is_ctor: false },
        "method_of_u32",
        vec![word_ref],
        word,
        body(
            vec![word, word_ref],
            1,
            vec![block(
                vec![assign(
                    place(0, word),
                    Rvalue::Use(Operand::Copy(projected(1, vec![Projection::Deref], word))),
                )],
                Terminator::Return,
            )],
        ),
    ));
    let mut bytes = vec![0u8; 32];
    bytes[8] = 4;
    bytes[16] = 4;
    p.allocs.push(Alloc::Memory(Memory {
        name: "table".to_string(),
        init: vec![true; 32],
        bytes,
        align: 8,
        mutable: false,
        pointers: vec![Pointer { offset: 24, target: 1 }],
    }));
    p.allocs.push(Alloc::Function(1));
    p.tables.push(TableFor { concrete: word, principal: Some(0), alloc: 0 });
    p.tails.push(Tails { source: word, target: object, source_tail: word, target_tail: object });
    p.owners.push(owner(
        "dispatch",
        body(
            vec![word, word_ref, object_ref],
            1,
            vec![
                block(
                    vec![assign(
                        place(2, object_ref),
                        Rvalue::Cast(CastKind::Unsize, copy(1, word_ref), object_ref),
                    )],
                    Terminator::Call {
                        func: fn_value(method),
                        args: vec![copy(2, object_ref)],
                        destination: place(0, word),
                        target: Some(1),
                    },
                ),
                block(vec![], Terminator::Return),
            ],
        ),
    ));
    let r = clean(&p);
    let mut machine = Machine::new(&r.ctx, r.module);
    let at = machine.reserve(4);
    machine.memory[at as usize] = 21;
    assert_eq!(machine.call("dispatch", vec![V::Bits(at)]), V::Bits(21));
    assert_eq!(linkages(&r, "method_of_u32"), vec![Some(Linkage::WeakOdr)]);
    p.instances[1].kind = InstanceKind::Item { has_body: false, is_ctor: false };
    let r = clean(&p);
    assert_eq!(
        linkages(&r, "method_of_u32__crabbit_fnptr_thunk"),
        vec![Some(Linkage::External)]
    );
}

#[test]
fn dropping_calls_the_glue_on_the_address() {
    let mut t = Types::new();
    let word = t.unsigned_int(UintTy::U32, 4);
    let unit = t.put(TyKind::Tuple(vec![]), 0, 1);
    let named = vec![Variant { name: "D".to_string(), fields: 1, discriminant: 0 }];
    let droppable = t.put(TyKind::Adt(AdtKind::Struct, vec![word], named), 4, 4);
    t.types[droppable.0].needs_drop = true;
    t.types[droppable.0].drop_glue = Some(0);
    t.types[droppable.0].full_name = "krate::D".to_string();
    let pointer = t.put(TyKind::RawPtr(droppable), 8, 8);
    let mut p = program(t);
    p.instances.push(instance(
        InstanceKind::DropGlue(true),
        "drop_d",
        vec![pointer],
        unit,
        body(
            vec![unit, pointer],
            1,
            vec![block(
                vec![assign(
                    projected(1, vec![Projection::Deref, Projection::Field(0, word)], word),
                    Rvalue::Use(number(word, 99, 4)),
                )],
                Terminator::Return,
            )],
        ),
    ));
    p.owners.push(owner(
        "drop_it",
        body(
            vec![word, word, droppable],
            1,
            vec![
                block(
                    vec![assign(
                        place(2, droppable),
                        Rvalue::Aggregate(AggregateKind::Adt(droppable, 0), vec![copy(1, word)]),
                    )],
                    Terminator::Drop { place: place(2, droppable), target: 1 },
                ),
                block(
                    vec![assign(
                        place(0, word),
                        Rvalue::Use(Operand::Copy(projected(
                            2,
                            vec![Projection::Field(0, word)],
                            word,
                        ))),
                    )],
                    Terminator::Return,
                ),
            ],
        ),
    ));
    assert_eq!(run(&p, "drop_it", vec![V::Bits(5)]), V::Bits(99));
    p.types.types[droppable.0].needs_drop = false;
    assert_eq!(run(&p, "drop_it", vec![V::Bits(5)]), V::Bits(5));
}

#[test]
fn memory_that_points_to_itself_is_laid_out_once() {
    let mut t = Types::new();
    let word = t.unsigned_int(UintTy::U64, 8);
    let pointer = t.put(TyKind::RawPtr(word), 8, 8);
    let mut p = program(t);
    let knot = |name: &str, target: usize| {
        Alloc::Memory(Memory {
            name: name.to_string(),
            bytes: vec![8, 0, 0, 0, 0, 0, 0, 0, 42, 0, 0, 0, 0, 0, 0, 0],
            init: vec![true; 16],
            align: 8,
            mutable: false,
            pointers: vec![Pointer { offset: 0, target }],
        })
    };
    p.allocs.push(knot("left", 1));
    p.allocs.push(knot("right", 0));
    p.owners.push(owner(
        "follow",
        body(
            vec![word, pointer],
            0,
            vec![block(
                vec![
                    assign(
                        place(1, pointer),
                        Rvalue::Use(constant(
                            pointer,
                            ConstValue::Scalar(Scalar::Ptr { alloc: 0, offset: 8 }),
                        )),
                    ),
                    assign(
                        place(0, word),
                        Rvalue::Use(Operand::Copy(projected(1, vec![Projection::Deref], word))),
                    ),
                ],
                Terminator::Return,
            )],
        ),
    ));
    let r = clean(&p);
    let mut machine = Machine::new(&r.ctx, r.module);
    assert_eq!(machine.call("follow", vec![]), V::Bits(42));
    let region = r.ctx.ops[r.module.0].region.unwrap();
    let mut relocated = 0;
    for op in &r.ctx.blocks[r.ctx.regions[region.0][0].0].ops {
        if let OpKind::Global { init: GlobalInit::Data { relocs, align, mutable, .. }, .. } =
            &r.ctx.ops[op.0].kind
        {
            assert_eq!((relocs.len(), relocs[0].offset, relocs[0].addend), (1, 0, 8));
            assert_eq!((*align, *mutable), (8, false));
            relocated += 1;
        }
    }
    assert_eq!(relocated, 2);
}

#[test]
fn statics_are_defined_and_others_declared() {
    let mut t = Types::new();
    let word = t.unsigned_int(UintTy::U32, 4);
    let pointer = t.put(TyKind::RawPtr(word), 8, 8);
    let mut p = program(t);
    p.statics.push(Static {
        mangled: "COUNTER".to_string(),
        is_local: true,
        initializer: Some(Memory {
            name: "COUNTER".to_string(),
            bytes: vec![7, 0, 0, 0],
            init: vec![true; 4],
            align: 4,
            mutable: true,
            pointers: vec![],
        }),
        link_section: Some(".counters".to_string()),
    });
    p.statics.push(Static {
        mangled: "ELSEWHERE".to_string(),
        is_local: false,
        initializer: None,
        link_section: None,
    });
    p.allocs.push(Alloc::Static(0));
    p.allocs.push(Alloc::Static(1));
    let read = |alloc: usize| {
        body(
            vec![word, pointer],
            0,
            vec![block(
                vec![
                    assign(
                        place(1, pointer),
                        Rvalue::Use(constant(
                            pointer,
                            ConstValue::Scalar(Scalar::Ptr { alloc, offset: 0 }),
                        )),
                    ),
                    assign(
                        place(0, word),
                        Rvalue::Use(Operand::Copy(projected(1, vec![Projection::Deref], word))),
                    ),
                ],
                Terminator::Return,
            )],
        )
    };
    p.owners.push(owner("here", read(0)));
    p.owners.push(owner("there", read(1)));
    p.owners.push(owner(
        "mine",
        body(
            vec![pointer],
            0,
            vec![block(
                vec![assign(place(0, pointer), Rvalue::ThreadLocalRef(1, pointer))],
                Terminator::Return,
            )],
        ),
    ));
    let r = clean(&p);
    let mut machine = Machine::new(&r.ctx, r.module);
    assert_eq!(machine.call("here", vec![]), V::Bits(7));
    assert_eq!(machine.call("there", vec![]), V::Bits(0));
    let region = r.ctx.ops[r.module.0].region.unwrap();
    let mut seen = 0;
    for op in &r.ctx.blocks[r.ctx.regions[region.0][0].0].ops {
        if let OpKind::Global { symbol, section, init, .. } = &r.ctx.ops[op.0].kind {
            if symbol == "COUNTER" {
                assert_eq!(section.as_deref(), Some(".counters"));
                assert!(matches!(init, GlobalInit::Data { mutable: true, .. }));
                seen += 1;
            }
            if symbol == "ELSEWHERE" {
                assert_eq!(section.as_deref(), None);
                assert!(matches!(init, GlobalInit::Declared));
                seen += 1;
            }
        }
    }
    assert_eq!(seen, 2);
}

#[test]
fn texts_become_bytes_and_a_length() {
    let mut t = Types::new();
    let text = t.unsized_ty(TyKind::Str);
    let size = t.unsigned_int(UintTy::Usize, 8);
    let text_ref = t.put(TyKind::Ref(text), 16, 8);
    let mut p = program(t);
    let literal = Operand::Constant(Constant {
        ty: text_ref,
        is_plain_str: true,
        plain_text: Some("hi\n".to_string()),
        text: None,
        printed: "const \"hi\\n\"".to_string(),
        source: None,
        value: None,
        bits: None,
        static_item: None,
    });
    p.owners.push(owner(
        "greeting",
        body(
            vec![text_ref],
            0,
            vec![block(
                vec![assign(place(0, text_ref), Rvalue::Use(literal))],
                Terminator::Return,
            )],
        ),
    ));
    let r = clean(&p);
    let mut machine = Machine::new(&r.ctx, r.module);
    match machine.call("greeting", vec![]) {
        V::Agg(parts) => {
            let at = parts[0].bits() as usize;
            assert_eq!(parts[1].bits(), 3);
            assert_eq!(machine.memory[at..at + 3], *b"hi\n");
        }
        other => panic!("no text: {:?}", other),
    }
    assert!(machine.symbols.iter().any(|(name, _)| name == "L_crabbit_bytes_68690a00"));
    assert_eq!(size, TyId(1));
}

#[test]
fn wide_division_is_left_to_the_runtime() {
    let mut t = Types::new();
    let wide = t.signed_int(IntTy::I128, 16);
    let mut p = program(t);
    p.owners.push(owner(
        "divide",
        body(
            vec![wide, wide, wide],
            2,
            vec![block(
                vec![assign(
                    place(0, wide),
                    Rvalue::BinaryOp(BinOp::Div, copy(1, wide), copy(2, wide), wide),
                )],
                Terminator::Return,
            )],
        ),
    ));
    let r = clean(&p);
    let mut machine = Machine::new(&r.ctx, r.module);
    machine.reply = V::Bits(3);
    assert_eq!(machine.call("divide", vec![V::Bits(7), V::Bits(2)]), V::Bits(3));
    assert_eq!(machine.log.len(), 1);
    assert_eq!(machine.log[0].0, "__divti3");
}

#[test]
fn casts_keep_values_and_cut_patterns() {
    let cast = |from: (TyKind, u64), to: (TyKind, u64), bits: u128| {
        let mut t = Types::new();
        let source = t.put(from.0, from.1, from.1);
        let target = t.put(to.0, to.1, to.1);
        let mut p = program(t);
        p.owners.push(owner(
            "cast",
            body(
                vec![target, source],
                1,
                vec![block(
                    vec![assign(
                        place(0, target),
                        Rvalue::Cast(CastKind::Other, copy(1, source), target),
                    )],
                    Terminator::Return,
                )],
            ),
        ));
        run(&p, "cast", vec![V::Bits(bits)]).bits()
    };
    let i8_ty = || (TyKind::Int(IntTy::I8), 1);
    let u8_ty = || (TyKind::Uint(UintTy::U8), 1);
    let i32_ty = || (TyKind::Int(IntTy::I32), 4);
    let u64_ty = || (TyKind::Uint(UintTy::U64), 8);
    assert_eq!(cast(i8_ty(), i32_ty(), 0x80), 0xffff_ff80);
    assert_eq!(cast(u8_ty(), i32_ty(), 0x80), 0x80);
    assert_eq!(cast(u64_ty(), u8_ty(), 0x1_02ff), 0xff);
    assert_eq!(cast((TyKind::Bool, 1), i32_ty(), 1), 1);
    assert_eq!(cast((TyKind::Char, 4), u64_ty(), 0x1f600), 0x1f600);
    assert_eq!(cast(i32_ty(), (TyKind::F64, 8), 3), 3.0f64.to_bits() as u128);
    assert_eq!(
        cast((TyKind::F64, 8), (TyKind::F32, 4), 0.5f64.to_bits() as u128),
        0.5f32.to_bits() as u128
    );
}

#[test]
fn transmuting_keeps_the_bytes() {
    let mut t = Types::new();
    let byte = t.unsigned_int(UintTy::U8, 1);
    let word = t.unsigned_int(UintTy::U32, 4);
    let bytes = t.put(TyKind::Array(byte, Some(4)), 4, 1);
    let mut p = program(t);
    p.owners.push(owner(
        "as_word",
        body(
            vec![word, byte, bytes],
            1,
            vec![block(
                vec![
                    assign(place(2, bytes), Rvalue::Repeat(copy(1, byte), Some(4))),
                    assign(
                        place(0, word),
                        Rvalue::Cast(CastKind::Transmute, copy(2, bytes), word),
                    ),
                ],
                Terminator::Return,
            )],
        ),
    ));
    assert_eq!(run(&p, "as_word", vec![V::Bits(0xab)]), V::Bits(0xabab_abab));
}

#[test]
fn negation_and_complement() {
    let unary = |kind: TyKind, size: u64, op: UnOp, bits: u128| {
        let mut t = Types::new();
        let ty = t.put(kind, size, size);
        let mut p = program(t);
        p.owners.push(owner(
            "unary",
            body(
                vec![ty, ty],
                1,
                vec![block(
                    vec![assign(place(0, ty), Rvalue::UnaryOp(op, copy(1, ty)))],
                    Terminator::Return,
                )],
            ),
        ));
        run(&p, "unary", vec![V::Bits(bits)]).bits()
    };
    assert_eq!(unary(TyKind::Int(IntTy::I16), 2, UnOp::Neg, 5), 0xfffb);
    assert_eq!(unary(TyKind::Uint(UintTy::U16), 2, UnOp::Not, 0x00f0), 0xff0f);
    assert_eq!(unary(TyKind::Bool, 1, UnOp::Not, 1), 0);
    assert_eq!(
        unary(TyKind::F64, 8, UnOp::Neg, 2.5f64.to_bits() as u128),
        (-2.5f64).to_bits() as u128
    );
}

#[test]
fn kernels_stand_in_a_module_of_their_own() {
    let mut t = Types::new();
    let unit = t.put(TyKind::Tuple(vec![]), 0, 1);
    let called = t.put(TyKind::FnDef(0), 0, 1);
    let mut p = program(t);
    let mut kernel = owner("add_all", no_body(unit));
    kernel.export_name = Some("__crabbit_kernel_add_all".to_string());
    p.owners.push(kernel);
    p.owners.push(owner("host", no_body(unit)));
    let r = clean(&p);
    assert_eq!(r.kernel_count, 1);
    assert!(Machine::new(&r.ctx, r.kernel_module).function("add_all").is_some());
    let host = Machine::new(&r.ctx, r.module);
    assert!(host.function("add_all").is_none());
    assert!(host.function("host").is_some());

    let mut exported = item("krate::add_all", None);
    exported.export_name = Some("__crabbit_kernel_add_all".to_string());
    p.items.push(exported);
    p.owners.push(owner(
        "launch",
        body(
            vec![unit],
            0,
            vec![
                block(
                    vec![],
                    Terminator::Call {
                        func: fn_value(called),
                        args: vec![],
                        destination: place(0, unit),
                        target: Some(1),
                    },
                ),
                block(vec![], Terminator::Return),
            ],
        ),
    ));
    let r = imported(&p);
    assert_eq!(r.unsupported.len(), 1);
    assert!(matches!(r.unsupported[0].reason, Failure::KernelCall));
}

#[test]
fn the_entry_point_calls_the_main_function() {
    let mut t = Types::new();
    let unit = t.put(TyKind::Tuple(vec![]), 0, 1);
    let mut p = program(t);
    p.owners.push(owner("rust_main", no_body(unit)));
    p.entry = Some(0);
    let r = clean(&p);
    let mut machine = Machine::new(&r.ctx, r.module);
    let function = machine.function("main").expect("an entry point");
    let region = r.ctx.ops[function.0].region.unwrap();
    let entry = r.ctx.regions[region.0][0];
    let args = r.ctx.blocks[entry.0].args.len();
    assert_eq!(machine.call("main", vec![V::Bits(0); args]), V::Bits(0));
    p.owners[0].export_name = Some("__crabbit_kernel_rust_main".to_string());
    let r = imported(&p);
    assert!(r.unsupported.iter().any(|e| matches!(e.reason, Failure::KernelEntry)));
}

#[test]
fn the_allocator_stands_on_the_c_library() {
    let mut t = Types::new();
    let unit = t.put(TyKind::Tuple(vec![]), 0, 1);
    let mut p = program(t);
    p.owners.push(owner("rust_main", no_body(unit)));
    p.entry = Some(0);
    let r = clean(&p);
    let mut machine = Machine::new(&r.ctx, r.module);
    machine.reply = V::Bits(4096);
    assert_eq!(machine.call("shim_alloc", vec![V::Bits(24), V::Bits(8)]), V::Bits(4096));
    assert_eq!(machine.log, vec![("malloc".to_string(), vec![V::Bits(24)])]);
    machine.log.clear();
    machine.call("shim_dealloc", vec![V::Bits(4096), V::Bits(24), V::Bits(8)]);
    assert_eq!(machine.log, vec![("free".to_string(), vec![V::Bits(4096)])]);
    machine.log.clear();
    machine.call("shim_realloc", vec![V::Bits(4096), V::Bits(24), V::Bits(8), V::Bits(48)]);
    assert_eq!(
        machine.log,
        vec![("realloc".to_string(), vec![V::Bits(4096), V::Bits(48)])]
    );
    machine.log.clear();
    machine.call("shim_alloc_zeroed", vec![V::Bits(24), V::Bits(8)]);
    assert_eq!(machine.log, vec![("calloc".to_string(), vec![V::Bits(1), V::Bits(24)])]);
}

#[test]
fn what_cannot_be_imported_on_its_own_is_passed_over() {
    let mut t = Types::new();
    let unit = t.put(TyKind::Tuple(vec![]), 0, 1);
    let mut p = program(t);
    p.owners.push(owner("plain", no_body(unit)));
    let mut generic = owner("generic", no_body(unit));
    generic.is_generic = true;
    p.owners.push(generic);
    let mut constant_fn = owner("constant_fn", no_body(unit));
    constant_fn.is_codegen = false;
    p.owners.push(constant_fn);
    let r = clean(&p);
    let machine = Machine::new(&r.ctx, r.module);
    assert!(machine.function("plain").is_some());
    assert!(machine.function("generic").is_none());
    assert!(machine.function("constant_fn").is_none());
}

#[test]
fn programs_that_do_not_hang_together_are_told_apart() {
    let mut t = Types::new();
    let unit = t.put(TyKind::Tuple(vec![]), 0, 1);
    let mut p = program(t);
    p.owners.push(owner("plain", no_body(unit)));
    assert!(is_well_formed(&p));
    p.owners[0].body.locals.push(TyId(9));
    assert!(!is_well_formed(&p));
    p.owners[0].body.locals.pop();
    p.entry = Some(1);
    assert!(!is_well_formed(&p));
    p.entry = None;
    p.allocator.pop();
    assert!(!is_well_formed(&p));
    p.allocator.push("shim".to_string());
    p.types.types[0].kind = TyKind::Array(TyId(0), Some(1));
    assert!(!is_well_formed(&p));
    p.types.types[0].kind = TyKind::Tuple(vec![]);
    p.types.types[0].layout.as_mut().unwrap().order = Some(vec![0, 0]);
    assert!(!is_well_formed(&p));
}

/// What is reported of a function of the given types and body.
fn refusal(t: Types, body: Body) -> Failure {
    let mut p = program(t);
    p.owners.push(owner("refused", body));
    let mut r = imported(&p);
    assert_eq!(r.unsupported.len(), 1);
    assert_eq!(r.unsupported[0].item, "krate::refused");
    r.unsupported.remove(0).reason
}

fn refused_statement(t: Types, locals: Vec<TyId>, statement: Statement) -> Failure {
    refusal(t, body(locals, 0, vec![block(vec![statement], Terminator::Return)]))
}

#[test]
fn statements_are_refused_with_the_reason() {
    let word = TyId(0);
    let unit = TyId(1);
    let real = TyId(2);
    let other = TyId(3);
    let wide = TyId(4);
    let types = || {
        let mut t = Types::new();
        t.unsigned_int(UintTy::U32, 4);
        t.put(TyKind::Tuple(vec![]), 0, 1);
        t.put(TyKind::F32, 4, 4);
        t.put(TyKind::Other, 4, 4);
        t.unsigned_int(UintTy::U128, 16);
        t
    };
    let one = |statement: Statement| refused_statement(types(), vec![word, word, real], statement);
    let value = |rvalue: Rvalue| one(assign(place(0, word), rvalue));
    let read = |place: Place| value(Rvalue::Use(Operand::Copy(place)));
    assert!(matches!(one(Statement::Other), Failure::Statement));
    assert!(matches!(value(Rvalue::Other), Failure::Rvalue));
    assert!(matches!(read(place(7, word)), Failure::UnknownLocal(7)));
    assert!(matches!(
        read(projected(1, vec![Projection::Deref], word)),
        Failure::Deref(PlaceTy::Ty(TyId(0)))
    ));
    assert!(matches!(
        read(projected(1, vec![Projection::Index(1)], word)),
        Failure::Index(PlaceTy::Ty(TyId(0)))
    ));
    assert!(matches!(
        value(Rvalue::UnaryOp(UnOp::Not, copy(2, real))),
        Failure::NonIntegerNot
    ));
    assert!(matches!(
        value(Rvalue::UnaryOp(UnOp::PtrMetadata, copy(1, word))),
        Failure::Metadata(_)
    ));
    assert!(matches!(
        value(Rvalue::Aggregate(AggregateKind::Other, vec![])),
        Failure::AggregateKind
    ));
    assert!(matches!(
        value(Rvalue::Aggregate(AggregateKind::RawPtr(word, word), vec![copy(1, word)])),
        Failure::RawPointerOperands(1)
    ));
    assert!(matches!(
        refused_statement(types(), vec![other], Statement::Nop),
        Failure::Type(TyId(3))
    ));
    assert!(matches!(
        value(Rvalue::BinaryOp(BinOp::AddWithOverflow, copy(2, real), copy(2, real), word)),
        Failure::NonIntegerOverflowOp(BinOp::AddWithOverflow)
    ));
    assert_eq!((unit, wide), (TyId(1), TyId(4)));
}

#[test]
fn ends_of_blocks_are_refused_with_the_reason() {
    let types = || {
        let mut t = Types::new();
        t.unsigned_int(UintTy::U32, 4);
        t
    };
    let word = TyId(0);
    let end = |terminator: Terminator| {
        refusal(types(), body(vec![word], 0, vec![block(vec![], terminator)]))
    };
    assert!(matches!(end(Terminator::Other), Failure::Terminator));
    assert!(matches!(end(Terminator::Goto(5)), Failure::MissingBlock(5)));
}

#[test]
fn format_arguments_of_a_text_need_somewhere_to_go() {
    let mut t = Types::new();
    let word = t.unsigned_int(UintTy::U32, 4);
    let called = t.put(TyKind::FnDef(0), 0, 1);
    let mut p = program(t);
    p.items.push(item("core::fmt::Arguments::<'_>::from_str", None));
    let call = |args: Vec<Operand>, target: Option<usize>| {
        body(
            vec![word],
            0,
            vec![
                block(
                    vec![],
                    Terminator::Call {
                        func: fn_value(called),
                        args,
                        destination: place(0, word),
                        target,
                    },
                ),
                block(vec![], Terminator::Return),
            ],
        )
    };
    p.owners.push(owner("nowhere", call(vec![], None)));
    p.owners.push(owner("nothing", call(vec![], Some(1))));
    let r = imported(&p);
    assert_eq!(r.unsupported.len(), 2);
    assert!(matches!(r.unsupported[0].reason, Failure::CallTarget));
    assert!(matches!(r.unsupported[1].reason, Failure::FormatText(0)));
}

#[test]
fn a_failure_below_names_the_function_it_came_from() {
    let (mut p, _) = calling(TyKind::Uint(UintTy::U32), 4, 4, false);
    p.instances[0].body.blocks[0].terminator = Terminator::Other;
    let r = imported(&p);
    assert_eq!(r.unsupported.len(), 1);
    match &r.unsupported[0].reason {
        Failure::Nested { index, purpose, inner } => {
            assert_eq!(*index, 0);
            assert_eq!(*purpose, Purpose::Call);
            assert!(matches!(**inner, Failure::Terminator));
        }
        other => panic!("another reason: {:?}", other),
    }
}

#[test]
fn the_first_thing_that_fails_is_the_reason() {
    let (mut p, _) = calling(TyKind::Uint(UintTy::U32), 4, 4, false);
    p.instances[0].body.blocks[0].terminator = Terminator::Other;
    p.owners[0].body.blocks[1].terminator = Terminator::Other;
    let r = imported(&p);
    assert!(matches!(&r.unsupported[0].reason, Failure::Nested { index: 0, .. }));
    p.owners[0].body.blocks.swap(0, 1);
    if let Terminator::Call { target, .. } = &mut p.owners[0].body.blocks[1].terminator {
        *target = Some(0);
    }
    let r = imported(&p);
    assert_eq!(r.unsupported.len(), 1);
    assert!(matches!(r.unsupported[0].reason, Failure::Terminator));
}

/// Runs what checked arithmetic makes of two integers of a type.
fn checked_at(ty: &TypeHandle, op: BinOp, a: u128, b: u128) -> Result<V, Failure> {
    let mut r = clean(&program(Types::new()));
    let pair = TypeHandle::pair(ty.clone(), TypeHandle::integer(8, Signedness::Signless));
    let signature = TypeHandle::function(&vec![ty.clone(), ty.clone()], &vec![pair]);
    let made = FuncOp::new(&mut r.ctx, "checked".to_string(), signature);
    let before = r.ctx.blocks[made.entry.0].ops.len();
    let (lhs, rhs) = (r.ctx.blocks[made.entry.0].args[0], r.ctx.blocks[made.entry.0].args[1]);
    match lower_overflow_binary(&mut r.ctx, made.entry, op, lhs, rhs) {
        Ok(value) => {
            put_return(&mut r.ctx, made.entry, Some(value));
            Ok(Machine::new(&r.ctx, r.module).run(made.op, vec![V::Bits(a), V::Bits(b)]))
        }
        Err(failure) => {
            assert_eq!(r.ctx.blocks[made.entry.0].ops.len(), before);
            Err(failure)
        }
    }
}

#[test]
fn checked_arithmetic_works_at_any_width() {
    let pair = |value: u128, flag: u128| V::Agg(vec![V::Bits(value), V::Bits(flag)]);
    let odd = TypeHandle::integer(24, Signedness::Unsigned);
    let signed_odd = TypeHandle::integer(24, Signedness::Signed);
    let wide = TypeHandle::integer(128, Signedness::Signless);
    let between = TypeHandle::integer(72, Signedness::Unsigned);
    let add = BinOp::AddWithOverflow;
    let mul = BinOp::MulWithOverflow;
    assert_eq!(checked_at(&odd, add, 0xff_ffff, 2).unwrap(), pair(1, 1));
    assert_eq!(checked_at(&odd, add, 0xff_fffe, 1).unwrap(), pair(0xff_ffff, 0));
    assert_eq!(checked_at(&odd, mul, 0x1000, 0x1000).unwrap(), pair(0, 1));
    assert_eq!(checked_at(&signed_odd, add, 0x7f_ffff, 1).unwrap(), pair(0x80_0000, 1));
    assert_eq!(checked_at(&signed_odd, add, 0xff_ffff, 1).unwrap(), pair(0, 0));
    assert_eq!(checked_at(&wide, mul, 1 << 64, 1 << 63).unwrap(), pair(1 << 127, 0));
    assert_eq!(checked_at(&wide, mul, 1 << 64, 1 << 64).unwrap(), pair(0, 1));
    assert_eq!(checked_at(&between, add, 1 << 71, 1 << 71).unwrap(), pair(0, 1));
    assert!(matches!(checked_at(&between, mul, 1, 1), Err(Failure::WideMul { width: 72 })));
    assert!(matches!(checked_at(&odd, BinOp::Add, 1, 1), Err(Failure::OverflowOp(BinOp::Add))));
    let float = TypeHandle::Fp32;
    assert!(matches!(checked_at(&float, add, 1, 1), Err(Failure::NonIntegerOverflowOp(_))));
}

#[test]
fn objects_are_split_by_as_many_extractions_as_they_are_wrapped() {
    let mut r = clean(&program(Types::new()));
    let pointer = TypeHandle::Pointer { address_space: 0 };
    let fat = TypeHandle::unnamed_struct(&vec![pointer.clone(), pointer.clone()]);
    let boxed = TypeHandle::unnamed_struct(&vec![TypeHandle::unnamed_struct(&vec![fat.clone()])]);
    let block = r.ctx.new_block("split".to_string(), vec![boxed.clone(), pointer.clone()]);
    let object = r.ctx.blocks[block.0].args[0];
    assert!(split_dyn_receiver(&mut r.ctx, block, &boxed, object).is_ok());
    let ops = r.ctx.blocks[block.0].ops.clone();
    assert_eq!(ops.len(), 4);
    for op in &ops {
        assert!(matches!(r.ctx.ops[op.0].kind, OpKind::ExtractValue { .. }));
    }
    let thin = r.ctx.blocks[block.0].args[1];
    assert!(matches!(
        split_dyn_receiver(&mut r.ctx, block, &pointer, thin),
        Err(Failure::DynReceiver(_))
    ));
    assert_eq!(r.ctx.blocks[block.0].ops.len(), 4);
}

#[test]
fn a_part_that_was_put_in_is_taken_out_again() {
    let mut r = clean(&program(Types::new()));
    let byte = TypeHandle::integer(8, Signedness::Unsigned);
    let word = TypeHandle::integer(32, Signedness::Unsigned);
    let inner = TypeHandle::unnamed_struct(&vec![byte.clone(), word.clone()]);
    let outer = TypeHandle::unnamed_struct(&vec![word.clone(), inner.clone()]);
    let signature = TypeHandle::function(
        &vec![outer.clone(), word.clone()],
        &vec![TypeHandle::unnamed_struct(&vec![word.clone(), byte.clone()])],
    );
    let made = FuncOp::new(&mut r.ctx, "parts".to_string(), signature);
    let (whole, value) = (r.ctx.blocks[made.entry.0].args[0], r.ctx.blocks[made.entry.0].args[1]);
    let ctx = &mut r.ctx;
    let changed = emit_insert(ctx, made.entry, value, whole, vec![1, 1]);
    let taken = emit_extract(ctx, made.entry, changed, vec![1, 1]);
    let beside = emit_extract(ctx, made.entry, changed, vec![1, 0]);
    let empty = emit_undef(
        ctx,
        made.entry,
        &TypeHandle::unnamed_struct(&vec![word.clone(), byte.clone()]),
    );
    let half = emit_insert(ctx, made.entry, taken, empty, vec![0]);
    let both = emit_insert(ctx, made.entry, beside, half, vec![1]);
    put_return(ctx, made.entry, Some(both));
    let inside = V::Agg(vec![V::Bits(3), V::Bits(4)]);
    let args = vec![V::Agg(vec![V::Bits(1), inside]), V::Bits(9)];
    assert_eq!(
        Machine::new(&r.ctx, r.module).run(made.op, args),
        V::Agg(vec![V::Bits(9), V::Bits(3)])
    );
}

/// A program with a function that hands its arguments to an intrinsic. The
/// first of the types is that of the result.
fn known(mut t: Types, name: &str, of: Vec<TyId>, locals: Vec<TyId>) -> Program {
    let called = t.put(TyKind::FnDef(0), 0, 1);
    let mut p = program(t);
    p.items.push(item(name, Some(0)));
    let mut described = instance(
        InstanceKind::Intrinsic,
        name,
        locals[1..].to_vec(),
        locals[0],
        no_body(locals[0]),
    );
    described.args = of;
    p.instances.push(described);
    let args = (1..locals.len()).map(|i| copy(i, locals[i])).collect();
    let result = locals[0];
    let count = locals.len() - 1;
    p.owners.push(owner(
        "known",
        body(
            locals,
            count,
            vec![
                block(
                    vec![],
                    Terminator::Call {
                        func: fn_value(called),
                        args,
                        destination: place(0, result),
                        target: Some(1),
                    },
                ),
                block(vec![], Terminator::Return),
            ],
        ),
    ));
    p
}

struct Usual {
    t: Types,
    unit: TyId,
    byte: TyId,
    word: TyId,
    size: TyId,
    pointer: TyId,
}

fn usual() -> Usual {
    let mut t = Types::new();
    let unit = t.put(TyKind::Tuple(vec![]), 0, 1);
    let byte = t.unsigned_int(UintTy::U8, 1);
    let word = t.unsigned_int(UintTy::U32, 4);
    let size = t.unsigned_int(UintTy::Usize, 8);
    let pointer = t.put(TyKind::RawPtr(word), 8, 8);
    Usual { t, unit, byte, word, size, pointer }
}

#[test]
fn atomic_accesses_read_and_write() {
    let u = usual();
    let p = known(u.t, "atomic_load", vec![u.word], vec![u.word, u.pointer]);
    let r = clean(&p);
    let mut machine = Machine::new(&r.ctx, r.module);
    let at = machine.reserve(4);
    machine.memory[at as usize] = 17;
    assert_eq!(machine.call("known", vec![V::Bits(at)]), V::Bits(17));

    let u = usual();
    let p = known(u.t, "atomic_store", vec![u.word], vec![u.unit, u.pointer, u.word]);
    let r = clean(&p);
    let mut machine = Machine::new(&r.ctx, r.module);
    let at = machine.reserve(4);
    machine.call("known", vec![V::Bits(at), V::Bits(0x0102_0304)]);
    assert_eq!(machine.memory[at as usize..at as usize + 4], [4, 3, 2, 1]);

    let u = usual();
    let mut p = known(u.t, "atomic_xchg", vec![u.word], vec![u.word, u.pointer, u.word]);
    p.is_aarch64_linux = true;
    let r = clean(&p);
    let mut machine = Machine::new(&r.ctx, r.module);
    machine.reply = V::Bits(5);
    assert_eq!(machine.call("known", vec![V::Bits(64), V::Bits(6)]), V::Bits(5));
    assert_eq!(
        machine.log,
        vec![("__aarch64_swp4_acq_rel".to_string(), vec![V::Bits(6), V::Bits(64)])]
    );
    p.is_aarch64_linux = false;
    let r = clean(&p);
    let mut machine = Machine::new(&r.ctx, r.module);
    machine.reply = V::Bits(5);
    machine.call("known", vec![V::Bits(64), V::Bits(6)]);
    assert_eq!(machine.log[0].0, "atomic_xchg");
}

#[test]
fn memory_is_filled_and_copied_by_the_byte() {
    let logged = |name: &str, locals: fn(&Usual) -> Vec<TyId>, args: Vec<u128>| {
        let u = usual();
        let locals = locals(&u);
        let p = known(u.t, name, vec![u.word], locals);
        let r = clean(&p);
        let mut machine = Machine::new(&r.ctx, r.module);
        machine.reply = V::Bits(0);
        machine.call("known", args.into_iter().map(V::Bits).collect());
        machine.log
    };
    fn fill(u: &Usual) -> Vec<TyId> {
        vec![u.unit, u.pointer, u.byte, u.size]
    }
    fn copied(u: &Usual) -> Vec<TyId> {
        vec![u.unit, u.pointer, u.pointer, u.size]
    }
    assert_eq!(
        logged("write_bytes", fill, vec![64, 0xff, 3]),
        vec![("memset".to_string(), vec![V::Bits(64), V::Bits(0xff), V::Bits(12)])]
    );
    assert_eq!(
        logged("copy", copied, vec![64, 128, 2]),
        vec![("memmove".to_string(), vec![V::Bits(128), V::Bits(64), V::Bits(8)])]
    );
    assert_eq!(
        logged("copy_nonoverlapping", copied, vec![64, 128, 2]),
        vec![("memcpy".to_string(), vec![V::Bits(128), V::Bits(64), V::Bits(8)])]
    );
    fn swap(u: &Usual) -> Vec<TyId> {
        vec![u.unit, u.pointer, u.pointer]
    }
    let log = logged("typed_swap_nonoverlapping", swap, vec![64, 128]);
    assert_eq!(log.len(), 3);
    assert_eq!(log[0].1[1..], [V::Bits(64), V::Bits(4)]);
    assert_eq!(log[1].1, vec![V::Bits(64), V::Bits(128), V::Bits(4)]);
    assert_eq!(log[2].1[0], V::Bits(128));
    assert_eq!(log[2].1[1], log[0].1[0]);
}

#[test]
fn pointers_are_moved_and_measured_in_elements() {
    let u = usual();
    let p = known(u.t, "arith_offset", vec![u.word], vec![u.pointer, u.pointer, u.size]);
    assert_eq!(run(&p, "known", vec![V::Bits(100), V::Bits(3)]), V::Bits(112));
    let u = usual();
    let locals = vec![u.size, u.pointer, u.pointer];
    let p = known(u.t, "ptr_offset_from_unsigned", vec![u.word], locals);
    assert_eq!(run(&p, "known", vec![V::Bits(112), V::Bits(100)]), V::Bits(3));
    let u = usual();
    let p = known(u.t, "size_of_val", vec![u.word], vec![u.size, u.pointer]);
    assert_eq!(run(&p, "known", vec![V::Bits(64)]), V::Bits(4));
    let u = usual();
    let p = known(u.t, "align_of_val", vec![u.word], vec![u.size, u.pointer]);
    assert_eq!(run(&p, "known", vec![V::Bits(64)]), V::Bits(4));
}

#[test]
fn sizes_of_slices_depend_on_their_length() {
    let mut u = usual();
    let slice = u.t.unsized_ty(TyKind::Slice(u.word));
    let slice_ref = u.t.put(TyKind::Ref(slice), 16, 8);
    let p = known(u.t, "size_of_val", vec![slice], vec![u.size, slice_ref]);
    assert_eq!(run(&p, "known", vec![V::Bits(64), V::Bits(5)]), V::Bits(20));
    let mut u = usual();
    let object = u.t.unsized_ty(TyKind::Dynamic(Some(0)));
    let object_ref = u.t.put(TyKind::Ref(object), 16, 8);
    let p = known(u.t, "align_of_val", vec![object], vec![u.size, object_ref]);
    let r = clean(&p);
    let mut machine = Machine::new(&r.ctx, r.module);
    let table = machine.reserve(24);
    machine.memory[table as usize + 8] = 40;
    machine.memory[table as usize + 16] = 8;
    assert_eq!(machine.call("known", vec![V::Bits(64), V::Bits(table)]), V::Bits(8));
}

#[test]
fn lanes_are_compared_one_by_one() {
    let lanes = |name: &str, a: u64, b: u64| {
        let mut u = usual();
        let vector = u.t.unsigned_int(UintTy::U64, 8);
        let p = known(u.t, name, vec![vector, vector], vec![vector, vector, vector]);
        run(&p, "known", vec![V::Bits(a as u128), V::Bits(b as u128)]).bits() as u64
    };
    assert_eq!(lanes("simd_or", 0x0f00, 0x00f0), 0x0ff0);
    assert_eq!(
        lanes("simd_eq", 0x1122_3344_5566_7788, 0x1122_0044_0066_7700),
        0xffff_00ff_00ff_ff00
    );
    assert_eq!(lanes("simd_eq", 0x0100, 0), 0xffff_ffff_ffff_00ff);
    assert_eq!(lanes("simd_eq", 0x0101_0100_0101_0100, 0), 0x0000_00ff_0000_00ff);
    assert_eq!(
        lanes("simd_lt", 0x00ff_7f80_0102_0304, 0x0100_807f_0101_0404),
        0xffff_00ff_0000_ff00
    );
    assert_eq!(
        lanes("simd_ge", 0x00ff_7f80_0102_0304, 0x0100_807f_0101_0404),
        !0xffff_00ff_0000_ff00u64
    );
    let mut u = usual();
    let vector = u.t.unsigned_int(UintTy::U64, 8);
    let p = known(u.t, "simd_splat", vec![vector], vec![vector, u.byte]);
    assert_eq!(run(&p, "known", vec![V::Bits(0xa5)]), V::Bits(0xa5a5_a5a5_a5a5_a5a5));
}

#[test]
fn float_functions_are_called_by_their_width() {
    let mut u = usual();
    let single = u.t.put(TyKind::F32, 4, 4);
    let p = known(u.t, "sinf32", vec![], vec![single, single]);
    let r = clean(&p);
    let mut machine = Machine::new(&r.ctx, r.module);
    let one = V::Bits(1.0f32.to_bits() as u128);
    machine.reply = one.clone();
    assert_eq!(machine.call("known", vec![one.clone()]), one);
    assert_eq!(machine.log, vec![("sinf".to_string(), vec![one])]);
}

#[test]
fn intrinsics_are_refused_with_the_reason() {
    let refused = |name: &str, of: fn(&Usual) -> Vec<TyId>, locals: fn(&Usual) -> Vec<TyId>| {
        let u = usual();
        let (of, locals) = (of(&u), locals(&u));
        let p = known(u.t, name, of, locals);
        let mut r = imported(&p);
        assert_eq!(r.unsupported.len(), 1);
        r.unsupported.remove(0).reason
    };
    fn word(u: &Usual) -> Vec<TyId> {
        vec![u.word]
    }
    fn one(u: &Usual) -> Vec<TyId> {
        vec![u.word, u.word]
    }
    fn two(u: &Usual) -> Vec<TyId> {
        vec![u.word, u.word, u.word]
    }
    fn nothing(u: &Usual) -> Vec<TyId> {
        vec![u.word]
    }
    assert!(matches!(refused("ctpop", word, two), Failure::Arity(2)));
    assert!(matches!(refused("atomic_load", word, nothing), Failure::Arity(0)));
    assert!(matches!(refused("simd_splat", word, one), Failure::VectorSize(4)));
    fn pointer(u: &Usual) -> Vec<TyId> {
        vec![u.word, u.pointer]
    }
    assert!(matches!(refused("ctpop", word, pointer), Failure::NonIntegerBits));
}

#[test]
fn unions_overlay_their_fields() {
    let mut t = Types::new();
    let byte = t.unsigned_int(UintTy::U8, 1);
    let word = t.unsigned_int(UintTy::U32, 4);
    let named = vec![Variant { name: "U".to_string(), fields: 2, discriminant: 0 }];
    let overlay = t.put(TyKind::Adt(AdtKind::Union, vec![byte, word], named), 4, 4);
    t.types[overlay.0].full_name = "krate::U".to_string();
    let mut p = program(t);
    p.owners.push(owner(
        "low_byte",
        body(
            vec![byte, word, overlay],
            1,
            vec![block(
                vec![
                    assign(
                        projected(2, vec![Projection::Field(1, word)], word),
                        Rvalue::Use(copy(1, word)),
                    ),
                    assign(
                        place(0, byte),
                        Rvalue::Use(Operand::Copy(projected(
                            2,
                            vec![Projection::Field(0, byte)],
                            byte,
                        ))),
                    ),
                ],
                Terminator::Return,
            )],
        ),
    ));
    assert_eq!(run(&p, "low_byte", vec![V::Bits(0x1234_56ab)]), V::Bits(0xab));
}

#[test]
fn parts_of_slices_keep_their_elements() {
    let mut t = Types::new();
    let word = t.unsigned_int(UintTy::U32, 4);
    let array = t.put(TyKind::Array(word, Some(4)), 16, 4);
    let shorter = t.put(TyKind::Array(word, Some(2)), 8, 4);
    let array_ref = t.put(TyKind::Ref(array), 8, 8);
    let shorter_ref = t.put(TyKind::Ref(shorter), 8, 8);
    let mut p = program(t);
    p.owners.push(owner(
        "middle",
        body(
            vec![word, array_ref, shorter_ref],
            1,
            vec![block(
                vec![
                    assign(
                        place(2, shorter_ref),
                        Rvalue::Ref(projected(
                            1,
                            vec![
                                Projection::Deref,
                                Projection::Subslice { from: 1, to: 1, from_end: true },
                            ],
                            shorter,
                        )),
                    ),
                    assign(
                        place(0, word),
                        Rvalue::Use(Operand::Copy(projected(
                            2,
                            vec![
                                Projection::Deref,
                                Projection::ConstantIndex {
                                    offset: 1,
                                    min_length: 2,
                                    from_end: false,
                                },
                            ],
                            word,
                        ))),
                    ),
                ],
                Terminator::Return,
            )],
        ),
    ));
    let r = clean(&p);
    let mut machine = Machine::new(&r.ctx, r.module);
    let at = machine.reserve(16);
    for i in 0..4 {
        machine.memory[at as usize + 4 * i] = 30 + i as u8;
    }
    assert_eq!(machine.call("middle", vec![V::Bits(at)]), V::Bits(32));
    let mut t = Types::new();
    let word = t.unsigned_int(UintTy::U32, 4);
    let array = t.put(TyKind::Array(word, Some(4)), 16, 4);
    let failure = refusal(
        t,
        body(
            vec![array, array],
            0,
            vec![block(
                vec![assign(
                    place(0, array),
                    Rvalue::Use(Operand::Copy(projected(
                        1,
                        vec![Projection::Subslice { from: 3, to: 3, from_end: true }],
                        array,
                    ))),
                )],
                Terminator::Return,
            )],
        ),
    );
    assert!(matches!(failure, Failure::SubsliceBounds { from: 3, to: 3 }));
}

#[test]
fn constants_in_memory_are_read_from_a_global() {
    let mut t = Types::new();
    let a = t.unsigned_int(UintTy::U16, 2);
    let b = t.unsigned_int(UintTy::U32, 4);
    let pair = t.put(TyKind::Tuple(vec![a, b]), 8, 4);
    let mut p = program(t);
    p.allocs.push(Alloc::Memory(Memory {
        name: "alloc1".to_string(),
        bytes: vec![1, 2, 0, 0, 3, 0, 0, 0],
        init: vec![true, true, false, false, true, true, true, true],
        align: 4,
        mutable: false,
        pointers: vec![],
    }));
    p.owners.push(owner(
        "pair",
        body(
            vec![pair],
            0,
            vec![block(
                vec![assign(
                    place(0, pair),
                    Rvalue::Use(constant(pair, ConstValue::Indirect { alloc: 0, offset: 0 })),
                )],
                Terminator::Return,
            )],
        ),
    ));
    assert_eq!(
        run(&p, "pair", vec![]),
        V::Agg(vec![V::Bits(0x0201), V::Bits(3)])
    );
}

#[test]
fn a_constant_without_a_value_is_refused() {
    let mut t = Types::new();
    let word = t.unsigned_int(UintTy::U32, 4);
    let unknown = Operand::Constant(Constant {
        ty: word,
        is_plain_str: false,
        plain_text: None,
        text: None,
        printed: String::new(),
        source: None,
        value: None,
        bits: None,
        static_item: None,
    });
    let failure = refusal(
        t,
        body(
            vec![word],
            0,
            vec![block(
                vec![assign(place(0, word), Rvalue::Use(unknown))],
                Terminator::Return,
            )],
        ),
    );
    assert!(matches!(failure, Failure::ConstantEvaluation));
}

#[test]
fn wide_integers_become_floats_with_the_help_of_the_runtime() {
    let cast = |from: (TyKind, u64), to: (TyKind, u64), bits: u128, reply: u128| {
        let mut t = Types::new();
        let source = t.put(from.0, from.1, from.1);
        let target = t.put(to.0, to.1, to.1);
        let mut p = program(t);
        p.owners.push(owner(
            "cast",
            body(
                vec![target, source],
                1,
                vec![block(
                    vec![assign(
                        place(0, target),
                        Rvalue::Cast(CastKind::Other, copy(1, source), target),
                    )],
                    Terminator::Return,
                )],
            ),
        ));
        let r = clean(&p);
        let mut machine = Machine::new(&r.ctx, r.module);
        machine.reply = V::Bits(reply);
        let value = machine.call("cast", vec![V::Bits(bits)]).bits();
        (value, machine.log)
    };
    let wide = || (TyKind::Uint(UintTy::U128), 16);
    let signed_wide = || (TyKind::Int(IntTy::I128), 16);
    let double = || (TyKind::F64, 8);
    let (_, log) = cast(wide(), double(), 7, 0);
    assert_eq!(log[0].0, "__floatuntidf");
    let (_, log) = cast(signed_wide(), double(), 7, 0);
    assert_eq!(log[0].0, "__floattidf");
    let nan = f64::NAN.to_bits() as u128;
    assert_eq!(cast(double(), wide(), nan, 9).0, 0);
    assert_eq!(cast(double(), wide(), 5.5f64.to_bits() as u128, 5).0, 5);
    assert_eq!(cast(double(), wide(), (-1.0f64).to_bits() as u128, 77).0, 0);
    assert_eq!(cast(double(), wide(), 1e300f64.to_bits() as u128, 77).0, u128::MAX);
    assert_eq!(cast(double(), signed_wide(), nan, 9).0, 0);
    assert_eq!(
        cast(double(), signed_wide(), (-1e300f64).to_bits() as u128, 77).0,
        i128::MIN as u128
    );
    assert_eq!(
        cast(double(), signed_wide(), 1e300f64.to_bits() as u128, 77).0,
        i128::MAX as u128
    );
}

/// The kinds of the operations of each block of a function, and its labels.
fn contents<'a>(r: &'a ImportedCrate, name: &str) -> Vec<(String, Vec<&'a OpKind>)> {
    let mut found = Vec::new();
    for op in &r.ctx.ops {
        if let (OpKind::MirFunc { symbol, .. }, Some(region)) = (&op.kind, op.region) {
            if symbol == name {
                for block in &r.ctx.regions[region.0] {
                    let block = &r.ctx.blocks[block.0];
                    let kinds = block.ops.iter().map(|op| &r.ctx.ops[op.0].kind).collect();
                    found.push((block.label.clone(), kinds));
                }
            }
        }
    }
    found
}

/// The section and the contents of a global.
fn global<'a>(r: &'a ImportedCrate, name: &str) -> Option<(&'a Option<String>, &'a GlobalInit)> {
    let region = r.ctx.ops[r.module.0].region.unwrap();
    for op in &r.ctx.blocks[r.ctx.regions[region.0][0].0].ops {
        if let OpKind::Global { symbol, section, init, .. } = &r.ctx.ops[op.0].kind {
            if symbol == name {
                return Some((section, init));
            }
        }
    }
    None
}

/// A program with a function that cannot be imported, whose address is that of
/// the first allocation; and the types of a word and of a pointer to one.
fn hopeless() -> (Program, TyId, TyId) {
    let mut t = Types::new();
    let word = t.unsigned_int(UintTy::U64, 8);
    let pointer = t.put(TyKind::RawPtr(word), 8, 8);
    let mut p = program(t);
    p.instances.push(instance(
        InstanceKind::Item { has_body: true, is_ctor: false },
        "hopeless",
        vec![],
        word,
        body(vec![word], 0, vec![block(vec![], Terminator::Other)]),
    ));
    p.allocs.push(Alloc::Function(0));
    (p, word, pointer)
}

fn pointing(name: &str, targets: Vec<usize>) -> Memory {
    let pointers = targets.iter().enumerate().map(|(i, target)| Pointer {
        offset: 8 * i as u64,
        target: *target,
    });
    Memory {
        name: name.to_string(),
        bytes: vec![0; 8 * targets.len() + 8],
        init: vec![true; 8 * targets.len() + 8],
        align: 8,
        mutable: false,
        pointers: pointers.collect(),
    }
}

fn reading(pointer: TyId, alloc: usize) -> Body {
    let address = constant(pointer, ConstValue::Scalar(Scalar::Ptr { alloc, offset: 0 }));
    body(
        vec![pointer],
        0,
        vec![block(
            vec![assign(place(0, pointer), Rvalue::Use(address))],
            Terminator::Return,
        )],
    )
}

#[test]
fn a_function_is_given_up_where_it_calls_what_cannot_be_imported() {
    let (mut p, arg) = calling(TyKind::Uint(UintTy::U64), 8, 8, false);
    p.instances[0].body.blocks[0].terminator = Terminator::Other;
    let call = Terminator::Call {
        func: fn_value(TyId(2)),
        args: vec![copy(1, arg)],
        destination: place(0, arg),
        target: Some(3),
    };
    let choose = |cases: Vec<(u128, usize)>| Terminator::SwitchInt {
        discr: copy(1, arg),
        cases,
        otherwise: 3,
    };
    p.owners[0].body.blocks = vec![
        block(vec![], choose(vec![(0, 1), (1, 2), (2, 3)])),
        block(vec![assign(place(0, arg), Rvalue::Use(copy(1, arg)))], call),
        block(vec![], choose(vec![(0, 1), (1, 3), (2, 3)])),
        block(vec![], Terminator::Return),
    ];
    let r = imported(&p);
    assert!(matches!(&r.unsupported[0].reason, Failure::Nested { index: 0, .. }));
    let blocks = contents(&r, "caller");
    let labels: Vec<&str> = blocks.iter().map(|(label, _)| label.as_str()).collect();
    assert_eq!(labels, vec!["entry", "bb1", "bb2", "bb3", "switch1", "switch2"]);
    for k in [0, 4, 5] {
        assert!(matches!(blocks[k].1.last(), Some(OpKind::CondBr { .. })));
    }
    let given_up = &blocks[1].1;
    assert_eq!(given_up.iter().filter(|kind| matches!(kind, OpKind::Store)).count(), 1);
    assert!(matches!(given_up.last(), Some(OpKind::Load)));
    assert!(!given_up.iter().any(|kind| matches!(kind, OpKind::Call { .. })));
    assert!(blocks[2].1.is_empty());
    assert!(blocks[3].1.is_empty());
    p.instances[0].body.blocks[0].terminator = Terminator::Return;
    let r = clean(&p);
    assert_eq!(contents(&r, "caller").len(), 8);
}

#[test]
fn memory_that_points_to_what_cannot_be_imported_stays_empty() {
    let (mut p, word, pointer) = hopeless();
    p.instances.push(instance(
        InstanceKind::Item { has_body: true, is_ctor: false },
        "hopeless_too",
        vec![],
        word,
        body(vec![word], 0, vec![block(vec![], Terminator::Other)]),
    ));
    p.allocs.push(Alloc::Memory(pointing("good", vec![])));
    p.allocs.push(Alloc::Memory(pointing("bad", vec![1, 0])));
    p.statics.push(Static {
        mangled: "TABLE".to_string(),
        is_local: true,
        initializer: Some(pointing("TABLE", vec![4])),
        link_section: Some(".tables".to_string()),
    });
    p.allocs.push(Alloc::Static(0));
    p.allocs.push(Alloc::Function(1));
    p.owners.push(owner("memory", reading(pointer, 2)));
    p.owners.push(owner("table", reading(pointer, 3)));
    p.owners.push(owner("again", reading(pointer, 2)));
    let r = imported(&p);
    assert_eq!(r.unsupported.len(), 2);
    for (i, report) in r.unsupported.iter().enumerate() {
        match &report.reason {
            Failure::Nested { index, purpose: Purpose::Data, .. } => assert_eq!(*index, i),
            other => panic!("unexpected reason: {other:?}"),
        }
    }
    let all: Vec<String> = (0..r.ctx.ops.len())
        .filter_map(|i| match &r.ctx.ops[i].kind {
            OpKind::Global { symbol, .. } => Some(symbol.clone()),
            _ => None,
        })
        .collect();
    let named = |part: &str| all.iter().find(|name| name.contains(part)).unwrap();
    assert!(matches!(global(&r, named("good")), Some((None, GlobalInit::Data { .. }))));
    assert!(matches!(global(&r, named("bad")), Some((None, GlobalInit::Declared))));
    assert!(matches!(global(&r, named("TABLE")), Some((None, GlobalInit::Declared))));
}

#[test]
fn memory_without_a_table_stays_empty_beside_what_it_points_to_first() {
    let (mut p, word, pointer) = hopeless();
    p.allocs.push(Alloc::Memory(pointing("first", vec![])));
    p.allocs.push(Alloc::VTable(0, word));
    p.allocs.push(Alloc::Memory(pointing("last", vec![])));
    p.allocs.push(Alloc::Memory(pointing("broken", vec![1, 2, 3])));
    p.owners.push(owner("memory", reading(pointer, 4)));
    let r = imported(&p);
    assert_eq!(r.unsupported.len(), 1);
    assert!(matches!(&r.unsupported[0].reason, Failure::TableMemory(ty) if *ty == word));
    let mut kept = Vec::new();
    for op in &r.ctx.ops {
        if let OpKind::Global { symbol, init, .. } = &op.kind {
            kept.push((symbol.clone(), matches!(init, GlobalInit::Data { .. })));
        }
    }
    assert_eq!(kept.len(), 2);
    for (name, is_full) in [("broken", false), ("first", true)] {
        assert!(kept.iter().any(|(symbol, full)| symbol.contains(name) && *full == is_full));
    }
}

#[test]
fn a_body_that_fails_keeps_the_statements_before() {
    let (mut p, word, _) = hopeless();
    let missing = Rvalue::Use(Operand::Copy(place(7, word)));
    let kept = || assign(place(0, word), Rvalue::Use(copy(1, word)));
    let blocks = vec![
        block(vec![kept()], Terminator::Goto(1)),
        block(vec![kept(), assign(place(0, word), missing), kept()], Terminator::Return),
        block(vec![kept()], Terminator::Return),
    ];
    p.owners.push(owner("half", body(vec![word, word], 1, blocks)));
    let r = imported(&p);
    assert_eq!(r.unsupported.len(), 1);
    assert!(matches!(r.unsupported[0].reason, Failure::UnknownLocal(7)));
    let blocks = contents(&r, "half");
    let stores: Vec<usize> = blocks
        .iter()
        .map(|(_, kinds)| kinds.iter().filter(|kind| matches!(kind, OpKind::Store)).count())
        .collect();
    assert_eq!(stores, vec![2, 1, 0]);
    assert!(blocks[2].1.is_empty());
}

#[test]
fn what_was_asked_for_before_a_failure_is_provided() {
    let (mut p, word, pointer) = hopeless();
    p.allocs.push(Alloc::Memory(pointing("kept", vec![2])));
    p.allocs.push(Alloc::Memory(pointing("other", vec![])));
    let sum = |alloc: usize| {
        let address = constant(pointer, ConstValue::Scalar(Scalar::Ptr { alloc, offset: 0 }));
        let missing = Operand::Copy(place(7, pointer));
        let value = Rvalue::BinaryOp(BinOp::Eq, address, missing, word);
        body(
            vec![word],
            0,
            vec![block(vec![assign(place(0, word), value)], Terminator::Return)],
        )
    };
    p.owners.push(owner("sound", sum(1)));
    p.owners.push(owner("unsound", sum(0)));
    let r = imported(&p);
    assert_eq!(r.unsupported.len(), 2);
    assert!(matches!(r.unsupported[0].reason, Failure::UnknownLocal(7)));
    assert!(matches!(
        &r.unsupported[1].reason,
        Failure::Nested { index: 0, purpose: Purpose::Data, .. }
    ));
    let kept = r.ctx.ops.iter().any(|op| {
        matches!(&op.kind, OpKind::Global { symbol, init: GlobalInit::Data { .. }, .. }
            if symbol.contains("kept"))
    });
    assert!(kept);
}
