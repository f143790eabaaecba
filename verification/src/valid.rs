//! Whether a program hangs together: whether everything that it refers to by
//! number stands in it.
//!
//! The front end builds programs that do; a caller that cannot be sure asks
//! [`is_well_formed`] before it imports one.

use crate::aggregate;
use crate::cast;
use crate::function;
use crate::importer;
use crate::intrinsics;
use crate::mir::{
    AggregateKind, BlockData, Body, Instance, Operand, Place, Program, Projection, Rvalue,
    Signature, Statement, Terminator,
};
use crate::module;
use crate::operand;
use crate::place;
use crate::rvalue;
use crate::statement;
use crate::terminator;
use crate::thunk;
use crate::ty;
use crate::ty::{kind_tail, Tail, TyId, TyInfo, TyKind, TyTable};
use vstd::prelude::*;

verus! {

fn stands(table: &TyTable, ty: TyId) -> (r: bool)
    ensures
        r == table.has(ty),
{
    ty.0 < table.types.len()
}

fn all_stand(table: &TyTable, list: &Vec<TyId>) -> (r: bool)
    ensures
        r == place::locals_wf(*table, list@),
{
    let mut i: usize = 0;
    while i < list.len()
        invariant
            i <= list@.len(),
            forall|j: int| 0 <= j < i ==> table.has(#[trigger] list@[j]),
        decreases list@.len() - i,
    {
        if !stands(table, list[i]) {
            assert(!table.has(list@[i as int]));
            return false;
        }
        i = i + 1;
    }
    true
}

fn is_order(order: &Vec<usize>) -> (r: bool)
    ensures
        r == ty::is_permutation(order@),
{
    let mut i: usize = 0;
    while i < order.len()
        invariant
            i <= order@.len(),
            forall|k: int| 0 <= k < i ==> #[trigger] order@[k] < order@.len(),
            forall|k: int, j: int| 0 <= k < j < i ==> order@[k] != order@[j],
        decreases order@.len() - i,
    {
        if order[i] >= order.len() {
            assert(!(order@[i as int] < order@.len()));
            return false;
        }
        let mut j: usize = 0;
        while j < i
            invariant
                j <= i < order@.len(),
                forall|k: int| 0 <= k < j ==> order@[k] != order@[i as int],
            decreases i - j,
        {
            if order[j] == order[i] {
                return false;
            }
            j = j + 1;
        }
        i = i + 1;
    }
    true
}

fn comes_before(list: &Vec<TyId>, table: &TyTable, ty: TyId) -> (r: bool)
    ensures
        r == table.precede(list@, ty),
{
    let mut i: usize = 0;
    while i < list.len()
        invariant
            i <= list@.len(),
            forall|j: int| 0 <= j < i ==> (#[trigger] list@[j]).0 < ty.0,
        decreases list@.len() - i,
    {
        if list[i].0 >= ty.0 {
            assert(!(list@[i as int].0 < ty.0));
            return false;
        }
        i = i + 1;
    }
    true
}

fn is_inside(table: &TyTable, part: TyId, ty: TyId) -> (r: bool)
    requires
        table.has(ty),
    ensures
        r == (table.has(part) && table.info(part).depth < table.info(ty).depth),
{
    stands(table, part) && table.types[part.0].depth < table.types[ty.0].depth
}

fn all_inside(list: &Vec<TyId>, table: &TyTable, ty: TyId) -> (r: bool)
    requires
        table.has(ty),
    ensures
        r == table.nested(list@, ty),
{
    let mut i: usize = 0;
    while i < list.len()
        invariant
            i <= list@.len(),
            table.has(ty),
            forall|j: int|
                0 <= j < i ==> table.has(#[trigger] list@[j]) && table.info(list@[j]).depth
                    < table.info(ty).depth,
        decreases list@.len() - i,
    {
        if !is_inside(table, list[i], ty) {
            assert(!(table.has(list@[i as int]) && table.info(list@[i as int]).depth < table.info(
                ty,
            ).depth));
            return false;
        }
        i = i + 1;
    }
    true
}

fn parts_precede(table: &TyTable, ty: TyId) -> (r: bool)
    requires
        table.has(ty),
    ensures
        r == table.precede(table.parts(ty), ty),
{
    match &table.types[ty.0].kind {
        TyKind::Tuple(fields) => comes_before(fields, table, ty),
        TyKind::Closure(fields) => comes_before(fields, table, ty),
        TyKind::Adt(_, fields, _) => comes_before(fields, table, ty),
        TyKind::Array(elem, _) => {
            assert(table.parts(ty)[0] == *elem);
            elem.0 < ty.0
        },
        TyKind::Slice(elem) => {
            assert(table.parts(ty)[0] == *elem);
            elem.0 < ty.0
        },
        TyKind::Pat(base) => {
            assert(table.parts(ty)[0] == *base);
            base.0 < ty.0
        },
        _ => true,
    }
}

fn components_nest(table: &TyTable, ty: TyId) -> (r: bool)
    requires
        table.has(ty),
    ensures
        r == table.nested(table.components(ty), ty),
{
    match &table.types[ty.0].kind {
        TyKind::Tuple(fields) => all_inside(fields, table, ty),
        TyKind::Adt(_, _, _) => all_inside(&table.types[ty.0].args, table, ty),
        TyKind::Array(elem, _) => {
            assert(table.components(ty)[0] == *elem);
            is_inside(table, *elem, ty)
        },
        TyKind::Slice(elem) => {
            assert(table.components(ty)[0] == *elem);
            is_inside(table, *elem, ty)
        },
        TyKind::Ref(inner) => {
            assert(table.components(ty)[0] == *inner);
            is_inside(table, *inner, ty)
        },
        TyKind::RawPtr(inner) => {
            assert(table.components(ty)[0] == *inner);
            is_inside(table, *inner, ty)
        },
        TyKind::Pat(base) => {
            assert(table.components(ty)[0] == *base);
            is_inside(table, *base, ty)
        },
        _ => true,
    }
}

/// Whether a type refers to types of the table, all but for what a slice that
/// it points to holds.
spec fn own_wf(table: TyTable, ty: TyId) -> bool {
    let info = table.info(ty);
    &&& (info.layout matches Some(layout) ==> layout.order matches Some(order)
        ==> ty::is_permutation(order@))
    &&& info.normal.0 <= ty.0
    &&& table.has(info.tail)
    &&& table.has(info.discriminant)
    &&& (info.boxed matches Some(inner) ==> table.has(inner))
    &&& table.precede(table.parts(ty), ty)
    &&& table.nested(table.components(ty), ty)
}

fn is_own_wf(table: &TyTable, ty: TyId) -> (r: bool)
    requires
        table.has(ty),
    ensures
        r == own_wf(*table, ty),
{
    let info: &TyInfo = &table.types[ty.0];
    let ordered: bool = match &info.layout {
        Some(layout) => match &layout.order {
            Some(order) => is_order(order),
            None => true,
        },
        None => true,
    };
    let boxed: bool = match &info.boxed {
        Some(inner) => stands(table, *inner),
        None => true,
    };
    ordered && info.normal.0 <= ty.0 && stands(table, info.tail) && stands(table, info.discriminant)
        && boxed && parts_precede(table, ty) && components_nest(table, ty)
}

/// The type under all patterns.
fn bare(table: &TyTable, ty: TyId) -> (r: TyId)
    requires
        table.has(ty),
    ensures
        r == table.runtime(ty),
        table.has(r),
    decreases ty.0,
{
    match &table.types[ty.0].kind {
        TyKind::Pat(base) => {
            if base.0 < ty.0 {
                bare(table, *base)
            } else {
                ty
            }
        },
        _ => ty,
    }
}

fn tail_of(table: &TyTable, pointee: TyId) -> (r: Option<Tail>)
    requires
        table.has(pointee),
        forall|ty: TyId| table.has(ty) ==> #[trigger] own_wf(*table, ty),
    ensures
        r == table.unsized_tail(pointee),
{
    let pointee: TyId = bare(table, pointee);
    assert(own_wf(*table, pointee));
    let own: Option<Tail> = kind_tail(&table.types[pointee.0].kind);
    if own.is_some() {
        return own;
    }
    if table.types[pointee.0].sized {
        return None;
    }
    let last: TyId = bare(table, table.types[pointee.0].tail);
    kind_tail(&table.types[last.0].kind)
}

/// Whether a type that a type points to stands in the table, and so does,
/// before the type itself, what it holds where it is a slice.
spec fn pointee_wf(table: TyTable, inner: TyId, ty: TyId) -> bool {
    table.has(inner) && (table.unsized_tail(inner) matches Some(Tail::Slice(elem)) ==> elem.0
        < ty.0)
}

fn is_pointee_wf(table: &TyTable, inner: TyId, ty: TyId) -> (r: bool)
    requires
        forall|ty: TyId| table.has(ty) ==> #[trigger] own_wf(*table, ty),
    ensures
        r == pointee_wf(*table, inner, ty),
{
    if !stands(table, inner) {
        return false;
    }
    match tail_of(table, inner) {
        Some(Tail::Slice(elem)) => elem.0 < ty.0,
        _ => true,
    }
}

/// Whether a table of types hangs together.
pub fn is_table_well_formed(table: &TyTable) -> (r: bool)
    ensures
        r == table.wf(),
{
    let mut i: usize = 0;
    while i < table.types.len()
        invariant
            i <= table.types@.len(),
            forall|ty: TyId| ty.0 < i ==> #[trigger] own_wf(*table, ty),
        decreases table.types@.len() - i,
    {
        if !is_own_wf(table, TyId(i)) {
            assert(!table.ty_wf(TyId(i)));
            return false;
        }
        assert forall|ty: TyId| ty.0 < i + 1 implies #[trigger] own_wf(*table, ty) by {
            if ty.0 == i {
                assert(ty == TyId(i));
            }
        }
        i = i + 1;
    }
    let mut k: usize = 0;
    while k < table.types.len()
        invariant
            k <= table.types@.len(),
            forall|ty: TyId| table.has(ty) ==> #[trigger] own_wf(*table, ty),
            forall|ty: TyId| ty.0 < k ==> #[trigger] table.ty_wf(ty),
        decreases table.types@.len() - k,
    {
        let points: bool = match &table.types[k].kind {
            TyKind::Ref(inner) => is_pointee_wf(table, *inner, TyId(k)),
            TyKind::RawPtr(inner) => is_pointee_wf(table, *inner, TyId(k)),
            _ => true,
        };
        assert(own_wf(*table, TyId(k)));
        assert(points == table.ty_wf(TyId(k)));
        if !points {
            return false;
        }
        assert forall|ty: TyId| ty.0 < k + 1 implies #[trigger] table.ty_wf(ty) by {
            if ty.0 == k {
                assert(ty == TyId(k));
            }
        }
        k = k + 1;
    }
    true
}

fn is_place_wf(table: &TyTable, place: &Place) -> (r: bool)
    ensures
        r == place::place_wf(*table, *place),
{
    if !stands(table, place.ty) {
        return false;
    }
    let mut i: usize = 0;
    while i < place.projection.len()
        invariant
            i <= place.projection@.len(),
            forall|j: int|
                0 <= j < i ==> place::projection_wf(*table, #[trigger] place.projection@[j]),
        decreases place.projection@.len() - i,
    {
        let whole: bool = match &place.projection[i] {
            Projection::Field(_, ty) => stands(table, *ty),
            Projection::Cast(ty) => stands(table, *ty),
            _ => true,
        };
        if !whole {
            assert(!place::projection_wf(*table, place.projection@[i as int]));
            return false;
        }
        i = i + 1;
    }
    true
}

fn is_operand_wf(program: &Program, operand: &Operand) -> (r: bool)
    ensures
        r == operand::operand_wf(*program, *operand),
{
    stands(&program.types, operand.type_of()) && match operand {
        Operand::Copy(place) => is_place_wf(&program.types, place),
        Operand::Move(place) => is_place_wf(&program.types, place),
        _ => true,
    }
}

fn are_operands_wf(program: &Program, operands: &Vec<Operand>) -> (r: bool)
    ensures
        r == operand::operands_wf(*program, operands@),
{
    let mut i: usize = 0;
    while i < operands.len()
        invariant
            i <= operands@.len(),
            forall|j: int| 0 <= j < i ==> operand::operand_wf(*program, #[trigger] operands@[j]),
        decreases operands@.len() - i,
    {
        if !is_operand_wf(program, &operands[i]) {
            assert(!operand::operand_wf(*program, operands@[i as int]));
            return false;
        }
        i = i + 1;
    }
    true
}

fn is_rvalue_wf(program: &Program, rvalue: &Rvalue) -> (r: bool)
    ensures
        r == rvalue::rvalue_wf(*program, *rvalue),
{
    let table: &TyTable = &program.types;
    match rvalue {
        Rvalue::Use(operand) => is_operand_wf(program, operand),
        Rvalue::Ref(place) => is_place_wf(table, place),
        Rvalue::RawPtr(place) => is_place_wf(table, place),
        Rvalue::ThreadLocalRef(_, ty) => stands(table, *ty),
        Rvalue::BinaryOp(_, lhs, rhs, ty) => is_operand_wf(program, lhs) && is_operand_wf(
            program,
            rhs,
        ) && stands(table, *ty),
        Rvalue::Cast(_, operand, ty) => is_operand_wf(program, operand) && stands(table, *ty),
        Rvalue::UnaryOp(_, operand) => is_operand_wf(program, operand),
        Rvalue::Discriminant(place) => is_place_wf(table, place),
        Rvalue::Aggregate(kind, operands) => is_kind_wf(table, kind) && are_operands_wf(
            program,
            operands,
        ),
        Rvalue::Repeat(operand, _) => is_operand_wf(program, operand),
        Rvalue::Other => true,
    }
}

fn is_kind_wf(table: &TyTable, kind: &AggregateKind) -> (r: bool)
    ensures
        r == aggregate::kind_wf(*table, *kind),
{
    match kind {
        AggregateKind::Array(elem) => stands(table, *elem),
        AggregateKind::Tuple(ty) => stands(table, *ty),
        AggregateKind::Adt(ty, _) => stands(table, *ty),
        AggregateKind::Closure(ty) => stands(table, *ty),
        AggregateKind::RawPtr(pointee, ptr) => stands(table, *pointee) && stands(table, *ptr),
        AggregateKind::Other => true,
    }
}

fn is_statement_wf(program: &Program, statement: &Statement) -> (r: bool)
    ensures
        r == statement::statement_wf(*program, *statement),
{
    match statement {
        Statement::Assign(place, rvalue) => is_place_wf(&program.types, place) && is_rvalue_wf(
            program,
            rvalue,
        ),
        Statement::SetDiscriminant(place, _) => is_place_wf(&program.types, place),
        Statement::CopyNonOverlapping { src, dst, count } => is_operand_wf(program, src)
            && is_operand_wf(program, dst) && is_operand_wf(program, count),
        _ => true,
    }
}

fn is_terminator_wf(program: &Program, terminator: &Terminator) -> (r: bool)
    ensures
        r == terminator::terminator_wf(*program, *terminator),
{
    match terminator {
        Terminator::SwitchInt { discr, .. } => is_operand_wf(program, discr),
        Terminator::Call { func, args, destination, .. } => is_operand_wf(program, func)
            && are_operands_wf(program, args) && is_place_wf(&program.types, destination),
        Terminator::Drop { place, .. } => is_place_wf(&program.types, place),
        _ => true,
    }
}

fn is_block_wf(program: &Program, data: &BlockData) -> (r: bool)
    ensures
        r == function::block_wf(*program, *data),
{
    let mut i: usize = 0;
    while i < data.statements.len()
        invariant
            i <= data.statements@.len(),
            forall|j: int|
                0 <= j < i ==> statement::statement_wf(*program, #[trigger] data.statements@[j]),
        decreases data.statements@.len() - i,
    {
        if !is_statement_wf(program, &data.statements[i]) {
            assert(!statement::statement_wf(*program, data.statements@[i as int]));
            return false;
        }
        i = i + 1;
    }
    is_terminator_wf(program, &data.terminator)
}

fn is_body_wf(program: &Program, body: &Body) -> (r: bool)
    ensures
        r == function::body_wf(*program, *body),
{
    if !all_stand(&program.types, &body.locals) {
        return false;
    }
    let mut i: usize = 0;
    while i < body.blocks.len()
        invariant
            i <= body.blocks@.len(),
            forall|j: int| 0 <= j < i ==> function::block_wf(*program, #[trigger] body.blocks@[j]),
        decreases body.blocks@.len() - i,
    {
        if !is_block_wf(program, &body.blocks[i]) {
            assert(!function::block_wf(*program, body.blocks@[i as int]));
            return false;
        }
        i = i + 1;
    }
    true
}

/// Whether what an instance names stands in the program.
spec fn instance_wf(program: Program, instance: Instance) -> bool {
    &&& intrinsics::args_wf(program, instance)
    &&& function::body_wf(program, instance.body)
    &&& thunk::signature_wf(program.types, instance.signature)
}

fn is_instance_wf(program: &Program, instance: &Instance) -> (r: bool)
    ensures
        r == instance_wf(*program, *instance),
{
    let sig: &Signature = &instance.signature;
    all_stand(&program.types, &instance.args) && is_body_wf(program, &instance.body) && stands(
        &program.types,
        sig.output,
    ) && all_stand(&program.types, &sig.inputs)
}

fn are_tails_wf(program: &Program) -> (r: bool)
    ensures
        r == cast::lists_wf(*program),
{
    let mut i: usize = 0;
    while i < program.tails.len()
        invariant
            i <= program.tails@.len(),
            forall|j: int|
                0 <= j < i ==> program.types.has((#[trigger] program.tails@[j]).source_tail)
                    && program.types.has(program.tails@[j].target_tail),
        decreases program.tails@.len() - i,
    {
        if !(stands(&program.types, program.tails[i].source_tail) && stands(
            &program.types,
            program.tails[i].target_tail,
        )) {
            assert(!(program.types.has(program.tails@[i as int].source_tail) && program.types.has(
                program.tails@[i as int].target_tail,
            )));
            return false;
        }
        i = i + 1;
    }
    true
}

fn are_instances_wf(program: &Program) -> (r: bool)
    ensures
        r == forall|i: int|
            0 <= i < program.instances@.len() ==> instance_wf(
                *program,
                #[trigger] program.instances@[i],
            ),
{
    let mut i: usize = 0;
    while i < program.instances.len()
        invariant
            i <= program.instances@.len(),
            forall|j: int| 0 <= j < i ==> instance_wf(*program, #[trigger] program.instances@[j]),
        decreases program.instances@.len() - i,
    {
        if !is_instance_wf(program, &program.instances[i]) {
            assert(!instance_wf(*program, program.instances@[i as int]));
            return false;
        }
        i = i + 1;
    }
    true
}

fn are_owners_wf(program: &Program) -> (r: bool)
    ensures
        r == forall|i: int|
            0 <= i < program.owners@.len() ==> function::body_wf(
                *program,
                (#[trigger] program.owners@[i]).body,
            ),
{
    let mut i: usize = 0;
    while i < program.owners.len()
        invariant
            i <= program.owners@.len(),
            forall|j: int|
                0 <= j < i ==> function::body_wf(*program, (#[trigger] program.owners@[j]).body),
        decreases program.owners@.len() - i,
    {
        if !is_body_wf(program, &program.owners[i].body) {
            assert(!function::body_wf(*program, program.owners@[i as int].body));
            return false;
        }
        i = i + 1;
    }
    true
}

/// Whether a program can be imported: it hangs together, names the five
/// functions of the allocator, and its entry point is one of its functions.
pub fn is_well_formed(program: &Program) -> (r: bool)
    ensures
        r == importer::crate_wf(*program),
{
    let whole: bool = is_table_well_formed(&program.types) && are_tails_wf(program)
        && are_instances_wf(program) && are_owners_wf(program);
    proof {
        if module::program_wf(*program) {
            assert forall|i: int| 0 <= i < program.instances@.len() implies instance_wf(
                *program,
                #[trigger] program.instances@[i],
            ) by {}
        }
        if whole {
            assert forall|i: int| 0 <= i < program.instances@.len() implies intrinsics::args_wf(
                *program,
                #[trigger] program.instances@[i],
            ) && function::body_wf(*program, program.instances@[i].body) && thunk::signature_wf(
                program.types,
                program.instances@[i].signature,
            ) by {
                assert(instance_wf(*program, program.instances@[i]));
            }
        }
        assert(whole == module::program_wf(*program));
    }
    let entry: bool = match program.entry {
        None => true,
        Some(entry) => entry < program.owners.len() && program.owners[entry].is_codegen
            && !program.owners[entry].is_generic,
    };
    whole && program.allocator.len() == 5 && entry
}

} // verus!
