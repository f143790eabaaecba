//! Calls.

use crate::callee;
use crate::callee::{
    call_fn_def, call_instance, call_symbol, is_arguments_from_str_call, is_noop_intrinsic_call,
    is_unreachable_unchecked_call, is_upstream_call, split_dyn_receiver,
};
use crate::cast;
use crate::cast::{spill, word_count};
use crate::convert;
use crate::convert::{convert_return_ty, convert_ty, fmt_arguments_ty, llvm_ptr_ty, usize_ty};
use crate::error::Failure;
use crate::foreign;
use crate::foreign::load_value_from_real_layout;
use crate::intrinsics;
use crate::intrinsics::{lower_known_intrinsic_call, value_types};
use crate::ir::{BlockId, Context, Meaning, Value};
use crate::layout;
use crate::layout::rustc_layout_size_of_ty;
use crate::meaning;
use crate::meaning::{
    put_arith, put_call, put_cast, put_field, put_goto, put_indirect_call, put_load, put_offset,
    put_pair, put_size, put_store, put_unreachable, value_has_field, Arith, Step,
};
use crate::mir::{InstanceKind, Operand, Place, Program};
use crate::need;
use crate::need::{should_import_instance, Asked, Demand, Effect, Lost, Lowered, Need, Needs, Purpose};
use crate::operand;
use crate::operand::{import_operand, write_place, Scene, Site};
use crate::ox;
use crate::passing;
use crate::passing::put_passed;
use crate::place;
use crate::place::{
    block_for, converted_field_index, normalize_bool_for_storage, place_slot_opt,
};
use crate::sem::Moment;
use crate::statement;
use crate::ty::{TyId, TyKind, TyTable};
use crate::types;
use crate::types::TypeHandle;
use vstd::prelude::*;

verus! {

/// What a call hands to the callee, and what preparing it needs and does.
pub struct Handed {
    pub args: Seq<Meaning>,
    /// The method table of the receiver of a call through one.
    pub methods: Option<Meaning>,
    pub needs: Seq<Asked>,
    pub steps: Seq<Step>,
}

/// The elements of a tuple, each passed on its own.
pub open spec fn passed_elements(
    table: TyTable,
    at: Moment,
    tuple: TyId,
    elems: Seq<TyId>,
    value: Meaning,
    count: nat,
) -> Result<(Seq<Meaning>, Seq<Step>), Failure>
    decreases count,
{
    if count == 0 {
        Ok((Seq::empty(), Seq::empty()))
    } else {
        match passed_elements(table, at, tuple, elems, value, (count - 1) as nat) {
            Err(failure) => Err(failure),
            Ok((args, steps)) => match place::field_index(table, tuple, (count - 1) as usize) {
                Err(failure) => Err(failure),
                Ok(index) => match convert::converted(table, elems[count - 1]) {
                    Err(failure) => Err(failure),
                    Ok(_) => if !meaning::has_field(value, index) {
                        Err(Failure::Malformed)
                    } else {
                        match passing::passed(
                            meaning::later(at, steps.len()),
                            meaning::field(value, index),
                        ) {
                            Err(failure) => Err(failure),
                            Ok((more, further)) => Ok((args + more, steps + further)),
                        }
                    },
                },
            },
        }
    }
}

/// A failure among the first elements is one of all.
proof fn lemma_elements_fail(
    table: TyTable,
    at: Moment,
    tuple: TyId,
    elems: Seq<TyId>,
    value: Meaning,
    from: nat,
    to: nat,
)
    requires
        from <= to,
        passed_elements(table, at, tuple, elems, value, from) is Err,
    ensures
        passed_elements(table, at, tuple, elems, value, to) == passed_elements(
            table,
            at,
            tuple,
            elems,
            value,
            from,
        ),
    decreases to,
{
    if from < to {
        lemma_elements_fail(table, at, tuple, elems, value, from, (to - 1) as nat);
    }
}

/// Whether arguments were appended as they should.
spec fn handed_on(
    new: (Context, Seq<Value>),
    old: (Context, Seq<Value>),
    block: BlockId,
    r: Result<(), Failure>,
    want: Result<(Seq<Meaning>, Seq<Step>), Failure>,
) -> bool {
    match want {
        Ok((args, steps)) => {
            &&& r is Ok
            &&& meaning::meanings(new.1) == meaning::meanings(old.1) + args
            &&& new.0.ran_since(old.0, block, steps)
        },
        Err(failure) => {
            &&& r == Err::<(), Failure>(failure)
            &&& new.0.touched_since(old.0, block)
        },
    }
}

fn put_passed_elements(
    table: &TyTable,
    ctx: &mut Context,
    block: BlockId,
    tuple: TyId,
    elems: &Vec<TyId>,
    value: Value,
    out: &mut Vec<Value>,
) -> (r: Result<(), Failure>)
    requires
        table.wf(),
        table.has(tuple),
        forall|i: int| 0 <= i < elems@.len() ==> table.has(#[trigger] elems@[i]),
        old(ctx).wf(),
        old(ctx).has_block(block),
        old(ctx).has(value),
        forall|i: int| 0 <= i < old(out)@.len() ==> old(ctx).has(#[trigger] old(out)@[i]),
    ensures
        forall|i: int| 0 <= i < final(out)@.len() ==> final(ctx).has(#[trigger] final(out)@[i]),
        handed_on(
            (*final(ctx), final(out)@),
            (*old(ctx), old(out)@),
            block,
            r,
            passed_elements(
                *table,
                old(ctx)@.now(block),
                tuple,
                elems@,
                value.meaning@,
                elems@.len(),
            ),
        ),
{
    let ghost before = *ctx;
    let ghost at = ctx@.now(block);
    let ghost m = value.meaning@;
    let mut i: usize = 0;
    proof {
        ctx.lemma_computed(before, block);
        assert(meaning::meanings(out@) =~= meaning::meanings(old(out)@) + Seq::<Meaning>::empty());
    }
    while i < elems.len()
        invariant
            i <= elems@.len(),
            table.wf(),
            table.has(tuple),
            forall|k: int| 0 <= k < elems@.len() ==> table.has(#[trigger] elems@[k]),
            before == *old(ctx),
            before.has_block(block),
            at == before@.now(block),
            m == value.meaning@,
            ctx.wf(),
            ctx.has_block(block),
            ctx.has(value),
            forall|k: int| 0 <= k < out@.len() ==> ctx.has(#[trigger] out@[k]),
            passed_elements(*table, at, tuple, elems@, m, i as nat) matches Ok((args, steps))
                && meaning::meanings(out@) == meaning::meanings(old(out)@) + args && ctx.ran_since(
                before,
                block,
                steps,
            ),
        decreases elems@.len() - i,
    {
        let ghost middle = *ctx;
        let ghost (args, steps) = passed_elements(*table, at, tuple, elems@, m, i as nat)->Ok_0;
        proof {
            ctx.lemma_time(before, block, steps);
            if passed_elements(*table, at, tuple, elems@, m, (i + 1) as nat) is Err {
                lemma_elements_fail(*table, at, tuple, elems@, m, (i + 1) as nat, elems@.len());
            }
        }
        let index: u32 = converted_field_index(table, tuple, i)?;
        convert_ty(table, elems[i])?;
        if !value_has_field(ctx, value, index) {
            return Err(Failure::Malformed);
        }
        let element: Value = put_field(ctx, block, value, index);
        let ghost picked = *ctx;
        put_passed(ctx, block, element, out)?;
        proof {
            let (more, further) = passing::passed(picked@.now(block), element.meaning@)->Ok_0;
            ctx.lemma_computed_ran(picked, middle, block, further);
            ctx.lemma_ran(middle, before, block, steps, further);
            ctx.lemma_time(before, block, steps + further);
            assert(meaning::meanings(out@) =~= meaning::meanings(old(out)@) + (args + more));
        }
        i = i + 1;
    }
    Ok(())
}

/// How an argument is passed: the receiver of a call through a method table
/// as the pointer in it, a tuple that is taken apart as its elements, and
/// anything else as it is. The method table comes with the receiver.
pub open spec fn passed_argument(
    table: TyTable,
    at: Moment,
    receiver: bool,
    apart: bool,
    ty: TyId,
    value: Meaning,
) -> Result<(Seq<Meaning>, Seq<Step>, Option<Meaning>), Failure> {
    let flat = if receiver {
        match callee::split_receiver(value.ty, value) {
            Err(failure) => Err(failure),
            Ok((data, _)) => passing::passed(at, data),
        }
    } else if apart {
        match table.kind(table.runtime(ty)) {
            TyKind::Tuple(elems) => passed_elements(table, at, ty, elems@, value, elems@.len()),
            _ => Err(Failure::RustCallTuple(ty)),
        }
    } else {
        passing::passed(at, value)
    };
    match flat {
        Err(failure) => Err(failure),
        Ok((args, steps)) => Ok(
            (
                args,
                steps,
                if receiver {
                    match callee::split_receiver(value.ty, value) {
                        Err(_) => None,
                        Ok((_, methods)) => Some(methods),
                    }
                } else {
                    None
                },
            ),
        ),
    }
}

fn put_passed_argument(
    table: &TyTable,
    ctx: &mut Context,
    block: BlockId,
    receiver: bool,
    apart: bool,
    ty: TyId,
    value: Value,
    out: &mut Vec<Value>,
) -> (r: Result<Option<Value>, Failure>)
    requires
        table.wf(),
        table.has(ty),
        old(ctx).wf(),
        old(ctx).has_block(block),
        old(ctx).has(value),
        forall|i: int| 0 <= i < old(out)@.len() ==> old(ctx).has(#[trigger] old(out)@[i]),
    ensures
        forall|i: int| 0 <= i < final(out)@.len() ==> final(ctx).has(#[trigger] final(out)@[i]),
        match passed_argument(
            *table,
            old(ctx)@.now(block),
            receiver,
            apart,
            ty,
            value.meaning@,
        ) {
            Ok((args, steps, methods)) => {
                &&& r matches Ok(found) && meaning::meaning_of(found) == methods && (
                found matches Some(v) ==> final(ctx).has(v))
                &&& meaning::meanings(final(out)@) == meaning::meanings(old(out)@) + args
                &&& final(ctx).ran_since(*old(ctx), block, steps)
            },
            Err(failure) => {
                &&& r == Err::<Option<Value>, Failure>(failure)
                &&& final(ctx).touched_since(*old(ctx), block)
            },
        },
{
    let ghost before = *ctx;
    if receiver {
        let receiver_ty: TypeHandle = ctx.type_of(value);
        let (data, methods): (Value, Value) = split_dyn_receiver(ctx, block, &receiver_ty, value)?;
        let ghost middle = *ctx;
        put_passed(ctx, block, data, out)?;
        proof {
            let (args, steps) = passing::passed(before@.now(block), data.meaning@)->Ok_0;
            ctx.lemma_computed_ran(middle, before, block, steps);
        }
        return Ok(Some(methods));
    }
    if apart {
        let runtime: TyId = table.runtime_ty(ty);
        proof {
            assert(table.ty_wf(runtime));
        }
        match &table.types[runtime.0].kind {
            TyKind::Tuple(elems) => {
                put_passed_elements(table, ctx, block, ty, elems, value, out)?;
            },
            _ => return Err(Failure::RustCallTuple(ty)),
        }
        return Ok(None);
    }
    put_passed(ctx, block, value, out)?;
    Ok(None)
}

/// How an argument of a call is handed on.
#[verifier::opaque]
pub open spec fn handed_one(
    scene: Scene,
    at: Moment,
    receiver: bool,
    apart: bool,
    arg: Operand,
) -> Result<Handed, Lost> {
    match operand::operand_value(scene, at, arg) {
        Err(failure) => Err(failure.at_once()),
        Ok(value) => match passed_argument(
            scene.program.types,
            at,
            receiver,
            apart,
            arg.ty(),
            value.value,
        ) {
            Err(failure) => Err(failure.after(value.needs)),
            Ok((args, steps, methods)) => Ok(Handed { args, methods, needs: value.needs, steps }),
        },
    }
}

fn put_handed_one(
    site: &Site,
    ctx: &mut Context,
    block: BlockId,
    needs: &mut Needs,
    receiver: bool,
    apart: bool,
    arg: &Operand,
    out: &mut Vec<Value>,
) -> (r: Result<Option<Value>, Failure>)
    requires
        site.ready(*old(ctx), block),
        operand::operand_wf(*site.program, *arg),
        forall|i: int| 0 <= i < old(out)@.len() ==> old(ctx).has(#[trigger] old(out)@[i]),
    ensures
        forall|i: int| 0 <= i < final(out)@.len() ==> final(ctx).has(#[trigger] final(out)@[i]),
        r matches Ok(Some(v)) ==> final(ctx).has(v),
        match handed_one(site.scene(), old(ctx)@.now(block), receiver, apart, *arg) {
            Ok(want) => {
                &&& r matches Ok(found) && meaning::meaning_of(found) == want.methods
                &&& meaning::meanings(final(out)@) == meaning::meanings(old(out)@) + want.args
                &&& need::took(
                    (*final(ctx), final(needs)@),
                    (*old(ctx), old(needs)@),
                    block,
                    want.effect(),
                )
            },
            Err(lost) => {
                &&& r == Err::<Option<Value>, Failure>(lost.why)
                &&& final(ctx).touched_since(*old(ctx), block)
                &&& final(needs)@ == old(needs)@ + lost.needs
            },
        },
{
    let ghost before = *ctx;
    proof {
        reveal(handed_one);
    }
    let value: Value = import_operand(site, ctx, block, needs, arg)?;
    let ghost middle = *ctx;
    let found: Option<Value> = put_passed_argument(
        &site.program.types,
        ctx,
        block,
        receiver,
        apart,
        arg.type_of(),
        value,
        out,
    )?;
    proof {
        let steps = passed_argument(
            site.program.types,
            before@.now(block),
            receiver,
            apart,
            arg.ty(),
            value.meaning@,
        )->Ok_0.1;
        ctx.lemma_computed_ran(middle, before, block, steps);
    }
    Ok(found)
}

impl Handed {
    /// What handing the arguments on needs and does.
    pub open spec fn effect(self) -> Effect {
        Effect { needs: self.needs, steps: self.steps }
    }

    /// The arguments of a call with one more.
    pub open spec fn and(self, next: Handed) -> Handed {
        Handed {
            args: self.args + next.args,
            methods: match self.methods {
                Some(methods) => Some(methods),
                None => next.methods,
            },
            needs: self.needs + next.needs,
            steps: self.steps + next.steps,
        }
    }
}

/// What a call hands to the callee: the first so many of its arguments, each
/// prepared once those before it are.
pub open spec fn handed(
    scene: Scene,
    at: Moment,
    through_table: bool,
    apart: bool,
    args: Seq<Operand>,
    count: nat,
) -> Result<Handed, Lost>
    decreases count,
{
    if count == 0 {
        Ok(
            Handed {
                args: Seq::empty(),
                methods: None,
                needs: Seq::empty(),
                steps: Seq::empty(),
            },
        )
    } else {
        match handed(scene, at, through_table, apart, args, (count - 1) as nat) {
            Err(lost) => Err(lost),
            Ok(so_far) => match handed_one(
                scene,
                meaning::later(at, so_far.steps.len()),
                through_table && count == 1,
                apart && count == args.len(),
                args[count - 1],
            ) {
                Err(lost) => Err(lost.after(so_far.needs)),
                Ok(next) => Ok(so_far.and(next)),
            },
        }
    }
}

/// A failure among the first arguments is one of all.
proof fn lemma_handed_fail(
    scene: Scene,
    at: Moment,
    through_table: bool,
    apart: bool,
    args: Seq<Operand>,
    from: nat,
    to: nat,
)
    requires
        from <= to,
        handed(scene, at, through_table, apart, args, from) is Err,
    ensures
        handed(scene, at, through_table, apart, args, to) == handed(
            scene,
            at,
            through_table,
            apart,
            args,
            from,
        ),
    decreases to,
{
    if from < to {
        lemma_handed_fail(scene, at, through_table, apart, args, from, (to - 1) as nat);
    }
}

/// Whether arguments are those that a call should hand on.
spec fn hands(
    new: (Context, Seq<Asked>),
    old: (Context, Seq<Asked>),
    block: BlockId,
    values: Seq<Value>,
    methods: Option<Value>,
    want: Handed,
) -> bool {
    &&& meaning::meanings(values) == want.args
    &&& meaning::meaning_of(methods) == want.methods
    &&& need::took(new, old, block, want.effect())
}

proof fn lemma_hands(
    new: (Context, Seq<Asked>),
    middle: (Context, Seq<Asked>),
    old: (Context, Seq<Asked>),
    block: BlockId,
    values: (Seq<Value>, Seq<Value>),
    methods: (Option<Value>, Option<Value>),
    so_far: Handed,
    next: Handed,
)
    requires
        old.0.has_block(block),
        hands(middle, old, block, values.0, methods.0, so_far),
        need::took(new, middle, block, next.effect()),
        meaning::meanings(values.1) == meaning::meanings(values.0) + next.args,
        meaning::meaning_of(methods.1) == so_far.and(next).methods,
    ensures
        hands(new, old, block, values.1, methods.1, so_far.and(next)),
{
    need::lemma_joined(new, middle, old, block, so_far.effect(), next.effect());
    assert(need::joined(so_far.effect(), next.effect()) == so_far.and(next).effect());
}

fn put_handed(
    site: &Site,
    ctx: &mut Context,
    block: BlockId,
    needs: &mut Needs,
    through_table: bool,
    apart: bool,
    args: &Vec<Operand>,
) -> (r: Result<(Vec<Value>, Option<Value>), Failure>)
    requires
        site.ready(*old(ctx), block),
        operand::operands_wf(*site.program, args@),
    ensures
        match handed(
            site.scene(),
            old(ctx)@.now(block),
            through_table,
            apart,
            args@,
            args@.len(),
        ) {
            Ok(want) => {
                &&& r matches Ok((values, methods)) && hands(
                    (*final(ctx), final(needs)@),
                    (*old(ctx), old(needs)@),
                    block,
                    values@,
                    methods,
                    want,
                ) && (methods matches Some(v) ==> final(ctx).has(v)) && forall|i: int|
                    0 <= i < values@.len() ==> final(ctx).has(#[trigger] values@[i])
            },
            Err(lost) => {
                &&& r matches Err(other) && other == lost.why
                &&& final(ctx).touched_since(*old(ctx), block)
                &&& final(needs)@ == old(needs)@ + lost.needs
            },
        },
{
    let ghost before = *ctx;
    let ghost at = ctx@.now(block);
    let ghost scene = site.scene();
    let ghost asked = needs@;
    let mut values: Vec<Value> = Vec::new();
    let mut methods: Option<Value> = None;
    let mut i: usize = 0;
    proof {
        ctx.lemma_computed(before, block);
        assert(meaning::meanings(values@) =~= Seq::<Meaning>::empty());
        assert(needs@ =~= asked + Seq::<Asked>::empty());
    }
    while i < args.len()
        invariant
            i <= args@.len(),
            before == *old(ctx),
            before.has_block(block),
            asked == old(needs)@,
            at == before@.now(block),
            scene == site.scene(),
            operand::operands_wf(*site.program, args@),
            site.ready(*ctx, block),
            forall|k: int| 0 <= k < values@.len() ==> ctx.has(#[trigger] values@[k]),
            methods matches Some(v) ==> ctx.has(v),
            handed(scene, at, through_table, apart, args@, i as nat) matches Ok(so_far) && hands(
                (*ctx, needs@),
                (before, asked),
                block,
                values@,
                methods,
                so_far,
            ),
        decreases args@.len() - i,
    {
        let ghost middle = *ctx;
        let ghost middle_needs = needs@;
        let ghost middle_values = values@;
        let ghost middle_methods = methods;
        let ghost so_far = handed(scene, at, through_table, apart, args@, i as nat)->Ok_0;
        proof {
            ctx.lemma_time(before, block, so_far.steps);
            if handed(scene, at, through_table, apart, args@, (i + 1) as nat) is Err {
                lemma_handed_fail(
                    scene,
                    at,
                    through_table,
                    apart,
                    args@,
                    (i + 1) as nat,
                    args@.len(),
                );
            }
        }
        let found: Option<Value> = put_handed_one(
            site,
            ctx,
            block,
            needs,
            through_table && i == 0,
            apart && i + 1 == args.len(),
            &args[i],
            &mut values,
        )?;
        if methods.is_none() {
            methods = found;
        }
        proof {
            let next = handed_one(
                scene,
                meaning::later(at, so_far.steps.len()),
                through_table && i == 0,
                apart && i + 1 == args.len(),
                args@[i as int],
            )->Ok_0;
            lemma_hands(
                (*ctx, needs@),
                (middle, middle_needs),
                (before, asked),
                block,
                (middle_values, values@),
                (middle_methods, methods),
                so_far,
                next,
            );
            site.lemma_ready(*ctx, middle, block);
        }
        i = i + 1;
    }
    Ok((values, methods))
}

/// The slot of a method table that a call goes through.
pub open spec fn table_slot(program: Program, func: Operand) -> Option<u64> {
    match callee::called_index(program, func) {
        Some(index) => match program.instances@[index as int].kind {
            InstanceKind::Virtual(slot) => Some(slot),
            _ => None,
        },
        None => None,
    }
}

fn find_table_slot(program: &Program, func: &Operand) -> (r: Option<u64>)
    requires
        program.types.wf(),
        program.types.has(func.ty()),
    ensures
        r == table_slot(*program, *func),
{
    match call_instance(program, func) {
        Some(index) => match program.instances[index].kind {
            InstanceKind::Virtual(slot) => Some(slot),
            _ => None,
        },
        None => None,
    }
}

/// The pointer that a call goes through, where it calls no function item.
pub open spec fn called_pointer(scene: Scene, at: Moment, func: Operand) -> Result<
    Option<Lowered>,
    Failure,
> {
    match callee::called_item(scene.program, func) {
        Some(_) => Ok(None),
        None => match operand::operand_value(scene, at, func) {
            Err(failure) => Err(failure),
            Ok(lowered) => Ok(Some(lowered)),
        },
    }
}

/// Whether a call takes its last argument apart.
pub open spec fn takes_apart(program: Program, func: Operand) -> bool {
    callee::called_item(program, func) matches Some(item) && item.is_rust_call
}

/// The type of what a call hands back, where its destination has storage.
pub open spec fn call_result(scene: Scene, dest: Place) -> Result<Option<TypeHandle>, Failure> {
    match place::plain_slot(scene.slots, dest) {
        Err(failure) => Err(failure),
        Ok(None) => Ok(None),
        Ok(Some(_)) => match place::local_ty(scene.locals, dest.local) {
            Err(failure) => Err(failure),
            Ok(ty) => convert::returned(scene.program.types, ty),
        },
    }
}

fn call_result_of(site: &Site, ctx: &Context, dest: &Place) -> (r: Result<
    Option<TypeHandle>,
    Failure,
>)
    requires
        site.program.types.wf(),
        place::locals_wf(site.program.types, site.body.locals@),
        site.state.fits(*ctx),
    ensures
        r == call_result(site.scene(), *dest),
{
    match place_slot_opt(ctx, site.state, dest)? {
        None => Ok(None),
        Some(_) => {
            if dest.local < site.body.locals.len() {
                convert_return_ty(&site.program.types, site.body.locals[dest.local])
            } else {
                Err(Failure::UnknownLocal(dest.local))
            }
        },
    }
}

/// Whether values of a type look otherwise in code that other compilers made.
pub open spec fn is_layout_sensitive(table: TyTable, ty: TyId) -> bool {
    match table.kind(table.runtime(ty)) {
        TyKind::Adt { .. } => true,
        TyKind::Closure { .. } => true,
        TyKind::Array(_, _) => true,
        TyKind::Tuple(fields) => fields@.len() > 0,
        _ => false,
    }
}

fn has_sensitive_layout(table: &TyTable, ty: TyId) -> (r: bool)
    requires
        table.wf(),
        table.has(ty),
    ensures
        r == is_layout_sensitive(*table, ty),
{
    let runtime: TyId = table.runtime_ty(ty);
    match &table.types[runtime.0].kind {
        TyKind::Adt { .. } => true,
        TyKind::Closure { .. } => true,
        TyKind::Array(_, _) => true,
        TyKind::Tuple(fields) => fields.len() > 0,
        _ => false,
    }
}

/// The words in which a function of another crate hands back a value whose
/// layout is not known to it.
pub open spec fn raw_result(scene: Scene, dest: Place, result: Option<TypeHandle>) -> Result<
    Option<TypeHandle>,
    Failure,
> {
    match result {
        None => Ok(None),
        Some(_) => match place::local_ty(scene.locals, dest.local) {
            Err(failure) => Err(failure),
            Ok(ty) => if is_layout_sensitive(scene.program.types, ty) {
                match layout::real_size(scene.program.types, ty) {
                    Err(failure) => Err(failure),
                    Ok(size) => Ok(
                        Some(types::array_of(types::unsigned(64), cast::words_for(size))),
                    ),
                }
            } else {
                Ok(None)
            },
        },
    }
}

fn raw_result_of(site: &Site, dest: &Place, result: &Option<TypeHandle>) -> (r: Result<
    Option<TypeHandle>,
    Failure,
>)
    requires
        site.program.types.wf(),
        place::locals_wf(site.program.types, site.body.locals@),
    ensures
        r == raw_result(site.scene(), *dest, *result),
{
    if result.is_none() {
        return Ok(None);
    }
    if dest.local >= site.body.locals.len() {
        return Err(Failure::UnknownLocal(dest.local));
    }
    let ty: TyId = site.body.locals[dest.local];
    if !has_sensitive_layout(&site.program.types, ty) {
        return Ok(None);
    }
    let size: u64 = rustc_layout_size_of_ty(&site.program.types, ty)?;
    Ok(Some(TypeHandle::array(usize_ty(), word_count(size))))
}

/// A call, what it needs, and what it hands back: nothing, a value of a type,
/// or the words of one.
pub struct Called {
    pub needs: Seq<Asked>,
    pub step: Step,
    pub reply: Option<TypeHandle>,
    pub raw: bool,
}

/// A call through a slot of a method table.
pub open spec fn table_call(
    at: Moment,
    slot: u64,
    handed: Handed,
    result: Option<TypeHandle>,
) -> Result<Called, Failure> {
    match handed.methods {
        None => Err(Failure::VirtualReceiver),
        Some(methods) => if slot * 8 > u64::MAX {
            Err(Failure::TooLarge)
        } else {
            let entry = meaning::moved(
                methods,
                meaning::constant(types::unsigned(64), (slot * 8) as u128),
            );
            Ok(
                Called {
                    needs: Seq::empty(),
                    step: meaning::indirect_step(
                        meaning::loaded(at, entry, types::pointer()),
                        handed.args,
                        result,
                    ),
                    reply: ox::indirect_result(result),
                    raw: false,
                },
            )
        },
    }
}

/// A call of a function by its symbol: one of which the body is imported, one
/// of another crate, or one of this crate.
pub open spec fn direct_call(
    scene: Scene,
    at: Moment,
    func: Operand,
    dest: Place,
    args: Seq<Meaning>,
    result: Option<TypeHandle>,
) -> Result<Called, Failure> {
    let program = scene.program;
    match callee::called_symbol(program, func) {
        Err(failure) => Err(failure),
        Ok(symbol) => match imported_index(program, func) {
            Some(index) => Ok(
                Called {
                    needs: need::asking(at, Demand::Function(index, Purpose::Call)),
                    step: meaning::call_step(symbol, args, result),
                    reply: result,
                    raw: false,
                },
            ),
            None => if callee::is_upstream(program, func) {
                match raw_result(scene, dest, result) {
                    Err(failure) => Err(failure),
                    Ok(words) => {
                        let reply = match words {
                            Some(ty) => Some(ty),
                            None => result,
                        };
                        Ok(
                            Called {
                                needs: need::asking(
                                    at,
                                    Demand::Declare {
                                        symbol,
                                        inputs: intrinsics::types_of(args),
                                        result: reply,
                                    },
                                ),
                                step: meaning::call_step(symbol, args, reply),
                                reply,
                                raw: words is Some,
                            },
                        )
                    },
                }
            } else {
                Ok(
                    Called {
                        needs: Seq::empty(),
                        step: meaning::call_step(symbol, args, result),
                        reply: result,
                        raw: false,
                    },
                )
            },
        },
    }
}

/// The instance that a call calls, where its body is imported.
pub open spec fn imported_index(program: Program, func: Operand) -> Option<usize> {
    match callee::called_index(program, func) {
        Some(index) => if need::is_importable(program.instances@[index as int].kind) {
            Some(index)
        } else {
            None
        },
        None => None,
    }
}

/// A call: through a method table, through a pointer or by symbol.
#[verifier::opaque]
pub open spec fn dispatched(
    scene: Scene,
    at: Moment,
    func: Operand,
    dest: Place,
    pointer: Option<Meaning>,
    handed: Handed,
    result: Option<TypeHandle>,
) -> Result<Called, Failure> {
    match table_slot(scene.program, func) {
        Some(slot) => table_call(at, slot, handed, result),
        None => match pointer {
            Some(pointer) => Ok(
                Called {
                    needs: Seq::empty(),
                    step: meaning::indirect_step(pointer, handed.args, result),
                    reply: ox::indirect_result(result),
                    raw: false,
                },
            ),
            None => direct_call(scene, at, func, dest, handed.args, result),
        },
    }
}

/// Whether a call was made as it should.
spec fn calls(
    new: (Context, Seq<Asked>),
    old: (Context, Seq<Asked>),
    block: BlockId,
    r: Result<(Option<Value>, bool), Failure>,
    want: Result<Called, Failure>,
) -> bool {
    match want {
        Ok(called) => {
            &&& r matches Ok((reply, raw)) && raw == called.raw && meaning::meaning_of(reply)
                == meaning::reply_of(old.0@.now(block), called.reply) && (reply matches Some(v)
                ==> new.0.has(v))
            &&& need::took(
                new,
                old,
                block,
                Effect { needs: called.needs, steps: seq![called.step] },
            )
        },
        Err(failure) => {
            &&& r matches Err(other) && other == failure
            &&& new.0.touched_since(old.0, block)
            &&& new.1 == old.1
        },
    }
}

fn put_direct_call(
    site: &Site,
    ctx: &mut Context,
    block: BlockId,
    needs: &mut Needs,
    func: &Operand,
    dest: &Place,
    args: Vec<Value>,
    result: Option<TypeHandle>,
) -> (r: Result<(Option<Value>, bool), Failure>)
    requires
        site.ready(*old(ctx), block),
        operand::operand_wf(*site.program, *func),
        forall|i: int| 0 <= i < args@.len() ==> old(ctx).has(#[trigger] args@[i]),
    ensures
        calls(
            (*final(ctx), final(needs)@),
            (*old(ctx), old(needs)@),
            block,
            r,
            direct_call(
                site.scene(),
                old(ctx)@.now(block),
                *func,
                *dest,
                meaning::meanings(args@),
                result,
            ),
        ),
{
    let ghost asked = needs@;
    let callee: String = call_symbol(site.program, func)?;
    let ghost symbol = callee@;
    match call_instance(site.program, func) {
        Some(index) => if should_import_instance(&site.program.instances[index]) {
            needs.ask(ctx, block, Need::Function(index, Purpose::Call));
            let reply: Option<Value> = put_call(ctx, block, callee, args, result);
            return Ok((reply, false));
        },
        None => {},
    }
    if is_upstream_call(site.program, func) {
        let words: Option<TypeHandle> = raw_result_of(site, dest, &result)?;
        let raw: bool = words.is_some();
        let handed_back: Option<TypeHandle> = match words {
            Some(ty) => Some(ty),
            None => result,
        };
        let inputs: Vec<TypeHandle> = value_types(ctx, &args);
        let declared: Option<TypeHandle> = match &handed_back {
            Some(ty) => Some(ty.clone()),
            None => None,
        };
        needs.ask(
            ctx,
            block,
            Need::Declare { symbol: callee.clone(), inputs, result: declared },
        );
        let reply: Option<Value> = put_call(ctx, block, callee, args, handed_back);
        return Ok((reply, raw));
    }
    assert(needs@ =~= asked + Seq::<Asked>::empty());
    let reply: Option<Value> = put_call(ctx, block, callee, args, result);
    Ok((reply, false))
}

fn put_dispatched(
    site: &Site,
    ctx: &mut Context,
    block: BlockId,
    needs: &mut Needs,
    func: &Operand,
    dest: &Place,
    pointer: Option<Value>,
    args: Vec<Value>,
    methods: Option<Value>,
    Ghost(given): Ghost<Handed>,
    result: Option<TypeHandle>,
) -> (r: Result<(Option<Value>, bool), Failure>)
    requires
        site.ready(*old(ctx), block),
        operand::operand_wf(*site.program, *func),
        forall|i: int| 0 <= i < args@.len() ==> old(ctx).has(#[trigger] args@[i]),
        methods matches Some(v) ==> old(ctx).has(v),
        pointer matches Some(v) ==> old(ctx).has(v),
        meaning::meanings(args@) == given.args,
        meaning::meaning_of(methods) == given.methods,
    ensures
        calls(
            (*final(ctx), final(needs)@),
            (*old(ctx), old(needs)@),
            block,
            r,
            dispatched(
                site.scene(),
                old(ctx)@.now(block),
                *func,
                *dest,
                meaning::meaning_of(pointer),
                given,
                result,
            ),
        ),
{
    let ghost before = *ctx;
    proof {
        reveal(dispatched);
        assert(needs@ =~= old(needs)@ + Seq::<Asked>::empty());
    }
    match find_table_slot(site.program, func) {
        Some(slot) => {
            let table: Value = match methods {
                Some(table) => table,
                None => return Err(Failure::VirtualReceiver),
            };
            let bytes: u64 = match slot.checked_mul(8) {
                Some(bytes) => bytes,
                None => return Err(Failure::TooLarge),
            };
            let offset: Value = put_size(ctx, block, bytes);
            let entry: Value = put_offset(ctx, block, table, offset);
            let target: Value = put_load(ctx, block, entry, &llvm_ptr_ty());
            let ghost middle = *ctx;
            let reply: Option<Value> = put_indirect_call(ctx, block, target, args, result);
            proof {
                ctx.lemma_computed_ran(
                    middle,
                    before,
                    block,
                    seq![meaning::indirect_step(target.meaning@, given.args, result)],
                );
            }
            Ok((reply, false))
        },
        None => match pointer {
            Some(pointer) => {
                let reply: Option<Value> = put_indirect_call(ctx, block, pointer, args, result);
                Ok((reply, false))
            },
            None => put_direct_call(site, ctx, block, needs, func, dest, args, result),
        },
    }
}

/// What storing what a call handed back does. The moment is that of the call.
#[verifier::opaque]
pub open spec fn received(scene: Scene, at: Moment, dest: Place, called: Called) -> Result<
    Seq<Step>,
    Failure,
> {
    let table = scene.program.types;
    match (place::plain_slot(scene.slots, dest), called.reply) {
        (Err(failure), _) => Err(failure),
        (Ok(slot), None) => Ok(Seq::empty()),
        (Ok(slot), Some(ty)) => match place::local_ty(scene.locals, dest.local) {
            Err(failure) => Err(failure),
            Ok(local) => {
                let reply = meaning::replied(at, ty);
                let now = meaning::later(at, 1);
                let then = meaning::later(at, 3);
                if called.raw {
                    match foreign::real_value(table, local, then, meaning::slot_at(now, ty)) {
                        Err(failure) => Err(failure),
                        Ok(value) => match scene.write(then, dest, value) {
                            Err(failure) => Err(failure),
                            Ok(step) => Ok(cast::spilled(now, ty, reply).push(step)),
                        },
                    }
                } else {
                    match slot {
                        None => Ok(Seq::empty()),
                        Some(slot) => Ok(
                            seq![
                                Step::Store {
                                    addr: slot,
                                    value: place::as_stored(table, local, reply),
                                },
                            ],
                        ),
                    }
                }
            },
        },
    }
}

fn put_received(
    site: &Site,
    ctx: &mut Context,
    block: BlockId,
    dest: &Place,
    reply: Option<Value>,
    raw: bool,
    Ghost(at): Ghost<Moment>,
    Ghost(called): Ghost<Called>,
) -> (r: Result<(), Failure>)
    requires
        site.ready(*old(ctx), block),
        place::place_wf(site.program.types, *dest),
        reply matches Some(v) ==> old(ctx).has(v),
        raw == called.raw,
        meaning::meaning_of(reply) == meaning::reply_of(at, called.reply),
        old(ctx)@.now(block) == meaning::later(at, 1),
    ensures
        match received(site.scene(), at, *dest, called) {
            Ok(steps) => r is Ok && final(ctx).ran_since(*old(ctx), block, steps),
            Err(failure) => r == Err::<(), Failure>(failure) && final(ctx).touched_since(
                *old(ctx),
                block,
            ),
        },
{
    let ghost before = *ctx;
    proof {
        reveal(received);
        ctx.lemma_computed(before, block);
    }
    let slot: Option<Value> = place_slot_opt(ctx, site.state, dest)?;
    let reply: Value = match reply {
        Some(reply) => reply,
        None => return Ok(()),
    };
    if dest.local >= site.body.locals.len() {
        return Err(Failure::UnknownLocal(dest.local));
    }
    let local: TyId = site.body.locals[dest.local];
    if raw {
        let ty: TypeHandle = ctx.type_of(reply);
        let words: Value = spill(ctx, block, &ty, reply);
        let ghost middle = *ctx;
        let value: Value = load_value_from_real_layout(
            &site.program.types,
            ctx,
            block,
            local,
            words,
        )?;
        let ghost loaded = *ctx;
        proof {
            site.lemma_ready(*ctx, before, block);
        }
        write_place(site, ctx, block, dest, value)?;
        proof {
            let first = cast::spilled(before@.now(block), ty, reply.meaning@);
            let step = site.scene().write(loaded@.now(block), *dest, value.meaning@)->Ok_0;
            ctx.lemma_computed_ran(loaded, middle, block, seq![step]);
            ctx.lemma_ran(middle, before, block, first, seq![step]);
            assert(first + seq![step] =~= first.push(step));
        }
        return Ok(());
    }
    match slot {
        Some(slot) => {
            let stored: Value = normalize_bool_for_storage(
                &site.program.types,
                ctx,
                block,
                local,
                reply,
            );
            let ghost middle = *ctx;
            put_store(ctx, block, stored, slot);
            proof {
                let step = Step::Store { addr: slot.meaning@, value: stored.meaning@ };
                ctx.lemma_computed_ran(middle, before, block, seq![step]);
            }
            Ok(())
        },
        None => Ok(()),
    }
}

/// A call that no intrinsic stands for.
#[verifier::opaque]
pub open spec fn general_call(
    scene: Scene,
    at: Moment,
    func: Operand,
    args: Seq<Operand>,
    dest: Place,
) -> Result<Effect, Lost> {
    let program = scene.program;
    match called_pointer(scene, at, func) {
        Err(failure) => Err(failure.at_once()),
        Ok(pointer) => match handed(
            scene,
            at,
            table_slot(program, func) is Some,
            takes_apart(program, func),
            args,
            args.len(),
        ) {
            Err(lost) => Err(lost.after(needs_in(pointer))),
            Ok(given) => match call_result(scene, dest) {
                Err(failure) => Err(failure.after(needs_in(pointer) + given.needs)),
                Ok(result) => {
                    let now = meaning::later(at, given.steps.len());
                    match dispatched(
                        scene,
                        now,
                        func,
                        dest,
                        value_in(pointer),
                        given,
                        result,
                    ) {
                        Err(failure) => Err(failure.after(needs_in(pointer) + given.needs)),
                        Ok(called) => match received(scene, now, dest, called) {
                            Err(failure) => Err(
                                failure.after(needs_in(pointer) + given.needs + called.needs),
                            ),
                            Ok(steps) => Ok(
                                Effect {
                                    needs: needs_in(pointer) + given.needs + called.needs,
                                    steps: given.steps + seq![called.step] + steps,
                                },
                            ),
                        },
                    }
                },
            },
        },
    }
}

/// The value of what may be there.
pub open spec fn value_in(lowered: Option<Lowered>) -> Option<Meaning> {
    match lowered {
        Some(lowered) => Some(lowered.value),
        None => None,
    }
}

/// What that needs which may be there.
pub open spec fn needs_in(lowered: Option<Lowered>) -> Seq<Asked> {
    match lowered {
        Some(lowered) => lowered.needs,
        None => Seq::empty(),
    }
}

fn put_called_pointer(
    site: &Site,
    ctx: &mut Context,
    block: BlockId,
    needs: &mut Needs,
    func: &Operand,
) -> (r: Result<Option<Value>, Failure>)
    requires
        site.ready(*old(ctx), block),
        operand::operand_wf(*site.program, *func),
    ensures
        final(ctx).computed_since(*old(ctx), block),
        site.ready(*final(ctx), block),
        r matches Ok(Some(v)) ==> final(ctx).has(v),
        match called_pointer(site.scene(), old(ctx)@.now(block), *func) {
            Ok(pointer) => {
                &&& r matches Ok(found) && meaning::meaning_of(found) == value_in(pointer)
                &&& final(needs)@ == old(needs)@ + needs_in(pointer)
            },
            Err(failure) => {
                &&& r matches Err(other) && other == failure
                &&& final(needs)@ == old(needs)@
            },
        },
{
    let ghost before = *ctx;
    if call_fn_def(site.program, func).is_some() {
        assert(needs@ =~= old(needs)@ + Seq::<Asked>::empty());
        return Ok(None);
    }
    let pointer: Value = import_operand(site, ctx, block, needs, func)?;
    Ok(Some(pointer))
}

#[verifier::rlimit(60)]
fn import_general_call(
    site: &Site,
    ctx: &mut Context,
    block: BlockId,
    needs: &mut Needs,
    func: &Operand,
    args: &Vec<Operand>,
    dest: &Place,
) -> (r: Result<(), Failure>)
    requires
        site.ready(*old(ctx), block),
        operand::operand_wf(*site.program, *func),
        operand::operands_wf(*site.program, args@),
        place::place_wf(site.program.types, *dest),
    ensures
        need::does_past(
            (*final(ctx), final(needs)@),
            (*old(ctx), old(needs)@),
            block,
            r,
            general_call(site.scene(), old(ctx)@.now(block), *func, args@, *dest),
        ),
{
    let ghost before = *ctx;
    let ghost asked = needs@;
    let ghost at = ctx@.now(block);
    let ghost scene = site.scene();
    proof {
        reveal(general_call);
    }
    let through_table: bool = find_table_slot(site.program, func).is_some();
    let pointer: Option<Value> = put_called_pointer(site, ctx, block, needs, func)?;
    let ghost pointed = *ctx;
    let ghost pointer_needs = needs_in(called_pointer(scene, at, *func)->Ok_0);
    let apart: bool = match call_fn_def(site.program, func) {
        Some(item) => item.is_rust_call,
        None => false,
    };
    let (values, methods): (Vec<Value>, Option<Value>) = put_handed(
        site,
        ctx,
        block,
        needs,
        through_table,
        apart,
        args,
    )?;
    let ghost given = handed(scene, at, through_table, apart, args@, args@.len())->Ok_0;
    let ghost middle = *ctx;
    proof {
        ctx.lemma_computed_ran(pointed, before, block, given.steps);
        ctx.lemma_time(before, block, given.steps);
        site.lemma_ready(*ctx, pointed, block);
    }
    let result: Option<TypeHandle> = call_result_of(site, ctx, dest)?;
    let (reply, raw): (Option<Value>, bool) = put_dispatched(
        site,
        ctx,
        block,
        needs,
        func,
        dest,
        pointer,
        values,
        methods,
        Ghost(given),
        result,
    )?;
    let ghost replied = *ctx;
    let ghost now = middle@.now(block);
    let ghost called = dispatched(
        scene,
        now,
        *func,
        *dest,
        meaning::meaning_of(pointer),
        given,
        result,
    )->Ok_0;
    proof {
        ctx.lemma_ran(middle, before, block, given.steps, seq![called.step]);
        site.lemma_ready(*ctx, middle, block);
    }
    put_received(site, ctx, block, dest, reply, raw, Ghost(now), Ghost(called))?;
    proof {
        let steps = received(scene, now, *dest, called)->Ok_0;
        ctx.lemma_ran(replied, before, block, given.steps + seq![called.step], steps);
        assert(needs@ =~= asked + (pointer_needs + given.needs + called.needs));
    }
    Ok(())
}

/// Text as format arguments: the address of the text, and its length shifted
/// by a bit that marks it.
pub open spec fn text_arguments(text: Meaning) -> Result<Meaning, Failure> {
    if !meaning::has_field(text, 0) || !meaning::has_field(text, 1) {
        Err(Failure::Malformed)
    } else {
        let one = meaning::constant(types::unsigned(64), 1);
        let marked = meaning::computed(
            Arith::Or,
            meaning::computed(Arith::Shl, meaning::field(text, 1), one),
            one,
        );
        Ok(
            meaning::pair(
                convert::pointer_pair(),
                meaning::field(text, 0),
                meaning::cast(marked, types::pointer()),
            ),
        )
    }
}

/// What a call does that makes format arguments of a text.
pub open spec fn format_text(scene: Scene, at: Moment, args: Seq<Operand>, dest: Place) -> Result<
    Effect,
    Lost,
> {
    if args.len() != 1 {
        Err(Failure::FormatText(args.len() as usize).at_once())
    } else {
        match operand::operand_value(scene, at, args[0]) {
            Err(failure) => Err(failure.at_once()),
            Ok(text) => match text_arguments(text.value) {
                Err(failure) => Err(failure.after(text.needs)),
                Ok(value) => match scene.write(at, dest, value) {
                    Err(failure) => Err(failure.after(text.needs)),
                    Ok(step) => Ok(Effect { needs: text.needs, steps: seq![step] }),
                },
            },
        }
    }
}

/// Makes format arguments of a text.
pub fn lower_arguments_from_str_call(
    site: &Site,
    ctx: &mut Context,
    block: BlockId,
    needs: &mut Needs,
    args: &Vec<Operand>,
    dest: &Place,
) -> (r: Result<(), Failure>)
    requires
        site.ready(*old(ctx), block),
        operand::operands_wf(*site.program, args@),
        place::place_wf(site.program.types, *dest),
    ensures
        need::does(
            (*final(ctx), final(needs)@),
            (*old(ctx), old(needs)@),
            block,
            r,
            format_text(site.scene(), old(ctx)@.now(block), args@, *dest),
        ),
{
    let ghost before = *ctx;
    if args.len() != 1 {
        return Err(Failure::FormatText(args.len()));
    }
    let text: Value = import_operand(site, ctx, block, needs, &args[0])?;
    if !value_has_field(ctx, text, 0) || !value_has_field(ctx, text, 1) {
        return Err(Failure::Malformed);
    }
    let template: Value = put_field(ctx, block, text, 0);
    let len: Value = put_field(ctx, block, text, 1);
    let one: Value = put_size(ctx, block, 1);
    let shifted: Value = put_arith(ctx, block, Arith::Shl, len, one);
    let encoded: Value = put_arith(ctx, block, Arith::Or, shifted, one);
    let marked: Value = put_cast(ctx, block, encoded, &llvm_ptr_ty());
    let value: Value = put_pair(ctx, block, &fmt_arguments_ty(), template, marked);
    let ghost middle = *ctx;
    proof {
        site.lemma_ready(*ctx, before, block);
    }
    write_place(site, ctx, block, dest, value)?;
    proof {
        let step = site.scene().write(before@.now(block), *dest, value.meaning@)->Ok_0;
        ctx.lemma_computed_ran(middle, before, block, seq![step]);
    }
    Ok(())
}

/// What going on after a call does: a jump, or nothing where it never comes
/// back.
pub open spec fn onward(scene: Scene, target: Option<usize>) -> Result<Step, Failure> {
    match target {
        None => Ok(Step::Unreachable),
        Some(target) => match place::block_of(scene.blocks, target) {
            Err(failure) => Err(failure),
            Ok(dest) => Ok(meaning::jump(dest)),
        },
    }
}

/// An effect and what follows it.
pub open spec fn ending(effect: Result<Effect, Lost>, last: Result<Step, Failure>) -> Result<
    Effect,
    Lost,
> {
    match effect {
        Err(lost) => Err(lost),
        Ok(effect) => match last {
            Err(failure) => Err(failure.after(effect.needs)),
            Ok(step) => Ok(Effect { needs: effect.needs, steps: effect.steps.push(step) }),
        },
    }
}

/// Goes on after a call.
pub(crate) fn put_onward(
    site: &Site,
    ctx: &mut Context,
    block: BlockId,
    needs: &Needs,
    target: Option<usize>,
    Ghost(start): Ghost<(Context, Seq<Asked>)>,
    Ghost(effect): Ghost<Effect>,
) -> (r: Result<(), Failure>)
    requires
        old(ctx).wf(),
        start.0.has_block(block),
        need::took((*old(ctx), needs@), start, block, effect),
    ensures
        need::leaves(
            (*final(ctx), needs@),
            start,
            block,
            r,
            ending(Ok(effect), onward(site.scene(), target)),
        ),
{
    let ghost middle = *ctx;
    proof {
        ctx.lemma_time(start.0, block, effect.steps);
    }
    match target {
        None => put_unreachable(ctx, block),
        Some(target) => {
            let dest: BlockId = block_for(site.state, target)?;
            put_goto(ctx, block, dest);
        },
    }
    proof {
        let step = onward(site.scene(), target)->Ok_0;
        ctx.lemma_left(middle, start.0, block, effect.steps, seq![step]);
        assert(effect.steps + seq![step] =~= effect.steps.push(step));
    }
    Ok(())
}

/// What the call of an intrinsic does, and whether it is one.
pub open spec fn known(
    scene: Scene,
    at: Moment,
    func: Operand,
    args: Seq<Operand>,
    dest: Place,
) -> Result<(bool, Effect), Lost> {
    match callee::called_index(scene.program, func) {
        None => Ok((false, statement::idle())),
        Some(index) => intrinsics::known_call(
            scene,
            at,
            scene.program.instances@[index as int],
            args,
            dest,
        ),
    }
}

fn put_known(
    site: &Site,
    ctx: &mut Context,
    block: BlockId,
    needs: &mut Needs,
    func: &Operand,
    args: &Vec<Operand>,
    dest: &Place,
) -> (r: Result<bool, Failure>)
    requires
        site.ready(*old(ctx), block),
        instances_wf(*site.program),
        operand::operand_wf(*site.program, *func),
        operand::operands_wf(*site.program, args@),
        place::place_wf(site.program.types, *dest),
    ensures
        match known(site.scene(), old(ctx)@.now(block), *func, args@, *dest) {
            Ok((handled, effect)) => {
                &&& r == Ok::<bool, Failure>(handled)
                &&& need::took(
                    (*final(ctx), final(needs)@),
                    (*old(ctx), old(needs)@),
                    block,
                    effect,
                )
            },
            Err(lost) => {
                &&& r == Err::<bool, Failure>(lost.why)
                &&& final(ctx).touched_since(*old(ctx), block)
                &&& final(needs)@ == old(needs)@ + lost.needs
            },
        },
{
    match call_instance(site.program, func) {
        None => {
            proof {
                ctx.lemma_computed(*ctx, block);
                assert(needs@ =~= old(needs)@ + Seq::<Asked>::empty());
            }
            Ok(false)
        },
        Some(index) => lower_known_intrinsic_call(
            site,
            ctx,
            block,
            needs,
            &site.program.instances[index],
            args,
            dest,
        ),
    }
}

/// Whether the types that the instances are applied to stand in the program.
pub open spec fn instances_wf(program: Program) -> bool {
    forall|i: int|
        0 <= i < program.instances@.len() ==> intrinsics::args_wf(
            program,
            #[trigger] program.instances@[i],
        )
}

/// What a call that ends a block does: one that makes format arguments, one
/// that is never reached, one that does nothing, one of an intrinsic, or any
/// other.
pub open spec fn call_effect(
    scene: Scene,
    at: Moment,
    func: Operand,
    args: Seq<Operand>,
    dest: Place,
    target: Option<usize>,
) -> Result<Effect, Lost> {
    let program = scene.program;
    let last = onward(scene, target);
    if callee::is_format_text(program, func) {
        if target is None {
            Err(Failure::CallTarget.at_once())
        } else {
            ending(format_text(scene, at, args, dest), last)
        }
    } else if callee::is_unreachable(program, func) {
        Ok(Effect { needs: Seq::empty(), steps: seq![Step::Unreachable] })
    } else if callee::is_noop(program, func) {
        if target is None {
            Err(Failure::CallTarget.at_once())
        } else {
            ending(Ok(statement::idle()), last)
        }
    } else {
        other_call(scene, at, func, args, dest, target)
    }
}

/// What a call does that ends a block and is of an intrinsic, or any other.
pub open spec fn other_call(
    scene: Scene,
    at: Moment,
    func: Operand,
    args: Seq<Operand>,
    dest: Place,
    target: Option<usize>,
) -> Result<Effect, Lost> {
    let last = onward(scene, target);
    match known(scene, at, func, args, dest) {
        Err(lost) => Err(lost),
        Ok((true, effect)) => ending(Ok(effect), last),
        Ok((false, effect)) => match general_call(
            scene,
            meaning::later(at, effect.steps.len()),
            func,
            args,
            dest,
        ) {
            Err(lost) => Err(lost.after(effect.needs)),
            Ok(further) => ending(Ok(need::joined(effect, further)), last),
        },
    }
}

fn import_other_call(
    site: &Site,
    ctx: &mut Context,
    block: BlockId,
    needs: &mut Needs,
    func: &Operand,
    args: &Vec<Operand>,
    dest: &Place,
    target: Option<usize>,
) -> (r: Result<(), Failure>)
    requires
        site.ready(*old(ctx), block),
        instances_wf(*site.program),
        operand::operand_wf(*site.program, *func),
        operand::operands_wf(*site.program, args@),
        place::place_wf(site.program.types, *dest),
    ensures
        need::leaves(
            (*final(ctx), final(needs)@),
            (*old(ctx), old(needs)@),
            block,
            r,
            other_call(site.scene(), old(ctx)@.now(block), *func, args@, *dest, target),
        ),
{
    let ghost before = *ctx;
    let ghost asked = needs@;
    let ghost at = ctx@.now(block);
    let ghost scene = site.scene();
    let handled: bool = put_known(site, ctx, block, needs, func, args, dest)?;
    let ghost effect = known(scene, at, *func, args@, *dest)->Ok_0.1;
    if handled {
        return put_onward(
            site,
            ctx,
            block,
            needs,
            target,
            Ghost((before, asked)),
            Ghost(effect),
        );
    }
    let ghost middle = *ctx;
    let ghost middle_needs = needs@;
    proof {
        site.lemma_ready(*ctx, before, block);
        ctx.lemma_time(before, block, effect.steps);
    }
    import_general_call(site, ctx, block, needs, func, args, dest)?;
    let ghost further = general_call(
        scene,
        meaning::later(at, effect.steps.len()),
        *func,
        args@,
        *dest,
    )->Ok_0;
    proof {
        need::lemma_joined(
            (*ctx, needs@),
            (middle, middle_needs),
            (before, asked),
            block,
            effect,
            further,
        );
    }
    put_onward(
        site,
        ctx,
        block,
        needs,
        target,
        Ghost((before, asked)),
        Ghost(need::joined(effect, further)),
    )
}

/// Imports a call that ends a block.
pub fn import_call(
    site: &Site,
    ctx: &mut Context,
    block: BlockId,
    needs: &mut Needs,
    func: &Operand,
    args: &Vec<Operand>,
    dest: &Place,
    target: Option<usize>,
) -> (r: Result<(), Failure>)
    requires
        site.ready(*old(ctx), block),
        instances_wf(*site.program),
        operand::operand_wf(*site.program, *func),
        operand::operands_wf(*site.program, args@),
        place::place_wf(site.program.types, *dest),
    ensures
        need::leaves(
            (*final(ctx), final(needs)@),
            (*old(ctx), old(needs)@),
            block,
            r,
            call_effect(site.scene(), old(ctx)@.now(block), *func, args@, *dest, target),
        ),
{
    let ghost before = *ctx;
    let ghost asked = needs@;
    let ghost at = ctx@.now(block);
    let ghost scene = site.scene();
    proof {
        ctx.lemma_computed(before, block);
        assert(needs@ =~= asked + Seq::<Asked>::empty());
    }
    if is_arguments_from_str_call(site.program, func) {
        if target.is_none() {
            return Err(Failure::CallTarget);
        }
        lower_arguments_from_str_call(site, ctx, block, needs, args, dest)?;
        let ghost effect = format_text(scene, at, args@, *dest)->Ok_0;
        return put_onward(
            site,
            ctx,
            block,
            needs,
            target,
            Ghost((before, asked)),
            Ghost(effect),
        );
    }
    if is_unreachable_unchecked_call(site.program, func) {
        put_unreachable(ctx, block);
        return Ok(());
    }
    if is_noop_intrinsic_call(site.program, func) {
        if target.is_none() {
            return Err(Failure::CallTarget);
        }
        return put_onward(
            site,
            ctx,
            block,
            needs,
            target,
            Ghost((before, asked)),
            Ghost(statement::idle()),
        );
    }
    import_other_call(site, ctx, block, needs, func, args, dest, target)
}

} // verus!
