//! Operands.

use crate::arith::bool_immediate_ty;
use crate::constant;
use crate::constant::import_constant;
use crate::error::Failure;
use crate::ir::{BlockId, Context, Meaning, Value};
use crate::meaning;
use crate::meaning::{put_constant, Step};
use crate::mir::{Body, Operand, Place, Program};
use crate::need;
use crate::need::{Asked, Lost, Lowered, Needs};
use crate::place;
use crate::place::{load_place, place_addr, store_place, FunctionImportState};
use crate::sem::Moment;
use crate::ty::TyId;
use crate::types;
use crate::types::TypeHandle;
use vstd::prelude::*;

verus! {

/// What the meaning of a body's constructs depends on.
pub struct Scene {
    pub program: Program,
    /// The types of the locals.
    pub locals: Seq<TyId>,
    /// The storage of the locals.
    pub slots: Seq<Option<Meaning>>,
    /// The blocks of the body.
    pub blocks: Seq<BlockId>,
}

/// A body that is imported.
pub struct Site<'a> {
    pub program: &'a Program,
    pub state: &'a FunctionImportState,
    pub body: &'a Body,
}

impl<'a> Site<'a> {
    /// What the meaning of the body's constructs depends on.
    pub open spec fn scene(self) -> Scene {
        Scene {
            program: *self.program,
            locals: self.body.locals@,
            slots: self.state.slots(),
            blocks: self.state.blocks@,
        }
    }

    /// Whether constructs of the body can be appended to a block.
    pub open spec fn ready(self, ctx: Context, block: BlockId) -> bool {
        &&& self.program.types.wf()
        &&& place::locals_wf(self.program.types, self.body.locals@)
        &&& self.state.fits(ctx)
        &&& ctx.wf()
        &&& ctx.has_block(block)
    }

    /// Constructs can still be appended after others were.
    pub proof fn lemma_ready(&self, ctx: Context, old: Context, block: BlockId)
        requires
            self.ready(old, block),
            ctx.grew(old),
        ensures
            self.ready(ctx, block),
    {
        assert forall|i: int| 0 <= i < self.state.local_slots@.len() implies (
        #[trigger] self.state.local_slots@[i] matches Some(v) ==> ctx.has(v)) by {}
    }
}

impl Scene {
    /// Where a place is.
    pub open spec fn address(self, at: Moment, place: Place) -> Result<Meaning, Failure> {
        place::address(self.program.types, self.locals, self.slots, at, place)
    }

    /// What a place holds.
    pub open spec fn value_of(self, at: Moment, place: Place) -> Result<Meaning, Failure> {
        place::value_of(self.program.types, self.locals, self.slots, at, place)
    }

    /// What writing to a place does.
    pub open spec fn write(self, at: Moment, place: Place, value: Meaning) -> Result<
        Step,
        Failure,
    > {
        place::write(self.program.types, self.locals, self.slots, at, place, value)
    }
}

/// Takes the address of a place.
pub fn address_of_place(site: &Site, ctx: &mut Context, block: BlockId, place: &Place) -> (r: Result<
    Value,
    Failure,
>)
    requires
        site.ready(*old(ctx), block),
        place::place_wf(site.program.types, *place),
    ensures
        final(ctx).computed_since(*old(ctx), block),
        place::gives(*final(ctx), r, site.scene().address(old(ctx)@.now(block), *place)),
{
    place_addr(&site.program.types, ctx, site.state, block, site.body, place)
}

/// Writes to a place.
pub fn write_place(
    site: &Site,
    ctx: &mut Context,
    block: BlockId,
    place: &Place,
    value: Value,
) -> (r: Result<(), Failure>)
    requires
        site.ready(*old(ctx), block),
        place::place_wf(site.program.types, *place),
        old(ctx).has(value),
    ensures
        match site.scene().write(old(ctx)@.now(block), *place, value.meaning@) {
            Ok(step) => r is Ok && final(ctx).ran_since(*old(ctx), block, seq![step]),
            Err(failure) => r == Err::<(), Failure>(failure) && final(ctx).computed_since(
                *old(ctx),
                block,
            ),
        },
{
    store_place(&site.program.types, ctx, site.state, block, site.body, place, value)
}

/// Whether the types that an operand names stand in the program.
pub open spec fn operand_wf(program: Program, operand: Operand) -> bool {
    &&& program.types.has(operand.ty())
    &&& match operand {
        Operand::Copy(place) => place::place_wf(program.types, place),
        Operand::Move(place) => place::place_wf(program.types, place),
        _ => true,
    }
}

/// Whether the types that operands name stand in the program.
pub open spec fn operands_wf(program: Program, operands: Seq<Operand>) -> bool {
    forall|i: int| 0 <= i < operands.len() ==> operand_wf(program, #[trigger] operands[i])
}

/// What an operand is.
pub open spec fn operand_value(scene: Scene, at: Moment, operand: Operand) -> Result<
    Lowered,
    Failure,
> {
    match operand {
        Operand::Copy(place) => need::only(scene.value_of(at, place)),
        Operand::Move(place) => need::only(scene.value_of(at, place)),
        Operand::Constant(constant) => constant::constant_value(scene.program, at, constant),
        Operand::RuntimeChecks(on, _) => Ok(
            need::plain(
                meaning::constant(
                    types::signless(1),
                    if on {
                        1
                    } else {
                        0
                    },
                ),
            ),
        ),
    }
}

/// Operands do nothing.
pub proof fn lemma_operand_idle(scene: Scene, at: Moment, operand: Operand)
    ensures
        operand_value(scene, at, operand) matches Ok(lowered) ==> lowered.steps == Seq::<
            Step,
        >::empty(),
{
}

/// Imports an operand.
pub fn import_operand(
    site: &Site,
    ctx: &mut Context,
    block: BlockId,
    needs: &mut Needs,
    operand: &Operand,
) -> (r: Result<Value, Failure>)
    requires
        site.ready(*old(ctx), block),
        operand_wf(*site.program, *operand),
    ensures
        final(ctx).computed_since(*old(ctx), block),
        need::supplies(
            *final(ctx),
            final(needs)@,
            old(needs)@,
            r,
            operand_value(site.scene(), old(ctx)@.now(block), *operand),
        ),
        site.ready(*final(ctx), block),
{
    let ghost before = *ctx;
    let r: Result<Value, Failure> = match operand {
        Operand::Copy(place) | Operand::Move(place) => {
            assert(needs@ =~= old(needs)@ + Seq::<Asked>::empty());
            load_place(&site.program.types, ctx, site.state, block, site.body, place)
        },
        Operand::Constant(constant) => import_constant(site.program, ctx, block, needs, constant),
        Operand::RuntimeChecks(on, _) => {
            let ty: TypeHandle = bool_immediate_ty();
            assert(needs@ =~= old(needs)@ + Seq::<Asked>::empty());
            Ok(
                put_constant(
                    ctx,
                    block,
                    &ty,
                    if *on {
                        1
                    } else {
                        0
                    },
                ),
            )
        },
    };
    proof {
        site.lemma_ready(*ctx, before, block);
    }
    r
}

/// What operands are that are computed at one moment, and what they need.
pub open spec fn operand_values(
    scene: Scene,
    at: Moment,
    operands: Seq<Operand>,
    count: nat,
) -> Result<(Seq<Meaning>, Seq<Asked>), Lost>
    decreases count,
{
    if count == 0 {
        Ok((Seq::empty(), Seq::empty()))
    } else {
        match operand_values(scene, at, operands, (count - 1) as nat) {
            Err(lost) => Err(lost),
            Ok((values, needs)) => match operand_value(scene, at, operands[count - 1]) {
                Err(failure) => Err(failure.after(needs)),
                Ok(lowered) => Ok((values.push(lowered.value), needs + lowered.needs)),
            },
        }
    }
}

/// A failure among the first operands is one of all.
pub proof fn lemma_operands_fail(
    scene: Scene,
    at: Moment,
    operands: Seq<Operand>,
    from: nat,
    to: nat,
)
    requires
        from <= to,
        operand_values(scene, at, operands, from) is Err,
    ensures
        operand_values(scene, at, operands, to) == operand_values(scene, at, operands, from),
    decreases to,
{
    if from < to {
        lemma_operands_fail(scene, at, operands, from, (to - 1) as nat);
    }
}

/// Whether values are those that operands should be.
pub open spec fn all_supplied(
    ctx: Context,
    new: Seq<Asked>,
    old: Seq<Asked>,
    r: Result<Vec<Value>, Failure>,
    want: Result<(Seq<Meaning>, Seq<Asked>), Lost>,
) -> bool {
    match want {
        Ok((values, needs)) => {
            &&& r matches Ok(found) && meaning::meanings(found@) == values && forall|i: int|
                0 <= i < found@.len() ==> ctx.has(#[trigger] found@[i])
            &&& new == old + needs
        },
        Err(lost) => {
            &&& r matches Err(other) && other == lost.why
            &&& new =~= old + lost.needs
        },
    }
}

/// Imports operands.
pub fn import_operands(
    site: &Site,
    ctx: &mut Context,
    block: BlockId,
    needs: &mut Needs,
    operands: &Vec<Operand>,
) -> (r: Result<Vec<Value>, Failure>)
    requires
        site.ready(*old(ctx), block),
        operands_wf(*site.program, operands@),
    ensures
        final(ctx).computed_since(*old(ctx), block),
        all_supplied(
            *final(ctx),
            final(needs)@,
            old(needs)@,
            r,
            operand_values(
                site.scene(),
                old(ctx)@.now(block),
                operands@,
                operands@.len(),
            ),
        ),
        site.ready(*final(ctx), block),
{
    let ghost before = *ctx;
    let ghost at = ctx@.now(block);
    let ghost asked = needs@;
    let mut values: Vec<Value> = Vec::new();
    let mut i: usize = 0;
    proof {
        assert(meaning::meanings(values@) =~= Seq::<Meaning>::empty());
        assert(needs@ =~= asked + Seq::<Asked>::empty());
    }
    while i < operands.len()
        invariant
            i <= operands@.len(),
            before == *old(ctx),
            asked == old(needs)@,
            at == before@.now(block),
            operands_wf(*site.program, operands@),
            site.ready(*ctx, block),
            ctx.computed_since(before, block),
            operand_values(site.scene(), at, operands@, i as nat) matches Ok((list, list_needs))
                && meaning::meanings(values@) == list && needs@ == asked + list_needs,
            forall|k: int| 0 <= k < values@.len() ==> ctx.has(#[trigger] values@[k]),
        decreases operands@.len() - i,
    {
        let ghost so_far = operand_values(site.scene(), at, operands@, i as nat)->Ok_0;
        let value: Value = match import_operand(site, ctx, block, needs, &operands[i]) {
            Ok(value) => value,
            Err(failure) => {
                proof {
                    lemma_operands_fail(
                        site.scene(),
                        at,
                        operands@,
                        (i + 1) as nat,
                        operands@.len(),
                    );
                }
                return Err(failure);
            },
        };
        values.push(value);
        proof {
            let lowered = operand_value(site.scene(), at, operands@[i as int])->Ok_0;
            assert(meaning::meanings(values@) =~= so_far.0.push(lowered.value));
            assert(needs@ =~= asked + (so_far.1 + lowered.needs));
        }
        i = i + 1;
    }
    Ok(values)
}

/// What two operands are.
pub open spec fn operand_pair(scene: Scene, at: Moment, first: Operand, second: Operand) -> Result<
    (Meaning, Meaning, Seq<Asked>),
    Lost,
> {
    match operand_value(scene, at, first) {
        Err(failure) => Err(failure.at_once()),
        Ok(a) => match operand_value(scene, at, second) {
            Err(failure) => Err(failure.after(a.needs)),
            Ok(b) => Ok((a.value, b.value, a.needs + b.needs)),
        },
    }
}

/// Imports two operands.
pub fn import_pair(
    site: &Site,
    ctx: &mut Context,
    block: BlockId,
    needs: &mut Needs,
    first: &Operand,
    second: &Operand,
) -> (r: Result<(Value, Value), Failure>)
    requires
        site.ready(*old(ctx), block),
        operand_wf(*site.program, *first),
        operand_wf(*site.program, *second),
    ensures
        final(ctx).computed_since(*old(ctx), block),
        match operand_pair(site.scene(), old(ctx)@.now(block), *first, *second) {
            Ok((a, b, asked)) => {
                &&& r matches Ok((x, y)) && final(ctx).has(x) && final(ctx).has(y) && x.meaning@
                    == a && y.meaning@ == b
                &&& final(needs)@ == old(needs)@ + asked
            },
            Err(lost) => {
                &&& r matches Err(other) && other == lost.why
                &&& final(needs)@ == old(needs)@ + lost.needs
            },
        },
        site.ready(*final(ctx), block),
{
    let a: Value = import_operand(site, ctx, block, needs, first)?;
    let b: Value = import_operand(site, ctx, block, needs, second)?;
    proof {
        let scene = site.scene();
        let at = old(ctx)@.now(block);
        let x = operand_value(scene, at, *first)->Ok_0.needs;
        let y = operand_value(scene, at, *second)->Ok_0.needs;
        assert(needs@ =~= old(needs)@ + (x + y));
    }
    Ok((a, b))
}

/// A construct behind what was needed before it.
pub open spec fn behind(needs: Seq<Asked>, rest: Result<Lowered, Lost>) -> Result<Lowered, Lost> {
    match rest {
        Err(lost) => Err(lost.after(needs)),
        Ok(lowered) => Ok(Lowered { needs: needs + lowered.needs, ..lowered }),
    }
}

} // verus!
