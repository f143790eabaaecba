//! Functions.

use crate::call;
use crate::callee;
use crate::callee::contains_kernel_call;
use crate::cast;
use crate::error::Failure;
use crate::ir;
use crate::ir::{BlockId, Context, Inst, OpKind, RegionId, Value, World};
use crate::meaning;
use crate::meaning::Step;
use crate::mir::{BlockData, Body, Program, Statement, Terminator};
use crate::need;
use crate::need::{Asked, Demand, Effect, Lost, Mark, Needs};
use crate::operand::{Scene, Site};
use crate::ox;
use crate::ox::FuncOp;
use crate::passing;
use crate::place;
use crate::place::{block_for, FunctionImportState};
use crate::prologue;
use crate::prologue::{put_arrivals, put_storage};
use crate::sem::Moment;
use crate::signature;
use crate::signature::{signature_of, Param, Parameter};
use crate::statement;
use crate::statement::import_statement;
use crate::terminator;
use crate::terminator::{import_terminator, Ending};
use crate::text;
use crate::text::{decimal, join};
use crate::types::{TypeHandle, TypeList};
use vstd::prelude::*;

verus! {

/// Whether the types that a block names stand in the program.
pub open spec fn block_wf(program: Program, data: BlockData) -> bool {
    &&& forall|i: int|
        0 <= i < data.statements@.len() ==> statement::statement_wf(
            program,
            #[trigger] data.statements@[i],
        )
    &&& terminator::terminator_wf(program, data.terminator)
}

/// Whether the types that a body names stand in the program.
pub open spec fn body_wf(program: Program, body: Body) -> bool {
    &&& place::locals_wf(program.types, body.locals@)
    &&& forall|i: int|
        0 <= i < body.blocks@.len() ==> block_wf(program, #[trigger] body.blocks@[i])
}

/// Whether the lists that bodies refer to name types of the program.
pub open spec fn lists_wf(program: Program) -> bool {
    &&& program.types.wf()
    &&& cast::lists_wf(program)
    &&& call::instances_wf(program)
}

/// What the first statements of a block do.
pub open spec fn statements_effect(
    scene: Scene,
    at: Moment,
    statements: Seq<Statement>,
    count: nat,
) -> Result<Effect, Lost>
    decreases count,
{
    if count == 0 {
        Ok(statement::idle())
    } else {
        match statements_effect(scene, at, statements, (count - 1) as nat) {
            Err(lost) => Err(lost),
            Ok(effect) => match one_statement(
                scene,
                meaning::later(at, effect.steps.len()),
                statements[count - 1],
            ) {
                Err(lost) => Err(lost.past(effect)),
                Ok(next) => Ok(need::joined(effect, next)),
            },
        }
    }
}

/// What a statement does.
#[verifier::opaque]
pub open spec fn one_statement(scene: Scene, at: Moment, statement: Statement) -> Result<
    Effect,
    Lost,
> {
    statement::statement_effect(scene, at, statement)
}

proof fn lemma_statements_fail(
    scene: Scene,
    at: Moment,
    statements: Seq<Statement>,
    from: nat,
    to: nat,
)
    requires
        from <= to,
        statements_effect(scene, at, statements, from) is Err,
    ensures
        statements_effect(scene, at, statements, to) == statements_effect(
            scene,
            at,
            statements,
            from,
        ),
    decreases to,
{
    if from < to {
        lemma_statements_fail(scene, at, statements, from, (to - 1) as nat);
    }
}

fn import_one(
    site: &Site,
    ctx: &mut Context,
    block: BlockId,
    needs: &mut Needs,
    statement: &Statement,
) -> (r: Result<(), Failure>)
    requires
        site.ready(*old(ctx), block),
        lists_wf(*site.program),
        statement::statement_wf(*site.program, *statement),
    ensures
        need::does_past(
            (*final(ctx), final(needs)@),
            (*old(ctx), old(needs)@),
            block,
            r,
            one_statement(site.scene(), old(ctx)@.now(block), *statement),
        ),
{
    proof {
        reveal(one_statement);
    }
    import_statement(site, ctx, block, needs, statement)
}

fn import_statements(
    site: &Site,
    ctx: &mut Context,
    block: BlockId,
    needs: &mut Needs,
    statements: &Vec<Statement>,
) -> (r: Result<(), Failure>)
    requires
        site.ready(*old(ctx), block),
        lists_wf(*site.program),
        forall|i: int|
            0 <= i < statements@.len() ==> statement::statement_wf(
                *site.program,
                #[trigger] statements@[i],
            ),
    ensures
        need::does_past(
            (*final(ctx), final(needs)@),
            (*old(ctx), old(needs)@),
            block,
            r,
            statements_effect(
                site.scene(),
                old(ctx)@.now(block),
                statements@,
                statements@.len(),
            ),
        ),
        statements_effect(
            site.scene(),
            old(ctx)@.now(block),
            statements@,
            statements@.len(),
        ) matches Err(lost) ==> need::begins(
            final(ctx).steps(block),
            old(ctx).steps(block) + lost.steps,
        ),
{
    let ghost before = *ctx;
    let ghost asked = needs@;
    let ghost at = ctx@.now(block);
    let ghost scene = site.scene();
    let mut i: usize = 0;
    proof {
        ctx.lemma_computed(before, block);
        assert(needs@ =~= asked + Seq::<Asked>::empty());
    }
    while i < statements.len()
        invariant
            i <= statements@.len(),
            before == *old(ctx),
            before.has_block(block),
            asked == old(needs)@,
            at == before@.now(block),
            scene == site.scene(),
            site.ready(*ctx, block),
            lists_wf(*site.program),
            forall|k: int|
                0 <= k < statements@.len() ==> statement::statement_wf(
                    *site.program,
                    #[trigger] statements@[k],
                ),
            statements_effect(scene, at, statements@, i as nat) matches Ok(effect) && need::took(
                (*ctx, needs@),
                (before, asked),
                block,
                effect,
            ),
        decreases statements@.len() - i,
    {
        let ghost middle = *ctx;
        let ghost middle_needs = needs@;
        let ghost effect = statements_effect(scene, at, statements@, i as nat)->Ok_0;
        proof {
            ctx.lemma_time(before, block, effect.steps);
            if statements_effect(scene, at, statements@, (i + 1) as nat) is Err {
                lemma_statements_fail(
                    scene,
                    at,
                    statements@,
                    (i + 1) as nat,
                    statements@.len(),
                );
            }
        }
        import_one(site, ctx, block, needs, &statements[i])?;
        proof {
            let next = one_statement(
                scene,
                meaning::later(at, effect.steps.len()),
                statements@[i as int],
            )->Ok_0;
            need::lemma_joined(
                (*ctx, needs@),
                (middle, middle_needs),
                (before, asked),
                block,
                effect,
                next,
            );
            site.lemma_ready(*ctx, middle, block);
        }
        i = i + 1;
    }
    Ok(())
}

/// What the end of a block amounts to.
#[verifier::opaque]
pub open spec fn end_of(scene: Scene, at: Moment, fresh: nat, data: BlockData) -> Result<
    Ending,
    Lost,
> {
    terminator::terminator_ending(scene, at, fresh, data.terminator)
}

/// What a block amounts to: its statements, and then its end.
pub open spec fn block_ending(scene: Scene, at: Moment, fresh: nat, data: BlockData) -> Result<
    Ending,
    Lost,
> {
    match statements_effect(scene, at, data.statements@, data.statements@.len()) {
        Err(lost) => Err(lost),
        Ok(first) => match end_of(
            scene,
            meaning::later(at, first.steps.len()),
            fresh,
            data,
        ) {
            Err(lost) => Err(lost.past(first)),
            Ok(last) => Ok(
                Ending {
                    needs: first.needs + last.needs,
                    steps: first.steps + last.steps,
                    blocks: last.blocks,
                },
            ),
        },
    }
}

fn import_end(
    site: &Site,
    ctx: &mut Context,
    block: BlockId,
    needs: &mut Needs,
    data: &BlockData,
) -> (r: Result<(), Failure>)
    requires
        site.ready(*old(ctx), block),
        site.state.region.0 < old(ctx)@.regions.len(),
        lists_wf(*site.program),
        block_wf(*site.program, *data),
    ensures
        terminator::ends(
            (*final(ctx), final(needs)@),
            (*old(ctx), old(needs)@),
            block,
            site.state.region,
            r,
            end_of(site.scene(), old(ctx)@.now(block), old(ctx)@.effects.len(), *data),
        ),
{
    proof {
        reveal(end_of);
    }
    import_terminator(site, ctx, block, needs, &data.terminator)
}

/// What a block needs, up to what fails in it first.
pub open spec fn block_needs(scene: Scene, at: Moment, fresh: nat, data: BlockData) -> Seq<
    Asked,
> {
    match block_ending(scene, at, fresh, data) {
        Ok(ending) => ending.needs,
        Err(lost) => lost.needs,
    }
}

fn import_block(
    site: &Site,
    ctx: &mut Context,
    block: BlockId,
    needs: &mut Needs,
    data: &BlockData,
) -> (r: Result<(), Failure>)
    requires
        site.ready(*old(ctx), block),
        site.state.region.0 < old(ctx)@.regions.len(),
        lists_wf(*site.program),
        block_wf(*site.program, *data),
    ensures
        terminator::ends(
            (*final(ctx), final(needs)@),
            (*old(ctx), old(needs)@),
            block,
            site.state.region,
            r,
            block_ending(site.scene(), old(ctx)@.now(block), old(ctx)@.effects.len(), *data),
        ),
        final(needs)@ == old(needs)@ + block_needs(
            site.scene(),
            old(ctx)@.now(block),
            old(ctx)@.effects.len(),
            *data,
        ),
        block_ending(
            site.scene(),
            old(ctx)@.now(block),
            old(ctx)@.effects.len(),
            *data,
        ) matches Err(lost) ==> need::begins(
            final(ctx).steps(block),
            old(ctx).steps(block) + lost.steps,
        ),
{
    let ghost before = *ctx;
    let ghost asked = needs@;
    let ghost region = site.state.region;
    let ghost scene = site.scene();
    let ghost at = ctx@.now(block);
    match import_statements(site, ctx, block, needs, &data.statements) {
        Ok(()) => {},
        Err(failure) => {
            proof {
                ctx.lemma_strayed(before, block, region);
            }
            return Err(failure);
        },
    }
    let ghost middle = *ctx;
    let ghost middle_needs = needs@;
    let ghost first = statements_effect(
        scene,
        at,
        data.statements@,
        data.statements@.len(),
    )->Ok_0;
    proof {
        ctx.lemma_time(before, block, first.steps);
        site.lemma_ready(*ctx, before, block);
    }
    let r: Result<(), Failure> = import_end(site, ctx, block, needs, data);
    proof {
        match end_of(scene, meaning::later(at, first.steps.len()), before@.effects.len(), *data) {
            Ok(last) => {
                assert(before.steps(block) + first.steps + last.steps =~= before.steps(block) + (
                first.steps + last.steps));
                assert forall|k: int|
                    0 <= k < last.blocks.len() implies #[trigger] ctx.made_steps(before, k)
                    == last.blocks[k] by {
                    assert(ctx.made_steps(middle, k) == last.blocks[k]);
                }
                if meaning::is_straight(before.steps(block)) {
                    meaning::lemma_straight(before.steps(block), first.steps);
                }
                middle.lemma_keeps(before, block);
                ctx.lemma_closes(middle, before, block, last.blocks.len());
                assert(needs@ =~= asked + (first.needs + last.needs));
            },
            Err(_) => {
                let count = choose|count: nat| #[trigger]
                    ctx@.has_grown(middle@, region, count);
                assert(ctx@.has_grown(before@, region, count));
            },
        }
    }
    r
}

/// What the blocks of a body do, what the blocks do that were made for them,
/// and what they need.
pub struct Built {
    pub needs: Seq<Asked>,
    pub blocks: Seq<Seq<Step>>,
    pub extra: Seq<Seq<Step>>,
}

/// When a block of a body starts: the first one after the beginning of the
/// function.
pub open spec fn start_of(scene: Scene, opening: nat, index: int) -> Moment {
    Moment {
        block: scene.blocks[index].0 as int,
        time: if index == 0 {
            opening
        } else {
            0
        },
    }
}

/// What the first blocks of a body amount to.
pub open spec fn built(
    scene: Scene,
    opening: nat,
    fresh: nat,
    blocks: Seq<BlockData>,
    count: nat,
) -> Result<Built, Failure>
    decreases count,
{
    if count == 0 {
        Ok(Built { needs: Seq::empty(), blocks: Seq::empty(), extra: Seq::empty() })
    } else {
        match built(scene, opening, fresh, blocks, (count - 1) as nat) {
            Err(failure) => Err(failure),
            Ok(so_far) => match block_ending(
                scene,
                start_of(scene, opening, count - 1),
                fresh + so_far.extra.len(),
                blocks[count - 1],
            ) {
                Err(lost) => Err(lost.why),
                Ok(ending) => Ok(
                    Built {
                        needs: so_far.needs + ending.needs,
                        blocks: so_far.blocks.push(ending.steps),
                        extra: so_far.extra + ending.blocks,
                    },
                ),
            },
        }
    }
}

/// What the first blocks of a body need, up to what fails in them first.
pub open spec fn built_needs(
    scene: Scene,
    opening: nat,
    fresh: nat,
    blocks: Seq<BlockData>,
    count: nat,
) -> Seq<Asked>
    decreases count,
{
    if count == 0 {
        Seq::empty()
    } else {
        match built(scene, opening, fresh, blocks, (count - 1) as nat) {
            Err(_) => built_needs(scene, opening, fresh, blocks, (count - 1) as nat),
            Ok(so_far) => so_far.needs + block_needs(
                scene,
                start_of(scene, opening, count - 1),
                fresh + so_far.extra.len(),
                blocks[count - 1],
            ),
        }
    }
}

/// What the first blocks of a body do, up to the one that fails first.
pub open spec fn reached(
    scene: Scene,
    opening: nat,
    fresh: nat,
    blocks: Seq<BlockData>,
    count: nat,
) -> Built
    decreases count,
{
    match built(scene, opening, fresh, blocks, count) {
        Ok(all) => all,
        Err(_) => if count == 0 {
            Built { needs: Seq::empty(), blocks: Seq::empty(), extra: Seq::empty() }
        } else {
            reached(scene, opening, fresh, blocks, (count - 1) as nat)
        },
    }
}

proof fn lemma_reached(
    scene: Scene,
    opening: nat,
    fresh: nat,
    blocks: Seq<BlockData>,
    from: nat,
    to: nat,
)
    requires
        from < to,
        built(scene, opening, fresh, blocks, from) is Ok,
        built(scene, opening, fresh, blocks, from + 1) is Err,
    ensures
        reached(scene, opening, fresh, blocks, to) == built(
            scene,
            opening,
            fresh,
            blocks,
            from,
        )->Ok_0,
    decreases to,
{
    lemma_built(scene, opening, fresh, blocks, from + 1, to);
    if from + 1 < to {
        lemma_reached(scene, opening, fresh, blocks, from, (to - 1) as nat);
    } else {
        assert(reached(scene, opening, fresh, blocks, from) == built(
            scene,
            opening,
            fresh,
            blocks,
            from,
        )->Ok_0);
    }
}

proof fn lemma_built_needs(
    scene: Scene,
    opening: nat,
    fresh: nat,
    blocks: Seq<BlockData>,
    from: nat,
    to: nat,
)
    requires
        from <= to,
        built(scene, opening, fresh, blocks, from) is Err,
    ensures
        built_needs(scene, opening, fresh, blocks, to) == built_needs(
            scene,
            opening,
            fresh,
            blocks,
            from,
        ),
    decreases to,
{
    if from < to {
        lemma_built(scene, opening, fresh, blocks, from, (to - 1) as nat);
        lemma_built_needs(scene, opening, fresh, blocks, from, (to - 1) as nat);
    }
}

proof fn lemma_built(
    scene: Scene,
    opening: nat,
    fresh: nat,
    blocks: Seq<BlockData>,
    from: nat,
    to: nat,
)
    requires
        from <= to,
    ensures
        built(scene, opening, fresh, blocks, from) is Err ==> built(
            scene,
            opening,
            fresh,
            blocks,
            to,
        ) == built(scene, opening, fresh, blocks, from),
        built(scene, opening, fresh, blocks, to) matches Ok(all) ==> all.blocks.len() == to,
    decreases to,
{
    if from < to {
        lemma_built(scene, opening, fresh, blocks, from, (to - 1) as nat);
    } else if to > 0 {
        lemma_built(scene, opening, fresh, blocks, (from - 1) as nat, (to - 1) as nat);
    }
}

impl Context {
    /// Whether nothing happened since an earlier state but that a row of
    /// blocks made steps, and other blocks were made in their region.
    pub open spec fn laid_since(
        self,
        old: Context,
        first: nat,
        region: RegionId,
        blocks: Seq<Seq<Step>>,
        extra: Seq<Seq<Step>>,
    ) -> bool {
        &&& self.grew(old)
        &&& self.dialects == old.dialects
        &&& self@.has_grown(old@, region, extra.len())
        &&& forall|b: int|
            0 <= b < old@.effects.len() && !(first <= b < first + blocks.len())
                ==> #[trigger] self@.effects[b] == old@.effects[b]
        &&& forall|j: int|
            0 <= j < blocks.len() ==> #[trigger] self.block_steps(first, j) == old.block_steps(
                first,
                j,
            ) + blocks[j]
        &&& forall|k: int|
            0 <= k < extra.len() ==> #[trigger] self.made_steps(old, k) == extra[k]
    }

    /// Whether the blocks of a row hold what they should up to one that failed:
    /// those before it make given steps, it begins with given ones, and those
    /// after it make none; and of the blocks that were made, the first make
    /// given steps.
    pub open spec fn halts(
        self,
        first: nat,
        count: nat,
        stopped: (Seq<Seq<Step>>, Seq<Seq<Step>>, Seq<Step>),
    ) -> bool {
        &&& forall|j: int|
            0 <= j < stopped.0.len() ==> #[trigger] self.block_steps(first, j) == stopped.0[j]
        &&& stopped.0.len() < count ==> need::begins(
            self.block_steps(first, stopped.0.len() as int),
            stopped.2,
        )
        &&& forall|j: int|
            stopped.0.len() < j < count ==> #[trigger] self.block_steps(first, j) == Seq::<
                Step,
            >::empty()
        &&& forall|k: int|
            0 <= k < stopped.1.len() ==> #[trigger] self.block_steps(first + count, k)
                == stopped.1[k]
    }

    /// Whether blocks of a row and those that were made since an earlier state
    /// are whole.
    pub open spec fn finishes(self, old: Context, first: nat, count: nat, extra: nat) -> bool {
        &&& forall|j: int|
            0 <= j < count ==> ir::is_whole(#[trigger] self.row_kinds(first, j))
        &&& forall|k: int|
            0 <= k < extra ==> ir::is_whole(#[trigger] self.made_kinds(old, k))
    }

    /// The kinds of the operations of a block of a row.
    pub open spec fn row_kinds(self, first: nat, j: int) -> Seq<OpKind> {
        self.kinds(BlockId((first + j) as usize))
    }

    /// What a block of a row does.
    pub open spec fn block_steps(self, first: nat, j: int) -> Seq<Step> {
        meaning::steps_of(self@.effects[first + j])
    }

    /// Whether nothing was lost since an earlier state, and only blocks from
    /// one on may have grown, and a region by other blocks.
    pub open spec fn spoiled_since(self, old: Context, first: nat, region: RegionId) -> bool {
        &&& self.grew(old)
        &&& self.dialects == old.dialects
        &&& exists|count: nat| #[trigger] self@.has_grown(old@, region, count)
        &&& forall|b: int|
            0 <= b < first && b < old@.effects.len() ==> #[trigger] self@.effects[b]
                == old@.effects[b]
    }
}

/// The world grows twice.
proof fn lemma_grown_twice(
    new: World,
    middle: World,
    old: World,
    region: RegionId,
    first: nat,
    second: nat,
)
    requires
        region.0 < old.regions.len(),
        middle.has_grown(old, region, first),
        new.has_grown(middle, region, second),
    ensures
        new.has_grown(old, region, first + second),
{
    let total = first + second;
    assert forall|b: int| 0 <= b < old.labels.len() implies #[trigger] new.labels[b]
        == old.labels[b] by {
        assert(middle.labels[b] == old.labels[b]);
    }
    assert(new.args =~= old.args + Seq::new(total, |k: int| Seq::<Value>::empty()));
    let list = old.regions[region.0 as int];
    let all = list + Seq::new(total, |k: int| BlockId((old.effects.len() + k) as usize));
    if total > 0 {
        assert(new.regions[region.0 as int] =~= all);
        assert(new.regions =~= old.regions.update(region.0 as int, all));
    }
}

proof fn lemma_laid(
    new: Context,
    middle: Context,
    old: Context,
    first: nat,
    region: RegionId,
    blocks: Seq<Seq<Step>>,
    extra: Seq<Seq<Step>>,
    ending: Ending,
)
    requires
        region.0 < old@.regions.len(),
        first + blocks.len() < old@.effects.len(),
        middle.laid_since(old, first, region, blocks, extra),
        new.branched_since(
            middle,
            BlockId((first + blocks.len()) as usize),
            region,
            ending.steps,
            ending.blocks,
        ),
        first + blocks.len() <= usize::MAX,
    ensures
        new.laid_since(old, first, region, blocks.push(ending.steps), extra + ending.blocks),
{
    let n = blocks.len() as int;
    let more = blocks.push(ending.steps);
    let rest = extra + ending.blocks;
    lemma_grown_twice(new@, middle@, old@, region, extra.len(), ending.blocks.len());
    assert forall|j: int| 0 <= j < more.len() implies #[trigger] new.block_steps(first, j)
        == old.block_steps(first, j) + more[j] by {
        if j < n {
            assert(middle.block_steps(first, j) == old.block_steps(first, j) + blocks[j]);
            assert(new@.effects[first + j] == middle@.effects[first + j]);
        } else {
            let block = BlockId((first + n) as usize);
            assert(new.steps(block) == middle.steps(block) + ending.steps);
            assert(middle@.effects[first + n] == old@.effects[first + n]);
        }
    }
    assert forall|k: int| 0 <= k < rest.len() implies #[trigger] new.made_steps(old, k)
        == rest[k] by {
        if k < extra.len() {
            assert(middle.made_steps(old, k) == extra[k]);
            assert(new@.effects[old@.effects.len() + k] == middle@.effects[old@.effects.len() + k]);
        } else {
            assert(new.made_steps(middle, k - extra.len()) == ending.blocks[k - extra.len()]);
        }
    }
    assert forall|b: int|
        0 <= b < old@.effects.len() && !(first <= b < first + more.len()) implies #[trigger] new@.effects[b]
        == old@.effects[b] by {
        assert(middle@.effects[b] == old@.effects[b]);
    }
}

/// What the blocks of a row do before one that fails: the first one what it did
/// at first, and then what they should; and what the one that fails begins with.
pub open spec fn stopped_after(opening: Seq<Step>, all: Built, broken: Seq<Step>) -> (
    Seq<Seq<Step>>,
    Seq<Seq<Step>>,
    Seq<Step>,
) {
    (
        Seq::new(
            all.blocks.len(),
            |j: int|
                if j == 0 {
                    opening + all.blocks[0]
                } else {
                    all.blocks[j]
                },
        ),
        all.extra,
        if all.blocks.len() == 0 {
            opening + broken
        } else {
            broken
        },
    )
}

/// What the block of a body that fails first does before the statement that
/// fails, or its end.
pub open spec fn broken(
    scene: Scene,
    opening: nat,
    fresh: nat,
    blocks: Seq<BlockData>,
    all: Built,
) -> Seq<Step> {
    let i = all.blocks.len() as int;
    match block_ending(scene, start_of(scene, opening, i), fresh + all.extra.len(), blocks[i]) {
        Ok(_) => Seq::empty(),
        Err(lost) => lost.steps,
    }
}

/// A block fails after those before it were laid out.
proof fn lemma_halts(
    new: Context,
    middle: Context,
    old: Context,
    first: nat,
    count: nat,
    region: RegionId,
    block: BlockId,
    all: Built,
    broken: Seq<Step>,
)
    requires
        first + count == old@.effects.len(),
        all.blocks.len() < count,
        block.0 == first + all.blocks.len(),
        middle.laid_since(old, first, region, all.blocks, all.extra),
        new.strayed_since(middle, block, region),
        need::begins(new.steps(block), middle.steps(block) + broken),
        forall|j: int| 0 < j < count ==> #[trigger] old.block_steps(first, j) == Seq::<Step>::empty(),
    ensures
        new.halts(first, count, stopped_after(old.block_steps(first, 0), all, broken)),
{
    let stopped = stopped_after(old.block_steps(first, 0), all, broken);
    let i = all.blocks.len() as int;
    assert(middle@.effects[first + i] == old@.effects[first + i]);
    assert(middle.steps(block) == old.block_steps(first, i));
    assert(new.steps(block) == new.block_steps(first, i));
    if i > 0 {
        assert(Seq::<Step>::empty() + broken =~= broken);
    }
    assert forall|j: int| 0 <= j < stopped.0.len() implies #[trigger] new.block_steps(first, j)
        == stopped.0[j] by {
        assert(new@.effects[first + j] == middle@.effects[first + j]);
        assert(middle.block_steps(first, j) == old.block_steps(first, j) + all.blocks[j]);
        if j > 0 {
            assert(Seq::<Step>::empty() + all.blocks[j] =~= all.blocks[j]);
        }
    }
    assert forall|j: int| stopped.0.len() < j < count implies #[trigger] new.block_steps(first, j)
        == Seq::<Step>::empty() by {
        assert(new@.effects[first + j] == middle@.effects[first + j]);
        assert(middle@.effects[first + j] == old@.effects[first + j]);
        assert(old.block_steps(first, j) == Seq::<Step>::empty());
    }
    assert forall|k: int| 0 <= k < stopped.1.len() implies #[trigger] new.block_steps(
        first + count,
        k,
    ) == stopped.1[k] by {
        let b = first + count + k;
        assert(middle.made_steps(old, k) == all.extra[k]);
        assert(new@.effects[b] == middle@.effects[b]);
    }
}

/// One more block of a row is whole, with those that were made for it.
proof fn lemma_finishes(
    new: Context,
    middle: Context,
    old: Context,
    first: nat,
    count: nat,
    block: BlockId,
    extra: nat,
    more: nat,
)
    requires
        middle.finishes(old, first, count, extra),
        new.closes(middle, block, more),
        meaning::is_straight(middle.steps(block)),
        block.0 == first + count,
        first + count < old@.effects.len(),
        middle@.effects.len() == old@.effects.len() + extra,
        old@.effects.len() + extra + more <= usize::MAX,
    ensures
        new.finishes(old, first, count + 1, extra + more),
{
    assert forall|j: int| 0 <= j < count + 1 implies ir::is_whole(
        #[trigger] new.row_kinds(first, j),
    ) by {
        if j < count {
            assert(ir::is_whole(middle.row_kinds(first, j)));
            let other = BlockId((first + j) as usize);
            assert(new.kinds(other) == middle.kinds(other));
        }
    }
    assert forall|k: int| 0 <= k < extra + more implies ir::is_whole(
        #[trigger] new.made_kinds(old, k),
    ) by {
        if k < extra {
            assert(ir::is_whole(middle.made_kinds(old, k)));
            let other = BlockId((old@.effects.len() + k) as usize);
            assert(new.kinds(other) == middle.kinds(other));
        } else {
            assert(ir::is_whole(new.made_kinds(middle, k - extra)));
        }
    }
}

fn import_blocks(
    site: &Site,
    ctx: &mut Context,
    needs: &mut Needs,
    Ghost(first): Ghost<nat>,
    Ghost(opening): Ghost<nat>,
) -> (r: Result<(), Failure>)
    requires
        forall|i: int|
            0 <= i < site.state.blocks@.len() ==> (#[trigger] site.state.blocks@[i]).0 == first + i,
        site.body.blocks@.len() <= site.state.blocks@.len(),
        site.state.blocks@.len() > 0,
        first + site.state.blocks@.len() == old(ctx)@.effects.len(),
        site.ready(*old(ctx), site.state.blocks@[0]),
        site.state.region.0 < old(ctx)@.regions.len(),
        lists_wf(*site.program),
        body_wf(*site.program, *site.body),
        old(ctx)@.time(site.state.blocks@[0]) == opening,
        forall|i: int|
            0 < i < site.state.blocks@.len() ==> old(ctx)@.time(#[trigger] site.state.blocks@[i])
                == 0,
        meaning::is_straight(old(ctx).steps(site.state.blocks@[0])),
    ensures
        match built(
            site.scene(),
            opening,
            old(ctx)@.effects.len(),
            site.body.blocks@,
            site.body.blocks@.len(),
        ) {
            Ok(all) => {
                &&& r is Ok
                &&& final(ctx).laid_since(
                    *old(ctx),
                    first,
                    site.state.region,
                    all.blocks,
                    all.extra,
                )
                &&& final(ctx).finishes(
                    *old(ctx),
                    first,
                    all.blocks.len(),
                    all.extra.len(),
                )
                &&& final(ctx)@.labels == old(ctx)@.labels + extra_labels(
                    site.body.blocks@,
                    site.body.blocks@.len(),
                )
                &&& final(needs)@ == old(needs)@ + all.needs
            },
            Err(failure) => {
                &&& r == Err::<(), Failure>(failure)
                &&& final(ctx).spoiled_since(*old(ctx), first, site.state.region)
                &&& final(ctx).halts(
                    first,
                    site.state.blocks@.len(),
                    stopped_after(
                        old(ctx).steps(site.state.blocks@[0]),
                        reached(
                            site.scene(),
                            opening,
                            old(ctx)@.effects.len(),
                            site.body.blocks@,
                            site.body.blocks@.len(),
                        ),
                        broken(
                            site.scene(),
                            opening,
                            old(ctx)@.effects.len(),
                            site.body.blocks@,
                            reached(
                                site.scene(),
                                opening,
                                old(ctx)@.effects.len(),
                                site.body.blocks@,
                                site.body.blocks@.len(),
                            ),
                        ),
                    ),
                )
                &&& final(needs)@ == old(needs)@ + built_needs(
                    site.scene(),
                    opening,
                    old(ctx)@.effects.len(),
                    site.body.blocks@,
                    site.body.blocks@.len(),
                )
            },
        },
{
    let ghost before = *ctx;
    let ghost asked = needs@;
    let ghost fresh = ctx@.effects.len();
    let ghost scene = site.scene();
    let ghost region = site.state.region;
    let ghost entry = site.state.blocks@[0];
    let ghost data = site.body.blocks@;
    let mut i: usize = 0;
    proof {
        assert(needs@ =~= asked + Seq::<Asked>::empty());
        assert(before@.args + Seq::new(0, |k: int| Seq::<Value>::empty()) =~= before@.args);
        assert(before@.labels + extra_labels(data, 0) =~= before@.labels);
    }
    while i < site.body.blocks.len()
        invariant
            i <= data.len(),
            data == site.body.blocks@,
            before == *old(ctx),
            asked == old(needs)@,
            fresh == before@.effects.len(),
            scene == site.scene(),
            region == site.state.region,
            entry == site.state.blocks@[0],
            forall|k: int|
                0 <= k < site.state.blocks@.len() ==> (#[trigger] site.state.blocks@[k]).0 == first
                    + k,
            data.len() <= site.state.blocks@.len(),
            first + site.state.blocks@.len() == fresh,
            site.ready(*ctx, entry),
            region.0 < before@.regions.len(),
            lists_wf(*site.program),
            body_wf(*site.program, *site.body),
            before@.time(entry) == opening,
            meaning::is_straight(before.steps(entry)),
            forall|k: int|
                0 < k < site.state.blocks@.len() ==> before@.time(
                    #[trigger] site.state.blocks@[k],
                ) == 0,
            ctx@.labels == before@.labels + extra_labels(data, i as nat),
            built(scene, opening, fresh, data, i as nat) matches Ok(so_far) && so_far.blocks.len()
                == i && ctx.laid_since(before, first, region, so_far.blocks, so_far.extra)
                && ctx.finishes(before, first, i as nat, so_far.extra.len()) && needs@ == asked + so_far.needs,
        decreases data.len() - i,
    {
        let ghost middle = *ctx;
        let ghost so_far = built(scene, opening, fresh, data, i as nat)->Ok_0;
        let block: BlockId = block_for(site.state, i)?;
        proof {
            lemma_built(scene, opening, fresh, data, (i + 1) as nat, data.len());
            assert(block == site.state.blocks@[i as int]);
            assert(middle@.effects[first + i] == before@.effects[first + i]);
            assert(middle@.now(block) == start_of(scene, opening, i as int));
            assert(block_wf(*site.program, data[i as int]));
            assert(region.0 < ctx@.regions.len());
        }
        let r: Result<(), Failure> = import_block(site, ctx, block, needs, &site.body.blocks[i]);
        let ghost want = block_ending(
            scene,
            start_of(scene, opening, i as int),
            fresh + so_far.extra.len(),
            data[i as int],
        );
        match r {
            Ok(()) => {},
            Err(failure) => {
                proof {
                    let count = choose|count: nat| #[trigger]
                        ctx@.has_grown(middle@, region, count);
                    lemma_grown_twice(
                        ctx@,
                        middle@,
                        before@,
                        region,
                        so_far.extra.len(),
                        count,
                    );
                    assert forall|b: int| 0 <= b < first implies #[trigger] ctx@.effects[b]
                        == before@.effects[b] by {
                        assert(middle@.effects[b] == before@.effects[b]);
                    }
                    lemma_built_needs(scene, opening, fresh, data, (i + 1) as nat, data.len());
                    let more = block_needs(
                        scene,
                        start_of(scene, opening, i as int),
                        fresh + so_far.extra.len(),
                        data[i as int],
                    );
                    assert(needs@ =~= asked + (so_far.needs + more));
                    lemma_reached(scene, opening, fresh, data, i as nat, data.len());
                    assert(before.block_steps(first, 0) == before.steps(entry));
                    assert forall|j: int|
                        0 < j < site.state.blocks@.len() implies #[trigger] before.block_steps(
                        first,
                        j,
                    ) == Seq::<Step>::empty() by {
                        assert(before@.time(site.state.blocks@[j]) == 0);
                        assert(before.block_steps(first, j) =~= Seq::<Step>::empty());
                    }
                    lemma_halts(
                        *ctx,
                        middle,
                        before,
                        first,
                        site.state.blocks@.len(),
                        region,
                        block,
                        so_far,
                        broken(scene, opening, fresh, data, so_far),
                    );
                }
                return Err(failure);
            },
        }
        proof {
            let ending = want->Ok_0;
            lemma_made_for(
                scene,
                start_of(scene, opening, i as int),
                fresh + so_far.extra.len(),
                data[i as int],
            );
            assert(ctx@.labels =~= before@.labels + extra_labels(data, (i + 1) as nat));
            lemma_laid(
                *ctx,
                middle,
                before,
                first,
                region,
                so_far.blocks,
                so_far.extra,
                ending,
            );
            assert(needs@ =~= asked + (so_far.needs + ending.needs));
            site.lemma_ready(*ctx, middle, entry);
            ctx.lemma_sizes();
            assert(meaning::is_straight(middle.steps(block))) by {
                reveal(meaning::is_straight);
                assert(middle.steps(block) =~= before.steps(block));
            }
            lemma_finishes(
                *ctx,
                middle,
                before,
                first,
                i as nat,
                block,
                so_far.extra.len(),
                ending.blocks.len(),
            );
        }
        i = i + 1;
    }
    Ok(())
}

/// A row of blocks.
pub open spec fn row(first: nat, count: nat) -> Seq<BlockId> {
    Seq::new(count, |k: int| BlockId((first + k) as usize))
}

/// How many blocks a body has; a function without any still starts in one.
pub open spec fn block_count(body: Body) -> nat {
    if body.blocks@.len() == 0 {
        1
    } else {
        body.blocks@.len()
    }
}

/// How many blocks are made for the end of a block.
pub open spec fn made_for(terminator: Terminator) -> nat {
    match terminator {
        Terminator::SwitchInt { cases, .. } => if cases@.len() == 0 {
            0
        } else {
            (cases@.len() - 1) as nat
        },
        _ => 0,
    }
}

/// The labels of the blocks that are made for the first blocks of a body.
pub open spec fn extra_labels(blocks: Seq<BlockData>, count: nat) -> Seq<Seq<char>>
    decreases count,
{
    if count == 0 {
        Seq::empty()
    } else {
        extra_labels(blocks, (count - 1) as nat) + terminator::switch_labels(
            made_for(blocks[count - 1].terminator),
        )
    }
}

/// The label of a block of a body after the first.
pub open spec fn block_label(index: int) -> Seq<char> {
    "bb"@ + text::decimal_of(index as nat)
}

/// The labels of a row of blocks, without the first.
pub open spec fn block_labels(count: nat) -> Seq<Seq<char>> {
    Seq::new(count, |k: int| block_label(k + 1))
}

/// The labels of the blocks of a function: of its first, of the others of its
/// body, and of those that are made for them.
pub open spec fn body_labels(body: Body) -> Seq<Seq<char>> {
    seq!["entry"@] + (block_labels((block_count(body) - 1) as nat) + extra_labels(
        body.blocks@,
        body.blocks@.len(),
    ))
}

proof fn lemma_made_for(scene: Scene, at: Moment, fresh: nat, data: BlockData)
    ensures
        block_ending(scene, at, fresh, data) matches Ok(ending) ==> ending.blocks.len()
            == made_for(data.terminator),
{
    reveal(end_of);
}

/// What all the blocks of a function do: the beginning of the function and
/// its blocks, and then the blocks that were made for them.
pub open spec fn laid_out(opening: Seq<Step>, all: Built, count: nat) -> Seq<Seq<Step>> {
    Seq::new(
        count,
        |j: int|
            if j < all.blocks.len() {
                if j == 0 {
                    opening + all.blocks[0]
                } else {
                    all.blocks[j]
                }
            } else {
                opening
            },
    ) + all.extra
}

/// What the blocks of a function do, numbered from one on, and what they
/// need.
pub open spec fn function_body(
    program: Program,
    body: Body,
    params: Seq<Parameter>,
    first: nat,
) -> Result<(Seq<Demand>, Seq<Seq<Step>>), Failure> {
    let locals = body.locals@;
    let at = Moment { block: first as int, time: 0 };
    let count = block_count(body);
    match prologue::storage_for(program.types, locals, at, locals.len()) {
        Err(failure) => Err(failure),
        Ok((slots, allocas)) => match prologue::arrivals(
            program.types,
            locals,
            slots,
            meaning::later(at, allocas.len()),
            params,
            passing::arguments(
                BlockId(first as usize),
                signature::all_inputs(params, params.len()),
            ),
            params.len(),
        ) {
            Err(failure) => Err(failure),
            Ok((_, stores)) => {
                let opening = allocas + stores;
                match built(
                    Scene { program, locals, slots, blocks: row(first, count) },
                    opening.len(),
                    first + count,
                    body.blocks@,
                    body.blocks@.len(),
                ) {
                    Err(failure) => Err(failure),
                    Ok(all) => Ok((need::demands(all.needs), laid_out(opening, all, count))),
                }
            },
        },
    }
}

/// What the blocks of a function need, up to what fails in them first.
pub open spec fn body_needs(
    program: Program,
    body: Body,
    params: Seq<Parameter>,
    first: nat,
) -> Seq<Demand> {
    need::demands(body_asked(program, body, params, first))
}

/// What the blocks of a function ask for and when, up to what fails in them
/// first.
pub open spec fn body_asked(
    program: Program,
    body: Body,
    params: Seq<Parameter>,
    first: nat,
) -> Seq<Asked> {
    let locals = body.locals@;
    let at = Moment { block: first as int, time: 0 };
    let count = block_count(body);
    match prologue::storage_for(program.types, locals, at, locals.len()) {
        Err(_) => Seq::empty(),
        Ok((slots, allocas)) => match prologue::arrivals(
            program.types,
            locals,
            slots,
            meaning::later(at, allocas.len()),
            params,
            passing::arguments(
                BlockId(first as usize),
                signature::all_inputs(params, params.len()),
            ),
            params.len(),
        ) {
            Err(_) => Seq::empty(),
            Ok((_, stores)) => {
                let scene = Scene { program, locals, slots, blocks: row(first, count) };
                let opening = (allocas + stores).len();
                match built(
                    scene,
                    opening,
                    first + count,
                    body.blocks@,
                    body.blocks@.len(),
                ) {
                    Ok(all) => all.needs,
                    Err(_) => built_needs(
                        scene,
                        opening,
                        first + count,
                        body.blocks@,
                        body.blocks@.len(),
                    ),
                }
            },
        },
    }
}

/// What the blocks of a function do before the one in which it fails, and the
/// blocks that were made for them; and what the one in which it fails begins
/// with.
pub open spec fn stopped(program: Program, body: Body, params: Seq<Parameter>, first: nat) -> (
    Seq<Seq<Step>>,
    Seq<Seq<Step>>,
    Seq<Step>,
) {
    let locals = body.locals@;
    let at = Moment { block: first as int, time: 0 };
    let count = block_count(body);
    match prologue::storage_for(program.types, locals, at, locals.len()) {
        Err(_) => (Seq::empty(), Seq::empty(), Seq::empty()),
        Ok((slots, allocas)) => match prologue::arrivals(
            program.types,
            locals,
            slots,
            meaning::later(at, allocas.len()),
            params,
            passing::arguments(
                BlockId(first as usize),
                signature::all_inputs(params, params.len()),
            ),
            params.len(),
        ) {
            Err(_) => (Seq::empty(), Seq::empty(), allocas),
            Ok((_, stores)) => {
                let opening = allocas + stores;
                let scene = Scene { program, locals, slots, blocks: row(first, count) };
                let all = reached(
                    scene,
                    opening.len(),
                    first + count,
                    body.blocks@,
                    body.blocks@.len(),
                );
                stopped_after(
                    opening,
                    all,
                    broken(scene, opening.len(), first + count, body.blocks@, all),
                )
            },
        },
    }
}

/// A body that does not fail needs what its blocks need.
pub proof fn lemma_body_needs(program: Program, body: Body, params: Seq<Parameter>, first: nat)
    ensures
        function_body(program, body, params, first) matches Ok((needs, _)) ==> body_needs(
            program,
            body,
            params,
            first,
        ) == needs,
{
}

/// The parameters and the type of a function that is to be defined. One that
/// is no kernel must not call any.
pub open spec fn sound_signature(program: Program, body: Body, is_kernel: bool) -> Result<
    (Seq<Parameter>, TypeHandle),
    Failure,
> {
    if !is_kernel && callee::has_kernel_call(program, body) {
        Err(Failure::KernelCall)
    } else {
        signature::signature(program.types, body)
    }
}

impl World {
    /// Whether a symbol was added to a block since an earlier state, with a
    /// body of a number of new blocks, of which the first has arguments.
    pub open spec fn has_function(
        self,
        old: World,
        module: BlockId,
        symbol: Seq<char>,
        ty: TypeHandle,
        count: nat,
    ) -> bool {
        let first = old.effects.len();
        &&& self.effects.len() == first + count
        &&& count > 0
        &&& self.effects[module.0 as int] == old.effects[module.0 as int].push(
            Inst::MirFunc {
                symbol,
                ty,
                linkage: None,
                region: Some(RegionId(old.regions.len() as usize)),
            },
        )
        &&& forall|b: int|
            0 <= b < first && b != module.0 ==> #[trigger] self.effects[b] == old.effects[b]
        &&& self.regions == old.regions.push(row(first, count))
        &&& self.args.len() == first + count
        &&& forall|b: int| 0 <= b < first ==> #[trigger] self.args[b] == old.args[b]
        &&& self.args[first as int].len() == ox::function_inputs(ty).len()
        &&& forall|i: int|
            0 <= i < self.args[first as int].len() ==> (#[trigger] self.args[first as int][i]).ty()
                == ox::function_inputs(ty)[i]
        &&& forall|b: int| first < b < first + count ==> #[trigger] self.args[b] == Seq::<Value>::empty()
        &&& self.labels.len() == old.labels.len() + count
        &&& self.labels[old.labels.len() as int] == "entry"@
        &&& self.keeps_labels(old)
    }
}

impl Context {
    /// Whether nothing happened since an earlier state but that a function
    /// was defined in a block of symbols, whose blocks make given steps.
    pub open spec fn defined_since(
        self,
        old: Context,
        module: BlockId,
        symbol: Seq<char>,
        ty: TypeHandle,
        blocks: Seq<Seq<Step>>,
    ) -> bool {
        &&& self.grew(old)
        &&& self.dialects == old.dialects
        &&& self@.has_function(old@, module, symbol, ty, blocks.len())
        &&& forall|k: int|
            0 <= k < blocks.len() ==> #[trigger] self.made_steps(old, k) == blocks[k]
    }

    /// Whether nothing happened since an earlier state but that a function
    /// was begun in a block of symbols.
    pub open spec fn begun_since(
        self,
        old: Context,
        module: BlockId,
        symbol: Seq<char>,
        ty: TypeHandle,
    ) -> bool {
        &&& self.grew(old)
        &&& self.dialects == old.dialects
        &&& exists|count: nat| #[trigger] self@.has_function(old@, module, symbol, ty, count)
    }
}

/// Whether a function was defined as it should. Where its signature has no
/// counterpart nothing happens; where its body has none, the function is
/// begun.
pub open spec fn defines(
    new: (Context, Seq<Asked>),
    old: (Context, Seq<Asked>),
    module: BlockId,
    symbol: Seq<char>,
    r: Result<(), Failure>,
    program: Program,
    body: Body,
    is_kernel: bool,
) -> bool {
    match sound_signature(program, body, is_kernel) {
        Err(failure) => {
            &&& r == Err::<(), Failure>(failure)
            &&& new == old
        },
        Ok((params, ty)) => match function_body(program, body, params, old.0@.effects.len()) {
            Err(failure) => {
                &&& r == Err::<(), Failure>(failure)
                &&& new.0.begun_since(old.0, module, symbol, ty)
                &&& old.0@.effects.len() + block_count(body) <= new.0@.effects.len()
                &&& new.0.halts(
                    old.0@.effects.len(),
                    block_count(body),
                    stopped(program, body, params, old.0@.effects.len()),
                )
                &&& new.1 == old.1 + body_asked(program, body, params, old.0@.effects.len())
            },
            Ok((_, blocks)) => {
                &&& r is Ok
                &&& new.0.defined_since(old.0, module, symbol, ty, blocks)
                &&& body.blocks@.len() > 0 ==> new.0.finishes(
                    old.0,
                    old.0@.effects.len(),
                    blocks.len(),
                    0,
                )
                &&& new.0@.labels == old.0@.labels + body_labels(body)
                &&& new.1 == old.1 + body_asked(program, body, params, old.0@.effects.len())
            },
        },
    }
}

/// Makes the blocks of a body after the first.
fn make_blocks(ctx: &mut Context, entry: BlockId, region: RegionId, count: usize) -> (r: Vec<
    BlockId,
>)
    requires
        old(ctx).wf(),
        old(ctx)@.effects.len() == entry.0 + 1,
        region.0 < old(ctx)@.regions.len(),
    ensures
        ({
            let total = if count == 0 {
                1
            } else {
                count as nat
            };
            &&& r@ == row(entry.0 as nat, total)
            &&& forall|i: int| 0 <= i < r@.len() ==> (#[trigger] r@[i]).0 == entry.0 + i
            &&& final(ctx).branched_since(
                *old(ctx),
                entry,
                region,
                Seq::empty(),
                Seq::new((total - 1) as nat, |k: int| Seq::<Step>::empty()),
            )
            &&& final(ctx)@.labels == old(ctx)@.labels + block_labels((total - 1) as nat)
        }),
{
    let ghost before = *ctx;
    let mut blocks: Vec<BlockId> = Vec::new();
    blocks.push(entry);
    let mut i: usize = 1;
    proof {
        ctx.lemma_computed(before, entry);
        ctx.lemma_branched(before, entry, region, Seq::empty());
        assert(Seq::new(0, |k: int| Seq::<Step>::empty()) =~= Seq::<Seq<Step>>::empty());
        assert(before@.labels + block_labels(0) =~= before@.labels);
    }
    while i < count
        invariant
            1 <= i,
            count > 0 ==> i <= count,
            count == 0 ==> i == 1,
            before == *old(ctx),
            before@.effects.len() == entry.0 + 1,
            region.0 < before@.regions.len(),
            ctx.wf(),
            blocks@.len() == i,
            forall|k: int| 0 <= k < blocks@.len() ==> (#[trigger] blocks@[k]).0 == entry.0 + k,
            ctx.branched_since(
                before,
                entry,
                region,
                Seq::empty(),
                Seq::new((i - 1) as nat, |k: int| Seq::<Step>::empty()),
            ),
            ctx@.labels == before@.labels + block_labels((i - 1) as nat),
        decreases count - i,
    {
        let ghost middle = *ctx;
        let label: String = join("bb", decimal(i as u64).as_str());
        let ghost name = label@;
        let block: BlockId = ctx.new_block(label, Vec::new());
        proof {
            assert(ctx@.args.last() =~= Seq::<Value>::empty());
        }
        ctx.append_block(region, block);
        blocks.push(block);
        proof {
            let made = Seq::new((i - 1) as nat, |k: int| Seq::<Step>::empty());
            ctx.lemma_made_block(middle, before, entry, region, Seq::empty(), made, block, name);
            assert(made.push(Seq::empty()) =~= Seq::new(i as nat, |k: int| Seq::<Step>::empty()));
            assert(ctx@.labels =~= before@.labels + block_labels(i as nat));
        }
        i = i + 1;
    }
    assert(blocks@ =~= row(entry.0 as nat, blocks@.len()));
    blocks
}

impl Context {
    /// Whether nothing happened since an earlier state but that the blocks
    /// from one on make given steps, the last of which were made in a region.
    spec fn filled_since(
        self,
        old: Context,
        first: nat,
        region: RegionId,
        count: nat,
        blocks: Seq<Seq<Step>>,
    ) -> bool {
        &&& self.grew(old)
        &&& self.dialects == old.dialects
        &&& blocks.len() >= count
        &&& self@.has_grown(old@, region, (blocks.len() - count) as nat)
        &&& forall|b: int|
            0 <= b < first && b < old@.effects.len() ==> #[trigger] self@.effects[b]
                == old@.effects[b]
        &&& forall|k: int|
            0 <= k < blocks.len() ==> #[trigger] self.block_steps(first, k) == blocks[k]
    }

    proof fn lemma_filled(
        self,
        middle: Context,
        old: Context,
        first: nat,
        region: RegionId,
        count: nat,
        opening: Seq<Step>,
        all: Built,
    )
        requires
            count > 0,
            first + count == old@.effects.len(),
            first + count <= usize::MAX,
            middle.ran_since(old, BlockId(first as usize), opening),
            self.laid_since(middle, first, region, all.blocks, all.extra),
            all.blocks.len() == count || (all.blocks.len() == 0 && count == 1),
            forall|j: int| 0 <= j < count ==> #[trigger] old.block_steps(first, j) == Seq::<
                Step,
            >::empty(),
        ensures
            self.filled_since(old, first, region, count, laid_out(opening, all, count)),
    {
        let blocks = laid_out(opening, all, count);
        let entry = BlockId(first as usize);
        assert(middle.block_steps(first, 0) == middle.steps(entry));
        assert(old.block_steps(first, 0) == old.steps(entry));
        assert(Seq::<Step>::empty() + opening =~= opening);
        assert forall|k: int| 0 <= k < blocks.len() implies #[trigger] self.block_steps(first, k)
            == blocks[k] by {
            if k < count {
                if k > 0 {
                    assert(middle@.effects[first + k] == old@.effects[first + k]);
                    assert(middle.block_steps(first, k) == old.block_steps(first, k));
                }
                if k < all.blocks.len() {
                    assert(self.block_steps(first, k) == middle.block_steps(first, k)
                        + all.blocks[k]);
                    assert(Seq::<Step>::empty() + all.blocks[k] =~= all.blocks[k]);
                } else {
                    assert(self@.effects[first + k] == middle@.effects[first + k]);
                }
            } else {
                assert(self.made_steps(middle, k - count) == all.extra[k - count]);
            }
        }
        assert forall|b: int| 0 <= b < first implies #[trigger] self@.effects[b]
            == old@.effects[b] by {
            assert(middle@.effects[b] == old@.effects[b]);
        }
    }
}

/// Nothing happened in the blocks after the first.
proof fn lemma_untouched(
    new: Context,
    old: Context,
    first: nat,
    count: nat,
    opening: Seq<Step>,
)
    requires
        first + count == old@.effects.len(),
        first <= usize::MAX,
        new.touched_since(old, BlockId(first as usize)),
        need::begins(new.block_steps(first, 0), opening),
        forall|j: int| 0 <= j < count ==> #[trigger] old.block_steps(first, j) == Seq::<Step>::empty(),
    ensures
        new.halts(first, count, (Seq::empty(), Seq::empty(), opening)),
{
    assert forall|j: int| 0 < j < count implies #[trigger] new.block_steps(first, j) == Seq::<
        Step,
    >::empty() by {
        assert(new@.effects[first + j] == old@.effects[first + j]);
        assert(old.block_steps(first, j) == Seq::<Step>::empty());
    }
}

#[verifier::spinoff_prover]
fn fill_function(
    program: &Program,
    ctx: &mut Context,
    module: BlockId,
    region: RegionId,
    blocks: Vec<BlockId>,
    body: &Body,
    params: &Vec<Param>,
    needs: &mut Needs,
    Ghost(first): Ghost<nat>,
) -> (r: Result<(), Failure>)
    requires
        lists_wf(*program),
        body_wf(*program, *body),
        old(ctx).wf(),
        region.0 < old(ctx)@.regions.len(),
        blocks@ == row(first, block_count(*body)),
        first + block_count(*body) == old(ctx)@.effects.len(),
        first + block_count(*body) <= usize::MAX,
        forall|j: int|
            0 <= j < block_count(*body) ==> #[trigger] old(ctx).block_steps(first, j) == Seq::<
                Step,
            >::empty(),
        ({
            let list = signature::params_view(params@);
            let inputs = signature::all_inputs(list, list.len());
            let args = old(ctx)@.args[first as int];
            &&& args.len() == inputs.len()
            &&& forall|i: int|
                0 <= i < args.len() ==> (#[trigger] old(ctx)@.args[first as int][i]).ty()
                    == inputs[i]
        }),
    ensures
        match function_body(*program, *body, signature::params_view(params@), first) {
            Ok((_, steps)) => {
                &&& r is Ok
                &&& final(ctx).filled_since(*old(ctx), first, region, block_count(*body), steps)
                &&& body.blocks@.len() > 0 ==> final(ctx).finishes(
                    *old(ctx),
                    first,
                    steps.len(),
                    0,
                )
                &&& final(ctx)@.labels == old(ctx)@.labels + extra_labels(
                    body.blocks@,
                    body.blocks@.len(),
                )
                &&& final(needs)@ == old(needs)@ + body_asked(
                    *program,
                    *body,
                    signature::params_view(params@),
                    first,
                )
            },
            Err(failure) => {
                &&& r == Err::<(), Failure>(failure)
                &&& final(ctx).spoiled_since(*old(ctx), first, region)
                &&& final(ctx).halts(
                    first,
                    block_count(*body),
                    stopped(*program, *body, signature::params_view(params@), first),
                )
                &&& final(needs)@ == old(needs)@ + body_asked(
                    *program,
                    *body,
                    signature::params_view(params@),
                    first,
                )
            },
        },
{
    let ghost before = *ctx;
    proof {
        assert(needs@ =~= old(needs)@ + Seq::<Asked>::empty());
    }
    let ghost list = signature::params_view(params@);
    let ghost inputs = signature::all_inputs(list, list.len());
    let ghost count = block_count(*body);
    let entry: BlockId = blocks[0];
    let ghost at = ctx@.now(entry);
    proof {
        assert(before.block_steps(first, 0) == before.steps(entry));
        assert(before.steps(entry).len() == before@.time(entry));
        assert(at == Moment { block: first as int, time: 0 });
        passing::lemma_arguments(before, entry, inputs);
    }
    let made: Result<Vec<Option<Value>>, Failure> = put_storage(
        &program.types,
        ctx,
        entry,
        &body.locals,
    );
    let local_slots: Vec<Option<Value>> = match made {
        Ok(slots) => slots,
        Err(failure) => {
            proof {
                ctx.lemma_strayed(before, entry, region);
                lemma_untouched(*ctx, before, first, count, Seq::empty());
            }
            return Err(failure);
        },
    };
    let ghost stored = *ctx;
    let ghost (slots, allocas) = prologue::storage_for(
        program.types,
        body.locals@,
        at,
        body.locals@.len(),
    )->Ok_0;
    let state: FunctionImportState = FunctionImportState {
        module_body: module,
        region,
        blocks,
        local_slots,
    };
    proof {
        assert(state.slots() =~= slots);
        ctx.lemma_time(before, entry, allocas);
    }
    match put_arrivals(&program.types, ctx, &state, entry, &body.locals, params) {
        Ok(()) => {},
        Err(failure) => {
            proof {
                assert(ctx.touched_since(before, entry));
                ctx.lemma_strayed(before, entry, region);
                lemma_untouched(*ctx, before, first, count, allocas);
            }
            return Err(failure);
        },
    }
    let ghost stores = prologue::arrivals(
        program.types,
        body.locals@,
        slots,
        meaning::later(at, allocas.len()),
        list,
        passing::arguments(entry, inputs),
        list.len(),
    )->Ok_0.1;
    let ghost opening = allocas + stores;
    let ghost opened = *ctx;
    proof {
        ctx.lemma_ran(stored, before, entry, allocas, stores);
        ctx.lemma_time(before, entry, opening);
        assert(ctx.steps(entry) =~= opening);
        assert forall|i: int| 0 < i < state.blocks@.len() implies opened@.time(
            #[trigger] state.blocks@[i],
        ) == 0 by {
            let block = state.blocks@[i];
            assert(block.0 == first + i);
            assert(opened@.effects[first + i] == before@.effects[first + i]);
            assert(before.block_steps(first, i) == Seq::<Step>::empty());
            assert(before.block_steps(first, i).len() == before@.effects[first + i].len());
        }
        assert forall|i: int| 0 <= i < state.blocks@.len() implies (
        #[trigger] state.blocks@[i]).0 == first + i by {}
    }
    let site: Site = Site { program, state: &state, body };
    proof {
        assert forall|i: int| 0 <= i < state.local_slots@.len() implies (
        #[trigger] state.local_slots@[i] matches Some(v) ==> ctx.has(v)) by {}
        assert(site.ready(*ctx, entry));
        assert(site.scene() == (Scene {
            program: *program,
            locals: body.locals@,
            slots,
            blocks: row(first, count),
        }));
    }
    let r: Result<(), Failure> = import_blocks(
        &site,
        ctx,
        needs,
        Ghost(first),
        Ghost(opening.len()),
    );
    proof {
        lemma_built(
            site.scene(),
            opening.len(),
            first + count,
            body.blocks@,
            0,
            body.blocks@.len(),
        );
        match built(
            site.scene(),
            opening.len(),
            first + count,
            body.blocks@,
            body.blocks@.len(),
        ) {
            Ok(all) => {
                ctx.lemma_filled(opened, before, first, region, count, opening, all);
                assert forall|j: int|
                    0 <= j < count + all.extra.len() && body.blocks@.len()
                        > 0 implies ir::is_whole(#[trigger] ctx.row_kinds(first, j)) by {
                    if j >= count {
                        assert(ir::is_whole(ctx.made_kinds(opened, j - count)));
                    }
                }
            },
            Err(_) => {
                let more = choose|more: nat| #[trigger] ctx@.has_grown(opened@, region, more);
                assert(ctx@.has_grown(before@, region, more));
                assert forall|b: int| 0 <= b < first implies #[trigger] ctx@.effects[b]
                    == before@.effects[b] by {
                    assert(opened@.effects[b] == before@.effects[b]);
                }
            },
        }
    }
    r
}

/// A function stands where it was begun and then got more blocks.
pub proof fn lemma_has_function(
    new: World,
    made: World,
    old: World,
    module: BlockId,
    symbol: Seq<char>,
    ty: TypeHandle,
    args: Seq<Value>,
    more: nat,
)
    requires
        module.0 < old.effects.len(),
        old.args.len() == old.effects.len(),
        old.effects.len() <= usize::MAX,
        old.regions.len() <= usize::MAX,
        made == old.with_block("entry"@, args).with_region(
            seq![BlockId(old.effects.len() as usize)],
        ).then_in(
            module,
            Inst::MirFunc {
                symbol,
                ty,
                linkage: None,
                region: Some(RegionId(old.regions.len() as usize)),
            },
        ),
        args.len() == ox::function_inputs(ty).len(),
        forall|i: int|
            0 <= i < args.len() ==> (#[trigger] args[i]).ty() == ox::function_inputs(ty)[i],
        new.has_grown(made, RegionId(old.regions.len() as usize), more),
        forall|b: int|
            0 <= b < old.effects.len() ==> #[trigger] new.effects[b] == made.effects[b],
    ensures
        new.has_function(old, module, symbol, ty, more + 1),
{
    let first = old.effects.len();
    assert(made.effects[module.0 as int] == old.effects[module.0 as int].push(
        Inst::MirFunc {
            symbol,
            ty,
            linkage: None,
            region: Some(RegionId(old.regions.len() as usize)),
        },
    ));
    assert(new.regions =~= old.regions.push(row(first, more + 1))) by {
        let last = old.regions.len() as int;
        assert(made.regions[last] == seq![BlockId(first as usize)]);
        assert(new.regions[last] =~= row(first, more + 1));
    }
    assert(new.args[first as int] == args);
    assert(new.labels[old.labels.len() as int] == made.labels[old.labels.len() as int]);
    assert forall|b: int| 0 <= b < old.labels.len() implies #[trigger] new.labels[b]
        == old.labels[b] by {
        assert(made.labels[b] == old.labels[b]);
    }
    assert forall|b: int| first < b < first + more + 1 implies #[trigger] new.args[b]
        == Seq::<Value>::empty() by {}
    assert forall|b: int| 0 <= b < first && b != module.0 implies #[trigger] new.effects[b]
        == old.effects[b] by {
        assert(new.effects[b] == made.effects[b]);
    }
    assert forall|b: int| 0 <= b < first implies #[trigger] new.args[b] == old.args[b] by {
        assert(made.args[b] == old.args[b]);
    }
}

/// Defines a function in a block of symbols.
pub fn define_function(
    program: &Program,
    ctx: &mut Context,
    module: BlockId,
    symbol: String,
    body: &Body,
    is_kernel: bool,
    needs: &mut Needs,
) -> (r: Result<(), Failure>)
    requires
        lists_wf(*program),
        body_wf(*program, *body),
        old(ctx).wf(),
        old(ctx).has_block(module),
    ensures
        defines(
            (*final(ctx), final(needs)@),
            (*old(ctx), old(needs)@),
            module,
            symbol@,
            r,
            *program,
            *body,
            is_kernel,
        ),
{
    let ghost before = *ctx;
    proof {
        assert forall|i: int| 0 <= i < body.blocks@.len() implies block_wf(
            *program,
            #[trigger] body.blocks@[i],
        ) by {}
    }
    if !is_kernel && contains_kernel_call(program, body) {
        return Err(Failure::KernelCall);
    }
    let (params, ty): (Vec<Param>, TypeHandle) = signature_of(&program.types, body)?;
    let ghost list = signature::params_view(params@);
    let ghost inputs = signature::all_inputs(list, list.len());
    let ghost name = symbol@;
    let ghost fn_ty = ty;
    proof {
        TypeList::seq_of(inputs);
        before.lemma_sizes();
    }
    let func: FuncOp = FuncOp::new(ctx, symbol, ty);
    let ghost args = ctx@.args.last();
    let entry: BlockId = func.get_entry_block();
    let region: RegionId = func.get_region();
    ctx.insert_at_back(func.get_operation(), module);
    let ghost made = *ctx;
    let ghost first = before@.effects.len();
    proof {
        made.lemma_sizes();
        assert(made@.effects.len() == first + 1);
    }
    let blocks: Vec<BlockId> = make_blocks(ctx, entry, region, body.blocks.len());
    let ghost ready = *ctx;
    let ghost count = block_count(*body);
    proof {
        ready.lemma_sizes();
        assert(ready@.effects.len() == first + count);
        let empties = Seq::new((count - 1) as nat, |k: int| Seq::<Step>::empty());
        assert forall|j: int| 0 <= j < count implies #[trigger] ready.block_steps(first, j)
            == Seq::<Step>::empty() by {
            if j == 0 {
                assert(made@.effects[first as int] =~= Seq::<Inst>::empty());
                assert(made.steps(entry) =~= Seq::<Step>::empty());
                assert(ready.steps(entry) =~= Seq::<Step>::empty());
            } else {
                assert(ready.made_steps(made, j - 1) == empties[j - 1]);
            }
        }
        assert(ready@.args[first as int] == args);
    }
    let r: Result<(), Failure> = fill_function(
        program,
        ctx,
        module,
        region,
        blocks,
        body,
        &params,
        needs,
        Ghost(first),
    );
    proof {
        assert forall|b: int| 0 <= b < first implies #[trigger] ctx@.effects[b]
            == made@.effects[b] by {
            assert(ready@.effects[b] == made@.effects[b]);
        }
        match function_body(*program, *body, list, first) {
            Ok((_, steps)) => {
                let more = (steps.len() - count) as nat;
                lemma_grown_twice(ctx@, ready@, made@, region, (count - 1) as nat, more);
                lemma_has_function(
                    ctx@,
                    made@,
                    before@,
                    module,
                    name,
                    fn_ty,
                    args,
                    (count - 1 + more) as nat,
                );
                assert forall|k: int| 0 <= k < steps.len() implies #[trigger] ctx.made_steps(
                    before,
                    k,
                ) == steps[k] by {
                    assert(ctx.block_steps(first, k) == steps[k]);
                }
                assert(ctx@.labels =~= before@.labels + body_labels(*body));
            },
            Err(_) => {
                let more = choose|more: nat| #[trigger] ctx@.has_grown(ready@, region, more);
                lemma_grown_twice(ctx@, ready@, made@, region, (count - 1) as nat, more);
                lemma_has_function(
                    ctx@,
                    made@,
                    before@,
                    module,
                    name,
                    fn_ty,
                    args,
                    (count - 1 + more) as nat,
                );
            },
        }
    }
    r
}

/// The first steps of a block.
pub open spec fn first_steps(steps: Seq<Step>, time: nat) -> Seq<Step> {
    if time <= steps.len() {
        steps.take(time as int)
    } else {
        steps
    }
}

/// How many blocks are there of a function that was given up in one of them.
pub open spec fn blocks_until(body: Body, index: int) -> nat {
    block_count(body) + extra_labels(
        body.blocks@,
        if index < 0 {
            0
        } else if index < body.blocks@.len() {
            index as nat
        } else {
            body.blocks@.len()
        },
    ).len()
}

/// What the blocks do of a function that was given up at a moment: those before
/// the block of that moment do what they should, that block what it did until
/// then, and those after it nothing. Of the blocks that are made for others,
/// those are there that were made by then.
pub open spec fn given_up(body: Body, first: nat, blocks: Seq<Seq<Step>>, at: Moment) -> Seq<
    Seq<Step>,
> {
    let index = at.block - first;
    Seq::new(
        blocks_until(body, index),
        |i: int|
            if i < index || i >= block_count(body) {
                blocks[i]
            } else if i == index {
                first_steps(blocks[i], at.time)
            } else {
                Seq::empty()
            },
    )
}

/// More blocks of a body have no fewer blocks made for them.
proof fn lemma_more_labels(blocks: Seq<BlockData>, from: nat, to: nat)
    requires
        from <= to,
    ensures
        extra_labels(blocks, from).len() <= extra_labels(blocks, to).len(),
    decreases to,
{
    if from < to {
        lemma_more_labels(blocks, from, (to - 1) as nat);
    }
}

/// A function that was given up has no more blocks than a complete one.
pub proof fn lemma_blocks_until(body: Body, index: int)
    ensures
        block_count(body) <= blocks_until(body, index) <= body_labels(body).len(),
{
    lemma_more_labels(
        body.blocks@,
        if index < 0 {
            0
        } else if index < body.blocks@.len() {
            index as nat
        } else {
            body.blocks@.len()
        },
        body.blocks@.len(),
    );
}

fn made_for_end(terminator: &Terminator) -> (r: usize)
    ensures
        r == made_for(*terminator),
{
    match terminator {
        Terminator::SwitchInt { cases, .. } => if cases.len() == 0 {
            0
        } else {
            cases.len() - 1
        },
        _ => 0,
    }
}

/// How many blocks are made for the first blocks of a body, where that is no
/// more than a number.
fn made_for_first(blocks: &Vec<BlockData>, count: usize, limit: usize) -> (r: Option<usize>)
    requires
        count <= blocks@.len(),
    ensures
        match r {
            Some(n) => n == extra_labels(blocks@, count as nat).len() && n <= limit,
            None => extra_labels(blocks@, count as nat).len() > limit,
        },
{
    let mut total: usize = 0;
    let mut i: usize = 0;
    while i < count
        invariant
            i <= count <= blocks@.len(),
            total <= limit,
            total == extra_labels(blocks@, i as nat).len(),
        decreases count - i,
    {
        let more: usize = made_for_end(&blocks[i].terminator);
        if more > limit - total {
            proof {
                lemma_more_labels(blocks@, (i + 1) as nat, count as nat);
            }
            return None;
        }
        total = total + more;
        i = i + 1;
    }
    Some(total)
}

/// The first steps are those of the first instructions.
proof fn lemma_first_steps(insts: Seq<Inst>, time: int)
    requires
        0 <= time <= insts.len(),
    ensures
        meaning::steps_of(insts.take(time)) == meaning::steps_of(insts).take(time),
{
    assert(meaning::steps_of(insts.take(time)) =~= meaning::steps_of(insts).take(time));
}

/// Gives a function up at a place in its body: takes out what was put there
/// later.
pub fn give_up(ctx: &mut Context, region: RegionId, body: &Body, first: usize, mark: &Mark)
    requires
        old(ctx).wf(),
        region.0 < old(ctx)@.regions.len(),
        ({
            let list = old(ctx)@.regions[region.0 as int];
            &&& list == row(first as nat, list.len())
            &&& block_count(*body) <= list.len()
            &&& first + list.len() <= old(ctx)@.effects.len()
        }),
    ensures
        final(ctx).grew(*old(ctx)),
        final(ctx).dialects == old(ctx).dialects,
        final(ctx)@.args == old(ctx)@.args,
        final(ctx)@.labels == old(ctx)@.labels,
        final(ctx)@.effects.len() == old(ctx)@.effects.len(),
        forall|b: int|
            0 <= b < old(ctx)@.effects.len() && !(first <= b < first + block_count(*body))
                ==> #[trigger] final(ctx)@.effects[b] == old(ctx)@.effects[b],
        forall|i: int|
            0 <= i < block_count(*body) ==> #[trigger] final(ctx).block_steps(first as nat, i)
                == if first + i < mark.block.0 {
                old(ctx).block_steps(first as nat, i)
            } else if first + i == mark.block.0 {
                first_steps(old(ctx).block_steps(first as nat, i), mark.time as nat)
            } else {
                Seq::empty()
            },
        final(ctx)@.regions == old(ctx)@.regions.update(
            region.0 as int,
            row(
                first as nat,
                if blocks_until(*body, mark.block.0 - first) <= old(
                    ctx,
                )@.regions[region.0 as int].len() {
                    blocks_until(*body, mark.block.0 - first)
                } else {
                    old(ctx)@.regions[region.0 as int].len()
                },
            ),
        ),
{
    let ghost before = *ctx;
    let ghost list = ctx@.regions[region.0 as int];
    let count: usize = if body.blocks.len() == 0 {
        1
    } else {
        body.blocks.len()
    };
    proof {
        ctx.lemma_sizes();
    }
    let mut i: usize = 0;
    while i < count
        invariant
            i <= count,
            count == block_count(*body),
            first + count <= before@.effects.len(),
            before@.effects.len() <= usize::MAX,
            before.wf(),
            ctx.grew(before),
            ctx.dialects == before.dialects,
            ctx@.args == before@.args,
            ctx@.labels == before@.labels,
            ctx@.regions == before@.regions,
            ctx@.effects.len() == before@.effects.len(),
            forall|b: int|
                0 <= b < before@.effects.len() && !(first <= b < first + i)
                    ==> #[trigger] ctx@.effects[b] == before@.effects[b],
            forall|k: int|
                0 <= k < i ==> #[trigger] ctx.block_steps(first as nat, k) == if first + k
                    < mark.block.0 {
                    before.block_steps(first as nat, k)
                } else if first + k == mark.block.0 {
                    first_steps(before.block_steps(first as nat, k), mark.time as nat)
                } else {
                    Seq::empty()
                },
        decreases count - i,
    {
        let block: BlockId = BlockId(first + i);
        let ghost middle = *ctx;
        let ghost insts = ctx@.effects[first + i];
        assert(insts == before@.effects[first + i]);
        if block.0 == mark.block.0 {
            let place: usize = ctx.place_of(block, mark.time, mark.ops);
            ctx.cut_block(block, place);
            proof {
                let time = middle.time_at(block, place as int) as int;
                lemma_first_steps(insts, time);
                if mark.time > insts.len() {
                    assert(insts.take(time) =~= insts);
                }
            }
        } else if block.0 > mark.block.0 {
            ctx.cut_block(block, 0);
            assert(ctx@.effects[first + i] =~= Seq::<Inst>::empty());
            assert(ctx.block_steps(first as nat, i as int) =~= Seq::<Step>::empty());
        }
        proof {
            assert forall|k: int| 0 <= k < i implies #[trigger] ctx.block_steps(first as nat, k)
                == middle.block_steps(first as nat, k) by {
                assert(ctx@.effects[first + k] == middle@.effects[first + k]);
            }
            assert forall|b: int|
                0 <= b < before@.effects.len() && !(first <= b < first + i + 1) implies #[trigger] ctx@.effects[b]
                == before@.effects[b] by {
                assert(middle@.effects[b] == before@.effects[b]);
            }
        }
        i = i + 1;
    }
    let whole: usize = ctx.region_len(region);
    let done: usize = if mark.block.0 <= first {
        0
    } else if mark.block.0 - first < body.blocks.len() {
        mark.block.0 - first
    } else {
        body.blocks.len()
    };
    let ghost cut = *ctx;
    match made_for_first(&body.blocks, done, whole - count) {
        Some(extra) => {
            ctx.cut_region(region, count + extra);
            assert(list.take(count + extra) =~= row(first as nat, (count + extra) as nat));
        },
        None => {
            assert(before@.regions.update(region.0 as int, list) =~= before@.regions);
        },
    }
    proof {
        assert forall|k: int| 0 <= k < count implies #[trigger] ctx.block_steps(first as nat, k)
            == cut.block_steps(first as nat, k) by {}
    }
}

} // verus!
