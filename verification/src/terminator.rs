//! The ends of blocks.

use crate::call;
use crate::call::{import_call, put_onward};
use crate::convert;
use crate::convert::convert_return_ty;
use crate::error::Failure;
use crate::intrinsics;
use crate::intrinsics::{dropper_of, put_call_on};
use crate::ir;
use crate::ir::{BlockId, Context, Meaning, OpKind, RegionId, Value, World};
use crate::meaning;
use crate::meaning::{put_branch, put_compare, put_constant, put_goto, put_return, Step};
use crate::mir::{Operand, Place, Program, Terminator};
use crate::need;
use crate::need::{Asked, Demand, Effect, Lost, Need, Needs, Purpose};
use crate::operand;
use crate::operand::{address_of_place, import_operand, Scene, Site};
use crate::place;
use crate::place::{block_for, load_place};
use crate::sem::{Moment, Relation};
use crate::statement;
use crate::text;
use crate::text::{decimal, join};
use crate::ty::TyId;
use crate::types::TypeHandle;
use vstd::prelude::*;

verus! {

/// What the end of a block amounts to: what it needs, what the block does, and
/// what the blocks do that are made for it.
#[verifier::ext_equal]
pub struct Ending {
    pub needs: Seq<Asked>,
    pub steps: Seq<Step>,
    pub blocks: Seq<Seq<Step>>,
}

/// An end that needs no further blocks.
pub open spec fn simple(effect: Result<Effect, Lost>) -> Result<Ending, Lost> {
    match effect {
        Err(lost) => Err(lost),
        Ok(effect) => Ok(
            Ending { needs: effect.needs, steps: effect.steps, blocks: Seq::empty() },
        ),
    }
}

/// The label of a block that is made to test a case of a switch.
pub open spec fn switch_label(index: int) -> Seq<char> {
    "switch"@ + text::decimal_of((index + 1) as nat)
}

/// The labels of the blocks that are made to test the cases of a switch.
pub open spec fn switch_labels(count: nat) -> Seq<Seq<char>> {
    Seq::new(count, |k: int| switch_label(k))
}

impl World {
    /// Whether the blocks of an earlier state have kept their labels.
    pub open spec fn keeps_labels(self, old: World) -> bool {
        &&& old.labels.len() <= self.labels.len()
        &&& forall|b: int|
            0 <= b < old.labels.len() ==> #[trigger] self.labels[b] == old.labels[b]
    }

    /// The world with more blocks in a region, which have no arguments.
    pub open spec fn has_grown(self, old: World, region: RegionId, count: nat) -> bool {
        &&& self.effects.len() == old.effects.len() + count
        &&& self.labels.len() == old.labels.len() + count
        &&& self.keeps_labels(old)
        &&& self.args == old.args + Seq::new(count, |k: int| Seq::<Value>::empty())
        &&& self.regions == if count == 0 {
            old.regions
        } else {
            old.regions.update(
                region.0 as int,
                old.regions[region.0 as int] + Seq::new(
                    count,
                    |k: int| BlockId((old.effects.len() + k) as usize),
                ),
            )
        }
    }
}

impl Context {
    /// Whether nothing happened since an earlier state but that a block made
    /// steps and other blocks were made in a region, which make steps of
    /// their own.
    pub open spec fn branched_since(
        self,
        old: Context,
        block: BlockId,
        region: RegionId,
        steps: Seq<Step>,
        blocks: Seq<Seq<Step>>,
    ) -> bool {
        &&& self.grew(old)
        &&& self.dialects == old.dialects
        &&& self@.has_grown(old@, region, blocks.len())
        &&& self.steps(block) == old.steps(block) + steps
        &&& forall|b: int|
            0 <= b < old@.effects.len() && b != block.0 ==> #[trigger] self@.effects[b]
                == old@.effects[b]
        &&& forall|k: int|
            0 <= k < blocks.len() ==> #[trigger] self.made_steps(old, k) == blocks[k]
    }

    /// Whether the lists of operations of a block and of the blocks that were
    /// made since an earlier state are those of whole blocks: the last operation
    /// ends the block, and no other does, where none did before.
    pub open spec fn closes(self, old: Context, block: BlockId, count: nat) -> bool {
        &&& self.is_closed(block)
        &&& self.keeps_kinds(old, block)
        &&& meaning::is_straight(old.steps(block)) ==> ir::is_whole(self.kinds(block))
        &&& forall|k: int|
            0 <= k < count ==> ir::is_whole(#[trigger] self.made_kinds(old, k))
    }

    /// Whether the other blocks of an earlier state hold the operations that they
    /// held.
    pub open spec fn keeps_kinds(self, old: Context, block: BlockId) -> bool {
        forall|b: BlockId|
            old.has_block(b) && b != block ==> #[trigger] self.kinds(b) == old.kinds(b)
    }

    /// Operations were put nowhere else.
    pub proof fn lemma_keeps(self, old: Context, block: BlockId)
        requires
            self.frame(block).kinds == old.frame(block).kinds,
            old@.effects.len() <= self@.effects.len(),
        ensures
            self.keeps_kinds(old, block),
    {
        assert forall|b: BlockId| old.has_block(b) && b != block implies #[trigger] self.kinds(b)
            == old.kinds(b) by {
            self.lemma_other_kinds(old, block, b);
        }
    }

    /// Whether the last operation of a block ends it.
    pub open spec fn is_closed(self, block: BlockId) -> bool {
        self.kinds(block).len() > 0 && ir::kind_ends(self.kinds(block).last())
    }

    /// The kinds of the operations of a block that was made since an earlier
    /// state.
    pub open spec fn made_kinds(self, old: Context, k: int) -> Seq<OpKind> {
        self.kinds(BlockId((old@.effects.len() + k) as usize))
    }

    /// The blocks stay whole where the earlier state is a later one.
    pub proof fn lemma_closes(self, middle: Context, old: Context, block: BlockId, count: nat)
        requires
            self.closes(middle, block, count),
            middle.keeps_kinds(old, block),
            middle@.effects.len() == old@.effects.len(),
            meaning::is_straight(old.steps(block)) ==> meaning::is_straight(middle.steps(block)),
        ensures
            self.closes(old, block, count),
    {
        assert forall|b: BlockId| old.has_block(b) && b != block implies #[trigger] self.kinds(b)
            == old.kinds(b) by {
            assert(middle.kinds(b) == old.kinds(b));
        }
        assert forall|k: int| 0 <= k < count implies ir::is_whole(
            #[trigger] self.made_kinds(old, k),
        ) by {
            assert(ir::is_whole(self.made_kinds(middle, k)));
        }
    }

    /// What a block does that was made since an earlier state.
    pub open spec fn made_steps(self, old: Context, k: int) -> Seq<Step> {
        meaning::steps_of(self@.effects[old@.effects.len() + k])
    }

    /// Whether nothing was lost since an earlier state, and only a block may
    /// have grown, and a region by other blocks.
    pub open spec fn strayed_since(self, old: Context, block: BlockId, region: RegionId) -> bool {
        &&& self.grew(old)
        &&& self.dialects == old.dialects
        &&& exists|count: nat| #[trigger] self@.has_grown(old@, region, count)
        &&& need::begins(self.steps(block), old.steps(block))
        &&& forall|b: int|
            0 <= b < old@.effects.len() && b != block.0 ==> #[trigger] self@.effects[b]
                == old@.effects[b]
    }

    /// Steps need no further blocks.
    pub proof fn lemma_branched(
        self,
        old: Context,
        block: BlockId,
        region: RegionId,
        steps: Seq<Step>,
    )
        requires
            self.moved_since(old, block, steps),
        ensures
            self.branched_since(old, block, region, steps, Seq::empty()),
    {
        assert(old@.args + Seq::new(0, |k: int| Seq::<Value>::empty()) =~= old@.args);
    }

    /// Where a block may have grown, no block was made.
    pub proof fn lemma_strayed(self, old: Context, block: BlockId, region: RegionId)
        requires
            self.touched_since(old, block),
        ensures
            self.strayed_since(old, block, region),
    {
        assert(old@.args + Seq::new(0, |k: int| Seq::<Value>::empty()) =~= old@.args);
        assert(self@.has_grown(old@, region, 0));
    }

    /// One more block is made.
    pub proof fn lemma_made_block(
        self,
        middle: Context,
        old: Context,
        block: BlockId,
        region: RegionId,
        steps: Seq<Step>,
        blocks: Seq<Seq<Step>>,
        made: BlockId,
        label: Seq<char>,
    )
        requires
            old.has_block(block),
            region.0 < old@.regions.len(),
            middle.branched_since(old, block, region, steps, blocks),
            self.grew(middle),
            self.dialects == middle.dialects,
            made.0 == middle@.effects.len(),
            self@ == middle@.with_block(label, Seq::empty()).with_block_in(region, made),
        ensures
            self.branched_since(old, block, region, steps, blocks.push(Seq::empty())),
    {
        let n = blocks.len();
        let more = blocks.push(Seq::empty());
        assert(self@.args =~= old@.args + Seq::new(more.len(), |k: int| Seq::<Value>::empty()));
        assert(self@.regions =~= old@.regions.update(
            region.0 as int,
            old@.regions[region.0 as int] + Seq::new(
                more.len(),
                |k: int| BlockId((old@.effects.len() + k) as usize),
            ),
        )) by {
            let list = old@.regions[region.0 as int];
            assert(list + Seq::new(n, |k: int| BlockId((old@.effects.len() + k) as usize)) =~= list
                + Seq::new(n, |k: int| BlockId((old@.effects.len() + k) as usize)));
            assert(middle@.regions[region.0 as int] =~= list + Seq::new(
                n,
                |k: int| BlockId((old@.effects.len() + k) as usize),
            ));
            assert(middle@.regions[region.0 as int].push(made) =~= list + Seq::new(
                more.len(),
                |k: int| BlockId((old@.effects.len() + k) as usize),
            ));
        }
        assert forall|k: int| 0 <= k < more.len() implies #[trigger] self.made_steps(old, k)
            == more[k] by {
            if k < n {
                assert(middle.made_steps(old, k) == blocks[k]);
            } else {
                assert(self.made_steps(old, k) =~= Seq::<Step>::empty());
            }
        }
    }

    /// The block makes more steps.
    proof fn lemma_branched_more(
        self,
        middle: Context,
        old: Context,
        block: BlockId,
        region: RegionId,
        steps: Seq<Step>,
        blocks: Seq<Seq<Step>>,
        more: Seq<Step>,
    )
        requires
            old.has_block(block),
            middle.branched_since(old, block, region, steps, blocks),
            self.moved_since(middle, block, more),
        ensures
            self.branched_since(old, block, region, steps + more, blocks),
    {
        assert(old.steps(block) + steps + more =~= old.steps(block) + (steps + more));
        assert forall|k: int| 0 <= k < blocks.len() implies #[trigger] self.made_steps(old, k)
            == blocks[k] by {
            assert(middle.made_steps(old, k) == blocks[k]);
        }
    }

    /// A block that was made makes more steps.
    proof fn lemma_made_more(
        self,
        middle: Context,
        old: Context,
        block: BlockId,
        region: RegionId,
        steps: Seq<Step>,
        blocks: Seq<Seq<Step>>,
        made: BlockId,
        more: Seq<Step>,
    )
        requires
            old.has_block(block),
            middle.branched_since(old, block, region, steps, blocks),
            old@.effects.len() <= made.0 < old@.effects.len() + blocks.len(),
            self.moved_since(middle, made, more),
        ensures
            self.branched_since(
                old,
                block,
                region,
                steps,
                blocks.update(
                    made.0 - old@.effects.len(),
                    blocks[made.0 - old@.effects.len()] + more,
                ),
            ),
    {
        let j = made.0 - old@.effects.len();
        let next = blocks.update(j, blocks[j] + more);
        assert(middle.made_steps(old, j) == blocks[j]);
        assert forall|k: int| 0 <= k < next.len() implies #[trigger] self.made_steps(old, k)
            == next[k] by {
            assert(middle.made_steps(old, k) == blocks[k]);
        }
    }
}

/// Whether the end of a block came out as it should.
pub open spec fn ends(
    new: (Context, Seq<Asked>),
    old: (Context, Seq<Asked>),
    block: BlockId,
    region: RegionId,
    r: Result<(), Failure>,
    want: Result<Ending, Lost>,
) -> bool {
    match want {
        Ok(ending) => {
            &&& r is Ok
            &&& new.0.branched_since(old.0, block, region, ending.steps, ending.blocks)
            &&& new.0@.labels == old.0@.labels + switch_labels(ending.blocks.len())
            &&& new.0.closes(old.0, block, ending.blocks.len())
            &&& new.1 == old.1 + ending.needs
        },
        Err(lost) => {
            &&& r matches Err(other) && other == lost.why
            &&& new.0.strayed_since(old.0, block, region)
            &&& new.1 =~= old.1 + lost.needs
        },
    }
}

proof fn lemma_ends(
    new: (Context, Seq<Asked>),
    old: (Context, Seq<Asked>),
    block: BlockId,
    region: RegionId,
    r: Result<(), Failure>,
    want: Result<Effect, Lost>,
)
    requires
        need::leaves(new, old, block, r, want),
        old.0.has_block(block),
    ensures
        ends(new, old, block, region, r, simple(want)),
{
    match want {
        Ok(effect) => {
            new.0.lemma_keeps(old.0, block);
            if meaning::is_straight(old.0.steps(block)) {
                new.0.lemma_left_whole(old.0, block, effect.steps);
            }
            new.0.lemma_branched(old.0, block, region, effect.steps);
            assert(old.0@.labels + switch_labels(0) =~= old.0@.labels);
        },
        Err(_) => new.0.lemma_strayed(old.0, block, region),
    }
}

/// The branch that tests one case of a switch. A case that is not the last
/// goes on to the block that is made for the next.
pub open spec fn case_branch(
    scene: Scene,
    value: Meaning,
    cases: Seq<(u128, usize)>,
    otherwise: usize,
    fresh: nat,
    index: int,
) -> Result<Step, Failure> {
    let next = if index + 1 == cases.len() {
        place::block_of(scene.blocks, otherwise)
    } else {
        Ok(BlockId((fresh + index) as usize))
    };
    match next {
        Err(failure) => Err(failure),
        Ok(next) => if !(value.ty is Integer) {
            Err(Failure::NonIntegerConstant)
        } else {
            match place::block_of(scene.blocks, cases[index].1) {
                Err(failure) => Err(failure),
                Ok(target) => Ok(
                    meaning::branch(
                        meaning::compared(
                            Relation::Eq,
                            value,
                            meaning::constant(value.ty, cases[index].0),
                        ),
                        target,
                        next,
                    ),
                ),
            }
        },
    }
}

/// The branches that test the first cases of a switch.
pub open spec fn case_branches(
    scene: Scene,
    value: Meaning,
    cases: Seq<(u128, usize)>,
    otherwise: usize,
    fresh: nat,
    count: nat,
) -> Result<Seq<Step>, Failure>
    decreases count,
{
    if count == 0 {
        Ok(Seq::empty())
    } else {
        match case_branches(scene, value, cases, otherwise, fresh, (count - 1) as nat) {
            Err(failure) => Err(failure),
            Ok(steps) => match case_branch(scene, value, cases, otherwise, fresh, count - 1) {
                Err(failure) => Err(failure),
                Ok(step) => Ok(steps.push(step)),
            },
        }
    }
}

/// Each case has a branch, and a failure among the first is one of all.
proof fn lemma_cases(
    scene: Scene,
    value: Meaning,
    cases: Seq<(u128, usize)>,
    otherwise: usize,
    fresh: nat,
    from: nat,
    to: nat,
)
    requires
        from <= to,
    ensures
        case_branches(scene, value, cases, otherwise, fresh, from) is Err ==> case_branches(
            scene,
            value,
            cases,
            otherwise,
            fresh,
            to,
        ) == case_branches(scene, value, cases, otherwise, fresh, from),
        case_branches(scene, value, cases, otherwise, fresh, to) matches Ok(steps) ==> steps.len()
            == to,
    decreases to,
{
    if from < to {
        lemma_cases(scene, value, cases, otherwise, fresh, from, (to - 1) as nat);
    } else if to > 0 {
        lemma_cases(scene, value, cases, otherwise, fresh, (from - 1) as nat, (to - 1) as nat);
    }
}

/// What a switch does on a value: the block tests the first case, and a block
/// is made to test each further one.
pub open spec fn switch_on(
    scene: Scene,
    value: Meaning,
    cases: Seq<(u128, usize)>,
    otherwise: usize,
    fresh: nat,
) -> Result<(Seq<Step>, Seq<Seq<Step>>), Failure> {
    if cases.len() == 0 {
        match place::block_of(scene.blocks, otherwise) {
            Err(failure) => Err(failure),
            Ok(dest) => Ok((seq![meaning::jump(dest)], Seq::empty())),
        }
    } else {
        match case_branches(scene, value, cases, otherwise, fresh, cases.len()) {
            Err(failure) => Err(failure),
            Ok(steps) => Ok(
                (
                    seq![steps[0]],
                    Seq::new((cases.len() - 1) as nat, |k: int| seq![steps[k + 1]]),
                ),
            ),
        }
    }
}

/// What the blocks do that test the first cases of a switch, once the block
/// for the next case is there.
spec fn tested(steps: Seq<Step>, count: nat, k: int) -> Seq<Step> {
    if k + 1 < count {
        seq![steps[k + 1]]
    } else {
        Seq::empty()
    }
}

spec fn tested_first(steps: Seq<Step>) -> Seq<Step> {
    if steps.len() == 0 {
        Seq::empty()
    } else {
        seq![steps[0]]
    }
}

fn put_switch(
    site: &Site,
    ctx: &mut Context,
    block: BlockId,
    value: Value,
    cases: &Vec<(u128, usize)>,
    otherwise: usize,
) -> (r: Result<(), Failure>)
    requires
        site.ready(*old(ctx), block),
        site.state.region.0 < old(ctx)@.regions.len(),
        old(ctx).has(value),
    ensures
        match switch_on(
            site.scene(),
            value.meaning@,
            cases@,
            otherwise,
            old(ctx)@.effects.len(),
        ) {
            Ok((steps, blocks)) => r is Ok && final(ctx).branched_since(
                *old(ctx),
                block,
                site.state.region,
                steps,
                blocks,
            ) && final(ctx)@.labels == old(ctx)@.labels + switch_labels(blocks.len())
                && final(ctx).closes(*old(ctx), block, blocks.len()),
            Err(failure) => r == Err::<(), Failure>(failure) && final(ctx).strayed_since(
                *old(ctx),
                block,
                site.state.region,
            ),
        },
{
    let ghost before = *ctx;
    let ghost scene = site.scene();
    let ghost fresh = ctx@.effects.len();
    let ghost m = value.meaning@;
    let region: RegionId = site.state.region;
    proof {
        ctx.lemma_computed(before, block);
        ctx.lemma_branched(before, block, region, Seq::empty());
        ctx.lemma_strayed(before, block, region);
    }
    if cases.len() == 0 {
        let dest: BlockId = block_for(site.state, otherwise)?;
        put_goto(ctx, block, dest);
        proof {
            ctx.lemma_branched(before, block, region, seq![meaning::jump(dest)]);
            assert(before@.labels + switch_labels(0) =~= before@.labels);
            ctx.lemma_keeps(before, block);
            if meaning::is_straight(before.steps(block)) {
                ctx.lemma_left_whole(before, block, seq![meaning::jump(dest)]);
            }
        }
        return Ok(());
    }
    let ty: TypeHandle = ctx.type_of(value);
    let mut compare: BlockId = block;
    let mut i: usize = 0;
    let ghost mut done: Seq<Step> = Seq::empty();
    proof {
        assert(Seq::new(0, |k: int| tested(done, 0, k)) =~= Seq::<Seq<Step>>::empty());
        assert(before@.labels + switch_labels(0) =~= before@.labels);
    }
    while i < cases.len()
        invariant
            i <= cases@.len(),
            cases@.len() > 0,
            before == *old(ctx),
            before.has_block(block),
            scene == site.scene(),
            fresh == before@.effects.len(),
            m == value.meaning@,
            ty == m.ty,
            region == site.state.region,
            region.0 < before@.regions.len(),
            ctx.wf(),
            ctx.has(value),
            case_branches(scene, m, cases@, otherwise, fresh, i as nat) == Ok::<
                Seq<Step>,
                Failure,
            >(done),
            done.len() == i,
            ctx@.labels == before@.labels + switch_labels(
                if i < cases@.len() {
                    i as nat
                } else {
                    (i - 1) as nat
                },
            ),
            ctx.keeps_kinds(before, block),
            i > 0 ==> ctx.is_closed(block) && (meaning::is_straight(before.steps(block))
                ==> ir::is_whole(ctx.kinds(block))),
            forall|k: int| 0 <= k < i - 1 ==> ir::is_whole(#[trigger] ctx.made_kinds(before, k)),
            i < cases@.len() ==> {
                &&& i > 0 ==> ctx.steps(compare) == Seq::<Step>::empty()
                &&& ctx.has_block(compare)
                &&& compare.0 == if i == 0 {
                    block.0 as int
                } else {
                    fresh + i - 1
                }
                &&& ctx.branched_since(
                    before,
                    block,
                    region,
                    tested_first(done),
                    Seq::new(i as nat, |k: int| tested(done, i as nat, k)),
                )
            },
            i == cases@.len() ==> ctx.branched_since(
                before,
                block,
                region,
                seq![done[0]],
                Seq::new((i - 1) as nat, |k: int| seq![done[k + 1]]),
            ),
        decreases cases@.len() - i,
    {
        let ghost start = *ctx;
        let ghost n = i as nat;
        let ghost blocks = Seq::new(n, |k: int| tested(done, n, k));
        proof {
            lemma_cases(scene, m, cases@, otherwise, fresh, (i + 1) as nat, cases@.len());
            assert(ctx@.has_grown(before@, region, n));
        }
        let last: bool = i + 1 == cases.len();
        let next: BlockId = if last {
            block_for(site.state, otherwise)?
        } else {
            let label: String = join("switch", decimal((i + 1) as u64).as_str());
            let ghost name = label@;
            let made: BlockId = ctx.new_block(label, Vec::new());
            proof {
                assert(ctx@.args.last() =~= Seq::<Value>::empty());
            }
            ctx.append_block(region, made);
            proof {
                ctx.lemma_made_block(
                    start,
                    before,
                    block,
                    region,
                    tested_first(done),
                    blocks,
                    made,
                    name,
                );
                assert(ctx@.has_grown(before@, region, n + 1));
                assert(ctx@.labels =~= before@.labels + switch_labels(n + 1));
            }
            made
        };
        let ghost middle = *ctx;
        let ghost grown = if last {
            blocks
        } else {
            blocks.push(Seq::empty())
        };
        assert(middle.branched_since(before, block, region, tested_first(done), grown));
        assert(middle@.has_grown(before@, region, grown.len()));
        match &ty {
            TypeHandle::Integer { .. } => {},
            _ => return Err(Failure::NonIntegerConstant),
        }
        let target: BlockId = block_for(site.state, cases[i].1)?;
        let expected: Value = put_constant(ctx, compare, &ty, cases[i].0);
        let same: Value = put_compare(ctx, compare, Relation::Eq, value, expected);
        let ghost computed = *ctx;
        put_branch(ctx, compare, same, target, next);
        proof {
            let step = meaning::branch(same.meaning@, target, next);
            assert(case_branch(scene, m, cases@, otherwise, fresh, i as int) == Ok::<
                Step,
                Failure,
            >(step));
            ctx.lemma_computed_left(computed, middle, compare, seq![step]);
            ctx.lemma_sizes();
            assert(middle.steps(compare) == start.steps(compare));
            ctx.lemma_keeps(middle, compare);
            assert forall|b: BlockId| before.has_block(b) && b != block implies #[trigger] ctx.kinds(
                b,
            ) == before.kinds(b) by {
                assert(start.kinds(b) == before.kinds(b));
                assert(middle.kinds(b) == start.kinds(b));
            }
            if i == 0 {
                if meaning::is_straight(before.steps(block)) {
                    ctx.lemma_left_whole(middle, block, seq![step]);
                }
            } else {
                reveal(meaning::is_straight);
                ctx.lemma_left_whole(middle, compare, seq![step]);
                assert(ctx.made_kinds(before, i - 1) == ctx.kinds(compare));
                computed.lemma_other_kinds(middle, compare, block);
                ctx.lemma_other_kinds(computed, compare, block);
                assert forall|k: int| 0 <= k < i - 1 implies ir::is_whole(
                    #[trigger] ctx.made_kinds(before, k),
                ) by {
                    let other = BlockId((fresh + k) as usize);
                    assert(ir::is_whole(start.made_kinds(before, k)));
                    computed.lemma_other_kinds(middle, compare, other);
                    ctx.lemma_other_kinds(computed, compare, other);
                }
            }
            let old_done = done;
            done = done.push(step);
            let all = Seq::new(n + 1, |k: int| tested(done, n + 1, k));
            let whole = Seq::new(n, |k: int| seq![done[k + 1]]);
            if i == 0 {
                ctx.lemma_branched_more(
                    middle,
                    before,
                    block,
                    region,
                    Seq::empty(),
                    grown,
                    seq![step],
                );
                assert(Seq::<Step>::empty() + seq![step] =~= seq![done[0]]);
                if last {
                    assert(grown =~= whole);
                } else {
                    assert(grown =~= all);
                }
            } else {
                ctx.lemma_made_more(
                    middle,
                    before,
                    block,
                    region,
                    tested_first(old_done),
                    grown,
                    compare,
                    seq![step],
                );
                let j = compare.0 - fresh;
                assert(j == n - 1);
                assert(grown[j] =~= Seq::<Step>::empty());
                assert(Seq::<Step>::empty() + seq![step] =~= seq![done[n as int]]);
                let updated = grown.update(j, grown[j] + seq![step]);
                assert(tested_first(old_done) =~= tested_first(done));
                if last {
                    assert(updated =~= whole);
                } else {
                    assert(updated =~= all);
                }
            }
        }
        compare = next;
        i = i + 1;
    }
    Ok(())
}

/// What returning does: it hands back what the first local holds, where the
/// function hands back anything.
pub open spec fn returning(scene: Scene, at: Moment) -> Result<Effect, Lost> {
    let table = scene.program.types;
    match place::local_ty(scene.locals, 0) {
        Err(failure) => Err(failure.at_once()),
        Ok(ty) => match convert::returned(table, ty) {
            Err(failure) => Err(failure.at_once()),
            Ok(None) => Ok(
                Effect { needs: Seq::empty(), steps: seq![meaning::return_step(None)] },
            ),
            Ok(Some(_)) => match place::read_at(
                table,
                at,
                ty,
                place::base_of(table, scene.locals, scene.slots, 0),
            ) {
                Err(failure) => Err(failure.at_once()),
                Ok(value) => Ok(
                    Effect {
                        needs: Seq::empty(),
                        steps: seq![meaning::return_step(Some(value))],
                    },
                ),
            },
        },
    }
}

fn import_return(site: &Site, ctx: &mut Context, block: BlockId, needs: &mut Needs) -> (r: Result<
    (),
    Failure,
>)
    requires
        site.ready(*old(ctx), block),
    ensures
        need::leaves(
            (*final(ctx), final(needs)@),
            (*old(ctx), old(needs)@),
            block,
            r,
            returning(site.scene(), old(ctx)@.now(block)),
        ),
{
    let ghost before = *ctx;
    proof {
        ctx.lemma_computed(before, block);
        assert(needs@ =~= old(needs)@ + Seq::<Asked>::empty());
    }
    if site.body.locals.len() == 0 {
        return Err(Failure::UnknownLocal(0));
    }
    let ty: TyId = site.body.locals[0];
    if convert_return_ty(&site.program.types, ty)?.is_none() {
        put_return(ctx, block, None);
        return Ok(());
    }
    let whole: Place = Place { local: 0, projection: Vec::new(), ty };
    let value: Value = load_place(
        &site.program.types,
        ctx,
        site.state,
        block,
        site.body,
        &whole,
    )?;
    let ghost middle = *ctx;
    put_return(ctx, block, Some(value));
    proof {
        ctx.lemma_computed_left(
            middle,
            before,
            block,
            seq![meaning::return_step(Some(value.meaning@))],
        );
    }
    Ok(())
}

/// What dropping a place does, where it needs to be dropped.
pub open spec fn dropping(scene: Scene, at: Moment, place: Place) -> Result<Effect, Lost> {
    if !scene.program.types.info(place.ty).needs_drop {
        Ok(statement::idle())
    } else {
        match intrinsics::dropper(scene.program, place.ty) {
            Err(failure) => Err(failure.at_once()),
            Ok((index, symbol)) => {
                let asked = need::asking(at, Demand::Function(index, Purpose::Drop(place.ty)));
                match scene.address(at, place) {
                    Err(failure) => Err(failure.after(asked)),
                    Ok(addr) => match intrinsics::call_on(at, symbol, addr) {
                        Err(failure) => Err(failure.after(asked)),
                        Ok(steps) => Ok(Effect { needs: asked, steps }),
                    },
                }
            },
        }
    }
}

fn import_drop(
    site: &Site,
    ctx: &mut Context,
    block: BlockId,
    needs: &mut Needs,
    place: &Place,
) -> (r: Result<(), Failure>)
    requires
        site.ready(*old(ctx), block),
        place::place_wf(site.program.types, *place),
    ensures
        need::does(
            (*final(ctx), final(needs)@),
            (*old(ctx), old(needs)@),
            block,
            r,
            dropping(site.scene(), old(ctx)@.now(block), *place),
        ),
{
    let ghost before = *ctx;
    let ghost asked = needs@;
    proof {
        ctx.lemma_computed(before, block);
        assert(needs@ =~= asked + Seq::<Asked>::empty());
    }
    if !site.program.types.types[place.ty.0].needs_drop {
        return Ok(());
    }
    let (index, symbol): (usize, String) = dropper_of(site.program, place.ty)?;
    needs.ask(ctx, block, Need::Function(index, Purpose::Drop(place.ty)));
    let addr: Value = address_of_place(site, ctx, block, place)?;
    let ghost middle = *ctx;
    let ghost name = symbol@;
    put_call_on(ctx, block, symbol, addr)?;
    proof {
        let steps = intrinsics::call_on(before@.now(block), name, addr.meaning@)->Ok_0;
        ctx.lemma_computed_ran(middle, before, block, steps);
    }
    Ok(())
}

/// Whether the types that the end of a block names stand in the program.
pub open spec fn terminator_wf(program: Program, terminator: Terminator) -> bool {
    match terminator {
        Terminator::SwitchInt { discr, .. } => operand::operand_wf(program, discr),
        Terminator::Call { func, args, destination, .. } => operand::operand_wf(program, func)
            && operand::operands_wf(program, args@) && place::place_wf(
            program.types,
            destination,
        ),
        Terminator::Drop { place, .. } => place::place_wf(program.types, place),
        _ => true,
    }
}

/// What the end of a block amounts to. Blocks that are made for it are
/// numbered from a given number on.
pub open spec fn terminator_ending(
    scene: Scene,
    at: Moment,
    fresh: nat,
    terminator: Terminator,
) -> Result<Ending, Lost> {
    match terminator {
        Terminator::Return => simple(returning(scene, at)),
        Terminator::Goto(target) => simple(
            call::ending(Ok(statement::idle()), call::onward(scene, Some(target))),
        ),
        Terminator::Unreachable => simple(
            call::ending(Ok(statement::idle()), call::onward(scene, None)),
        ),
        Terminator::UnwindResume => simple(
            call::ending(Ok(statement::idle()), call::onward(scene, None)),
        ),
        Terminator::SwitchInt { discr, cases, otherwise } => match operand::operand_value(
            scene,
            at,
            discr,
        ) {
            Err(failure) => Err(failure.at_once()),
            Ok(value) => match switch_on(scene, value.value, cases@, otherwise, fresh) {
                Err(failure) => Err(failure.after(value.needs)),
                Ok((steps, blocks)) => Ok(Ending { needs: value.needs, steps, blocks }),
            },
        },
        Terminator::Call { func, args, destination, target } => simple(
            call::call_effect(scene, at, func, args@, destination, target),
        ),
        Terminator::Assert(target) => simple(
            call::ending(Ok(statement::idle()), call::onward(scene, Some(target))),
        ),
        Terminator::Drop { place, target } => simple(
            call::ending(dropping(scene, at, place), call::onward(scene, Some(target))),
        ),
        Terminator::Other => Err(Failure::Terminator.at_once()),
    }
}

fn import_switch(
    site: &Site,
    ctx: &mut Context,
    block: BlockId,
    needs: &mut Needs,
    discr: &Operand,
    cases: &Vec<(u128, usize)>,
    otherwise: usize,
) -> (r: Result<(), Failure>)
    requires
        site.ready(*old(ctx), block),
        site.state.region.0 < old(ctx)@.regions.len(),
        operand::operand_wf(*site.program, *discr),
    ensures
        ends(
            (*final(ctx), final(needs)@),
            (*old(ctx), old(needs)@),
            block,
            site.state.region,
            r,
            match operand::operand_value(site.scene(), old(ctx)@.now(block), *discr) {
                Err(failure) => Err(failure.at_once()),
                Ok(value) => match switch_on(
                    site.scene(),
                    value.value,
                    cases@,
                    otherwise,
                    old(ctx)@.effects.len(),
                ) {
                    Err(failure) => Err(failure.after(value.needs)),
                    Ok((steps, blocks)) => Ok(Ending { needs: value.needs, steps, blocks }),
                },
            },
        ),
{
    let ghost before = *ctx;
    let ghost region = site.state.region;
    let value: Value = match import_operand(site, ctx, block, needs, discr) {
        Ok(value) => value,
        Err(failure) => {
            proof {
                ctx.lemma_strayed(before, block, region);
            }
            return Err(failure);
        },
    };
    let ghost middle = *ctx;
    let r: Result<(), Failure> = put_switch(site, ctx, block, value, cases, otherwise);
    proof {
        match switch_on(
            site.scene(),
            value.meaning@,
            cases@,
            otherwise,
            before@.effects.len(),
        ) {
            Ok((steps, blocks)) => {
                assert forall|k: int| 0 <= k < blocks.len() implies #[trigger] ctx.made_steps(
                    before,
                    k,
                ) == blocks[k] by {
                    assert(ctx.made_steps(middle, k) == blocks[k]);
                }
                assert(ctx.branched_since(before, block, region, steps, blocks));
                middle.lemma_keeps(before, block);
                ctx.lemma_closes(middle, before, block, blocks.len());
            },
            Err(_) => {
                let count = choose|count: nat| #[trigger]
                    ctx@.has_grown(middle@, region, count);
                assert(ctx@.has_grown(before@, region, count));
            },
        }
    }
    r
}

/// Imports the end of a block.
pub fn import_terminator(
    site: &Site,
    ctx: &mut Context,
    block: BlockId,
    needs: &mut Needs,
    terminator: &Terminator,
) -> (r: Result<(), Failure>)
    requires
        site.ready(*old(ctx), block),
        site.state.region.0 < old(ctx)@.regions.len(),
        call::instances_wf(*site.program),
        terminator_wf(*site.program, *terminator),
    ensures
        ends(
            (*final(ctx), final(needs)@),
            (*old(ctx), old(needs)@),
            block,
            site.state.region,
            r,
            terminator_ending(
                site.scene(),
                old(ctx)@.now(block),
                old(ctx)@.effects.len(),
                *terminator,
            ),
        ),
{
    let ghost before = *ctx;
    let ghost asked = needs@;
    let ghost at = ctx@.now(block);
    let ghost scene = site.scene();
    let ghost region = site.state.region;
    proof {
        ctx.lemma_computed(before, block);
        assert(needs@ =~= asked + Seq::<Asked>::empty());
    }
    let ghost idle = statement::idle();
    let ghost start = (before, asked);
    match terminator {
        Terminator::Return => {
            let r: Result<(), Failure> = import_return(site, ctx, block, needs);
            proof {
                lemma_ends((*ctx, needs@), start, block, region, r, returning(scene, at));
            }
            r
        },
        Terminator::Goto(target) | Terminator::Assert(target) => {
            let r: Result<(), Failure> = put_onward(
                site,
                ctx,
                block,
                needs,
                Some(*target),
                Ghost(start),
                Ghost(idle),
            );
            proof {
                lemma_ends(
                    (*ctx, needs@),
                    start,
                    block,
                    region,
                    r,
                    call::ending(Ok(idle), call::onward(scene, Some(*target))),
                );
            }
            r
        },
        Terminator::Unreachable | Terminator::UnwindResume => {
            let r: Result<(), Failure> = put_onward(
                site,
                ctx,
                block,
                needs,
                None,
                Ghost(start),
                Ghost(idle),
            );
            proof {
                lemma_ends(
                    (*ctx, needs@),
                    start,
                    block,
                    region,
                    r,
                    call::ending(Ok(idle), call::onward(scene, None)),
                );
            }
            r
        },
        Terminator::SwitchInt { discr, cases, otherwise } => import_switch(
            site,
            ctx,
            block,
            needs,
            discr,
            cases,
            *otherwise,
        ),
        Terminator::Call { func, args, destination, target } => {
            let r: Result<(), Failure> = import_call(
                site,
                ctx,
                block,
                needs,
                func,
                args,
                destination,
                *target,
            );
            proof {
                lemma_ends(
                    (*ctx, needs@),
                    start,
                    block,
                    region,
                    r,
                    call::call_effect(scene, at, *func, args@, *destination, *target),
                );
            }
            r
        },
        Terminator::Drop { place, target } => {
            let ghost want = dropping(scene, at, *place);
            let r: Result<(), Failure> = match import_drop(site, ctx, block, needs, place) {
                Ok(()) => put_onward(
                    site,
                    ctx,
                    block,
                    needs,
                    Some(*target),
                    Ghost(start),
                    Ghost(want->Ok_0),
                ),
                Err(failure) => Err(failure),
            };
            proof {
                lemma_ends(
                    (*ctx, needs@),
                    start,
                    block,
                    region,
                    r,
                    call::ending(want, call::onward(scene, Some(*target))),
                );
            }
            r
        },
        Terminator::Other => {
            proof {
                ctx.lemma_strayed(before, block, region);
            }
            Err(Failure::Terminator)
        },
    }
}

} // verus!
