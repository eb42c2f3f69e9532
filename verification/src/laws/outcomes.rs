//! Laws of what a merge gives: what the blocks end with, and what is seen behind them.
use vstd::prelude::*;

use crate::block_builder::sealed::is_converged;
use crate::context::{path_ty, LoweredExpr, LoweringContext, StructTable};
use crate::ids::{BlockId, LocationId, VarId, VariableId};
use crate::laws::builder::{
    goes_on, law_steps_go_on, law_update_drops_snapshot, lemma_goes_on_refl, lemma_goes_on_trans,
};
use crate::laws::handover::lemma_block_grows;
use crate::laws::mapping::{apart, is_prefix, law_entries_stay, root};
use crate::laws::meaning::{all_hold, contents_at, holds, path_fits, Contents, Shape, Valuation};
use crate::laws::merging::{
    block_hands_over, distinct_blocks, law_changes_are_remapped, law_merge_blocks,
    law_merge_callsite, law_merge_contents, law_remap_goes_on, law_remapped_is_mapped,
    law_whole_variable_is_remapped, lemma_close_blocks_variables, lemma_merge_variables,
    remapped_paths, rooted, well_shaped,
};
use crate::laws::planning::{is_change_of, law_plan, plan_valid};
use crate::laws::pruning::law_pruned;
use crate::member_path::MemberPath;
use crate::merge::{
    affected, close_blocks, lemma_close_blocks_prefix, lemma_plan_paths_prefix, merge, plan_blocks,
    plan_changes, plan_expr, plan_paths, pruned, reachable, remap, remap_paths, write_refs, Closed,
    Plan, SealedView,
};
use crate::objects::{BlockEndView, BlockView, StatementView, VarUsage, Variable};
use crate::ordered::{
    has_key, lemma_position, lemma_position_is, lemma_swap_removed, position, set_inserted,
    unique_keys, value_of,
};
use crate::refs::{lookup, Value};
use crate::state::{lower_expr, BuilderView, Outcome, State};
use crate::types::{Type, TypeList};

verus! {

/// Whether a merge is of blocks that can be told apart and exist, with no more variables and blocks
/// than there are numbers for.
pub open spec fn merge_possible(
    ctx: LoweringContext,
    builder: BuilderView,
    sealed: Seq<SealedView>,
    location: LocationId,
) -> bool {
    &&& merge(ctx, builder, sealed, location).ok
    &&& merge(ctx, builder, sealed, location).state.variables.len() <= usize::MAX
    &&& ctx.blocks@.len() <= usize::MAX
    &&& distinct_blocks(sealed)
    &&& forall|i: int|
        0 <= i < sealed.len() && (#[trigger] sealed[i]) is GotoCallsite
            ==> sealed[i]->builder.block_id.0 < ctx.blocks@.len()
}

/// Whether a sealed block goes to the callsite with a value.
pub open spec fn yields(sealed: SealedView) -> bool {
    sealed matches SealedView::GotoCallsite { expr, .. } && expr is Some
}

/// What a block says at its end: how its variables go on in the block that it goes to.
pub open spec fn remapping_of(block: BlockView) -> Seq<(VariableId, VarUsage)> {
    match block.end {
        BlockEndView::Goto(_, remapping) => remapping,
        _ => Seq::empty(),
    }
}

/// The block of a builder in a table of blocks.
pub open spec fn block_of(blocks: Seq<Option<BlockView>>, builder: BuilderView) -> BlockView {
    blocks[builder.block_id.0 as int].unwrap()
}

/// Whether `env`, behind a block, has what the block hands over: the new variables what they are
/// remapped to, the old ones what they were.
pub open spec fn follows(
    block: BlockView,
    n: nat,
    block_env: Valuation,
    env: Valuation,
) -> bool {
    &&& all_hold(block.statements, block_env)
    &&& forall|var: VariableId| var.0 < n ==> #[trigger] env(var) == block_env(var)
    &&& forall|j: int|
        0 <= j < remapping_of(block).len() ==> env((#[trigger] remapping_of(block)[j]).0)
            == block_env(remapping_of(block)[j].1.var_id)
}

/// Every block that goes to the callsite ends by going to a new block, after all that it had
/// emitted. It remaps new variables alone, each of them once. The new block is not set, and the
/// blocks that do not go to the callsite are left alone.
pub proof fn law_merge_ends_blocks(
    ctx: LoweringContext,
    builder: BuilderView,
    sealed: Seq<SealedView>,
    location: LocationId,
    i: int,
)
    requires
        merge_possible(ctx, builder, sealed, location),
        0 <= i < sealed.len(),
        sealed[i] is GotoCallsite,
    ensures
        ({
            let m = merge(ctx, builder, sealed, location);
            let sub = sealed[i]->builder;
            let block = block_of(m.blocks, sub);
            &&& m.blocks.len() == ctx.blocks@.len() + 1
            &&& m.following.0 == ctx.blocks@.len()
            &&& m.blocks[sub.block_id.0 as int] is Some
            &&& block.end == BlockEndView::Goto(m.following, remapping_of(block))
            &&& sub.statements.is_prefix_of(block.statements)
            &&& unique_keys(remapping_of(block))
            &&& forall|j: int|
                0 <= j < remapping_of(block).len() ==> ctx.variables@.len() <= (
                #[trigger] remapping_of(block)[j]).0.0 < m.state.variables.len()
            &&& ctx.variables@.is_prefix_of(m.state.variables)
        }),
{
    let m = merge(ctx, builder, sealed, location);
    let r = block_hands_over(ctx, builder, sealed, location, i);
    law_merge_blocks(ctx, builder, sealed, location);
    lemma_hands_over(ctx, builder, sealed, location, i);
    assert(block_of(m.blocks, sealed[i]->builder).end == BlockEndView::Goto(m.following, r.value));
}

/// What is planned in a merge.
pub open spec fn plan_of_merge(
    ctx: LoweringContext,
    builder: BuilderView,
    sealed: Seq<SealedView>,
    location: LocationId,
) -> Plan {
    plan_blocks(
        ctx.db,
        ctx.semantic_defs@,
        builder.semantics,
        ctx.variables@,
        sealed,
        location,
    )
}

/// What a block hands over: the paths in their order, then the value, each to a variable of its own
/// that is new.
pub(crate) proof fn lemma_hands_over(
    ctx: LoweringContext,
    builder: BuilderView,
    sealed: Seq<SealedView>,
    location: LocationId,
    i: int,
)
    requires
        merge_possible(ctx, builder, sealed, location),
        0 <= i < sealed.len(),
        sealed[i] is GotoCallsite,
    ensures
        ({
            let m = merge(ctx, builder, sealed, location);
            let plan = plan_of_merge(ctx, builder, sealed, location);
            let paths = remapped_paths(ctx, builder, sealed, location);
            let r = block_hands_over(ctx, builder, sealed, location, i);
            &&& r.value.len() == paths.len() + (if plan.expr is Some {
                1nat
            } else {
                0
            })
            &&& forall|k: int| 0 <= k < paths.len() ==> (#[trigger] r.value[k]).0 == paths[k].1
            &&& plan.expr matches Some(var) ==> r.value.last().0 == var
            &&& unique_keys(r.value)
            &&& forall|j: int|
                0 <= j < r.value.len() ==> ctx.variables@.len() <= (#[trigger] r.value[j]).0.0
                    < plan.variables.len()
            &&& plan.variables.is_prefix_of(m.state.variables)
            &&& ctx.variables@.is_prefix_of(m.state.variables)
            &&& sealed[i]->builder.statements.is_prefix_of(r.state.builder.statements)
            &&& plan_valid(plan, ctx.variables@)
            &&& unique_keys(paths)
            &&& forall|k: int|
                0 <= k < paths.len() ==> value_of(plan.paths, (#[trigger] paths[k]).0) == Some(
                    paths[k].1,
                )
        }),
{
    let m = merge(ctx, builder, sealed, location);
    let plan = plan_of_merge(ctx, builder, sealed, location);
    let paths = remapped_paths(ctx, builder, sealed, location);
    let start = Closed {
        variables: plan.variables,
        blocks: ctx.blocks@.push(None),
        ok: plan.ok,
    };
    let target = BlockId(ctx.blocks@.len() as usize);
    let before = close_blocks(
        ctx.db,
        start,
        sealed.take(i),
        target,
        plan.expr,
        paths,
        location,
    );
    let closed = close_blocks(ctx.db, start, sealed, target, plan.expr, paths, location);
    let state = State { builder: sealed[i]->builder, variables: before.variables };
    let p = remap_paths(ctx.db, state, paths, location);
    let r = block_hands_over(ctx, builder, sealed, location, i);
    lemma_merge_variables(ctx, builder, sealed, location);
    law_plan(
        ctx.db,
        ctx.semantic_defs@,
        builder.semantics,
        ctx.variables@,
        sealed,
        location,
    );
    law_pruned(plan.paths, MemberPath::Var(VarId(0)));
    assert forall|k: int| 0 <= k < paths.len() implies value_of(
        plan.paths,
        (#[trigger] paths[k]).0,
    ) == Some(paths[k].1) by {
        law_pruned(plan.paths, paths[k].0);
        lemma_position_is(paths, k);
        assert(value_of(paths, paths[k].0) == Some(paths[k].1));
    }
    assert forall|k: int| 0 <= k < paths.len() implies exists|a: int|
        0 <= a < plan.paths.len() && #[trigger] plan.paths[a] == #[trigger] paths[k] by {
        assert(value_of(plan.paths, paths[k].0) == Some(paths[k].1));
        lemma_position(plan.paths, paths[k].0);
        let a = position(plan.paths, paths[k].0).unwrap();
        assert(plan.paths[a] == paths[k]);
    }
    lemma_remapped_keys(ctx.db, state, paths, location);
    lemma_close_blocks_variables(
        ctx.db,
        start,
        sealed,
        target,
        plan.expr,
        paths,
        location,
    );
    lemma_write_refs_extend(
        ctx.db,
        State { builder, variables: closed.variables },
        paths,
        location,
    );
    assert(plan.variables.is_prefix_of(m.state.variables));
    assert(ctx.variables@ =~= m.state.variables.subrange(0, ctx.variables@.len() as int));
    law_remap_goes_on(ctx.db, state, sealed[i]->expr, plan.expr, paths, location);
    assert forall|j: int| 0 <= j < r.value.len() implies ctx.variables@.len() <= (
    #[trigger] r.value[j]).0.0 < plan.variables.len() by {
        if j < paths.len() {
            assert(r.value[j] == p.value[j]);
            let a = choose|a: int|
                0 <= a < plan.paths.len() && #[trigger] plan.paths[a] == paths[j];
            assert(plan.paths[a].1 == r.value[j].0);
        }
    }
    assert forall|j: int, k: int| 0 <= j < k < r.value.len() implies (#[trigger] r.value[j]).0
        != (#[trigger] r.value[k]).0 by {
        assert(r.value[j] == p.value[j]);
        let a = choose|a: int| 0 <= a < plan.paths.len() && #[trigger] plan.paths[a] == paths[j];
        if k < paths.len() {
            assert(r.value[k] == p.value[k]);
            let b = choose|b: int|
                0 <= b < plan.paths.len() && #[trigger] plan.paths[b] == paths[k];
            assert(paths[j].0 != paths[k].0);
            if a < b {
                assert(plan.paths[a].1 != plan.paths[b].1);
            } else {
                assert(plan.paths[b].1 != plan.paths[a].1);
            }
        } else {
            assert(plan.paths[a].1 != plan.expr.unwrap());
        }
    }
}

/// The remapped paths come in their order.
proof fn lemma_remapped_keys(
    db: StructTable,
    before: State,
    paths: Seq<(MemberPath, VariableId)>,
    location: LocationId,
)
    ensures
        ({
            let r = remap_paths(db, before, paths, location).value;
            &&& r.len() == paths.len()
            &&& forall|k: int| 0 <= k < paths.len() ==> (#[trigger] r[k]).0 == paths[k].1
        }),
    decreases paths.len(),
{
    if paths.len() > 0 {
        lemma_remapped_keys(db, before, paths.drop_last(), location);
        let first = remap_paths(db, before, paths.drop_last(), location).value;
        let r = remap_paths(db, before, paths, location).value;
        assert forall|k: int| 0 <= k < paths.len() implies (#[trigger] r[k]).0 == paths[k].1 by {
            if k < paths.len() - 1 {
                assert(r[k] == first[k]);
                assert(paths.drop_last()[k] == paths[k]);
            }
        }
    }
}

/// Writes only add variables.
pub(crate) proof fn lemma_write_refs_extend(
    db: StructTable,
    before: State,
    paths: Seq<(MemberPath, VariableId)>,
    location: LocationId,
)
    ensures
        goes_on(before, write_refs(db, before, paths, location).state),
    decreases paths.len(),
{
    lemma_goes_on_refl(before);
    if paths.len() > 0 {
        lemma_write_refs_extend(db, before, paths.drop_last(), location);
        let first = write_refs(db, before, paths.drop_last(), location).state;
        law_steps_go_on(db, first, paths.last().0, paths.last().1, location);
        lemma_goes_on_trans(before, first, write_refs(db, before, paths, location).state);
    }
}

// The value of a merge.

/// The values of the blocks converge: there is a variable for them if and only if some block yields
/// one. Every block that goes to the callsite remaps that variable, whatever else it remaps: to
/// exactly the usage that it yields, or, where it yields nothing, to one whose contents are the
/// empty struct.
pub proof fn law_merge_value(
    ctx: LoweringContext,
    builder: BuilderView,
    sealed: Seq<SealedView>,
    location: LocationId,
    i: int,
    block_env: Valuation,
)
    requires
        merge_possible(ctx, builder, sealed, location),
        0 <= i < sealed.len(),
        sealed[i] is GotoCallsite,
    ensures
        ({
            let m = merge(ctx, builder, sealed, location);
            let block = block_of(m.blocks, sealed[i]->builder);
            &&& m.expr is Some <==> exists|j: int|
                0 <= j < sealed.len() && yields(#[trigger] sealed[j])
            &&& m.expr matches Some(var) ==> {
                &&& ctx.variables@.len() <= var.0 < m.state.variables.len()
                &&& has_key(remapping_of(block), var)
                &&& sealed[i]->expr matches Some(usage) ==> value_of(remapping_of(block), var)
                    == Some(usage)
                &&& sealed[i]->expr is None && all_hold(block.statements, block_env)
                    ==> block_env(value_of(remapping_of(block), var).unwrap().var_id)
                    == Contents::Struct(Seq::empty())
            }
        }),
{
    let m = merge(ctx, builder, sealed, location);
    let paths = remapped_paths(ctx, builder, sealed, location);
    let r = block_hands_over(ctx, builder, sealed, location, i);
    let block = block_of(m.blocks, sealed[i]->builder);
    law_merge_blocks(ctx, builder, sealed, location);
    lemma_hands_over(ctx, builder, sealed, location, i);
    lemma_plan_yields(
        ctx.db,
        ctx.semantic_defs@,
        builder.semantics,
        ctx.variables@,
        sealed,
        location,
    );
    assert(remapping_of(block) == r.value);
    if let Some(var) = m.expr {
        let before = block_starts(ctx, builder, sealed, location, i);
        lemma_remap_value(ctx.db, before, sealed[i]->expr, var, paths, location, block_env);
    }
}

/// What a block that goes to the callsite starts with when it hands over.
pub open spec fn block_starts(
    ctx: LoweringContext,
    builder: BuilderView,
    sealed: Seq<SealedView>,
    location: LocationId,
    i: int,
) -> State {
    let plan = plan_of_merge(ctx, builder, sealed, location);
    State {
        builder: sealed[i]->builder,
        variables: close_blocks(
            ctx.db,
            Closed { variables: plan.variables, blocks: ctx.blocks@.push(None), ok: plan.ok },
            sealed.take(i),
            BlockId(ctx.blocks@.len() as usize),
            plan.expr,
            pruned(plan.paths),
            location,
        ).variables,
    }
}

proof fn lemma_remap_value(
    db: StructTable,
    before: State,
    returned: Option<VarUsage>,
    var: VariableId,
    paths: Seq<(MemberPath, VariableId)>,
    location: LocationId,
    env: Valuation,
)
    requires
        unique_keys(remap(db, before, returned, Some(var), paths, location).value),
    ensures
        ({
            let r = remap(db, before, returned, Some(var), paths, location);
            &&& has_key(r.value, var)
            &&& returned matches Some(usage) ==> value_of(r.value, var) == Some(usage)
            &&& returned is None && all_hold(r.state.builder.statements, env)
                ==> env(value_of(r.value, var).unwrap().var_id) == Contents::Struct(Seq::empty())
        }),
{
    let r = remap(db, before, returned, Some(var), paths, location);
    let n = r.value.len() - 1;
    assert(r.value[n].0 == var);
    lemma_position_is(r.value, n);
    if returned is None && all_hold(r.state.builder.statements, env) {
        let statements = r.state.builder.statements;
        let last = statements[statements.len() - 1];
        assert(holds(last, env));
        assert(last->StructConstruct_inputs.map_values(
            |usage: VarUsage| env(usage.var_id),
        ) =~= Seq::<Contents>::empty());
    }
}

/// Where a block yields nothing and another yields a value, the block puts the empty tuple into a new
/// variable, as its last step, where the variable for the values is.
pub proof fn law_merge_unit(
    ctx: LoweringContext,
    builder: BuilderView,
    sealed: Seq<SealedView>,
    location: LocationId,
    i: int,
)
    requires
        merge_possible(ctx, builder, sealed, location),
        0 <= i < sealed.len(),
        sealed[i] is GotoCallsite,
        sealed[i]->expr is None,
        merge(ctx, builder, sealed, location).expr is Some,
    ensures
        ({
            let m = merge(ctx, builder, sealed, location);
            let var = m.expr.unwrap();
            let block = block_of(m.blocks, sealed[i]->builder);
            let at = m.state.variables[var.0 as int].location;
            &&& block.statements.len() > 0
            &&& block.statements.last() matches StatementView::StructConstruct { inputs, output }
                && {
                &&& inputs.len() == 0
                &&& ctx.variables@.len() <= output.0 < m.state.variables.len()
                &&& m.state.variables[output.0 as int] == (Variable {
                    ty: Type::Tuple(TypeList::Nil),
                    location: at,
                })
                &&& value_of(remapping_of(block), var) == Some(
                    VarUsage { var_id: output, location: at },
                )
            }
        }),
{
    let m = merge(ctx, builder, sealed, location);
    let var = m.expr.unwrap();
    let paths = remapped_paths(ctx, builder, sealed, location);
    let before = block_starts(ctx, builder, sealed, location, i);
    let p = remap_paths(ctx.db, before, paths, location);
    let r = block_hands_over(ctx, builder, sealed, location, i);
    let block = block_of(m.blocks, sealed[i]->builder);
    assert(remapping_of(block) == r.value && block.statements == r.state.builder.statements) by {
        law_merge_blocks(ctx, builder, sealed, location);
    }
    lemma_hands_over(ctx, builder, sealed, location, i);
    lemma_block_grows(ctx, builder, sealed, location, i);
    let n = p.state.variables.len() as int;
    let k = r.value.len() - 1;
    assert(r.value[k].0 == var);
    lemma_position_is(r.value, k);
    assert(r.state.variables.len() == n + 1);
    assert(m.state.variables[n] == r.state.variables[n]);
    assert(p.state.variables[var.0 as int] == m.state.variables[var.0 as int]);
}

/// There is a variable for the values if and only if some block yields one.
proof fn lemma_plan_yields(
    db: StructTable,
    defs: Map<u64, Type>,
    entries: Seq<(MemberPath, Value)>,
    variables: Seq<Variable>,
    sealed: Seq<SealedView>,
    location: LocationId,
)
    ensures
        plan_blocks(db, defs, entries, variables, sealed, location).expr is Some <==> exists|
            j: int,
        |
            0 <= j < sealed.len() && yields(#[trigger] sealed[j]),
    decreases sealed.len(),
{
    if sealed.len() > 0 {
        let rest = sealed.drop_last();
        let plan = plan_blocks(db, defs, entries, variables, rest, location);
        lemma_plan_yields(db, defs, entries, variables, rest, location);
        if let SealedView::GotoCallsite { builder, expr } = sealed.last() {
            lemma_changes_keep_expr(
                db,
                defs,
                entries,
                plan_expr(plan, expr),
                builder.changed,
                location,
            );
        }
        if exists|j: int| 0 <= j < sealed.len() && yields(#[trigger] sealed[j]) {
            let j = choose|j: int| 0 <= j < sealed.len() && yields(#[trigger] sealed[j]);
            if j < rest.len() {
                assert(yields(rest[j]));
            }
        }
        if exists|j: int| 0 <= j < rest.len() && yields(#[trigger] rest[j]) {
            let j = choose|j: int| 0 <= j < rest.len() && yields(#[trigger] rest[j]);
            assert(yields(sealed[j]));
        }
        if yields(sealed.last()) {
            assert(yields(sealed[sealed.len() - 1]));
        }
    }
}

proof fn lemma_changes_keep_expr(
    db: StructTable,
    defs: Map<u64, Type>,
    entries: Seq<(MemberPath, Value)>,
    plan: Plan,
    changes: Seq<MemberPath>,
    location: LocationId,
)
    ensures
        plan_changes(db, defs, entries, plan, changes, location).expr == plan.expr,
        plan.variables.is_prefix_of(
            plan_changes(db, defs, entries, plan, changes, location).variables,
        ),
    decreases changes.len(),
{
    if changes.len() > 0 {
        lemma_changes_keep_expr(db, defs, entries, plan, changes.drop_last(), location);
        lemma_paths_keep_expr(
            db,
            defs,
            plan_changes(db, defs, entries, plan, changes.drop_last(), location),
            affected(entries, changes.last()),
            location,
        );
        assert(plan.variables =~= plan_changes(
            db,
            defs,
            entries,
            plan,
            changes,
            location,
        ).variables.subrange(0, plan.variables.len() as int));
    } else {
        assert(plan.variables =~= plan.variables.subrange(0, plan.variables.len() as int));
    }
}

proof fn lemma_paths_keep_expr(
    db: StructTable,
    defs: Map<u64, Type>,
    plan: Plan,
    paths: Seq<MemberPath>,
    location: LocationId,
)
    ensures
        plan_paths(db, defs, plan, paths, location).expr == plan.expr,
        plan.variables.is_prefix_of(plan_paths(db, defs, plan, paths, location).variables),
    decreases paths.len(),
{
    let after = plan_paths(db, defs, plan, paths, location);
    if paths.len() > 0 {
        lemma_paths_keep_expr(db, defs, plan, paths.drop_last(), location);
    }
    assert(plan.variables =~= after.variables.subrange(0, plan.variables.len() as int));
}

/// The merged expression is the value of the block that ran: behind it, the variable for the values
/// has the contents that the value of that block had.
pub proof fn law_merge_value_contents(
    ctx: LoweringContext,
    builder: BuilderView,
    sealed: Seq<SealedView>,
    location: LocationId,
    i: int,
    block_env: Valuation,
    env: Valuation,
)
    requires
        merge_possible(ctx, builder, sealed, location),
        0 <= i < sealed.len(),
        sealed[i] is GotoCallsite,
        merge(ctx, builder, sealed, location).expr is Some,
        follows(
            block_of(merge(ctx, builder, sealed, location).blocks, sealed[i]->builder),
            ctx.variables@.len(),
            block_env,
            env,
        ),
    ensures
        env(merge(ctx, builder, sealed, location).expr.unwrap()) == match sealed[i]->expr {
            Some(usage) => block_env(usage.var_id),
            None => Contents::Struct(Seq::empty()),
        },
{
    let m = merge(ctx, builder, sealed, location);
    let block = block_of(m.blocks, sealed[i]->builder);
    let var = m.expr.unwrap();
    law_merge_value(ctx, builder, sealed, location, i, block_env);
    lemma_position(remapping_of(block), var);
    let j = position(remapping_of(block), var).unwrap();
    assert(remapping_of(block)[j].0 == var);
}

/// The variable for the values is like that of the first block that yields one: it has its type and
/// its location.
pub proof fn law_merge_value_variable(
    ctx: LoweringContext,
    builder: BuilderView,
    sealed: Seq<SealedView>,
    location: LocationId,
    first: int,
)
    requires
        merge(ctx, builder, sealed, location).ok,
        merge(ctx, builder, sealed, location).state.variables.len() <= usize::MAX,
        0 <= first < sealed.len(),
        yields(sealed[first]),
        forall|j: int| 0 <= j < first ==> !yields(#[trigger] sealed[j]),
        sealed[first]->expr.unwrap().var_id.0 < ctx.variables@.len(),
    ensures
        ({
            let m = merge(ctx, builder, sealed, location);
            &&& m.expr is Some
            &&& m.state.variables[m.expr.unwrap().0 as int]
                == ctx.variables@[sealed[first]->expr.unwrap().var_id.0 as int]
        }),
{
    let m = merge(ctx, builder, sealed, location);
    let plan = plan_of_merge(ctx, builder, sealed, location);
    let paths = remapped_paths(ctx, builder, sealed, location);
    let start = Closed {
        variables: plan.variables,
        blocks: ctx.blocks@.push(None),
        ok: plan.ok,
    };
    let target = BlockId(ctx.blocks@.len() as usize);
    let closed = close_blocks(ctx.db, start, sealed, target, plan.expr, paths, location);
    lemma_merge_variables(ctx, builder, sealed, location);
    lemma_close_blocks_variables(
        ctx.db,
        start,
        sealed,
        target,
        plan.expr,
        paths,
        location,
    );
    lemma_write_refs_extend(
        ctx.db,
        State { builder, variables: closed.variables },
        paths,
        location,
    );
    lemma_plan_first_value(
        ctx.db,
        ctx.semantic_defs@,
        builder.semantics,
        ctx.variables@,
        sealed,
        location,
        first,
    );
    assert(plan.variables.is_prefix_of(m.state.variables));
}

proof fn lemma_plan_first_value(
    db: StructTable,
    defs: Map<u64, Type>,
    entries: Seq<(MemberPath, Value)>,
    variables: Seq<Variable>,
    sealed: Seq<SealedView>,
    location: LocationId,
    first: int,
)
    requires
        plan_blocks(db, defs, entries, variables, sealed, location).variables.len() <= usize::MAX,
        0 <= first < sealed.len(),
        yields(sealed[first]),
        forall|j: int| 0 <= j < first ==> !yields(#[trigger] sealed[j]),
        sealed[first]->expr.unwrap().var_id.0 < variables.len(),
    ensures
        ({
            let plan = plan_blocks(db, defs, entries, variables, sealed, location);
            &&& plan.expr is Some
            &&& plan.expr.unwrap().0 < plan.variables.len()
            &&& plan.variables[plan.expr.unwrap().0 as int]
                == variables[sealed[first]->expr.unwrap().var_id.0 as int]
        }),
    decreases sealed.len(),
{
    let rest = sealed.drop_last();
    let before = plan_blocks(db, defs, entries, variables, rest, location);
    let plan = plan_blocks(db, defs, entries, variables, sealed, location);
    lemma_plan_yields(db, defs, entries, variables, rest, location);
    match sealed[sealed.len() - 1] {
        SealedView::GotoCallsite { builder, expr } => {
            let with_expr = plan_expr(before, expr);
            lemma_changes_keep_expr(db, defs, entries, with_expr, builder.changed, location);
            law_plan(db, defs, entries, variables, rest, location);
            if first == sealed.len() - 1 {
                if before.expr is Some {
                    let j = choose|j: int| 0 <= j < rest.len() && yields(#[trigger] rest[j]);
                    assert(!yields(sealed[j]));
                }
                let u = expr.unwrap().var_id.0 as int;
                assert(before.variables[u] == variables[u]);
                assert(with_expr.variables[before.variables.len() as int] == variables[u]);
            } else {
                assert(rest[first] == sealed[first]);
                assert forall|j: int| 0 <= j < first implies !yields(#[trigger] rest[j]) by {
                    assert(!yields(sealed[j]));
                }
                lemma_plan_first_value(db, defs, entries, variables, rest, location, first);
                assert(with_expr.variables[before.expr.unwrap().0 as int]
                    == before.variables[before.expr.unwrap().0 as int]);
            }
        },
        SealedView::Ends(_) => {
            assert(rest[first] == sealed[first]);
            assert forall|j: int| 0 <= j < first implies !yields(#[trigger] rest[j]) by {
                assert(!yields(sealed[j]));
            }
            lemma_plan_first_value(db, defs, entries, variables, rest, location, first);
        },
    }
}

// What a merge changes.

/// Where two rooted mappings have the same contents at a path, they have at every path below it.
pub(crate) proof fn lemma_contents_below(
    db: StructTable,
    a: Seq<(MemberPath, Value)>,
    b: Seq<(MemberPath, Value)>,
    a_env: Valuation,
    b_env: Valuation,
    path: MemberPath,
    q: MemberPath,
)
    requires
        rooted(a),
        rooted(b),
        is_prefix(path, q),
        contents_at(db, a, a_env, path) == contents_at(db, b, b_env, path),
    ensures
        contents_at(db, a, a_env, q) == contents_at(db, b, b_env, q),
    decreases q,
{
    if path != q {
        let parent = *q->parent;
        lemma_contents_below(db, a, b, a_env, b_env, path, parent);
        assert(!has_key(a, q));
        assert(!has_key(b, q));
    }
}

/// What any block changed is seen behind the merge as the block that ran left it. It is, or is part
/// of, what has a new variable there, of the type of its path and at the location of the merge,
/// which the block remaps to its own.
pub proof fn law_merge_changes(
    ctx: LoweringContext,
    shape: Shape,
    builder: BuilderView,
    sealed: Seq<SealedView>,
    location: LocationId,
    j: int,
    changed: MemberPath,
    i: int,
    block_env: Valuation,
    env: Valuation,
) -> (cover: MemberPath)
    requires
        merge_possible(ctx, builder, sealed, location),
        well_shaped(ctx.db, shape, builder.semantics),
        0 <= j < sealed.len(),
        is_change_of(sealed[j], changed),
        has_key(builder.semantics, MemberPath::Var(root(changed))),
        path_fits(ctx.db, shape, changed),
        0 <= i < sealed.len(),
        sealed[i] is GotoCallsite,
        well_shaped(ctx.db, shape, sealed[i]->builder.semantics),
        follows(
            block_of(merge(ctx, builder, sealed, location).blocks, sealed[i]->builder),
            ctx.variables@.len(),
            block_env,
            env,
        ),
    ensures
        is_prefix(cover, changed),
        renewed_by_merge(ctx, builder, sealed, location, i, cover),
        contents_at(
            ctx.db,
            merge(ctx, builder, sealed, location).state.builder.semantics,
            env,
            changed,
        ) == contents_at(ctx.db, sealed[i]->builder.semantics, block_env, changed),
{
    lemma_merge_variables(ctx, builder, sealed, location);
    let cover = law_changes_are_remapped(
        ctx.db,
        ctx.semantic_defs@,
        shape,
        builder.semantics,
        ctx.variables@,
        sealed,
        location,
        j,
        changed,
    );
    lemma_merge_cover(
        ctx,
        shape,
        builder,
        sealed,
        location,
        i,
        block_env,
        env,
        cover,
        changed,
    );
    cover
}

/// Where a block changed a part of a variable, every part that the callsite has in a variable is
/// seen behind the merge as the block that ran left it, and is, or is part of, what has a new
/// variable there.
pub proof fn law_merge_renews_whole_variable(
    ctx: LoweringContext,
    shape: Shape,
    builder: BuilderView,
    sealed: Seq<SealedView>,
    location: LocationId,
    j: int,
    changed: MemberPath,
    whole: MemberPath,
    i: int,
    block_env: Valuation,
    env: Valuation,
) -> (cover: MemberPath)
    requires
        merge_possible(ctx, builder, sealed, location),
        well_shaped(ctx.db, shape, builder.semantics),
        0 <= j < sealed.len(),
        is_change_of(sealed[j], changed),
        has_key(builder.semantics, MemberPath::Var(root(changed))),
        root(whole) == root(changed),
        path_fits(ctx.db, shape, whole),
        lookup(builder.semantics, whole) matches Some(Value::Var(_)),
        0 <= i < sealed.len(),
        sealed[i] is GotoCallsite,
        well_shaped(ctx.db, shape, sealed[i]->builder.semantics),
        follows(
            block_of(merge(ctx, builder, sealed, location).blocks, sealed[i]->builder),
            ctx.variables@.len(),
            block_env,
            env,
        ),
    ensures
        is_prefix(cover, whole),
        renewed_by_merge(ctx, builder, sealed, location, i, cover),
        contents_at(
            ctx.db,
            merge(ctx, builder, sealed, location).state.builder.semantics,
            env,
            whole,
        ) == contents_at(ctx.db, sealed[i]->builder.semantics, block_env, whole),
{
    lemma_merge_variables(ctx, builder, sealed, location);
    let cover = law_whole_variable_is_remapped(
        ctx.db,
        ctx.semantic_defs@,
        shape,
        builder.semantics,
        ctx.variables@,
        sealed,
        location,
        j,
        changed,
        whole,
    );
    lemma_merge_cover(
        ctx,
        shape,
        builder,
        sealed,
        location,
        i,
        block_env,
        env,
        cover,
        whole,
    );
    cover
}

/// Whether a path is in a new variable behind a merge, of the type of the path and at the location of
/// the merge, which the `i`-th block remaps.
pub open spec fn renewed_by_merge(
    ctx: LoweringContext,
    builder: BuilderView,
    sealed: Seq<SealedView>,
    location: LocationId,
    i: int,
    path: MemberPath,
) -> bool {
    let m = merge(ctx, builder, sealed, location);
    lookup(m.state.builder.semantics, path) matches Some(Value::Var(var)) && {
        &&& ctx.variables@.len() <= var.0 < m.state.variables.len()
        &&& Some(m.state.variables[var.0 as int].ty) == path_ty(ctx.db, ctx.semantic_defs@, path)
        &&& m.state.variables[var.0 as int].location == location
        &&& has_key(remapping_of(block_of(m.blocks, sealed[i]->builder)), var)
    }
}

/// What a remapped path covers is seen behind the merge as the block that ran left it.
proof fn lemma_merge_cover(
    ctx: LoweringContext,
    shape: Shape,
    builder: BuilderView,
    sealed: Seq<SealedView>,
    location: LocationId,
    i: int,
    block_env: Valuation,
    env: Valuation,
    cover: MemberPath,
    q: MemberPath,
)
    requires
        merge_possible(ctx, builder, sealed, location),
        well_shaped(ctx.db, shape, builder.semantics),
        0 <= i < sealed.len(),
        sealed[i] is GotoCallsite,
        well_shaped(ctx.db, shape, sealed[i]->builder.semantics),
        follows(
            block_of(merge(ctx, builder, sealed, location).blocks, sealed[i]->builder),
            ctx.variables@.len(),
            block_env,
            env,
        ),
        has_key(remapped_paths(ctx, builder, sealed, location), cover),
        is_prefix(cover, q),
    ensures
        renewed_by_merge(ctx, builder, sealed, location, i, cover),
        contents_at(
            ctx.db,
            merge(ctx, builder, sealed, location).state.builder.semantics,
            env,
            q,
        ) == contents_at(ctx.db, sealed[i]->builder.semantics, block_env, q),
{
    let m = merge(ctx, builder, sealed, location);
    let plan = plan_of_merge(ctx, builder, sealed, location);
    let paths = remapped_paths(ctx, builder, sealed, location);
    let after = m.state.builder.semantics;
    lemma_position(paths, cover);
    let k = position(paths, cover).unwrap();
    let var = paths[k].1;
    lemma_hands_over(ctx, builder, sealed, location, i);
    assert(contents_at(ctx.db, after, env, cover) == contents_at(
        ctx.db,
        sealed[i]->builder.semantics,
        block_env,
        cover,
    )) by {
        lemma_remapping_is(ctx, builder, sealed, location, i);
        law_merge_contents(ctx, shape, builder, sealed, location, i, block_env, env, k);
    }
    assert(lookup(after, cover) == Some(Value::Var(var))) by {
        law_merge_callsite(ctx, shape, builder, sealed, location);
        assert(lookup(after, paths[k].0) == Some(Value::Var(paths[k].1)));
    }
    assert(contents_at(ctx.db, after, env, q) == contents_at(
        ctx.db,
        sealed[i]->builder.semantics,
        block_env,
        q,
    )) by {
        lemma_merge_rooted(ctx, builder, sealed, location);
        lemma_contents_below(
            ctx.db,
            after,
            sealed[i]->builder.semantics,
            env,
            block_env,
            cover,
            q,
        );
    }
    assert(value_of(plan.paths, paths[k].0) == Some(paths[k].1));
    lemma_position(plan.paths, cover);
    assert(Some(m.state.variables[var.0 as int].ty) == path_ty(
        ctx.db,
        ctx.semantic_defs@,
        cover,
    ) && m.state.variables[var.0 as int].location == location) by {
        lemma_merge_variables(ctx, builder, sealed, location);
        law_plan(
            ctx.db,
            ctx.semantic_defs@,
            builder.semantics,
            ctx.variables@,
            sealed,
            location,
        );
        let a = position(plan.paths, cover).unwrap();
        assert(plan.paths[a] == paths[k]);
        assert(m.state.variables[var.0 as int] == plan.variables[var.0 as int]);
        lemma_plan_is_typed(ctx, builder, sealed, location, cover);
    }
    lemma_remapping_is(ctx, builder, sealed, location, i);
    let r = block_hands_over(ctx, builder, sealed, location, i);
    assert(r.value[k].0 == var);
    lemma_position(r.value, var);
}

/// A block remaps what it hands over.
proof fn lemma_remapping_is(
    ctx: LoweringContext,
    builder: BuilderView,
    sealed: Seq<SealedView>,
    location: LocationId,
    i: int,
)
    requires
        merge_possible(ctx, builder, sealed, location),
        0 <= i < sealed.len(),
        sealed[i] is GotoCallsite,
    ensures
        ({
            let block = block_of(
                merge(ctx, builder, sealed, location).blocks,
                sealed[i]->builder,
            );
            let r = block_hands_over(ctx, builder, sealed, location, i);
            &&& remapping_of(block) == r.value
            &&& block.statements == r.state.builder.statements
        }),
{
    law_merge_blocks(ctx, builder, sealed, location);
}

/// A plan that can be carried out has paths with types alone.
proof fn lemma_plan_is_typed(
    ctx: LoweringContext,
    builder: BuilderView,
    sealed: Seq<SealedView>,
    location: LocationId,
    path: MemberPath,
)
    requires
        merge(ctx, builder, sealed, location).ok,
        has_key(plan_of_merge(ctx, builder, sealed, location).paths, path),
    ensures
        path_ty(ctx.db, ctx.semantic_defs@, path) is Some,
{
    let plan = plan_of_merge(ctx, builder, sealed, location);
    let start = Closed {
        variables: plan.variables,
        blocks: ctx.blocks@.push(None),
        ok: plan.ok,
    };
    lemma_close_blocks_prefix(
        ctx.db,
        start,
        sealed,
        BlockId(ctx.blocks@.len() as usize),
        plan.expr,
        pruned(plan.paths),
        location,
        0,
    );
    lemma_blocks_typed(
        ctx.db,
        ctx.semantic_defs@,
        builder.semantics,
        ctx.variables@,
        sealed,
        location,
        path,
    );
}

proof fn lemma_blocks_typed(
    db: StructTable,
    defs: Map<u64, Type>,
    entries: Seq<(MemberPath, Value)>,
    variables: Seq<Variable>,
    sealed: Seq<SealedView>,
    location: LocationId,
    path: MemberPath,
)
    requires
        plan_blocks(db, defs, entries, variables, sealed, location).ok,
        has_key(plan_blocks(db, defs, entries, variables, sealed, location).paths, path),
    ensures
        path_ty(db, defs, path) is Some,
    decreases sealed.len(),
{
    if sealed.len() > 0 {
        let rest = sealed.drop_last();
        let plan = plan_blocks(db, defs, entries, variables, rest, location);
        match sealed.last() {
            SealedView::GotoCallsite { builder, expr } => {
                lemma_changes_typed(
                    db,
                    defs,
                    entries,
                    plan_expr(plan, expr),
                    builder.changed,
                    location,
                    path,
                );
                if has_key(plan.paths, path) {
                    lemma_blocks_typed(db, defs, entries, variables, rest, location, path);
                }
            },
            SealedView::Ends(_) => {
                lemma_blocks_typed(db, defs, entries, variables, rest, location, path);
            },
        }
    }
}

proof fn lemma_changes_typed(
    db: StructTable,
    defs: Map<u64, Type>,
    entries: Seq<(MemberPath, Value)>,
    plan: Plan,
    changes: Seq<MemberPath>,
    location: LocationId,
    path: MemberPath,
)
    requires
        plan_changes(db, defs, entries, plan, changes, location).ok,
        has_key(plan_changes(db, defs, entries, plan, changes, location).paths, path),
    ensures
        plan.ok,
        has_key(plan.paths, path) || path_ty(db, defs, path) is Some,
    decreases changes.len(),
{
    if changes.len() > 0 {
        let rest = changes.drop_last();
        let before = plan_changes(db, defs, entries, plan, rest, location);
        lemma_paths_typed(
            db,
            defs,
            before,
            affected(entries, changes.last()),
            location,
            path,
        );
        lemma_changes_ok(db, defs, entries, plan, rest, location);
        if has_key(before.paths, path) {
            lemma_changes_typed(db, defs, entries, plan, rest, location, path);
        }
    }
}

proof fn lemma_changes_ok(
    db: StructTable,
    defs: Map<u64, Type>,
    entries: Seq<(MemberPath, Value)>,
    plan: Plan,
    changes: Seq<MemberPath>,
    location: LocationId,
)
    requires
        plan_changes(db, defs, entries, plan, changes, location).ok,
    ensures
        plan.ok,
    decreases changes.len(),
{
    if changes.len() > 0 {
        let before = plan_changes(db, defs, entries, plan, changes.drop_last(), location);
        let paths = affected(entries, changes.last());
        lemma_plan_paths_prefix(db, defs, before, paths, location, 0);
        assert(paths.take(0) =~= Seq::empty());
        lemma_changes_ok(db, defs, entries, plan, changes.drop_last(), location);
    }
}

proof fn lemma_paths_typed(
    db: StructTable,
    defs: Map<u64, Type>,
    plan: Plan,
    paths: Seq<MemberPath>,
    location: LocationId,
    path: MemberPath,
)
    requires
        plan_paths(db, defs, plan, paths, location).ok,
        has_key(plan_paths(db, defs, plan, paths, location).paths, path),
    ensures
        plan.ok,
        has_key(plan.paths, path) || path_ty(db, defs, path) is Some,
    decreases paths.len(),
{
    if paths.len() > 0 {
        let p = plan_paths(db, defs, plan, paths.drop_last(), location);
        let after = plan_paths(db, defs, plan, paths, location);
        if has_key(p.paths, path) {
            lemma_paths_typed(db, defs, plan, paths.drop_last(), location, path);
        } else {
            lemma_position(after.paths, path);
            lemma_position(p.paths, path);
            let k = position(after.paths, path).unwrap();
            if k < p.paths.len() {
                assert(p.paths[k] == after.paths[k]);
            }
            lemma_plan_paths_prefix(db, defs, plan, paths, location, 0);
            assert(paths.take(0) =~= Seq::empty());
        }
    }
}

/// A merge keeps which variables the builder of the callsite has entries for.
pub(crate) proof fn lemma_merge_rooted(
    ctx: LoweringContext,
    builder: BuilderView,
    sealed: Seq<SealedView>,
    location: LocationId,
)
    ensures
        ({
            let after = merge(ctx, builder, sealed, location).state.builder.semantics;
            &&& forall|key: MemberPath| #[trigger]
                has_key(after, key) == has_key(builder.semantics, key)
            &&& rooted(builder.semantics) ==> rooted(after)
        }),
{
    let plan = plan_of_merge(ctx, builder, sealed, location);
    let paths = pruned(plan.paths);
    let closed = close_blocks(
        ctx.db,
        Closed { variables: plan.variables, blocks: ctx.blocks@.push(None), ok: plan.ok },
        sealed,
        BlockId(ctx.blocks@.len() as usize),
        plan.expr,
        paths,
        location,
    );
    let before = State { builder, variables: closed.variables };
    let after = merge(ctx, builder, sealed, location).state.builder.semantics;
    assert forall|key: MemberPath| #[trigger]
        has_key(after, key) == has_key(builder.semantics, key) by {
        lemma_write_refs_keys(ctx.db, before, paths, location, key);
    }
}

proof fn lemma_write_refs_keys(
    db: StructTable,
    before: State,
    paths: Seq<(MemberPath, VariableId)>,
    location: LocationId,
    key: MemberPath,
)
    ensures
        has_key(write_refs(db, before, paths, location).state.builder.semantics, key) == has_key(
            before.builder.semantics,
            key,
        ),
    decreases paths.len(),
{
    if paths.len() > 0 {
        let first = write_refs(db, before, paths.drop_last(), location).state;
        lemma_write_refs_keys(db, before, paths.drop_last(), location, key);
        law_entries_stay(
            db,
            first.builder.semantics,
            first.emitted(),
            paths.last().0,
            paths.last().1,
            location,
            key,
        );
    }
}

/// Variables that no block changed stay where they are, with all their members, and so do the
/// variables that the builder of the callsite has entries for.
pub proof fn law_merge_leaves_the_rest(
    ctx: LoweringContext,
    shape: Shape,
    builder: BuilderView,
    sealed: Seq<SealedView>,
    location: LocationId,
    q: MemberPath,
)
    requires
        merge(ctx, builder, sealed, location).ok,
        merge(ctx, builder, sealed, location).state.variables.len() <= usize::MAX,
        well_shaped(ctx.db, shape, builder.semantics),
        lookup(builder.semantics, q) is Some,
        forall|i: int, c: MemberPath|
            0 <= i < sealed.len() && #[trigger] is_change_of(sealed[i], c) ==> root(c) != root(q),
    ensures
        lookup(merge(ctx, builder, sealed, location).state.builder.semantics, q) == lookup(
            builder.semantics,
            q,
        ),
{
    let plan = plan_of_merge(ctx, builder, sealed, location);
    let paths = remapped_paths(ctx, builder, sealed, location);
    lemma_merge_variables(ctx, builder, sealed, location);
    law_merge_callsite(ctx, shape, builder, sealed, location);
    law_plan(
        ctx.db,
        ctx.semantic_defs@,
        builder.semantics,
        ctx.variables@,
        sealed,
        location,
    );
    law_pruned(plan.paths, q);
    assert forall|k: int| 0 <= k < paths.len() implies apart((#[trigger] paths[k]).0, q) by {
        law_pruned(plan.paths, paths[k].0);
        lemma_position_is(paths, k);
        assert(has_key(paths, paths[k].0));
        law_remapped_is_mapped(
            ctx.db,
            ctx.semantic_defs@,
            shape,
            builder.semantics,
            ctx.variables@,
            sealed,
            location,
            paths[k].0,
        );
        assert(root(paths[k].0) != root(q));
    }
}

/// The builder of the callsite goes on in what it had: it is at its block until it is finalized,
/// emits nothing, and has the snapshots that it had but for those of what got new variables.
pub proof fn law_merge_keeps_builder(
    ctx: LoweringContext,
    shape: Shape,
    builder: BuilderView,
    sealed: Seq<SealedView>,
    location: LocationId,
    q: MemberPath,
)
    requires
        merge(ctx, builder, sealed, location).ok,
        merge(ctx, builder, sealed, location).state.variables.len() <= usize::MAX,
        well_shaped(ctx.db, shape, builder.semantics),
        unique_keys(builder.snapped),
    ensures
        ({
            let m = merge(ctx, builder, sealed, location);
            let paths = remapped_paths(ctx, builder, sealed, location);
            &&& m.state.builder.statements == builder.statements
            &&& m.state.builder.block_id == builder.block_id
            &&& builder.changed.is_prefix_of(m.state.builder.changed)
            &&& value_of(m.state.builder.snapped, q) == (if has_key(paths, q) {
                None
            } else {
                value_of(builder.snapped, q)
            })
            &&& m.state.builder.changed.contains(q) == (builder.changed.contains(q) || has_key(
                paths,
                q,
            ))
        }),
{
    let m = merge(ctx, builder, sealed, location);
    let plan = plan_of_merge(ctx, builder, sealed, location);
    let paths = remapped_paths(ctx, builder, sealed, location);
    let closed = close_blocks(
        ctx.db,
        Closed { variables: plan.variables, blocks: ctx.blocks@.push(None), ok: plan.ok },
        sealed,
        BlockId(ctx.blocks@.len() as usize),
        plan.expr,
        paths,
        location,
    );
    let before = State { builder, variables: closed.variables };
    law_merge_callsite(ctx, shape, builder, sealed, location);
    lemma_write_refs_extend(ctx.db, before, paths, location);
    lemma_write_refs_records(ctx.db, before, paths, location, q);
}

proof fn lemma_write_refs_records(
    db: StructTable,
    before: State,
    paths: Seq<(MemberPath, VariableId)>,
    location: LocationId,
    q: MemberPath,
)
    requires
        unique_keys(before.builder.snapped),
    ensures
        ({
            let after = write_refs(db, before, paths, location).state.builder;
            &&& unique_keys(after.snapped)
            &&& value_of(after.snapped, q) == (if has_key(paths, q) {
                None
            } else {
                value_of(before.builder.snapped, q)
            })
            &&& after.changed.contains(q) == (before.builder.changed.contains(q) || has_key(
                paths,
                q,
            ))
        }),
    decreases paths.len(),
{
    if paths.len() > 0 {
        let rest = paths.drop_last();
        let first = write_refs(db, before, rest, location).state;
        let after = write_refs(db, before, paths, location).state;
        let path = paths.last().0;
        lemma_write_refs_records(db, before, rest, location, q);
        lemma_swap_removed(first.builder.snapped, path);
        law_update_drops_snapshot(db, first, path, paths.last().1, location, q);
        assert(has_key(paths, q) == (has_key(rest, q) || q == path));
        assert(after.builder.changed == set_inserted(first.builder.changed, path));
        if !first.builder.changed.contains(path) {
            let n = first.builder.changed.len() as int;
            assert(after.builder.changed[n] == path);
            if first.builder.changed.contains(q) {
                let k = choose|k: int|
                    0 <= k < first.builder.changed.len() && first.builder.changed[k] == q;
                assert(after.builder.changed[k] == q);
            }
            if after.builder.changed.contains(q) {
                let k = choose|k: int|
                    0 <= k < after.builder.changed.len() && after.builder.changed[k] == q;
                if k < n {
                    assert(first.builder.changed[k] == q);
                }
            }
        }
    }
}

/// What a merge gives as an expression is read without any step: it is the variable for the values
/// at the location of the merge. Where there is none, it is the empty tuple there.
pub proof fn law_converged(
    db: StructTable,
    before: State,
    expr: LoweredExpr,
    var: Option<VariableId>,
    location: LocationId,
)
    requires
        is_converged(expr, var, location),
    ensures
        match var {
            Some(var_id) => lower_expr(db, before, expr) == (Outcome {
                state: before,
                value: VarUsage { var_id, location },
                ok: true,
            }),
            None => expr matches LoweredExpr::Tuple { exprs, location: at } && exprs@.len() == 0
                && at == location,
        },
{
}

/// What follows sealed blocks is reachable if and only if one of them goes to the callsite: one more
/// block makes a difference only if it does.
pub proof fn law_reachable(sealed: Seq<SealedView>, last: SealedView)
    ensures
        !reachable(Seq::empty()),
        reachable(sealed.push(last)) == (reachable(sealed) || last is GotoCallsite),
{
    let all = sealed.push(last);
    if reachable(sealed) {
        let i = choose|i: int| 0 <= i < sealed.len() && (#[trigger] sealed[i]) is GotoCallsite;
        assert(all[i] is GotoCallsite);
    }
    if last is GotoCallsite {
        assert(all[sealed.len() as int] is GotoCallsite);
    }
    if reachable(all) {
        let i = choose|i: int| 0 <= i < all.len() && (#[trigger] all[i]) is GotoCallsite;
        if i < sealed.len() {
            assert(sealed[i] is GotoCallsite);
        }
    }
}

} // verus!
