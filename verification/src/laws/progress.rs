//! Where a merge succeeds.
use vstd::prelude::*;

use crate::context::{path_ty, LoweringContext, StructTable};
use crate::generators::Emitted;
use crate::ids::{BlockId, LocationId, VarId, VariableId};
use crate::laws::builder::law_steps_go_on;
use crate::laws::emission::{
    entries_in_scope, law_reads_in_scope, lemma_entries_in_scope_of_more, structs_known,
};
use crate::laws::mapping::{lemma_broken_found, root};
use crate::laws::meaning::{distinct_members, entries_fit, lemma_stored_fits, path_fits, Shape};
use crate::laws::merging::{
    law_fitting_paths_are_readable, law_plan_can_be_applied, law_remap_goes_on, law_remapped_once,
    law_remapping_is_applied, lemma_affected, lemma_close_blocks_variables, lemma_fitting_is_found,
    lemma_merge_variables, lemma_remap_paths_go_on, lemma_write_refs_variables, rooted, well_shaped,
};
use crate::laws::planning::law_plan;
use crate::laws::pruning::law_pruned;
use crate::member_path::MemberPath;
use crate::merge::{
    affected, close_blocks, lemma_close_blocks_len, merge, plan_blocks, plan_changes, plan_expr,
    plan_paths, pruned, remap, remap_paths, Closed, Plan, SealedView,
};
use crate::ordered::{has_key, lemma_position, lemma_position_is, position, value_of};
use crate::refs::{assembled, broken, lookup, read, Value};
use crate::state::{BuilderView, State};
use crate::types::Type;

verus! {

/// A fitting path is of known structs.
proof fn lemma_fitting_is_known(db: StructTable, shape: Shape, path: MemberPath)
    requires
        path_fits(db, shape, path),
    ensures
        structs_known(db, path),
    decreases path,
{
    if let MemberPath::Member { parent, .. } = path {
        lemma_fitting_is_known(db, shape, *parent);
    }
}

/// Whether the variables that a mapping has entries for have types.
pub open spec fn variables_typed(
    defs: Map<u64, Type>,
    entries: Seq<(MemberPath, Value)>,
) -> bool {
    forall|var: VarId| #[trigger]
        has_key(entries, MemberPath::Var(var)) ==> defs.contains_key(var.0)
}

proof fn lemma_mapped_is_typed(
    db: StructTable,
    defs: Map<u64, Type>,
    shape: Shape,
    entries: Seq<(MemberPath, Value)>,
    path: MemberPath,
)
    requires
        variables_typed(defs, entries),
        path_fits(db, shape, path),
        lookup(entries, path) is Some,
    ensures
        path_ty(db, defs, path) is Some,
{
    if let MemberPath::Var(var) = path {
        assert(has_key(entries, MemberPath::Var(var)));
    }
}

proof fn lemma_plan_paths_ok(
    db: StructTable,
    defs: Map<u64, Type>,
    plan: Plan,
    paths: Seq<MemberPath>,
    location: LocationId,
)
    requires
        plan.ok,
        forall|i: int| 0 <= i < paths.len() ==> path_ty(db, defs, #[trigger] paths[i]) is Some,
    ensures
        plan_paths(db, defs, plan, paths, location).ok,
        plan.variables.len() <= plan_paths(db, defs, plan, paths, location).variables.len(),
    decreases paths.len(),
{
    if paths.len() > 0 {
        assert forall|i: int| 0 <= i < paths.drop_last().len() implies path_ty(
            db,
            defs,
            #[trigger] paths.drop_last()[i],
        ) is Some by {
            assert(paths.drop_last()[i] == paths[i]);
        }
        lemma_plan_paths_ok(db, defs, plan, paths.drop_last(), location);
        assert(path_ty(db, defs, paths[paths.len() - 1]) is Some);
    }
}

proof fn lemma_plan_changes_ok(
    db: StructTable,
    defs: Map<u64, Type>,
    shape: Shape,
    entries: Seq<(MemberPath, Value)>,
    plan: Plan,
    changes: Seq<MemberPath>,
    location: LocationId,
)
    requires
        plan.ok,
        well_shaped(db, shape, entries),
        variables_typed(defs, entries),
    ensures
        plan_changes(db, defs, entries, plan, changes, location).ok,
        plan.variables.len() <= plan_changes(
            db,
            defs,
            entries,
            plan,
            changes,
            location,
        ).variables.len(),
    decreases changes.len(),
{
    if changes.len() > 0 {
        lemma_plan_changes_ok(
            db,
            defs,
            shape,
            entries,
            plan,
            changes.drop_last(),
            location,
        );
        let leaves = affected(entries, changes.last());
        assert forall|i: int| 0 <= i < leaves.len() implies path_ty(
            db,
            defs,
            #[trigger] leaves[i],
        ) is Some by {
            assert(leaves.contains(leaves[i]));
            lemma_affected(db, shape, entries, changes.last(), leaves[i]);
            lemma_mapped_is_typed(db, defs, shape, entries, leaves[i]);
        }
        lemma_plan_paths_ok(
            db,
            defs,
            plan_changes(db, defs, entries, plan, changes.drop_last(), location),
            leaves,
            location,
        );
    }
}

/// Whether a block that goes to the callsite comes from a scope of the callsite: its values are of
/// the structs that their paths are of, its variables exist, it has an entry for every variable
/// that the callsite has, and so on.
pub open spec fn is_subscope(
    ctx: LoweringContext,
    shape: Shape,
    builder: BuilderView,
    sealed: SealedView,
) -> bool {
    sealed matches SealedView::GotoCallsite { builder: sub, expr } ==> {
        &&& entries_fit(ctx.db, shape, sub.semantics)
        &&& entries_in_scope(sub.semantics, ctx.variables@.len())
        &&& forall|key: MemberPath| #[trigger]
            has_key(builder.semantics, key) ==> has_key(sub.semantics, key)
        &&& sub.block_id.0 < ctx.blocks@.len()
        &&& expr matches Some(usage) ==> usage.var_id.0 < ctx.variables@.len()
    }
}

proof fn lemma_plan_ok(
    ctx: LoweringContext,
    shape: Shape,
    builder: BuilderView,
    sealed: Seq<SealedView>,
    location: LocationId,
)
    requires
        well_shaped(ctx.db, shape, builder.semantics),
        variables_typed(ctx.semantic_defs@, builder.semantics),
        forall|i: int|
            0 <= i < sealed.len() ==> is_subscope(ctx, shape, builder, #[trigger] sealed[i]),
    ensures
        ({
            let plan = plan_blocks(
                ctx.db,
                ctx.semantic_defs@,
                builder.semantics,
                ctx.variables@,
                sealed,
                location,
            );
            plan.ok && ctx.variables@.len() <= plan.variables.len()
        }),
    decreases sealed.len(),
{
    if sealed.len() > 0 {
        let rest = sealed.drop_last();
        assert forall|i: int| 0 <= i < rest.len() implies is_subscope(
            ctx,
            shape,
            builder,
            #[trigger] rest[i],
        ) by {
            assert(rest[i] == sealed[i]);
        }
        lemma_plan_ok(ctx, shape, builder, rest, location);
        let plan = plan_blocks(
            ctx.db,
            ctx.semantic_defs@,
            builder.semantics,
            ctx.variables@,
            rest,
            location,
        );
        assert(is_subscope(ctx, shape, builder, sealed[sealed.len() - 1]));
        if let SealedView::GotoCallsite { builder: sub, expr } = sealed[sealed.len() - 1] {
            lemma_plan_changes_ok(
                ctx.db,
                ctx.semantic_defs@,
                shape,
                builder.semantics,
                plan_expr(plan, expr),
                sub.changed,
                location,
            );
        }
    }
}

proof fn lemma_remap_paths_ok(
    db: StructTable,
    shape: Shape,
    before: State,
    paths: Seq<(MemberPath, VariableId)>,
    location: LocationId,
)
    requires
        distinct_members(db),
        entries_fit(db, shape, before.builder.semantics),
        entries_in_scope(before.builder.semantics, before.variables.len()),
        forall|i: int|
            0 <= i < paths.len() ==> path_fits(db, shape, (#[trigger] paths[i]).0) && has_key(
                before.builder.semantics,
                MemberPath::Var(root(paths[i].0)),
            ),
        forall|i: int, j: int|
            0 <= i < j < paths.len() ==> (#[trigger] paths[i]).1 != (#[trigger] paths[j]).1,
        remap_paths(db, before, paths, location).state.variables.len() <= usize::MAX,
    ensures
        ({
            let r = remap_paths(db, before, paths, location);
            &&& r.ok
            &&& entries_fit(db, shape, r.state.builder.semantics)
            &&& entries_in_scope(r.state.builder.semantics, r.state.variables.len())
        }),
    decreases paths.len(),
{
    if paths.len() > 0 {
        let rest = paths.drop_last();
        let n = paths.len() - 1;
        let (path, var) = paths.last();
        let first = remap_paths(db, before, rest, location);
        let r = remap_paths(db, before, paths, location);
        law_steps_go_on(db, first.state, path, VariableId(0), location);
        assert(first.state.variables.len() <= r.state.variables.len());
        assert forall|i: int| 0 <= i < rest.len() implies path_fits(
            db,
            shape,
            (#[trigger] rest[i]).0,
        ) && has_key(before.builder.semantics, MemberPath::Var(root(rest[i].0))) by {
            assert(rest[i] == paths[i]);
        }
        assert forall|i: int, j: int| 0 <= i < j < rest.len() implies (#[trigger] rest[i]).1 != (
        #[trigger] rest[j]).1 by {
            assert(paths[i].1 != paths[j].1);
        }
        lemma_remap_paths_ok(db, shape, before, rest, location);
        lemma_remap_paths_go_on(db, before, rest, location);
        assert(paths[n] == (path, var));
        lemma_fitting_is_known(db, shape, path);
        let entries = first.state.builder.semantics;
        assert(has_key(entries, MemberPath::Var(root(path))));
        law_reads_in_scope(db, entries, first.state.emitted(), path, location);
        law_fitting_paths_are_readable(
            db,
            shape,
            entries,
            first.state.emitted(),
            path,
            location,
        );
        lemma_read_fits(db, shape, entries, first.state.emitted(), path, location);
        assert forall|i: int| 0 <= i < rest.len() implies (#[trigger] rest[i]).1 != var by {
            assert(paths[i].1 != paths[n].1);
        }
        law_remapped_once(db, before, rest, location, var);
    }
}

/// A read keeps the mapping fitting.
pub(crate) proof fn lemma_read_fits(
    db: StructTable,
    shape: Shape,
    entries: Seq<(MemberPath, Value)>,
    emitted: Emitted,
    path: MemberPath,
    location: LocationId,
)
    requires
        distinct_members(db),
        entries_fit(db, shape, entries),
        path_fits(db, shape, path),
        has_key(entries, MemberPath::Var(root(path))),
        read(db, entries, emitted, path, location).ok,
    ensures
        entries_fit(db, shape, read(db, entries, emitted, path, location).entries),
{
    let b = broken(db, entries, emitted, path, location);
    lemma_fitting_is_found(db, shape, entries, emitted, path, location);
    lemma_broken_found(db, entries, emitted, path, location);
    let value = lookup(b.entries, path).unwrap();
    if value is Scattered {
        let (_, var) = assembled(value, b.emitted, location);
        lemma_stored_fits(db, shape, b.entries, path, Value::Var(var));
    }
}

/// Whether what is remapped can be read in every subscope.
pub open spec fn can_be_handed_over(
    db: StructTable,
    shape: Shape,
    builder: BuilderView,
    expr: Option<VariableId>,
    paths: Seq<(MemberPath, VariableId)>,
    n: nat,
) -> bool {
    &&& distinct_members(db)
    &&& forall|i: int|
        0 <= i < paths.len() ==> path_fits(db, shape, (#[trigger] paths[i]).0) && has_key(
            builder.semantics,
            MemberPath::Var(root(paths[i].0)),
        )
    &&& forall|i: int, j: int|
        0 <= i < j < paths.len() ==> (#[trigger] paths[i]).1 != (#[trigger] paths[j]).1
    &&& expr matches Some(var) ==> var.0 < n && forall|i: int|
        0 <= i < paths.len() ==> (#[trigger] paths[i]).1 != var
}

pub(crate) proof fn lemma_close_ok(
    ctx: LoweringContext,
    shape: Shape,
    builder: BuilderView,
    start: Closed,
    sealed: Seq<SealedView>,
    target: BlockId,
    expr: Option<VariableId>,
    paths: Seq<(MemberPath, VariableId)>,
    location: LocationId,
)
    requires
        start.ok,
        ctx.variables@.len() <= start.variables.len(),
        start.blocks.len() == ctx.blocks@.len() + 1,
        can_be_handed_over(ctx.db, shape, builder, expr, paths, start.variables.len()),
        forall|i: int|
            0 <= i < sealed.len() ==> is_subscope(ctx, shape, builder, #[trigger] sealed[i]),
        close_blocks(ctx.db, start, sealed, target, expr, paths, location).variables.len()
            <= usize::MAX,
    ensures
        close_blocks(ctx.db, start, sealed, target, expr, paths, location).ok,
    decreases sealed.len(),
{
    if sealed.len() > 0 {
        let rest = sealed.drop_last();
        let n = sealed.len() - 1;
        let first = close_blocks(ctx.db, start, rest, target, expr, paths, location);
        assert forall|i: int| 0 <= i < rest.len() implies is_subscope(
            ctx,
            shape,
            builder,
            #[trigger] rest[i],
        ) by {
            assert(rest[i] == sealed[i]);
        }
        lemma_close_blocks_variables(ctx.db, start, rest, target, expr, paths, location);
        assert(is_subscope(ctx, shape, builder, sealed[n]));
        match sealed[n] {
            SealedView::GotoCallsite { builder: sub, expr: returned } => {
                let state = State { builder: sub, variables: first.variables };
                law_remap_goes_on(ctx.db, state, returned, expr, paths, location);
                lemma_remap_paths_go_on(ctx.db, state, paths, location);
                let p = remap_paths(ctx.db, state, paths, location);
                let r = remap(ctx.db, state, returned, expr, paths, location);
                assert(first.variables.len() <= r.state.variables.len());
                assert(p.state.variables.len() <= r.state.variables.len());
                lemma_close_ok(
                    ctx,
                    shape,
                    builder,
                    start,
                    rest,
                    target,
                    expr,
                    paths,
                    location,
                );
                lemma_close_blocks_len(ctx.db, start, rest, target, expr, paths, location);
                lemma_entries_in_scope_of_more(
                    sub.semantics,
                    ctx.variables@.len(),
                    first.variables.len(),
                );
                assert forall|i: int| 0 <= i < paths.len() implies path_fits(
                    ctx.db,
                    shape,
                    (#[trigger] paths[i]).0,
                ) && has_key(sub.semantics, MemberPath::Var(root(paths[i].0))) by {
                    assert(has_key(builder.semantics, MemberPath::Var(root(paths[i].0))));
                }
                lemma_remap_paths_ok(ctx.db, shape, state, paths, location);
                if let Some(var) = expr {
                    law_remapped_once(ctx.db, state, paths, location, var);
                }
            },
            SealedView::Ends(_) => {
                lemma_close_ok(
                    ctx,
                    shape,
                    builder,
                    start,
                    rest,
                    target,
                    expr,
                    paths,
                    location,
                );
            },
        }
    }
}

/// A merge of blocks from scopes of the callsite always succeeds.
pub proof fn law_merge_succeeds(
    ctx: LoweringContext,
    shape: Shape,
    builder: BuilderView,
    sealed: Seq<SealedView>,
    location: LocationId,
)
    requires
        well_shaped(ctx.db, shape, builder.semantics),
        variables_typed(ctx.semantic_defs@, builder.semantics),
        forall|i: int|
            0 <= i < sealed.len() ==> is_subscope(ctx, shape, builder, #[trigger] sealed[i]),
        merge(ctx, builder, sealed, location).state.variables.len() <= usize::MAX,
    ensures
        merge(ctx, builder, sealed, location).ok,
{
    let plan = plan_blocks(
        ctx.db,
        ctx.semantic_defs@,
        builder.semantics,
        ctx.variables@,
        sealed,
        location,
    );
    let paths = pruned(plan.paths);
    let start = Closed {
        variables: plan.variables,
        blocks: ctx.blocks@.push(None),
        ok: plan.ok,
    };
    let target = BlockId(ctx.blocks@.len() as usize);
    let closed = close_blocks(ctx.db, start, sealed, target, plan.expr, paths, location);
    lemma_merge_variables(ctx, builder, sealed, location);
    lemma_write_refs_variables(
        ctx.db,
        State { builder, variables: closed.variables },
        paths,
        location,
    );
    lemma_plan_ok(ctx, shape, builder, sealed, location);
    law_plan(
        ctx.db,
        ctx.semantic_defs@,
        builder.semantics,
        ctx.variables@,
        sealed,
        location,
    );
    law_plan_can_be_applied(
        ctx.db,
        ctx.semantic_defs@,
        shape,
        builder.semantics,
        ctx.variables@,
        sealed,
        location,
    );
    assert forall|i: int| 0 <= i < paths.len() implies {
        &&& path_fits(ctx.db, shape, (#[trigger] paths[i]).0)
        &&& has_key(builder.semantics, MemberPath::Var(root(paths[i].0)))
        &&& plan.expr matches Some(var) ==> paths[i].1 != var
    } by {
        lemma_mapped_has_root(builder.semantics, paths[i].0);
        law_pruned(plan.paths, paths[i].0);
        lemma_position_is(paths, i);
        assert(value_of(paths, paths[i].0) == Some(paths[i].1));
        lemma_position(plan.paths, paths[i].0);
        let a = position(plan.paths, paths[i].0).unwrap();
        assert(plan.paths[a].1 == paths[i].1);
    }
    lemma_close_ok(
        ctx,
        shape,
        builder,
        start,
        sealed,
        target,
        plan.expr,
        paths,
        location,
    );
    law_remapping_is_applied(
        ctx.db,
        shape,
        State { builder, variables: closed.variables },
        paths,
        location,
    );
}

/// What a rooted mapping has is of a variable that has an entry.
proof fn lemma_mapped_has_root(entries: Seq<(MemberPath, Value)>, path: MemberPath)
    requires
        rooted(entries),
        lookup(entries, path) is Some,
    ensures
        has_key(entries, MemberPath::Var(root(path))),
    decreases path,
{
    if let MemberPath::Member { parent, .. } = path {
        if !has_key(entries, path) {
            lemma_mapped_has_root(entries, *parent);
        }
    }
}

} // verus!
