//! Sealed blocks, and their merging.
use cairo_lang_utils::ordered_hash_map::OrderedHashMap;
use vstd::prelude::*;

use crate::block_builder::{state, BlockBuilder};
use crate::context::{
    get_ty, same_but_variables, same_inputs, LoweredExpr, LoweringContext, LoweringFlowError,
    LoweringResult, VarRequest,
};
use crate::ids::{BlockId, ConcreteStructId, LocationId, VariableId};
use crate::member_path::MemberPath;
use crate::merge::{
    affected, close_block, close_blocks, has_ancestor_key, leaf_paths, lemma_close_blocks_len,
    lemma_close_blocks_prefix, lemma_plan_blocks_prefix, lemma_plan_changes_prefix,
    lemma_plan_of_ended_blocks, lemma_plan_paths_prefix, lemma_remap_paths_prefix,
    lemma_topmost_is_key, lemma_write_refs_prefix, lower_unit, member_leaf_paths, merge,
    plan_blocks, plan_changes, plan_expr, plan_paths, prune_keys, pruned, reachable, remap_paths,
    with_block, write_refs, Closed, Plan, SealedView,
};
use crate::objects::{BlockEnd, BlockEndView, MatchInfo, VarRemapping, VarUsage};
use crate::ordered::{
    path_set_elements, path_vars, path_vars_contains, path_vars_entries, path_vars_insert,
    path_vars_new, path_vars_swap_remove,
};
use crate::refs::{Members, SemanticLoweringMapping, Value};
use crate::state::{lower_exprs, sibling_builder, usage_types, Outcome};
use crate::types::Type;

verus! {

/// The new variables of a merge, with what each of them stands for.
#[derive(Debug)]
pub struct SemanticRemapping {
    pub(super) expr: Option<VariableId>,
    pub(super) member_path_value: OrderedHashMap<MemberPath, VariableId>,
}

impl View for SemanticRemapping {
    type V = (Option<VariableId>, Seq<(MemberPath, VariableId)>);

    closed spec fn view(&self) -> (Option<VariableId>, Seq<(MemberPath, VariableId)>) {
        (self.expr, path_vars(self.member_path_value))
    }
}

impl Default for SemanticRemapping {
    fn default() -> (res: Self)
        ensures
            res@ == (None::<VariableId>, Seq::<(MemberPath, VariableId)>::empty()),
    {
        SemanticRemapping { expr: None, member_path_value: path_vars_new() }
    }
}

/// A sealed builder whose block goes to the callsite.
#[derive(Debug)]
pub struct SealedGotoCallsite {
    /// The sealed builder.
    pub builder: BlockBuilder,
    /// What the block returns to the callsite. It is `None` where the block returns the unit type.
    pub expr: Option<VarUsage>,
}

/// A sealed builder, ready to be merged with its siblings.
#[derive(Debug)]
pub enum SealedBlockBuilder {
    /// The block is to go to the callsite.
    GotoCallsite(SealedGotoCallsite),
    /// The end of the block is already known.
    Ends(BlockId),
}

impl View for SealedBlockBuilder {
    type V = SealedView;

    open spec fn view(&self) -> SealedView {
        match *self {
            SealedBlockBuilder::GotoCallsite(sealed) => SealedView::GotoCallsite {
                builder: sealed.builder@,
                expr: sealed.expr,
            },
            SealedBlockBuilder::Ends(block_id) => SealedView::Ends(block_id),
        }
    }
}

/// What sealed builders hold.
pub open spec fn sealed_views(sealed: Seq<SealedBlockBuilder>) -> Seq<SealedView> {
    sealed.map_values(|block: SealedBlockBuilder| block@)
}

/// The variables and the blocks of a function.
pub open spec fn closed(ctx: LoweringContext) -> Closed {
    Closed { variables: ctx.variables@, blocks: ctx.blocks@, ok: true }
}

/// What is to be remapped, so far.
spec fn plan_of(ctx: LoweringContext, remapping: SemanticRemapping) -> Plan {
    Plan {
        variables: ctx.variables@,
        expr: remapping.expr,
        paths: path_vars(remapping.member_path_value),
        ok: true,
    }
}

/// Puts the value `()` into a variable.
fn lower_unit_value(
    ctx: &mut LoweringContext,
    builder: &mut BlockBuilder,
    location: LocationId,
) -> (res: VarUsage)
    ensures
        ({
            let l = lower_unit(state(*old(builder), *old(ctx)), location);
            &&& res == l.value
            &&& state(*final(builder), *final(ctx)) == l.state
        }),
        same_but_variables(*old(ctx), *final(ctx)),
{
    let exprs: Vec<LoweredExpr> = Vec::new();
    let ghost before = state(*builder, *ctx);
    assert(lower_exprs(ctx.db, before, exprs@) == (Outcome {
        state: before,
        value: Seq::<VarUsage>::empty(),
        ok: true,
    }));
    assert(usage_types(ctx.variables@, Seq::<VarUsage>::empty()) =~= Seq::<Type>::empty());
    LoweredExpr::Tuple { exprs, location }.as_var_usage(ctx, builder)
}

impl SealedBlockBuilder {
    /// Ends a block that was not ended yet: it goes to `target`.
    fn finalize(
        self,
        ctx: &mut LoweringContext,
        target: BlockId,
        semantic_remapping: &SemanticRemapping,
        location: LocationId,
    )
        requires
            close_block(
                old(ctx).db,
                closed(*old(ctx)),
                self@,
                target,
                semantic_remapping.expr,
                path_vars(semantic_remapping.member_path_value),
                location,
            ).ok,
        ensures
            closed(*final(ctx)) == close_block(
                old(ctx).db,
                closed(*old(ctx)),
                self@,
                target,
                semantic_remapping.expr,
                path_vars(semantic_remapping.member_path_value),
                location,
            ),
            same_inputs(*old(ctx), *final(ctx)),
            final(ctx).diagnostics@ == old(ctx).diagnostics@,
    {
        match self {
            SealedBlockBuilder::GotoCallsite(sealed) => {
                let SealedGotoCallsite { mut builder, expr } = sealed;
                let ghost before = state(builder, *ctx);
                let entries = path_vars_entries(&semantic_remapping.member_path_value);
                let mut remapping = VarRemapping::new();
                let mut i: usize = 0;
                while i < entries.len()
                    invariant
                        i <= entries.len(),
                        remap_paths(old(ctx).db, before, entries@, location).ok,
                        ({
                            let r = remap_paths(
                                old(ctx).db,
                                before,
                                entries@.take(i as int),
                                location,
                            );
                            &&& r.value == remapping@
                            &&& r.state == state(builder, *ctx)
                        }),
                        same_but_variables(*old(ctx), *ctx),
                        builder@.block_id == before.builder.block_id,
                    decreases entries.len() - i,
                {
                    proof {
                        lemma_remap_paths_prefix(old(ctx).db, before, entries@, location, i + 1);
                        assert(entries@.take(i + 1).drop_last() =~= entries@.take(i as int));
                    }
                    let usage = builder.get_ref_raw(ctx, &entries[i].0, location).unwrap();
                    remapping.insert(entries[i].1, usage);
                    i = i + 1;
                }
                assert(entries@.take(i as int) =~= entries@);
                if let Some(remapped_var) = semantic_remapping.expr {
                    let var_usage = match expr {
                        Some(usage) => usage,
                        None => {
                            let unit_location = ctx.variables[remapped_var.0].location;
                            lower_unit_value(ctx, &mut builder, unit_location)
                        },
                    };
                    remapping.insert(remapped_var, var_usage);
                }
                builder.finalize(ctx, BlockEnd::Goto(target, remapping));
            },
            SealedBlockBuilder::Ends(_) => {},
        }
    }
}

/// Adds the paths that stand for a value at `path` to `out`.
fn collect_leaf_paths(
    path: &MemberPath,
    value: &Value,
    changed: &MemberPath,
    out: &mut Vec<MemberPath>,
)
    ensures
        final(out)@ == old(out)@ + leaf_paths(*path, *value, *changed),
    decreases value,
{
    if *path == *changed {
        out.push(path.clone());
    } else {
        match value {
            Value::Var(_) => {
                out.push(path.clone());
            },
            Value::Scattered { concrete_struct_id, members } => {
                collect_member_leaf_paths(path, *concrete_struct_id, &**members, changed, out);
            },
        }
    }
    assert(out@ =~= old(out)@ + leaf_paths(*path, *value, *changed));
}

/// Adds the paths that stand for the members of a value at `path` to `out`.
fn collect_member_leaf_paths(
    path: &MemberPath,
    concrete_struct_id: ConcreteStructId,
    members: &Members,
    changed: &MemberPath,
    out: &mut Vec<MemberPath>,
)
    ensures
        final(out)@ == old(out)@ + member_leaf_paths(
            *path,
            concrete_struct_id,
            *members,
            *changed,
        ),
    decreases members,
{
    match members {
        Members::Nil => {},
        Members::Cons { member_id, value, rest } => {
            collect_member_leaf_paths(path, concrete_struct_id, &**rest, changed, out);
            let member_path = MemberPath::Member {
                parent: Box::new(path.clone()),
                member_id: *member_id,
                concrete_struct_id,
            };
            collect_leaf_paths(&member_path, &**value, changed, out);
        },
    }
    assert(out@ =~= old(out)@ + member_leaf_paths(*path, concrete_struct_id, *members, *changed));
}

/// Makes new variables for the given paths, other than those that have one.
fn remap_leaves(
    ctx: &mut LoweringContext,
    remapping: &mut SemanticRemapping,
    paths: &Vec<MemberPath>,
    location: LocationId,
)
    requires
        plan_paths(
            old(ctx).db,
            old(ctx).semantic_defs@,
            plan_of(*old(ctx), *old(remapping)),
            paths@,
            location,
        ).ok,
    ensures
        plan_of(*final(ctx), *final(remapping)) == plan_paths(
            old(ctx).db,
            old(ctx).semantic_defs@,
            plan_of(*old(ctx), *old(remapping)),
            paths@,
            location,
        ),
        same_but_variables(*old(ctx), *final(ctx)),
{
    let ghost plan = plan_of(*ctx, *remapping);
    let mut i: usize = 0;
    while i < paths.len()
        invariant
            i <= paths.len(),
            plan_paths(old(ctx).db, old(ctx).semantic_defs@, plan, paths@, location).ok,
            plan_of(*ctx, *remapping) == plan_paths(
                old(ctx).db,
                old(ctx).semantic_defs@,
                plan,
                paths@.take(i as int),
                location,
            ),
            same_but_variables(*old(ctx), *ctx),
        decreases paths.len() - i,
    {
        proof {
            lemma_plan_paths_prefix(
                old(ctx).db,
                old(ctx).semantic_defs@,
                plan,
                paths@,
                location,
                i + 1,
            );
            assert(paths@.take(i + 1).drop_last() =~= paths@.take(i as int));
        }
        if !path_vars_contains(&remapping.member_path_value, &paths[i]) {
            let ty = get_ty(ctx, &paths[i]);
            let var = ctx.new_var(VarRequest { ty, location });
            path_vars_insert(&mut remapping.member_path_value, paths[i].clone(), var);
        }
        i = i + 1;
    }
    assert(paths@.take(i as int) =~= paths@);
}

/// Makes new variables for what the given changes affect.
fn remap_changes(
    ctx: &mut LoweringContext,
    semantics: &SemanticLoweringMapping,
    remapping: &mut SemanticRemapping,
    changes: &Vec<MemberPath>,
    location: LocationId,
)
    requires
        plan_changes(
            old(ctx).db,
            old(ctx).semantic_defs@,
            semantics@,
            plan_of(*old(ctx), *old(remapping)),
            changes@,
            location,
        ).ok,
    ensures
        plan_of(*final(ctx), *final(remapping)) == plan_changes(
            old(ctx).db,
            old(ctx).semantic_defs@,
            semantics@,
            plan_of(*old(ctx), *old(remapping)),
            changes@,
            location,
        ),
        same_but_variables(*old(ctx), *final(ctx)),
{
    let ghost plan = plan_of(*ctx, *remapping);
    let mut i: usize = 0;
    while i < changes.len()
        invariant
            i <= changes.len(),
            plan_changes(
                old(ctx).db,
                old(ctx).semantic_defs@,
                semantics@,
                plan,
                changes@,
                location,
            ).ok,
            plan_of(*ctx, *remapping) == plan_changes(
                old(ctx).db,
                old(ctx).semantic_defs@,
                semantics@,
                plan,
                changes@.take(i as int),
                location,
            ),
            same_but_variables(*old(ctx), *ctx),
        decreases changes.len() - i,
    {
        proof {
            lemma_plan_changes_prefix(
                old(ctx).db,
                old(ctx).semantic_defs@,
                semantics@,
                plan,
                changes@,
                location,
                i + 1,
            );
            assert(changes@.take(i + 1).drop_last() =~= changes@.take(i as int));
        }
        let mut leaves: Vec<MemberPath> = Vec::new();
        match semantics.topmost_mapped_containing_member_path(&changes[i]) {
            Some(top) => {
                proof {
                    lemma_topmost_is_key(semantics@, changes@[i as int]);
                }
                let k: usize = semantics.index_of(&top).unwrap();
                collect_leaf_paths(&top, &semantics.entries[k].1, &changes[i], &mut leaves);
            },
            // The variable is local to the block that changed it.
            None => {},
        }
        assert(leaves@ =~= affected(semantics@, changes@[i as int]));
        remap_leaves(ctx, remapping, &leaves, location);
        i = i + 1;
    }
    assert(changes@.take(i as int) =~= changes@);
}

/// Whether some prefix of the path, other than itself, is a key.
fn covered(paths: &OrderedHashMap<MemberPath, VariableId>, path: &MemberPath) -> (res: bool)
    ensures
        res == has_ancestor_key(path_vars(*paths), *path),
    decreases path,
{
    match path {
        MemberPath::Var(_) => false,
        MemberPath::Member { parent, .. } => path_vars_contains(paths, &**parent) || covered(
            paths,
            &**parent,
        ),
    }
}

/// Takes out the paths that a prefix of theirs covers.
fn prune(paths: &mut OrderedHashMap<MemberPath, VariableId>)
    ensures
        path_vars(*final(paths)) == pruned(path_vars(*old(paths))),
{
    let keys = path_vars_entries(paths);
    let mut i: usize = 0;
    while i < keys.len()
        invariant
            i <= keys.len(),
            keys@ == path_vars(*old(paths)),
            path_vars(*paths) == prune_keys(path_vars(*old(paths)), keys@.take(i as int)),
        decreases keys.len() - i,
    {
        assert(keys@.take(i + 1).drop_last() =~= keys@.take(i as int));
        if covered(paths, &keys[i].0) {
            path_vars_swap_remove(paths, &keys[i].0);
        }
        i = i + 1;
    }
    assert(keys@.take(i as int) =~= keys@);
}

/// Ends sealed blocks one after the other.
pub(super) fn finalize_all(
    sealed_blocks: Vec<SealedBlockBuilder>,
    ctx: &mut LoweringContext,
    target: BlockId,
    semantic_remapping: &SemanticRemapping,
    location: LocationId,
)
    requires
        close_blocks(
            old(ctx).db,
            closed(*old(ctx)),
            sealed_views(sealed_blocks@),
            target,
            semantic_remapping.expr,
            path_vars(semantic_remapping.member_path_value),
            location,
        ).ok,
    ensures
        closed(*final(ctx)) == close_blocks(
            old(ctx).db,
            closed(*old(ctx)),
            sealed_views(sealed_blocks@),
            target,
            semantic_remapping.expr,
            path_vars(semantic_remapping.member_path_value),
            location,
        ),
        same_inputs(*old(ctx), *final(ctx)),
        final(ctx).diagnostics@ == old(ctx).diagnostics@,
{
    let ghost views = sealed_views(sealed_blocks@);
    let ghost before = closed(*ctx);
    let ghost expr = semantic_remapping.expr;
    let ghost paths = path_vars(semantic_remapping.member_path_value);
    let ghost n = views.len();
    for block in it: sealed_blocks
        invariant
            before == closed(*old(ctx)),
            expr == semantic_remapping.expr,
            paths == path_vars(semantic_remapping.member_path_value),
            n == views.len(),
            views == sealed_views(sealed_blocks@),
            it.seq() == sealed_blocks@,
            close_blocks(old(ctx).db, before, views, target, expr, paths, location).ok,
            closed(*ctx) == close_blocks(
                old(ctx).db,
                before,
                views.take(it.index()),
                target,
                expr,
                paths,
                location,
            ),
            same_inputs(*old(ctx), *ctx),
            ctx.diagnostics@ == old(ctx).diagnostics@,
    {
        let ghost i = it.index();
        proof {
            lemma_close_blocks_prefix(
                old(ctx).db,
                before,
                views,
                target,
                expr,
                paths,
                location,
                i + 1,
            );
            assert(views.take(i + 1).drop_last() =~= views.take(i));
            assert(block@ == views[i]);
        }
        block.finalize(ctx, target, semantic_remapping, location);
    }
    assert(views.take(n as int) =~= views);
}

/// What a merged expression is: the variable for it, or the value `()` where no block returns one.
pub open spec fn is_converged(
    expr: LoweredExpr,
    var: Option<VariableId>,
    location: LocationId,
) -> bool {
    match var {
        Some(var_id) => expr == LoweredExpr::AtVariable(VarUsage { var_id, location }),
        None => expr matches LoweredExpr::Tuple { exprs, location: l } && exprs@.len() == 0 && l
            == location,
    }
}

/// `cairo_lang_utils::require`: `Some(())` if and only if the condition holds.
pub assume_specification[ cairo_lang_utils::require ](condition: bool) -> (res: Option<()>)
    ensures
        res == (if condition {
            Some(())
        } else {
            None
        }),
;

impl BlockBuilder {
    /// Plans what the merging of sealed blocks remaps. Returned is also the number of those that
    /// go to the callsite.
    fn plan_merge(
        &self,
        ctx: &mut LoweringContext,
        sealed_blocks: &Vec<SealedBlockBuilder>,
        location: LocationId,
    ) -> (res: (SemanticRemapping, usize))
        requires
            plan_blocks(
                old(ctx).db,
                old(ctx).semantic_defs@,
                self@.semantics,
                old(ctx).variables@,
                sealed_views(sealed_blocks@),
                location,
            ).ok,
        ensures
            plan_of(*final(ctx), res.0) == plan_blocks(
                old(ctx).db,
                old(ctx).semantic_defs@,
                self@.semantics,
                old(ctx).variables@,
                sealed_views(sealed_blocks@),
                location,
            ),
            res.1 != 0 <==> reachable(sealed_views(sealed_blocks@)),
            same_but_variables(*old(ctx), *final(ctx)),
    {
        let ghost views = sealed_views(sealed_blocks@);
        let mut remapping = SemanticRemapping::default();
        let mut n_reachable_blocks: usize = 0;
        let mut i: usize = 0;
        while i < sealed_blocks.len()
            invariant
                i <= sealed_blocks.len(),
                views == sealed_views(sealed_blocks@),
                plan_blocks(
                    old(ctx).db,
                    old(ctx).semantic_defs@,
                    self@.semantics,
                    old(ctx).variables@,
                    views,
                    location,
                ).ok,
                plan_of(*ctx, remapping) == plan_blocks(
                    old(ctx).db,
                    old(ctx).semantic_defs@,
                    self@.semantics,
                    old(ctx).variables@,
                    views.take(i as int),
                    location,
                ),
                n_reachable_blocks <= i,
                n_reachable_blocks != 0 <==> exists|k: int|
                    0 <= k < i && (#[trigger] views[k]) is GotoCallsite,
                same_but_variables(*old(ctx), *ctx),
            decreases sealed_blocks.len() - i,
        {
            proof {
                lemma_plan_blocks_prefix(
                    old(ctx).db,
                    old(ctx).semantic_defs@,
                    self@.semantics,
                    old(ctx).variables@,
                    views,
                    location,
                    i + 1,
                );
                assert(views.take(i + 1).drop_last() =~= views.take(i as int));
                assert(views[i as int] == sealed_blocks@[i as int]@);
            }
            match &sealed_blocks[i] {
                SealedBlockBuilder::GotoCallsite(sealed) => {
                    n_reachable_blocks = n_reachable_blocks + 1;
                    let ghost plan = plan_of(*ctx, remapping);
                    proof {
                        lemma_plan_changes_prefix(
                            old(ctx).db,
                            old(ctx).semantic_defs@,
                            self@.semantics,
                            plan_expr(plan, sealed.expr),
                            sealed.builder@.changed,
                            location,
                            0,
                        );
                    }
                    if let Some(usage) = sealed.expr {
                        if remapping.expr.is_none() {
                            let ty = ctx.variables[usage.var_id.0].ty.clone();
                            let var_location = ctx.variables[usage.var_id.0].location;
                            let var = ctx.new_var(VarRequest { ty, location: var_location });
                            remapping.expr = Some(var);
                        }
                    }
                    assert(plan_of(*ctx, remapping) == plan_expr(plan, sealed.expr));
                    let changes = path_set_elements(&sealed.builder.changed_member_paths);
                    remap_changes(ctx, &self.semantics, &mut remapping, &changes, location);
                },
                SealedBlockBuilder::Ends(_) => {},
            }
            i = i + 1;
        }
        assert(views.take(i as int) =~= views);
        (remapping, n_reachable_blocks)
    }

    /// Merges sibling sealed blocks.
    ///
    /// If some of them go to the callsite, returns their common value, for use in this builder, and
    /// the block that follows. Otherwise returns `None`.
    fn merge_sealed(
        &mut self,
        ctx: &mut LoweringContext,
        sealed_blocks: Vec<SealedBlockBuilder>,
        location: LocationId,
    ) -> (res: Option<(LoweredExpr, BlockId)>)
        requires
            reachable(sealed_views(sealed_blocks@)) ==> merge(
                *old(ctx),
                old(self)@,
                sealed_views(sealed_blocks@),
                location,
            ).ok,
        ensures
            res is Some <==> reachable(sealed_views(sealed_blocks@)),
            match res {
                Some((expr, following)) => {
                    let m = merge(
                        *old(ctx),
                        old(self)@,
                        sealed_views(sealed_blocks@),
                        location,
                    );
                    &&& is_converged(expr, m.expr, location)
                    &&& following == m.following
                    &&& final(ctx).blocks@.len() == old(ctx).blocks@.len() + 1
                    &&& final(self)@.block_id == old(self)@.block_id
                    &&& state(*final(self), *final(ctx)) == m.state
                    &&& final(ctx).blocks@ == m.blocks
                },
                None => {
                    &&& final(self)@ == old(self)@
                    &&& final(ctx).variables@ == old(ctx).variables@
                    &&& final(ctx).blocks@ == old(ctx).blocks@
                },
            },
            same_inputs(*old(ctx), *final(ctx)),
            final(ctx).diagnostics@ == old(ctx).diagnostics@,
    {
        let ghost views = sealed_views(sealed_blocks@);
        let ghost before = *ctx;
        let ghost plan = plan_blocks(
            ctx.db,
            ctx.semantic_defs@,
            self@.semantics,
            ctx.variables@,
            views,
            location,
        );
        let ghost following_id = BlockId(before.blocks@.len() as usize);
        proof {
            if reachable(views) {
                lemma_close_blocks_prefix(
                    before.db,
                    Closed {
                        variables: plan.variables,
                        blocks: before.blocks@.push(None),
                        ok: plan.ok,
                    },
                    views,
                    following_id,
                    plan.expr,
                    pruned(plan.paths),
                    location,
                    0,
                );
            } else {
                lemma_plan_of_ended_blocks(
                    before.db,
                    before.semantic_defs@,
                    self@.semantics,
                    before.variables@,
                    views,
                    location,
                );
            }
        }
        let (mut semantic_remapping, n_reachable_blocks) = self.plan_merge(
            ctx,
            &sealed_blocks,
            location,
        );
        prune(&mut semantic_remapping.member_path_value);
        if cairo_lang_utils::require(n_reachable_blocks != 0).is_none() {
            return None;
        }
        // Some block goes to the callsite: there is a block for the code behind.
        let following_block = ctx.blocks.alloc_empty();
        finalize_all(sealed_blocks, ctx, following_block, &semantic_remapping, location);

        // The builder goes on with the new variables.
        let ghost applied = state(*self, *ctx);
        let ghost blocks = ctx.blocks@;
        let entries = path_vars_entries(&semantic_remapping.member_path_value);
        let mut i: usize = 0;
        while i < entries.len()
            invariant
                i <= entries.len(),
                write_refs(before.db, applied, entries@, location).ok,
                state(*self, *ctx) == write_refs(
                    before.db,
                    applied,
                    entries@.take(i as int),
                    location,
                ).state,
                same_inputs(before, *ctx),
                ctx.blocks@ == blocks,
                self@.block_id == old(self)@.block_id,
                ctx.diagnostics@ == before.diagnostics@,
            decreases entries.len() - i,
        {
            proof {
                lemma_write_refs_prefix(before.db, applied, entries@, location, i + 1);
                assert(entries@.take(i + 1).drop_last() =~= entries@.take(i as int));
            }
            self.update_ref_raw(ctx, entries[i].0.clone(), entries[i].1, location);
            i = i + 1;
        }
        assert(entries@.take(i as int) =~= entries@);
        proof {
            lemma_close_blocks_len(
                before.db,
                Closed {
                    variables: plan.variables,
                    blocks: before.blocks@.push(None),
                    ok: plan.ok,
                },
                views,
                following_id,
                plan.expr,
                pruned(plan.paths),
                location,
            );
        }
        let expr = match semantic_remapping.expr {
            Some(var_id) => LoweredExpr::AtVariable(VarUsage { var_id, location }),
            None => LoweredExpr::Tuple { exprs: Vec::new(), location },
        };
        Some((expr, following_block))
    }

    /// Merges the sealed blocks and ends the block with a match. The builder goes on behind it.
    ///
    /// Where none of the blocks goes on, the match is given back.
    pub fn merge_and_end_with_match(
        &mut self,
        ctx: &mut LoweringContext,
        match_info: MatchInfo,
        sealed_blocks: Vec<SealedBlockBuilder>,
        location: LocationId,
    ) -> (res: LoweringResult<LoweredExpr>)
        requires
            reachable(sealed_views(sealed_blocks@)) ==> {
                &&& merge(*old(ctx), old(self)@, sealed_views(sealed_blocks@), location).ok
                &&& old(self)@.block_id.0 < old(ctx).blocks@.len()
            },
        ensures
            res is Ok <==> reachable(sealed_views(sealed_blocks@)),
            match res {
                Ok(expr) => {
                    let m = merge(
                        *old(ctx),
                        old(self)@,
                        sealed_views(sealed_blocks@),
                        location,
                    );
                    &&& is_converged(expr, m.expr, location)
                    &&& final(self)@ == sibling_builder(m.state.builder, m.following)
                    &&& final(ctx).variables@ == m.state.variables
                    &&& final(ctx).blocks@ == with_block(
                        m.blocks,
                        m.state.builder,
                        BlockEndView::Match { info: match_info },
                    )
                },
                Err(error) => {
                    &&& error == LoweringFlowError::Match(match_info)
                    &&& final(self)@ == old(self)@
                    &&& final(ctx).variables@ == old(ctx).variables@
                    &&& final(ctx).blocks@ == old(ctx).blocks@
                },
            },
            same_inputs(*old(ctx), *final(ctx)),
            final(ctx).diagnostics@ == old(ctx).diagnostics@,
    {
        let ghost views = sealed_views(sealed_blocks@);
        match self.merge_sealed(ctx, sealed_blocks, location) {
            Some((merged_expr, following_block)) => {
                let mut prev_scope = self.sibling_block_builder(following_block);
                std::mem::swap(self, &mut prev_scope);
                prev_scope.finalize(ctx, BlockEnd::Match { info: match_info });
                Ok(merged_expr)
            },
            None => Err(LoweringFlowError::Match(match_info)),
        }
    }
}

} // verus!
