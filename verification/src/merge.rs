//! The merging of blocks, as functions of the state.
use vstd::prelude::*;

use crate::context::{path_ty, LoweringContext, StructTable};
use crate::generators::{constructed, fresh};
use crate::ids::{BlockId, ConcreteStructId, LocationId, VariableId};
use crate::member_path::MemberPath;
use crate::objects::{BlockEndView, BlockView, VarUsage, Variable};
use crate::ordered::{has_key, swap_removed, value_of};
use crate::refs::{Members, Value};
use crate::state::{read_ref, write_ref, BuilderView, Outcome, State};
use crate::types::Type;

verus! {

/// A sealed block builder: what it holds and what it returns to the callsite, or the block that
/// was already ended.
pub enum SealedView {
    GotoCallsite { builder: BuilderView, expr: Option<VarUsage> },
    Ends(BlockId),
}

/// The blocks once that of `builder` was set, with the given end.
pub open spec fn with_block(
    blocks: Seq<Option<BlockView>>,
    builder: BuilderView,
    end: BlockEndView,
) -> Seq<Option<BlockView>> {
    blocks.update(
        builder.block_id.0 as int,
        Some(BlockView { statements: builder.statements, end }),
    )
}

// What is to be remapped.

/// The shortest prefix of a path that the mapping has an entry for.
pub open spec fn topmost(entries: Seq<(MemberPath, Value)>, path: MemberPath) -> Option<MemberPath>
    decreases path,
{
    let above = match path {
        MemberPath::Var(_) => None,
        MemberPath::Member { parent, .. } => topmost(entries, *parent),
    };
    match above {
        Some(top) => Some(top),
        None => if has_key(entries, path) {
            Some(path)
        } else {
            None
        },
    }
}

/// The path of a member.
pub open spec fn member_of(
    path: MemberPath,
    member_id: crate::ids::MemberId,
    concrete_struct_id: ConcreteStructId,
) -> MemberPath {
    MemberPath::Member { parent: Box::new(path), member_id, concrete_struct_id }
}

/// The paths that stand for a value at `path`, last member first: the path itself where it is the
/// one that changed or where the value is in a variable, the paths of its members otherwise.
pub open spec fn leaf_paths(path: MemberPath, value: Value, changed: MemberPath) -> Seq<MemberPath>
    decreases value,
{
    if path == changed {
        seq![path]
    } else {
        match value {
            Value::Var(_) => seq![path],
            Value::Scattered { concrete_struct_id, members } => member_leaf_paths(
                path,
                concrete_struct_id,
                *members,
                changed,
            ),
        }
    }
}

/// The paths that stand for the members of a value at `path`, last member first.
pub open spec fn member_leaf_paths(
    path: MemberPath,
    concrete_struct_id: ConcreteStructId,
    members: Members,
    changed: MemberPath,
) -> Seq<MemberPath>
    decreases members,
{
    match members {
        Members::Nil => Seq::empty(),
        Members::Cons { member_id, value, rest } => member_leaf_paths(
            path,
            concrete_struct_id,
            *rest,
            changed,
        ) + leaf_paths(member_of(path, member_id, concrete_struct_id), *value, changed),
    }
}

/// The paths of the mapping that a change of `changed` affects.
pub open spec fn affected(entries: Seq<(MemberPath, Value)>, changed: MemberPath) -> Seq<
    MemberPath,
> {
    match topmost(entries, changed) {
        Some(top) => leaf_paths(top, value_of(entries, top).unwrap(), changed),
        None => Seq::empty(),
    }
}

/// What is to be remapped, so far.
#[verifier::ext_equal]
pub struct Plan {
    pub variables: Seq<Variable>,
    /// The variable for the values that the blocks return to the callsite.
    pub expr: Option<VariableId>,
    /// The variables for the member paths.
    pub paths: Seq<(MemberPath, VariableId)>,
    /// Whether each path has a type and each returned variable exists.
    pub ok: bool,
}

/// Plans new variables for the given paths.
pub open spec fn plan_paths(
    db: StructTable,
    defs: Map<u64, Type>,
    plan: Plan,
    paths: Seq<MemberPath>,
    location: LocationId,
) -> Plan
    decreases paths.len(),
{
    if paths.len() == 0 {
        plan
    } else {
        let p = plan_paths(db, defs, plan, paths.drop_last(), location);
        let path = paths.last();
        if has_key(p.paths, path) {
            p
        } else {
            Plan {
                variables: p.variables.push(
                    Variable { ty: path_ty(db, defs, path).unwrap(), location },
                ),
                paths: p.paths.push((path, VariableId(p.variables.len() as usize))),
                ok: p.ok && path_ty(db, defs, path) is Some,
                ..p
            }
        }
    }
}

/// Plans new variables for what the given changes affect.
pub open spec fn plan_changes(
    db: StructTable,
    defs: Map<u64, Type>,
    entries: Seq<(MemberPath, Value)>,
    plan: Plan,
    changes: Seq<MemberPath>,
    location: LocationId,
) -> Plan
    decreases changes.len(),
{
    if changes.len() == 0 {
        plan
    } else {
        plan_paths(
            db,
            defs,
            plan_changes(db, defs, entries, plan, changes.drop_last(), location),
            affected(entries, changes.last()),
            location,
        )
    }
}

/// Plans a new variable for a value that is returned to the callsite, unless there is one.
pub open spec fn plan_expr(plan: Plan, expr: Option<VarUsage>) -> Plan {
    match (expr, plan.expr) {
        (Some(usage), None) => Plan {
            variables: plan.variables.push(plan.variables[usage.var_id.0 as int]),
            expr: Some(VariableId(plan.variables.len() as usize)),
            ok: plan.ok && usage.var_id.0 < plan.variables.len(),
            ..plan
        },
        _ => plan,
    }
}

/// Plans what the merging of the given blocks remaps.
pub open spec fn plan_blocks(
    db: StructTable,
    defs: Map<u64, Type>,
    entries: Seq<(MemberPath, Value)>,
    variables: Seq<Variable>,
    sealed: Seq<SealedView>,
    location: LocationId,
) -> Plan
    decreases sealed.len(),
{
    if sealed.len() == 0 {
        Plan { variables, expr: None, paths: Seq::empty(), ok: true }
    } else {
        let plan = plan_blocks(db, defs, entries, variables, sealed.drop_last(), location);
        match sealed.last() {
            SealedView::GotoCallsite { builder, expr } => plan_changes(
                db,
                defs,
                entries,
                plan_expr(plan, expr),
                builder.changed,
                location,
            ),
            SealedView::Ends(_) => plan,
        }
    }
}

/// Whether some prefix of the path, other than itself, is a key.
pub open spec fn has_ancestor_key(paths: Seq<(MemberPath, VariableId)>, path: MemberPath) -> bool
    decreases path,
{
    match path {
        MemberPath::Var(_) => false,
        MemberPath::Member { parent, .. } => has_key(paths, *parent) || has_ancestor_key(
            paths,
            *parent,
        ),
    }
}

/// Takes out those of the given keys that a prefix of theirs covers.
pub open spec fn prune_keys(
    paths: Seq<(MemberPath, VariableId)>,
    keys: Seq<(MemberPath, VariableId)>,
) -> Seq<(MemberPath, VariableId)>
    decreases keys.len(),
{
    if keys.len() == 0 {
        paths
    } else {
        let p = prune_keys(paths, keys.drop_last());
        if has_ancestor_key(p, keys.last().0) {
            swap_removed(p, keys.last().0)
        } else {
            p
        }
    }
}

/// Takes out the paths that a prefix of theirs covers.
pub open spec fn pruned(paths: Seq<(MemberPath, VariableId)>) -> Seq<(MemberPath, VariableId)> {
    prune_keys(paths, paths)
}

// The ends of the merged blocks.

/// Reads the remapped paths in a block that ends, one after the other. Each is what its new
/// variable is remapped to.
pub open spec fn remap_paths(
    db: StructTable,
    state: State,
    paths: Seq<(MemberPath, VariableId)>,
    location: LocationId,
) -> Outcome<Seq<(VariableId, VarUsage)>>
    decreases paths.len(),
{
    if paths.len() == 0 {
        Outcome { state, value: Seq::empty(), ok: true }
    } else {
        let first = remap_paths(db, state, paths.drop_last(), location);
        let (path, var) = paths.last();
        let r = read_ref(db, first.state, path, location);
        Outcome {
            state: r.state,
            value: first.value.push((var, r.value.unwrap())),
            ok: first.ok && r.ok && r.value is Some && !has_key(first.value, var),
        }
    }
}

/// Puts the value `()` into a variable.
pub open spec fn lower_unit(state: State, location: LocationId) -> Outcome<VarUsage> {
    Outcome {
        state: state.emitting(
            constructed(state.emitted(), Seq::empty(), Type::unit(), location),
        ),
        value: VarUsage { var_id: fresh(state.emitted(), 0), location },
        ok: true,
    }
}

/// What the variables of the target block are remapped to in a block that ends: the paths, and
/// the value that is returned to the callsite, which is `()` where the block returns nothing.
pub open spec fn remap(
    db: StructTable,
    state: State,
    returned: Option<VarUsage>,
    expr: Option<VariableId>,
    paths: Seq<(MemberPath, VariableId)>,
    location: LocationId,
) -> Outcome<Seq<(VariableId, VarUsage)>> {
    let p = remap_paths(db, state, paths, location);
    match expr {
        Some(var) => {
            let r = match returned {
                Some(usage) => Outcome { state: p.state, value: usage, ok: true },
                None => lower_unit(p.state, p.state.variables[var.0 as int].location),
            };
            Outcome {
                state: r.state,
                value: p.value.push((var, r.value)),
                ok: p.ok && !has_key(p.value, var) && (returned is None ==> var.0
                    < p.state.variables.len()),
            }
        },
        None => p,
    }
}

/// The variables and the blocks of a function.
#[verifier::ext_equal]
pub struct Closed {
    pub variables: Seq<Variable>,
    pub blocks: Seq<Option<BlockView>>,
    pub ok: bool,
}

/// Ends a sealed block: it goes to `target`, unless it was already ended.
pub open spec fn close_block(
    db: StructTable,
    closed: Closed,
    sealed: SealedView,
    target: BlockId,
    expr: Option<VariableId>,
    paths: Seq<(MemberPath, VariableId)>,
    location: LocationId,
) -> Closed {
    match sealed {
        SealedView::GotoCallsite { builder, expr: returned } => {
            let r = remap(
                db,
                State { builder, variables: closed.variables },
                returned,
                expr,
                paths,
                location,
            );
            Closed {
                variables: r.state.variables,
                blocks: with_block(
                    closed.blocks,
                    r.state.builder,
                    BlockEndView::Goto(target, r.value),
                ),
                ok: closed.ok && r.ok && builder.block_id.0 < closed.blocks.len(),
            }
        },
        SealedView::Ends(_) => closed,
    }
}

/// Ends sealed blocks one after the other.
pub open spec fn close_blocks(
    db: StructTable,
    closed: Closed,
    sealed: Seq<SealedView>,
    target: BlockId,
    expr: Option<VariableId>,
    paths: Seq<(MemberPath, VariableId)>,
    location: LocationId,
) -> Closed
    decreases sealed.len(),
{
    if sealed.len() == 0 {
        closed
    } else {
        close_block(
            db,
            close_blocks(db, closed, sealed.drop_last(), target, expr, paths, location),
            sealed.last(),
            target,
            expr,
            paths,
            location,
        )
    }
}

/// Writes the new variables of the remapped paths, one after the other.
pub open spec fn write_refs(
    db: StructTable,
    state: State,
    paths: Seq<(MemberPath, VariableId)>,
    location: LocationId,
) -> Outcome<()>
    decreases paths.len(),
{
    if paths.len() == 0 {
        Outcome { state, value: (), ok: true }
    } else {
        let first = write_refs(db, state, paths.drop_last(), location);
        let w = write_ref(db, first.state, paths.last().0, paths.last().1, location);
        Outcome { ok: first.ok && w.ok, ..w }
    }
}

/// Whether some of the blocks goes to the callsite.
pub open spec fn reachable(sealed: Seq<SealedView>) -> bool {
    exists|i: int| 0 <= i < sealed.len() && (#[trigger] sealed[i]) is GotoCallsite
}

/// The outcome of merging sealed blocks, some of which go to the callsite.
#[verifier::ext_equal]
pub struct Merged {
    pub state: State,
    pub blocks: Seq<Option<BlockView>>,
    /// The variable for the value that is returned to the callsite.
    pub expr: Option<VariableId>,
    /// The block that follows.
    pub following: BlockId,
    pub ok: bool,
}

/// Merges sealed blocks, some of which go to the callsite: what they changed is remapped, each goes
/// to a new block, and the builder of the callsite goes on with the new variables.
pub open spec fn merge(
    ctx: LoweringContext,
    builder: BuilderView,
    sealed: Seq<SealedView>,
    location: LocationId,
) -> Merged {
    let plan = plan_blocks(
        ctx.db,
        ctx.semantic_defs@,
        builder.semantics,
        ctx.variables@,
        sealed,
        location,
    );
    let paths = pruned(plan.paths);
    let following = BlockId(ctx.blocks@.len() as usize);
    let closed = close_blocks(
        ctx.db,
        Closed { variables: plan.variables, blocks: ctx.blocks@.push(None), ok: plan.ok },
        sealed,
        following,
        plan.expr,
        paths,
        location,
    );
    let applied = write_refs(
        ctx.db,
        State { builder, variables: closed.variables },
        paths,
        location,
    );
    Merged {
        state: applied.state,
        blocks: closed.blocks,
        expr: plan.expr,
        following,
        ok: closed.ok && applied.ok,
    }
}

/// The shortest prefix of a path that the mapping has an entry for is a key of it.
pub(crate) proof fn lemma_topmost_is_key(entries: Seq<(MemberPath, Value)>, path: MemberPath)
    ensures
        topmost(entries, path) matches Some(top) ==> has_key(entries, top),
    decreases path,
{
    if let MemberPath::Member { parent, .. } = path {
        lemma_topmost_is_key(entries, *parent);
    }
}

/// Where the plan for all the paths holds, so does that for the first of them.
pub(crate) proof fn lemma_plan_paths_prefix(
    db: StructTable,
    defs: Map<u64, Type>,
    plan: Plan,
    paths: Seq<MemberPath>,
    location: LocationId,
    n: int,
)
    requires
        0 <= n <= paths.len(),
        plan_paths(db, defs, plan, paths, location).ok,
    ensures
        plan_paths(db, defs, plan, paths.take(n), location).ok,
        plan.ok,
    decreases paths.len(),
{
    if paths.len() > 0 {
        if n < paths.len() {
            lemma_plan_paths_prefix(db, defs, plan, paths.drop_last(), location, n);
            assert(paths.drop_last().take(n) =~= paths.take(n));
        } else {
            lemma_plan_paths_prefix(db, defs, plan, paths.drop_last(), location, n - 1);
            assert(paths.take(n) =~= paths);
        }
    } else {
        assert(paths.take(n) =~= paths);
    }
}

/// Where the plan for all the changes holds, so does that for the first of them.
pub(crate) proof fn lemma_plan_changes_prefix(
    db: StructTable,
    defs: Map<u64, Type>,
    entries: Seq<(MemberPath, Value)>,
    plan: Plan,
    changes: Seq<MemberPath>,
    location: LocationId,
    n: int,
)
    requires
        0 <= n <= changes.len(),
        plan_changes(db, defs, entries, plan, changes, location).ok,
    ensures
        plan_changes(db, defs, entries, plan, changes.take(n), location).ok,
        plan.ok,
    decreases changes.len(),
{
    if changes.len() > 0 {
        lemma_plan_paths_prefix(
            db,
            defs,
            plan_changes(db, defs, entries, plan, changes.drop_last(), location),
            affected(entries, changes.last()),
            location,
            0,
        );
        if n < changes.len() {
            lemma_plan_changes_prefix(db, defs, entries, plan, changes.drop_last(), location, n);
            assert(changes.drop_last().take(n) =~= changes.take(n));
        } else {
            lemma_plan_changes_prefix(
                db,
                defs,
                entries,
                plan,
                changes.drop_last(),
                location,
                n - 1,
            );
            assert(changes.take(n) =~= changes);
        }
    } else {
        assert(changes.take(n) =~= changes);
    }
}

/// Where the plan for all the blocks holds, so does that for the first of them.
pub(crate) proof fn lemma_plan_blocks_prefix(
    db: StructTable,
    defs: Map<u64, Type>,
    entries: Seq<(MemberPath, Value)>,
    variables: Seq<Variable>,
    sealed: Seq<SealedView>,
    location: LocationId,
    n: int,
)
    requires
        0 <= n <= sealed.len(),
        plan_blocks(db, defs, entries, variables, sealed, location).ok,
    ensures
        plan_blocks(db, defs, entries, variables, sealed.take(n), location).ok,
    decreases sealed.len(),
{
    if n < sealed.len() {
        let plan = plan_blocks(db, defs, entries, variables, sealed.drop_last(), location);
        if let SealedView::GotoCallsite { builder, expr } = sealed.last() {
            lemma_plan_changes_prefix(
                db,
                defs,
                entries,
                plan_expr(plan, expr),
                builder.changed,
                location,
                0,
            );
        }
        lemma_plan_blocks_prefix(
            db,
            defs,
            entries,
            variables,
            sealed.drop_last(),
            location,
            n,
        );
        assert(sealed.drop_last().take(n) =~= sealed.take(n));
    } else {
        assert(sealed.take(n) =~= sealed);
    }
}

/// Blocks that are all ended remap nothing.
pub(crate) proof fn lemma_plan_of_ended_blocks(
    db: StructTable,
    defs: Map<u64, Type>,
    entries: Seq<(MemberPath, Value)>,
    variables: Seq<Variable>,
    sealed: Seq<SealedView>,
    location: LocationId,
)
    requires
        !reachable(sealed),
    ensures
        plan_blocks(db, defs, entries, variables, sealed, location) == (Plan {
            variables,
            expr: None,
            paths: Seq::empty(),
            ok: true,
        }),
    decreases sealed.len(),
{
    if sealed.len() > 0 {
        assert(!(sealed[sealed.len() - 1] is GotoCallsite));
        assert forall|i: int| 0 <= i < sealed.drop_last().len() implies !((
        #[trigger] sealed.drop_last()[i]) is GotoCallsite) by {
            assert(sealed[i] == sealed.drop_last()[i]);
        }
        lemma_plan_of_ended_blocks(db, defs, entries, variables, sealed.drop_last(), location);
    }
}

/// Where all the paths can be remapped, the first of them can.
pub(crate) proof fn lemma_remap_paths_prefix(
    db: StructTable,
    state: State,
    paths: Seq<(MemberPath, VariableId)>,
    location: LocationId,
    n: int,
)
    requires
        0 <= n <= paths.len(),
        remap_paths(db, state, paths, location).ok,
    ensures
        remap_paths(db, state, paths.take(n), location).ok,
    decreases paths.len(),
{
    if n < paths.len() {
        lemma_remap_paths_prefix(db, state, paths.drop_last(), location, n);
        assert(paths.drop_last().take(n) =~= paths.take(n));
    } else {
        assert(paths.take(n) =~= paths);
    }
}

/// Reading remapped paths leaves the builder at its block.
pub(crate) proof fn lemma_remap_paths_block(
    db: StructTable,
    before: State,
    paths: Seq<(MemberPath, VariableId)>,
    location: LocationId,
)
    ensures
        remap_paths(db, before, paths, location).state.builder.block_id == before.builder.block_id,
    decreases paths.len(),
{
    if paths.len() > 0 {
        lemma_remap_paths_block(db, before, paths.drop_last(), location);
    }
}

/// Where all the blocks can be closed, the first of them can.
pub(crate) proof fn lemma_close_blocks_prefix(
    db: StructTable,
    before: Closed,
    sealed: Seq<SealedView>,
    target: BlockId,
    expr: Option<VariableId>,
    paths: Seq<(MemberPath, VariableId)>,
    location: LocationId,
    n: int,
)
    requires
        0 <= n <= sealed.len(),
        close_blocks(db, before, sealed, target, expr, paths, location).ok,
    ensures
        close_blocks(db, before, sealed.take(n), target, expr, paths, location).ok,
        before.ok,
    decreases sealed.len(),
{
    if sealed.len() > 0 {
        if n < sealed.len() {
            lemma_close_blocks_prefix(
                db,
                before,
                sealed.drop_last(),
                target,
                expr,
                paths,
                location,
                n,
            );
            assert(sealed.drop_last().take(n) =~= sealed.take(n));
        } else {
            lemma_close_blocks_prefix(
                db,
                before,
                sealed.drop_last(),
                target,
                expr,
                paths,
                location,
                n - 1,
            );
            assert(sealed.take(n) =~= sealed);
        }
    } else {
        assert(sealed.take(n) =~= sealed);
    }
}

/// Closing blocks neither adds nor removes any.
pub(crate) proof fn lemma_close_blocks_len(
    db: StructTable,
    before: Closed,
    sealed: Seq<SealedView>,
    target: BlockId,
    expr: Option<VariableId>,
    paths: Seq<(MemberPath, VariableId)>,
    location: LocationId,
)
    requires
        close_blocks(db, before, sealed, target, expr, paths, location).ok,
    ensures
        close_blocks(db, before, sealed, target, expr, paths, location).blocks.len()
            == before.blocks.len(),
    decreases sealed.len(),
{
    if sealed.len() > 0 {
        let first = close_blocks(db, before, sealed.drop_last(), target, expr, paths, location);
        lemma_close_blocks_len(db, before, sealed.drop_last(), target, expr, paths, location);
        if let SealedView::GotoCallsite { builder, .. } = sealed.last() {
            lemma_remap_paths_block(
                db,
                State { builder, variables: first.variables },
                paths,
                location,
            );
        }
    }
}

/// Where all the paths can be written, the first of them can.
pub(crate) proof fn lemma_write_refs_prefix(
    db: StructTable,
    before: State,
    paths: Seq<(MemberPath, VariableId)>,
    location: LocationId,
    n: int,
)
    requires
        0 <= n <= paths.len(),
        write_refs(db, before, paths, location).ok,
    ensures
        write_refs(db, before, paths.take(n), location).ok,
    decreases paths.len(),
{
    if n < paths.len() {
        lemma_write_refs_prefix(db, before, paths.drop_last(), location, n);
        assert(paths.drop_last().take(n) =~= paths.take(n));
    } else {
        assert(paths.take(n) =~= paths);
    }
}

} // verus!
