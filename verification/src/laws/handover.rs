//! Laws of what blocks hand over to the block that follows, and of the variables that are made for
//! it.
use vstd::prelude::*;

use crate::context::{path_ty, LoweringContext, StructTable};
use crate::ids::{BlockId, ConcreteStructId, LocationId, VariableId};
use crate::joining::{
    all_same, heads, in_all, join, join_entries, join_members, join_values, mappings_of,
    member_lists, renewed, rests, same_members, scattered_alike, sealed_without_value, values_at,
};
use crate::laws::emission::{entries_in_scope, law_reads_and_writes_extend};
use crate::laws::joining::{
    builder_hands_over, join_start, law_join_blocks, law_join_contents,
    law_join_keeps_common_variables, lemma_join_entries_paths, lemma_renewed_distinct,
    renewed_paths,
};
use crate::laws::mapping::root;
use crate::laws::meaning::{contents_at, distinct_members, ids_of, Shape, Valuation};
use crate::laws::merging::{
    block_hands_over, law_merge_blocks, law_remap_goes_on, lemma_close_blocks_variables,
    lemma_merge_variables, remapped_paths, rooted, well_shaped,
};
use crate::laws::outcomes::{
    block_of, block_starts, follows, law_merge_ends_blocks, lemma_hands_over,
    lemma_write_refs_extend, merge_possible, plan_of_merge, remapping_of,
};
use crate::laws::planning::{is_change_of, law_plan};
use crate::laws::pruning::law_pruned;
use crate::laws::typing::{
    entries_typed, has_type, law_get_typed, law_update_typed, lemma_constructed_typed,
    lemma_entries_typed_of_more, lemma_snaps_typed_of_more, lemma_statement_typed_of_more,
    lemma_value_typed_of_more, members_typed, path_typed, state_typed, statement_typed, value_typed,
};
use crate::member_path::MemberPath;
use crate::merge::{
    affected, close_blocks, leaf_paths, lemma_close_blocks_prefix, lemma_topmost_is_key,
    member_leaf_paths, member_of, merge, remap, remap_paths, topmost, write_refs, Closed,
    SealedView,
};
use crate::objects::{BlockEndView, VarUsage, Variable};
use crate::ordered::{
    has_key, lemma_position, lemma_position_is, lemma_swap_removed, position, unique_keys, value_of,
};
use crate::refs::{Members, Value};
use crate::state::{usage_types, BuilderView, State};
use crate::types::Type;

verus! {

/// Paths that are remapped are read at the location of the merge, one after the other.
proof fn lemma_remapped_locations(
    db: StructTable,
    before: State,
    paths: Seq<(MemberPath, VariableId)>,
    location: LocationId,
)
    requires
        remap_paths(db, before, paths, location).ok,
    ensures
        ({
            let r = remap_paths(db, before, paths, location).value;
            &&& r.len() == paths.len()
            &&& forall|k: int|
                0 <= k < paths.len() ==> (#[trigger] r[k]).0 == paths[k].1 && r[k].1.location
                    == location
            &&& unique_keys(r)
        }),
    decreases paths.len(),
{
    if paths.len() > 0 {
        lemma_remapped_locations(db, before, paths.drop_last(), location);
        let first = remap_paths(db, before, paths.drop_last(), location).value;
        let r = remap_paths(db, before, paths, location).value;
        assert forall|k: int| 0 <= k < paths.len() implies (#[trigger] r[k]).0 == paths[k].1
            && r[k].1.location == location by {
            if k < paths.len() - 1 {
                assert(r[k] == first[k]);
                assert(paths.drop_last()[k] == paths[k]);
            }
        }
        let last = paths.last().1;
        lemma_position(first, last);
        assert forall|j: int, k: int| 0 <= j < k < r.len() implies (#[trigger] r[j]).0 != (
        #[trigger] r[k]).0 by {
            assert(r[j] == first[j]);
            if k < first.len() {
                assert(r[k] == first[k]);
            } else if r[j].0 == r[k].0 {
                assert(first[j].0 == last);
            }
        }
    }
}

/// What is read for paths of known types has those types, and the block stays well-typed.
proof fn lemma_remap_paths_typed(
    db: StructTable,
    defs: Map<u64, Type>,
    before: State,
    paths: Seq<(MemberPath, VariableId)>,
    location: LocationId,
)
    requires
        distinct_members(db),
        state_typed(db, defs, before),
        forall|k: int| 0 <= k < paths.len() ==> path_typed(db, defs, (#[trigger] paths[k]).0),
        remap_paths(db, before, paths, location).ok,
        remap_paths(db, before, paths, location).state.variables.len() <= usize::MAX,
    ensures
        ({
            let r = remap_paths(db, before, paths, location);
            &&& state_typed(db, defs, r.state)
            &&& r.value.len() == paths.len()
            &&& forall|k: int|
                0 <= k < paths.len() ==> has_type(
                    r.state.variables,
                    (#[trigger] r.value[k]).1.var_id,
                    path_ty(db, defs, paths[k].0).unwrap(),
                )
            &&& before.variables.is_prefix_of(r.state.variables)
        }),
    decreases paths.len(),
{
    let n = before.variables.len() as int;
    assert(before.variables =~= before.variables.subrange(0, n));
    if paths.len() > 0 {
        let rest = paths.drop_last();
        let first = remap_paths(db, before, rest, location);
        let r = remap_paths(db, before, paths, location);
        let path = paths.last().0;
        assert forall|k: int| 0 <= k < rest.len() implies path_typed(
            db,
            defs,
            (#[trigger] rest[k]).0,
        ) by {
            assert(rest[k] == paths[k]);
        }
        assert(path_typed(db, defs, paths[paths.len() - 1].0));
        law_reads_and_writes_extend(
            db,
            first.state.builder.semantics,
            first.state.emitted(),
            path,
            VariableId(0),
            location,
        );
        assert(first.state.variables.len() <= r.state.variables.len());
        lemma_remap_paths_typed(db, defs, before, rest, location);
        law_get_typed(db, defs, first.state, path, location);
        assert forall|k: int| 0 <= k < paths.len() implies has_type(
            r.state.variables,
            (#[trigger] r.value[k]).1.var_id,
            path_ty(db, defs, paths[k].0).unwrap(),
        ) by {
            if k < rest.len() {
                assert(r.value[k] == first.value[k]);
                assert(rest[k] == paths[k]);
                let var = first.value[k].1.var_id;
                assert(r.state.variables[var.0 as int] == first.state.variables[var.0 as int]);
            }
        }
    }
}

/// A well-typed block stays so when there are more variables.
proof fn lemma_state_typed_of_more(
    db: StructTable,
    defs: Map<u64, Type>,
    before: State,
    more: Seq<Variable>,
)
    requires
        state_typed(db, defs, before),
        before.variables.is_prefix_of(more),
    ensures
        state_typed(db, defs, State { variables: more, ..before }),
{
    let after = State { variables: more, ..before };
    lemma_entries_typed_of_more(db, defs, before.variables, more, before.builder.semantics);
    lemma_snaps_typed_of_more(db, defs, before.variables, more, before.builder.snapped);
    assert forall|i: int| 0 <= i < after.emitted().statements.len() implies statement_typed(
        db,
        more,
        #[trigger] after.emitted().statements[i],
    ) by {
        assert(statement_typed(db, before.variables, before.emitted().statements[i]));
        lemma_statement_typed_of_more(db, before.variables, more, before.builder.statements[i]);
    }
}

// Joins.

/// Each variable that a join makes for a path has the type of the path and the location of the
/// join: the variables of the function come first, as they were, then one for each of the paths, in
/// the order of the paths.
pub proof fn law_join_types(
    ctx: LoweringContext,
    builders: Seq<BuilderView>,
    location: LocationId,
    n: int,
)
    requires
        builders.len() != 1,
        join(ctx, builders, location).ok,
        0 <= n < renewed_paths(ctx, builders).len(),
    ensures
        ({
            let variables = join(ctx, builders, location).variables;
            let var = ctx.variables@.len() + n;
            &&& ctx.variables@.is_prefix_of(variables)
            &&& var < variables.len()
            &&& Some(variables[var].ty) == path_ty(
                ctx.db,
                ctx.semantic_defs@,
                renewed_paths(ctx, builders)[n],
            )
            &&& variables[var].location == location
        }),
{
    let paths = renewed_paths(ctx, builders);
    let start = join_start(ctx, builders, location);
    let sealed = sealed_without_value(builders);
    let target = BlockId(ctx.blocks@.len() as usize);
    let pairs = renewed(Seq::empty(), paths, ctx.variables@.len());
    let variables = join(ctx, builders, location).variables;
    let var = ctx.variables@.len() + n;
    lemma_close_blocks_variables(ctx.db, start, sealed, target, None, pairs, location);
    lemma_close_blocks_prefix(ctx.db, start, sealed, target, None, pairs, location, 0);
    assert(sealed.take(0).len() == 0);
    assert(start.ok);
    assert(variables[var] == start.variables[var]);
    assert(path_ty(ctx.db, ctx.semantic_defs@, paths[n]) is Some);
    assert(ctx.variables@ =~= variables.subrange(0, ctx.variables@.len() as int));
}

/// Whether builders can be joined: there are several, with blocks of their own that exist, whose
/// values are of the structs that their paths are of, and there are no more variables and blocks
/// than there are numbers for.
pub open spec fn join_possible(
    ctx: LoweringContext,
    shape: Shape,
    builders: Seq<BuilderView>,
    location: LocationId,
) -> bool {
    &&& builders.len() > 1
    &&& join(ctx, builders, location).ok
    &&& join(ctx, builders, location).variables.len() <= usize::MAX
    &&& ctx.blocks@.len() <= usize::MAX
    &&& unique_keys(builders[0].semantics)
    &&& forall|i: int, j: int|
        0 <= i < j < builders.len() ==> (#[trigger] builders[i]).block_id != (
        #[trigger] builders[j]).block_id
    &&& forall|j: int|
        0 <= j < builders.len() ==> {
            &&& well_shaped(ctx.db, shape, (#[trigger] builders[j]).semantics)
            &&& builders[j].block_id.0 < ctx.blocks@.len()
        }
}

/// The paths that get new variables are different, and each of them fits.
proof fn lemma_join_pairs(
    ctx: LoweringContext,
    shape: Shape,
    builders: Seq<BuilderView>,
    location: LocationId,
)
    requires
        join_possible(ctx, shape, builders, location),
    ensures
        ({
            let paths = renewed_paths(ctx, builders);
            let next = ctx.variables@.len();
            &&& paths.no_duplicates()
            &&& renewed(Seq::empty(), paths, next) == Seq::new(
                paths.len(),
                |k: int| (paths[k], VariableId((next + k) as usize)),
            )
            &&& next + paths.len() <= usize::MAX
        }),
{
    let mappings = mappings_of(builders);
    let next = ctx.variables@.len();
    let paths = renewed_paths(ctx, builders);
    let start = join_start(ctx, builders, location);
    let sealed = sealed_without_value(builders);
    let target = BlockId(ctx.blocks@.len() as usize);
    let pairs = renewed(Seq::empty(), paths, next);
    assert forall|j: int| 0 <= j < mappings.len() implies well_shaped(
        ctx.db,
        shape,
        #[trigger] mappings[j],
    ) by {
        assert(well_shaped(ctx.db, shape, builders[j].semantics));
    }
    assert(mappings[0] == builders[0].semantics);
    assert(well_shaped(ctx.db, shape, builders[0].semantics));
    lemma_join_entries_paths(ctx.db, shape, mappings, mappings[0], next);
    lemma_renewed_distinct(paths, next);
    lemma_close_blocks_variables(ctx.db, start, sealed, target, None, pairs, location);
}

/// What a builder starts with when it ends in a join.
pub open spec fn builder_starts(
    ctx: LoweringContext,
    builders: Seq<BuilderView>,
    location: LocationId,
    i: int,
) -> State {
    State {
        builder: builders[i],
        variables: close_blocks(
            ctx.db,
            join_start(ctx, builders, location),
            sealed_without_value(builders).take(i),
            BlockId(ctx.blocks@.len() as usize),
            None,
            renewed(Seq::empty(), renewed_paths(ctx, builders), ctx.variables@.len()),
            location,
        ).variables,
    }
}

/// What a builder hands over is what it reads for the paths.
proof fn lemma_builder_hands_over(
    ctx: LoweringContext,
    builders: Seq<BuilderView>,
    location: LocationId,
    i: int,
)
    requires
        builders.len() > 1,
        join(ctx, builders, location).ok,
        0 <= i < builders.len(),
    ensures
        ({
            let pairs = renewed(
                Seq::empty(),
                renewed_paths(ctx, builders),
                ctx.variables@.len(),
            );
            let before = builder_starts(ctx, builders, location, i);
            let r = remap_paths(ctx.db, before, pairs, location);
            &&& builder_hands_over(ctx, builders, location, i) == r
            &&& r.ok
            &&& join_start(ctx, builders, location).variables.is_prefix_of(before.variables)
            &&& before.variables.is_prefix_of(r.state.variables)
            &&& r.state.variables.is_prefix_of(join(ctx, builders, location).variables)
        }),
{
    let pairs = renewed(Seq::empty(), renewed_paths(ctx, builders), ctx.variables@.len());
    let start = join_start(ctx, builders, location);
    let sealed = sealed_without_value(builders);
    let target = BlockId(ctx.blocks@.len() as usize);
    let before = builder_starts(ctx, builders, location, i);
    lemma_close_blocks_prefix(ctx.db, start, sealed, target, None, pairs, location, i + 1);
    assert(sealed.take(i + 1).drop_last() =~= sealed.take(i));
    assert(sealed.take(i + 1).last() == sealed[i]);
    lemma_close_blocks_variables(ctx.db, start, sealed.take(i), target, None, pairs, location);
    law_remap_goes_on(ctx.db, before, None, None, pairs, location);
    lemma_close_blocks_grow(ctx.db, start, sealed, target, None, pairs, location, i + 1);
}

/// Blocks that end later only add variables.
proof fn lemma_close_blocks_grow(
    db: StructTable,
    start: Closed,
    sealed: Seq<SealedView>,
    target: BlockId,
    expr: Option<VariableId>,
    paths: Seq<(MemberPath, VariableId)>,
    location: LocationId,
    n: int,
)
    requires
        0 <= n <= sealed.len(),
    ensures
        close_blocks(db, start, sealed.take(n), target, expr, paths, location).variables.is_prefix_of(
            close_blocks(db, start, sealed, target, expr, paths, location).variables,
        ),
    decreases sealed.len(),
{
    let after = close_blocks(db, start, sealed, target, expr, paths, location);
    let part = close_blocks(db, start, sealed.take(n), target, expr, paths, location);
    if n < sealed.len() {
        let rest = sealed.drop_last();
        lemma_close_blocks_grow(db, start, rest, target, expr, paths, location, n);
        assert(rest.take(n) =~= sealed.take(n));
        let first = close_blocks(db, start, rest, target, expr, paths, location);
        if let SealedView::GotoCallsite { builder, expr: returned } = sealed.last() {
            law_remap_goes_on(
                db,
                State { builder, variables: first.variables },
                returned,
                expr,
                paths,
                location,
            );
        }
    } else {
        assert(sealed.take(n) =~= sealed);
    }
    assert(part.variables =~= after.variables.subrange(0, part.variables.len() as int));
}

/// The block of every joined builder ends, after all that it had emitted, by going to the new block.
/// It remaps exactly the new variables of the paths, each once, in their order, at the location of
/// the join.
pub proof fn law_join_hands_over(
    ctx: LoweringContext,
    shape: Shape,
    builders: Seq<BuilderView>,
    location: LocationId,
    i: int,
)
    requires
        join_possible(ctx, shape, builders, location),
        0 <= i < builders.len(),
    ensures
        ({
            let j = join(ctx, builders, location);
            let paths = renewed_paths(ctx, builders);
            let block = block_of(j.blocks, builders[i]);
            &&& j.blocks[builders[i].block_id.0 as int] is Some
            &&& block.end == BlockEndView::Goto(j.builder.block_id, remapping_of(block))
            &&& j.builder.block_id.0 == ctx.blocks@.len()
            &&& builders[i].statements.is_prefix_of(block.statements)
            &&& remapping_of(block).len() == paths.len()
            &&& forall|k: int|
                0 <= k < paths.len() ==> (#[trigger] remapping_of(block)[k]).0.0
                    == ctx.variables@.len() + k && remapping_of(block)[k].1.location == location
        }),
{
    let paths = renewed_paths(ctx, builders);
    let next = ctx.variables@.len();
    let pairs = renewed(Seq::empty(), paths, next);
    let before = builder_starts(ctx, builders, location, i);
    let r = remap_paths(ctx.db, before, pairs, location);
    let block = block_of(join(ctx, builders, location).blocks, builders[i]);
    lemma_join_pairs(ctx, shape, builders, location);
    lemma_builder_hands_over(ctx, builders, location, i);
    law_join_blocks(ctx, builders, location);
    law_remap_goes_on(ctx.db, before, None, None, pairs, location);
    lemma_remapped_locations(ctx.db, before, pairs, location);
    assert(remapping_of(block) == r.value);
    assert forall|k: int| 0 <= k < paths.len() implies (#[trigger] remapping_of(block)[k]).0.0
        == next + k && remapping_of(block)[k].1.location == location by {
        assert(r.value[k].0 == pairs[k].1);
    }
}

/// What follows a join sees what the block that ran left: every path of a variable that all the
/// blocks have has the contents that it had at the end of that block.
pub proof fn law_join_seen(
    ctx: LoweringContext,
    shape: Shape,
    builders: Seq<BuilderView>,
    location: LocationId,
    i: int,
    block_env: Valuation,
    env: Valuation,
    q: MemberPath,
)
    requires
        join_possible(ctx, shape, builders, location),
        0 <= i < builders.len(),
        entries_in_scope(builders[i].semantics, ctx.variables@.len()),
        follows(
            block_of(join(ctx, builders, location).blocks, builders[i]),
            ctx.variables@.len(),
            block_env,
            env,
        ),
        forall|j: int|
            0 <= j < builders.len() ==> has_key(
                (#[trigger] builders[j]).semantics,
                MemberPath::Var(root(q)),
            ),
    ensures
        has_key(join(ctx, builders, location).builder.semantics, MemberPath::Var(root(q))),
        contents_at(ctx.db, join(ctx, builders, location).builder.semantics, env, q)
            == contents_at(ctx.db, builders[i].semantics, block_env, q),
{
    let key = MemberPath::Var(root(q));
    let mappings = mappings_of(builders);
    assert forall|j: int| 0 <= j < mappings.len() implies has_key(#[trigger] mappings[j], key) by {
        assert(has_key(builders[j].semantics, key));
    }
    law_join_blocks(ctx, builders, location);
    assert(block_of(join(ctx, builders, location).blocks, builders[i]).end
        == BlockEndView::Goto(
        join(ctx, builders, location).builder.block_id,
        builder_hands_over(ctx, builders, location, i).value,
    ));
    let block = block_of(join(ctx, builders, location).blocks, builders[i]);
    let r = builder_hands_over(ctx, builders, location, i).value;
    assert forall|j: int| 0 <= j < r.len() implies env((#[trigger] r[j]).0) == block_env(
        r[j].1.var_id,
    ) by {
        assert(remapping_of(block)[j] == r[j]);
    }
    law_join_contents(ctx, shape, builders, location, i, block_env, env, q);
    law_join_keeps_common_variables(mappings, ctx.variables@.len(), key);
}

/// A join keeps types: where the blocks of the builders are well-typed, the builder that goes on has
/// each variable and member in variables of its type. The paths that get new variables are of the
/// structs that their parents are of.
pub proof fn law_join_mapping_typed(
    ctx: LoweringContext,
    shape: Shape,
    builders: Seq<BuilderView>,
    location: LocationId,
)
    requires
        join_possible(ctx, shape, builders, location),
        forall|j: int|
            0 <= j < builders.len() ==> state_typed(
                ctx.db,
                ctx.semantic_defs@,
                State { builder: #[trigger] builders[j], variables: ctx.variables@ },
            ),
    ensures
        ({
            let j = join(ctx, builders, location);
            let paths = renewed_paths(ctx, builders);
            &&& state_typed(
                ctx.db,
                ctx.semantic_defs@,
                State { builder: j.builder, variables: j.variables },
            )
            &&& forall|k: int|
                0 <= k < paths.len() ==> path_typed(
                    ctx.db,
                    ctx.semantic_defs@,
                    #[trigger] paths[k],
                )
        }),
{
    let defs = ctx.semantic_defs@;
    let j = join(ctx, builders, location);
    let paths = renewed_paths(ctx, builders);
    let next = ctx.variables@.len();
    lemma_join_pairs(ctx, shape, builders, location);
    let mappings = mappings_of(builders);
    assert(mappings[0] == builders[0].semantics);
    assert(well_shaped(ctx.db, shape, builders[0].semantics));
    assert(ctx.variables@.is_prefix_of(j.variables) && next + paths.len() <= j.variables.len()) by {
        lemma_builder_hands_over(ctx, builders, location, 0);
        let start = join_start(ctx, builders, location).variables;
        assert(ctx.variables@ =~= start.subrange(0, next as int));
    }
    assert(j.variables.take(next as int) =~= ctx.variables@);
    assert forall|m: int| 0 <= m < mappings.len() implies entries_typed(
        ctx.db,
        defs,
        j.variables.take(next as int),
        #[trigger] mappings[m],
    ) by {
        assert(state_typed(
            ctx.db,
            defs,
            State { builder: builders[m], variables: ctx.variables@ },
        ));
    }
    assert forall|k: int| 0 <= k < paths.len() implies Some(j.variables[next + k].ty) == path_ty(
        ctx.db,
        defs,
        #[trigger] paths[k],
    ) by {
        law_join_types(ctx, builders, location, k);
    }
    lemma_join_entries_typed(ctx.db, defs, mappings, mappings[0], next, j.variables);
    assert(j.builder.statements.len() == 0);
    assert(j.builder.snapped.len() == 0);
}

/// The block of a joined builder stays well-typed, and remaps each new variable to one of the same
/// type.
pub proof fn law_join_blocks_typed(
    ctx: LoweringContext,
    shape: Shape,
    builders: Seq<BuilderView>,
    location: LocationId,
    i: int,
)
    requires
        join_possible(ctx, shape, builders, location),
        forall|j: int|
            0 <= j < builders.len() ==> state_typed(
                ctx.db,
                ctx.semantic_defs@,
                State { builder: #[trigger] builders[j], variables: ctx.variables@ },
            ),
        0 <= i < builders.len(),
    ensures
        ({
            let j = join(ctx, builders, location);
            let block = block_of(j.blocks, builders[i]);
            &&& forall|k: int|
                0 <= k < remapping_of(block).len() ==> has_type(
                    j.variables,
                    (#[trigger] remapping_of(block)[k]).1.var_id,
                    j.variables[remapping_of(block)[k].0.0 as int].ty,
                )
            &&& forall|k: int|
                0 <= k < block.statements.len() ==> statement_typed(
                    ctx.db,
                    j.variables,
                    #[trigger] block.statements[k],
                )
        }),
{
    let defs = ctx.semantic_defs@;
    let j = join(ctx, builders, location);
    let paths = renewed_paths(ctx, builders);
    let next = ctx.variables@.len();
    let r = builder_hands_over(ctx, builders, location, i);
    let block = block_of(j.blocks, builders[i]);
    lemma_builder_typed(ctx, shape, builders, location, i);
    law_join_hands_over(ctx, shape, builders, location, i);
    assert(remapping_of(block) == r.value && block.statements == r.state.builder.statements) by {
        law_join_blocks(ctx, builders, location);
    }
    assert forall|k: int| 0 <= k < remapping_of(block).len() implies has_type(
        j.variables,
        (#[trigger] remapping_of(block)[k]).1.var_id,
        j.variables[remapping_of(block)[k].0.0 as int].ty,
    ) by {
        law_join_types(ctx, builders, location, k);
        assert(has_type(
            j.variables,
            r.value[k].1.var_id,
            path_ty(ctx.db, defs, paths[k]).unwrap(),
        ));
    }
    let end = State { variables: j.variables, ..r.state };
    assert forall|k: int| 0 <= k < block.statements.len() implies statement_typed(
        ctx.db,
        j.variables,
        #[trigger] block.statements[k],
    ) by {
        assert(end.emitted().statements[k] == block.statements[k]);
    }
}

/// What a builder hands over in a join has the types of the paths.
proof fn lemma_builder_typed(
    ctx: LoweringContext,
    shape: Shape,
    builders: Seq<BuilderView>,
    location: LocationId,
    i: int,
)
    requires
        join_possible(ctx, shape, builders, location),
        forall|j: int|
            0 <= j < builders.len() ==> state_typed(
                ctx.db,
                ctx.semantic_defs@,
                State { builder: #[trigger] builders[j], variables: ctx.variables@ },
            ),
        0 <= i < builders.len(),
    ensures
        ({
            let j = join(ctx, builders, location);
            let paths = renewed_paths(ctx, builders);
            let r = builder_hands_over(ctx, builders, location, i);
            &&& r.value.len() == paths.len()
            &&& forall|k: int|
                0 <= k < paths.len() ==> has_type(
                    j.variables,
                    (#[trigger] r.value[k]).1.var_id,
                    path_ty(ctx.db, ctx.semantic_defs@, paths[k]).unwrap(),
                )
            &&& state_typed(
                ctx.db,
                ctx.semantic_defs@,
                State { variables: j.variables, ..r.state },
            )
        }),
{
    let defs = ctx.semantic_defs@;
    let j = join(ctx, builders, location);
    let paths = renewed_paths(ctx, builders);
    let next = ctx.variables@.len();
    let pairs = renewed(Seq::empty(), paths, next);
    let before = builder_starts(ctx, builders, location, i);
    let r = remap_paths(ctx.db, before, pairs, location);
    lemma_join_pairs(ctx, shape, builders, location);
    lemma_builder_hands_over(ctx, builders, location, i);
    law_join_mapping_typed(ctx, shape, builders, location);
    assert(distinct_members(ctx.db)) by {
        assert(well_shaped(ctx.db, shape, builders[0].semantics));
    }
    assert forall|k: int| 0 <= k < pairs.len() implies path_typed(
        ctx.db,
        defs,
        (#[trigger] pairs[k]).0,
    ) by {
        assert(pairs[k].0 == paths[k]);
    }
    let built = State { builder: builders[i], variables: ctx.variables@ };
    assert(state_typed(ctx.db, defs, built));
    let start = join_start(ctx, builders, location).variables;
    assert(ctx.variables@ =~= start.subrange(0, next as int));
    assert(ctx.variables@ =~= before.variables.subrange(0, next as int));
    lemma_state_typed_of_more(ctx.db, defs, built, before.variables);
    lemma_remap_paths_typed(ctx.db, defs, before, pairs, location);
    lemma_state_typed_of_more(ctx.db, defs, r.state, j.variables);
    assert forall|k: int| 0 <= k < paths.len() implies has_type(
        j.variables,
        (#[trigger] r.value[k]).1.var_id,
        path_ty(ctx.db, defs, paths[k]).unwrap(),
    ) by {
        assert(pairs[k].0 == paths[k]);
        let var = r.value[k].1.var_id;
        assert(j.variables[var.0 as int] == r.state.variables[var.0 as int]);
    }
}

/// A joined value is in variables of the type of its path, and the paths that get new variables are
/// of the structs that their parents are of.
proof fn lemma_join_values_typed(
    db: StructTable,
    defs: Map<u64, Type>,
    old_variables: Seq<Variable>,
    variables: Seq<Variable>,
    values: Seq<Value>,
    path: MemberPath,
    next: nat,
)
    requires
        values.len() > 0,
        path_typed(db, defs, path),
        forall|i: int|
            0 <= i < values.len() ==> value_typed(
                db,
                defs,
                old_variables,
                path,
                #[trigger] values[i],
            ),
        old_variables.is_prefix_of(variables),
        ({
            let paths = join_values(values, path, next).1;
            &&& next + paths.len() <= variables.len()
            &&& variables.len() <= usize::MAX
            &&& forall|k: int|
                0 <= k < paths.len() ==> Some(variables[next + k].ty) == path_ty(
                    db,
                    defs,
                    #[trigger] paths[k],
                )
        }),
    ensures
        ({
            let (value, paths) = join_values(values, path, next);
            &&& value_typed(db, defs, variables, path, value)
            &&& forall|k: int|
                0 <= k < paths.len() ==> path_typed(db, defs, #[trigger] paths[k])
        }),
    decreases values[0],
{
    let (value, paths) = join_values(values, path, next);
    assert(value_typed(db, defs, old_variables, path, values[0]));
    if all_same(values) {
        lemma_value_typed_of_more(db, defs, old_variables, variables, path, values[0]);
    } else if scattered_alike(values) {
        let lists = member_lists(values);
        let id = values[0]->concrete_struct_id;
        assert(values[0] is Scattered);
        assert(lists[0] == *values[0]->members);
        assert forall|i: int| 0 <= i < lists.len() implies members_typed(
            db,
            defs,
            old_variables,
            path,
            id,
            #[trigger] lists[i],
        ) && same_members(lists[0], lists[i]) by {
            assert(value_typed(db, defs, old_variables, path, values[i]));
            assert(values[i] is Scattered);
        }
        lemma_join_members_typed(db, defs, old_variables, variables, lists, id, path, next);
        lemma_join_members_ids(lists, id, path, next);
    } else {
        assert(paths =~= seq![path]);
        assert(paths[0] == path);
    }
}

proof fn lemma_join_members_typed(
    db: StructTable,
    defs: Map<u64, Type>,
    old_variables: Seq<Variable>,
    variables: Seq<Variable>,
    lists: Seq<Members>,
    id: ConcreteStructId,
    path: MemberPath,
    next: nat,
)
    requires
        lists.len() > 0,
        path_typed(db, defs, path),
        path_ty(db, defs, path) == Some(Type::Struct(id)),
        forall|i: int|
            0 <= i < lists.len() ==> members_typed(
                db,
                defs,
                old_variables,
                path,
                id,
                #[trigger] lists[i],
            ) && same_members(lists[0], lists[i]),
        old_variables.is_prefix_of(variables),
        ({
            let paths = join_members(lists, id, path, next).1;
            &&& next + paths.len() <= variables.len()
            &&& variables.len() <= usize::MAX
            &&& forall|k: int|
                0 <= k < paths.len() ==> Some(variables[next + k].ty) == path_ty(
                    db,
                    defs,
                    #[trigger] paths[k],
                )
        }),
    ensures
        ({
            let (members, paths) = join_members(lists, id, path, next);
            &&& members_typed(db, defs, variables, path, id, members)
            &&& forall|k: int|
                0 <= k < paths.len() ==> path_typed(db, defs, #[trigger] paths[k])
        }),
    decreases lists[0],
{
    if let Members::Cons { member_id, value, rest } = lists[0] {
        let member_path = member_of(path, member_id, id);
        let first = join_values(heads(lists), member_path, next);
        let second = join_members(rests(lists), id, path, next + first.1.len());
        let paths = join_members(lists, id, path, next).1;
        assert(heads(lists)[0] == *value);
        assert(rests(lists)[0] == *rest);
        assert(paths =~= first.1 + second.1);
        assert forall|i: int| 0 <= i < lists.len() implies value_typed(
            db,
            defs,
            old_variables,
            member_path,
            #[trigger] heads(lists)[i],
        ) && members_typed(db, defs, old_variables, path, id, rests(lists)[i]) && same_members(
            *rest,
            rests(lists)[i],
        ) by {
            assert(members_typed(db, defs, old_variables, path, id, lists[i]));
            assert(same_members(lists[0], lists[i]));
        }
        assert forall|i: int| 0 <= i < rests(lists).len() implies members_typed(
            db,
            defs,
            old_variables,
            path,
            id,
            #[trigger] rests(lists)[i],
        ) && same_members(rests(lists)[0], rests(lists)[i]) by {
            assert(value_typed(db, defs, old_variables, member_path, heads(lists)[i]));
        }
        assert(value_typed(db, defs, old_variables, member_path, heads(lists)[0]));
        assert(path_typed(db, defs, member_path));
        assert forall|k: int| 0 <= k < first.1.len() implies Some(variables[next + k].ty)
            == path_ty(db, defs, #[trigger] first.1[k]) by {
            assert(paths[k] == first.1[k]);
        }
        lemma_join_values_typed(
            db,
            defs,
            old_variables,
            variables,
            heads(lists),
            member_path,
            next,
        );
        assert forall|k: int| 0 <= k < second.1.len() implies Some(
            variables[next + first.1.len() + k].ty,
        ) == path_ty(db, defs, #[trigger] second.1[k]) by {
            assert(paths[first.1.len() + k] == second.1[k]);
        }
        lemma_join_members_typed(
            db,
            defs,
            old_variables,
            variables,
            rests(lists),
            id,
            path,
            next + first.1.len(),
        );
        assert forall|k: int| 0 <= k < paths.len() implies path_typed(
            db,
            defs,
            #[trigger] paths[k],
        ) by {
            if k < first.1.len() {
                assert(paths[k] == first.1[k]);
            } else {
                assert(paths[k] == second.1[k - first.1.len()]);
            }
        }
    }
}

/// Joined members are those of the first list.
pub(crate) proof fn lemma_join_members_ids(
    lists: Seq<Members>,
    id: ConcreteStructId,
    path: MemberPath,
    next: nat,
)
    requires
        lists.len() > 0,
    ensures
        ids_of(join_members(lists, id, path, next).0) == ids_of(lists[0]),
    decreases lists[0],
{
    if let Members::Cons { member_id, value, rest } = lists[0] {
        let first = join_values(heads(lists), member_of(path, member_id, id), next);
        assert(rests(lists)[0] == *rest);
        lemma_join_members_ids(rests(lists), id, path, next + first.1.len());
    }
}

proof fn lemma_join_entries_typed(
    db: StructTable,
    defs: Map<u64, Type>,
    mappings: Seq<Seq<(MemberPath, Value)>>,
    entries: Seq<(MemberPath, Value)>,
    next: nat,
    variables: Seq<Variable>,
)
    requires
        mappings.len() > 0,
        rooted(entries),
        unique_keys(entries),
        next <= variables.len() <= usize::MAX,
        forall|m: int|
            0 <= m < mappings.len() ==> entries_typed(
                db,
                defs,
                variables.take(next as int),
                #[trigger] mappings[m],
            ),
        ({
            let paths = join_entries(mappings, entries, next).1;
            &&& next + paths.len() <= variables.len()
            &&& forall|k: int|
                0 <= k < paths.len() ==> Some(variables[next + k].ty) == path_ty(
                    db,
                    defs,
                    #[trigger] paths[k],
                )
        }),
    ensures
        ({
            let (joined, paths) = join_entries(mappings, entries, next);
            &&& entries_typed(db, defs, variables, joined)
            &&& forall|k: int|
                0 <= k < paths.len() ==> path_typed(db, defs, #[trigger] paths[k])
        }),
    decreases entries.len(),
{
    let old_variables = variables.take(next as int);
    assert(old_variables =~= variables.subrange(0, next as int));
    if entries.len() > 0 {
        let rest = entries.drop_last();
        let last = entries.last().0;
        let (before, before_paths) = join_entries(mappings, rest, next);
        let (joined, paths) = join_entries(mappings, entries, next);
        assert forall|key: MemberPath| #[trigger] has_key(rest, key) implies key is Var by {
            lemma_position(rest, key);
            lemma_position(entries, key);
            let i = position(rest, key).unwrap();
            assert(entries[i] == rest[i]);
            assert(has_key(entries, key));
        }
        assert(unique_keys(rest)) by {
            assert forall|i: int, j: int| 0 <= i < j < rest.len() implies (
            #[trigger] rest[i]).0 != (#[trigger] rest[j]).0 by {
                assert(entries[i].0 != entries[j].0);
            }
        }
        assert(has_key(entries, last)) by {
            lemma_position(entries, last);
            assert(entries[entries.len() - 1].0 == last);
        }
        assert forall|k: int| 0 <= k < before_paths.len() implies Some(variables[next + k].ty)
            == path_ty(db, defs, #[trigger] before_paths[k]) by {
            assert(paths[k] == before_paths[k]);
        }
        lemma_join_entries_typed(db, defs, mappings, rest, next, variables);
        if in_all(mappings, last) {
            let n = next + before_paths.len();
            let values = values_at(mappings, last);
            let step = join_values(values, last, n);
            assert(paths =~= before_paths + step.1);
            assert(joined =~= before.push((last, step.0)));
            assert forall|i: int| 0 <= i < values.len() implies value_typed(
                db,
                defs,
                old_variables,
                last,
                #[trigger] values[i],
            ) by {
                assert(has_key(mappings[i], last));
                assert(value_of(mappings[i], last) == Some(values[i]));
            }
            assert(value_typed(db, defs, old_variables, last, values[0]));
            assert(path_typed(db, defs, last));
            assert forall|k: int| 0 <= k < step.1.len() implies Some(variables[n + k].ty)
                == path_ty(db, defs, #[trigger] step.1[k]) by {
                assert(paths[before_paths.len() + k] == step.1[k]);
            }
            lemma_join_values_typed(db, defs, old_variables, variables, values, last, n);
            assert forall|k: int| 0 <= k < paths.len() implies path_typed(
                db,
                defs,
                #[trigger] paths[k],
            ) by {
                if k < before_paths.len() {
                    assert(paths[k] == before_paths[k]);
                } else {
                    assert(paths[k] == step.1[k - before_paths.len()]);
                }
            }
            assert forall|key: MemberPath|
                (#[trigger] value_of(joined, key)) is Some implies value_typed(
                db,
                defs,
                variables,
                key,
                value_of(joined, key).unwrap(),
            ) by {
                lemma_position(joined, key);
                let i = position(joined, key).unwrap();
                if i < before.len() {
                    assert(joined[i] == before[i]);
                    assert forall|j: int| 0 <= j < i implies (#[trigger] before[j]).0
                        != before[i].0 by {
                        assert(joined[j] == before[j]);
                    }
                    lemma_position_is(before, i);
                    assert(value_of(before, key) == Some(joined[i].1));
                } else {
                    assert(joined[i] == (last, step.0));
                }
            }
        }
    }
}

// Merges.

/// The paths that stand for a value are of the structs that their parents are of.
proof fn lemma_leaf_paths_typed(
    db: StructTable,
    defs: Map<u64, Type>,
    variables: Seq<Variable>,
    path: MemberPath,
    value: Value,
    changed: MemberPath,
)
    requires
        path_typed(db, defs, path),
        value_typed(db, defs, variables, path, value),
    ensures
        ({
            let leaves = leaf_paths(path, value, changed);
            forall|k: int| 0 <= k < leaves.len() ==> path_typed(db, defs, #[trigger] leaves[k])
        }),
    decreases value,
{
    if path != changed && value is Scattered {
        lemma_member_leaf_paths_typed(
            db,
            defs,
            variables,
            path,
            value->concrete_struct_id,
            *value->members,
            changed,
        );
        assert(leaf_paths(path, value, changed) == member_leaf_paths(
            path,
            value->concrete_struct_id,
            *value->members,
            changed,
        ));
    } else {
        let leaves = leaf_paths(path, value, changed);
        assert(leaves =~= seq![path]);
        assert forall|k: int| 0 <= k < leaves.len() implies path_typed(
            db,
            defs,
            #[trigger] leaves[k],
        ) by {
            assert(leaves[k] == path);
        }
    }
}

proof fn lemma_member_leaf_paths_typed(
    db: StructTable,
    defs: Map<u64, Type>,
    variables: Seq<Variable>,
    path: MemberPath,
    concrete_struct_id: ConcreteStructId,
    members: Members,
    changed: MemberPath,
)
    requires
        path_typed(db, defs, path),
        path_ty(db, defs, path) == Some(Type::Struct(concrete_struct_id)),
        members_typed(db, defs, variables, path, concrete_struct_id, members),
    ensures
        ({
            let leaves = member_leaf_paths(path, concrete_struct_id, members, changed);
            forall|k: int| 0 <= k < leaves.len() ==> path_typed(db, defs, #[trigger] leaves[k])
        }),
    decreases members,
{
    if let Members::Cons { member_id, value, rest } = members {
        let member_path = member_of(path, member_id, concrete_struct_id);
        assert(value_typed(db, defs, variables, member_path, *value));
        assert(path_typed(db, defs, member_path));
        lemma_leaf_paths_typed(db, defs, variables, member_path, *value, changed);
        lemma_member_leaf_paths_typed(
            db,
            defs,
            variables,
            path,
            concrete_struct_id,
            *rest,
            changed,
        );
        let first = member_leaf_paths(path, concrete_struct_id, *rest, changed);
        let second = leaf_paths(member_path, *value, changed);
        let leaves = member_leaf_paths(path, concrete_struct_id, members, changed);
        assert forall|k: int| 0 <= k < leaves.len() implies path_typed(
            db,
            defs,
            #[trigger] leaves[k],
        ) by {
            if k < first.len() {
                assert(leaves[k] == first[k]);
            } else {
                assert(leaves[k] == second[k - first.len()]);
            }
        }
    }
}

/// The remapped paths are of the structs that their parents are of, and their variables have their
/// types.
proof fn lemma_remapped_typed(
    ctx: LoweringContext,
    builder: BuilderView,
    sealed: Seq<SealedView>,
    location: LocationId,
    k: int,
)
    requires
        merge(ctx, builder, sealed, location).ok,
        merge(ctx, builder, sealed, location).state.variables.len() <= usize::MAX,
        rooted(builder.semantics),
        entries_typed(ctx.db, ctx.semantic_defs@, ctx.variables@, builder.semantics),
        0 <= k < remapped_paths(ctx, builder, sealed, location).len(),
    ensures
        ({
            let plan = plan_of_merge(ctx, builder, sealed, location);
            let (path, var) = remapped_paths(ctx, builder, sealed, location)[k];
            &&& path_typed(ctx.db, ctx.semantic_defs@, path)
            &&& has_type(
                plan.variables,
                var,
                path_ty(ctx.db, ctx.semantic_defs@, path).unwrap(),
            )
        }),
{
    let defs = ctx.semantic_defs@;
    let plan = plan_of_merge(ctx, builder, sealed, location);
    let paths = remapped_paths(ctx, builder, sealed, location);
    let path = paths[k].0;
    lemma_merge_variables(ctx, builder, sealed, location);
    law_plan(ctx.db, defs, builder.semantics, ctx.variables@, sealed, location);
    law_pruned(plan.paths, path);
    lemma_position(paths, path);
    lemma_position(plan.paths, path);
    assert(paths[k].0 == path);
    lemma_position_is(paths, k);
    let a = position(plan.paths, path).unwrap();
    assert(plan.paths[a] == paths[k]);
    assert(has_key(plan.paths, path));
    let (i, c) = choose|i: int, c: MemberPath|
        0 <= i < sealed.len() && #[trigger] is_change_of(sealed[i], c) && affected(
            builder.semantics,
            c,
        ).contains(path);
    assert(affected(builder.semantics, c).len() > 0);
    lemma_topmost_is_key(builder.semantics, c);
    let top = topmost(builder.semantics, c).unwrap();
    let value = value_of(builder.semantics, top).unwrap();
    lemma_position(builder.semantics, top);
    assert(value_of(builder.semantics, top) is Some);
    assert(value_typed(ctx.db, defs, ctx.variables@, top, value));
    assert(path_typed(ctx.db, defs, top));
    lemma_leaf_paths_typed(ctx.db, defs, ctx.variables@, top, value, c);
}

/// A merge keeps types: where the mapping of the callsite and a block are well-typed, the block is
/// so at its end, and remaps each variable that is for a path to one of the same type.
pub proof fn law_merge_blocks_typed(
    ctx: LoweringContext,
    builder: BuilderView,
    sealed: Seq<SealedView>,
    location: LocationId,
    i: int,
)
    requires
        merge_possible(ctx, builder, sealed, location),
        distinct_members(ctx.db),
        rooted(builder.semantics),
        entries_typed(ctx.db, ctx.semantic_defs@, ctx.variables@, builder.semantics),
        0 <= i < sealed.len(),
        sealed[i] is GotoCallsite,
        state_typed(
            ctx.db,
            ctx.semantic_defs@,
            State { builder: sealed[i]->builder, variables: ctx.variables@ },
        ),
    ensures
        ({
            let m = merge(ctx, builder, sealed, location);
            let block = block_of(m.blocks, sealed[i]->builder);
            &&& forall|k: int|
                0 <= k < remapping_of(block).len() && Some(
                    (#[trigger] remapping_of(block)[k]).0,
                ) != m.expr ==> has_type(
                    m.state.variables,
                    remapping_of(block)[k].1.var_id,
                    m.state.variables[remapping_of(block)[k].0.0 as int].ty,
                ) && remapping_of(block)[k].1.location == location
            &&& forall|k: int|
                0 <= k < block.statements.len() ==> statement_typed(
                    ctx.db,
                    m.state.variables,
                    #[trigger] block.statements[k],
                )
        }),
{
    let defs = ctx.semantic_defs@;
    let m = merge(ctx, builder, sealed, location);
    let block = block_of(m.blocks, sealed[i]->builder);
    let plan = plan_of_merge(ctx, builder, sealed, location);
    let paths = remapped_paths(ctx, builder, sealed, location);
    let r = block_hands_over(ctx, builder, sealed, location, i);
    law_merge_ends_blocks(ctx, builder, sealed, location, i);
    assert(remapping_of(block) == r.value && block.statements == r.state.builder.statements) by {
        law_merge_blocks(ctx, builder, sealed, location);
    }
    lemma_block_typed(ctx, builder, sealed, location, i);
    lemma_hands_over(ctx, builder, sealed, location, i);
    assert forall|k: int|
        0 <= k < remapping_of(block).len() && Some((#[trigger] remapping_of(block)[k]).0)
            != m.expr implies has_type(
        m.state.variables,
        remapping_of(block)[k].1.var_id,
        m.state.variables[remapping_of(block)[k].0.0 as int].ty,
    ) && remapping_of(block)[k].1.location == location by {
        assert(k < paths.len());
        lemma_remapped_typed(ctx, builder, sealed, location, k);
        let var = paths[k].1;
        assert(r.value[k].0 == var);
        assert(m.state.variables[var.0 as int] == plan.variables[var.0 as int]);
        assert(has_type(
            m.state.variables,
            r.value[k].1.var_id,
            path_ty(ctx.db, defs, paths[k].0).unwrap(),
        ));
    }
}

/// What a block hands over for the paths has the types of the paths.
proof fn lemma_block_typed(
    ctx: LoweringContext,
    builder: BuilderView,
    sealed: Seq<SealedView>,
    location: LocationId,
    i: int,
)
    requires
        merge_possible(ctx, builder, sealed, location),
        distinct_members(ctx.db),
        rooted(builder.semantics),
        entries_typed(ctx.db, ctx.semantic_defs@, ctx.variables@, builder.semantics),
        0 <= i < sealed.len(),
        sealed[i] is GotoCallsite,
        state_typed(
            ctx.db,
            ctx.semantic_defs@,
            State { builder: sealed[i]->builder, variables: ctx.variables@ },
        ),
    ensures
        ({
            let m = merge(ctx, builder, sealed, location);
            let paths = remapped_paths(ctx, builder, sealed, location);
            let r = block_hands_over(ctx, builder, sealed, location, i);
            &&& r.value.len() >= paths.len()
            &&& forall|k: int|
                0 <= k < paths.len() ==> has_type(
                    m.state.variables,
                    (#[trigger] r.value[k]).1.var_id,
                    path_ty(ctx.db, ctx.semantic_defs@, paths[k].0).unwrap(),
                ) && r.value[k].1.location == location
            &&& forall|k: int|
                0 <= k < r.state.builder.statements.len() ==> statement_typed(
                    ctx.db,
                    m.state.variables,
                    #[trigger] r.state.builder.statements[k],
                )
        }),
{
    let defs = ctx.semantic_defs@;
    let m = merge(ctx, builder, sealed, location);
    let plan = plan_of_merge(ctx, builder, sealed, location);
    let paths = remapped_paths(ctx, builder, sealed, location);
    let before = block_starts(ctx, builder, sealed, location, i);
    let p = remap_paths(ctx.db, before, paths, location);
    let r = block_hands_over(ctx, builder, sealed, location, i);
    lemma_block_grows(ctx, builder, sealed, location, i);
    lemma_hands_over(ctx, builder, sealed, location, i);
    assert forall|k: int| 0 <= k < paths.len() implies path_typed(
        ctx.db,
        defs,
        (#[trigger] paths[k]).0,
    ) by {
        lemma_remapped_typed(ctx, builder, sealed, location, k);
    }
    let built = State { builder: sealed[i]->builder, variables: ctx.variables@ };
    lemma_state_typed_of_more(ctx.db, defs, built, before.variables);
    lemma_remap_paths_typed(ctx.db, defs, before, paths, location);
    lemma_remapped_locations(ctx.db, before, paths, location);
    assert forall|k: int| 0 <= k < paths.len() implies has_type(
        m.state.variables,
        (#[trigger] r.value[k]).1.var_id,
        path_ty(ctx.db, defs, paths[k].0).unwrap(),
    ) && r.value[k].1.location == location by {
        assert(r.value[k] == p.value[k]);
        let var = p.value[k].1.var_id;
        assert(m.state.variables[var.0 as int] == p.state.variables[var.0 as int]);
    }
    if plan.expr is Some && sealed[i]->expr is None {
        let at = p.state.variables[plan.expr.unwrap().0 as int].location;
        assert(usage_types(p.state.variables, Seq::<VarUsage>::empty()) =~= Seq::<Type>::empty());
        lemma_constructed_typed(ctx.db, defs, p.state, Seq::empty(), Type::unit(), at);
    }
    lemma_state_typed_of_more(ctx.db, defs, r.state, m.state.variables);
    let end = State { variables: m.state.variables, ..r.state };
    assert forall|k: int| 0 <= k < r.state.builder.statements.len() implies statement_typed(
        ctx.db,
        m.state.variables,
        #[trigger] r.state.builder.statements[k],
    ) by {
        assert(end.emitted().statements[k] == r.state.builder.statements[k]);
    }
}

/// The variables of a block that hands over: those of the function, of the plan, of the blocks
/// before it, of what it reads, of its value, and those that come later.
pub(crate) proof fn lemma_block_grows(
    ctx: LoweringContext,
    builder: BuilderView,
    sealed: Seq<SealedView>,
    location: LocationId,
    i: int,
)
    requires
        merge_possible(ctx, builder, sealed, location),
        0 <= i < sealed.len(),
        sealed[i] is GotoCallsite,
    ensures
        ({
            let m = merge(ctx, builder, sealed, location);
            let paths = remapped_paths(ctx, builder, sealed, location);
            let before = block_starts(ctx, builder, sealed, location, i);
            let p = remap_paths(ctx.db, before, paths, location);
            let r = block_hands_over(ctx, builder, sealed, location, i);
            &&& p.ok
            &&& r == remap(
                ctx.db,
                before,
                sealed[i]->expr,
                plan_of_merge(ctx, builder, sealed, location).expr,
                paths,
                location,
            )
            &&& ctx.variables@.is_prefix_of(before.variables)
            &&& plan_of_merge(ctx, builder, sealed, location).variables.is_prefix_of(
                p.state.variables,
            )
            &&& p.state.variables.is_prefix_of(r.state.variables)
            &&& p.state.variables.is_prefix_of(m.state.variables)
            &&& r.state.variables.is_prefix_of(m.state.variables)
        }),
{
    let m = merge(ctx, builder, sealed, location);
    let plan = plan_of_merge(ctx, builder, sealed, location);
    let paths = remapped_paths(ctx, builder, sealed, location);
    let start = Closed {
        variables: plan.variables,
        blocks: ctx.blocks@.push(None),
        ok: plan.ok,
    };
    let target = BlockId(ctx.blocks@.len() as usize);
    let before = block_starts(ctx, builder, sealed, location, i);
    let p = remap_paths(ctx.db, before, paths, location);
    let r = block_hands_over(ctx, builder, sealed, location, i);
    let closed = close_blocks(ctx.db, start, sealed, target, plan.expr, paths, location);
    lemma_close_blocks_prefix(ctx.db, start, sealed, target, plan.expr, paths, location, i + 1);
    assert(sealed.take(i + 1).drop_last() =~= sealed.take(i));
    assert(sealed.take(i + 1).last() == sealed[i]);
    lemma_close_blocks_variables(
        ctx.db,
        start,
        sealed.take(i),
        target,
        plan.expr,
        paths,
        location,
    );
    lemma_merge_variables(ctx, builder, sealed, location);
    law_plan(
        ctx.db,
        ctx.semantic_defs@,
        builder.semantics,
        ctx.variables@,
        sealed,
        location,
    );
    lemma_close_blocks_grow(
        ctx.db,
        start,
        sealed,
        target,
        plan.expr,
        paths,
        location,
        i + 1,
    );
    lemma_write_refs_extend(
        ctx.db,
        State { builder, variables: closed.variables },
        paths,
        location,
    );
    law_remap_goes_on(ctx.db, before, None, None, paths, location);
    assert(plan.variables =~= p.state.variables.subrange(0, plan.variables.len() as int));
    assert(r.state.variables =~= m.state.variables.subrange(
        0,
        r.state.variables.len() as int,
    ));
    assert(p.state.variables =~= r.state.variables.subrange(0, p.state.variables.len() as int));
    assert(p.state.variables =~= m.state.variables.subrange(0, p.state.variables.len() as int));
    assert(ctx.variables@ =~= before.variables.subrange(0, ctx.variables@.len() as int));
}

/// A merge keeps the builder of the callsite well-typed: each path is in a variable of its type from
/// then on.
pub proof fn law_merge_callsite_typed(
    ctx: LoweringContext,
    builder: BuilderView,
    sealed: Seq<SealedView>,
    location: LocationId,
)
    requires
        merge(ctx, builder, sealed, location).ok,
        merge(ctx, builder, sealed, location).state.variables.len() <= usize::MAX,
        distinct_members(ctx.db),
        rooted(builder.semantics),
        unique_keys(builder.snapped),
        state_typed(
            ctx.db,
            ctx.semantic_defs@,
            State { builder, variables: ctx.variables@ },
        ),
    ensures
        state_typed(
            ctx.db,
            ctx.semantic_defs@,
            merge(ctx, builder, sealed, location).state,
        ),
{
    let defs = ctx.semantic_defs@;
    let m = merge(ctx, builder, sealed, location);
    let plan = plan_of_merge(ctx, builder, sealed, location);
    let paths = remapped_paths(ctx, builder, sealed, location);
    let start = Closed {
        variables: plan.variables,
        blocks: ctx.blocks@.push(None),
        ok: plan.ok,
    };
    let target = BlockId(ctx.blocks@.len() as usize);
    let closed = close_blocks(ctx.db, start, sealed, target, plan.expr, paths, location);
    let before = State { builder, variables: closed.variables };
    lemma_close_blocks_variables(ctx.db, start, sealed, target, plan.expr, paths, location);
    lemma_merge_variables(ctx, builder, sealed, location);
    law_plan(ctx.db, defs, builder.semantics, ctx.variables@, sealed, location);
    assert(ctx.variables@ =~= closed.variables.subrange(0, ctx.variables@.len() as int));
    let built = State { builder, variables: ctx.variables@ };
    lemma_state_typed_of_more(ctx.db, defs, built, closed.variables);
    assert forall|k: int| 0 <= k < paths.len() implies path_typed(
        ctx.db,
        defs,
        (#[trigger] paths[k]).0,
    ) && has_type(
        before.variables,
        paths[k].1,
        path_ty(ctx.db, defs, paths[k].0).unwrap(),
    ) by {
        lemma_remapped_typed(ctx, builder, sealed, location, k);
        let var = paths[k].1;
        assert(closed.variables[var.0 as int] == plan.variables[var.0 as int]);
    }
    lemma_write_refs_typed(ctx.db, defs, before, paths, location);
}

proof fn lemma_write_refs_typed(
    db: StructTable,
    defs: Map<u64, Type>,
    before: State,
    paths: Seq<(MemberPath, VariableId)>,
    location: LocationId,
)
    requires
        distinct_members(db),
        state_typed(db, defs, before),
        unique_keys(before.builder.snapped),
        forall|k: int|
            0 <= k < paths.len() ==> path_typed(db, defs, (#[trigger] paths[k]).0) && has_type(
                before.variables,
                paths[k].1,
                path_ty(db, defs, paths[k].0).unwrap(),
            ),
        write_refs(db, before, paths, location).ok,
        write_refs(db, before, paths, location).state.variables.len() <= usize::MAX,
    ensures
        state_typed(db, defs, write_refs(db, before, paths, location).state),
        unique_keys(write_refs(db, before, paths, location).state.builder.snapped),
    decreases paths.len(),
{
    if paths.len() > 0 {
        let rest = paths.drop_last();
        let first = write_refs(db, before, rest, location).state;
        let (path, var) = paths.last();
        assert forall|k: int| 0 <= k < rest.len() implies path_typed(
            db,
            defs,
            (#[trigger] rest[k]).0,
        ) && has_type(before.variables, rest[k].1, path_ty(db, defs, rest[k].0).unwrap()) by {
            assert(rest[k] == paths[k]);
        }
        assert(path_typed(db, defs, paths[paths.len() - 1].0));
        law_reads_and_writes_extend(
            db,
            first.builder.semantics,
            first.emitted(),
            path,
            var,
            location,
        );
        lemma_write_refs_extend(db, before, rest, location);
        assert(first.variables.len() <= write_refs(
            db,
            before,
            paths,
            location,
        ).state.variables.len());
        lemma_write_refs_typed(db, defs, before, rest, location);
        assert(first.variables[var.0 as int] == before.variables[var.0 as int]);
        law_update_typed(db, defs, first, path, var, location);
        lemma_swap_removed(first.builder.snapped, path);
    }
}

} // verus!
