//! Joining of block builders.
use cairo_lang_utils::ordered_hash_map::OrderedHashMap;
use vstd::prelude::*;

use crate::block_builder::BlockBuilder;
use crate::block_builder::sealed::{
    finalize_all, sealed_views, SealedBlockBuilder, SemanticRemapping,
};
use crate::context::{get_ty, path_ty, same_but_variables, same_inputs, LoweringContext, VarRequest};
use crate::ids::{BlockId, ConcreteStructId, LocationId, VariableId};
use crate::joining::{
    aligned, all_same, all_typed, heads, in_all, join, join_entries, join_mappings, join_members,
    join_values, lemma_join_entries_prefix, lemma_renewed_twice, mappings_of, member_lists,
    path_variables, renewed, rests, same_members, scattered_alike, sealed_without_value, values_at,
};
use crate::member_path::MemberPath;
use crate::merge::{lemma_close_blocks_prefix, Closed};
use crate::ordered::{has_key, path_vars, path_vars_insert, path_vars_new};
use crate::refs::{Members, SemanticLoweringMapping, Value};
use crate::state::BuilderView;

verus! {

/// What builders hold.
pub open spec fn builder_views(builders: Seq<BlockBuilder>) -> Seq<BuilderView> {
    builders.map_values(|builder: BlockBuilder| builder@)
}

/// Some paths got new variables: `paths`, in this order.
spec fn is_renewed(
    before: LoweringContext,
    after: LoweringContext,
    entries_before: Seq<(MemberPath, VariableId)>,
    entries_after: Seq<(MemberPath, VariableId)>,
    paths: Seq<MemberPath>,
    location: LocationId,
) -> bool {
    &&& after.variables@ == before.variables@ + path_variables(
        before.db,
        before.semantic_defs@,
        paths,
        location,
    )
    &&& entries_after == renewed(entries_before, paths, before.variables@.len())
    &&& same_but_variables(before, after)
}

/// Whether all the values are the same.
fn are_all_same(values: &Vec<Value>) -> (res: bool)
    requires
        values@.len() > 0,
    ensures
        res == all_same(values@),
{
    let mut i: usize = 0;
    while i < values.len()
        invariant
            i <= values.len(),
            values@.len() > 0,
            forall|k: int| 0 <= k < i ==> #[trigger] values@[k] == values@[0],
        decreases values.len() - i,
    {
        if !values[i].same(&values[0]) {
            return false;
        }
        i = i + 1;
    }
    true
}

/// The struct over whose members all the values are scattered, if there is one.
fn common_struct(values: &Vec<Value>) -> (res: Option<ConcreteStructId>)
    requires
        values@.len() > 0,
    ensures
        match res {
            Some(id) => scattered_alike(values@) && values@[0]->concrete_struct_id == id,
            None => !scattered_alike(values@),
        },
{
    let (first_id, first_members) = match &values[0] {
        Value::Scattered { concrete_struct_id, members } => (*concrete_struct_id, members),
        Value::Var(_) => {
            return None;
        },
    };
    let mut i: usize = 0;
    while i < values.len()
        invariant
            i <= values.len(),
            values@.len() > 0,
            values@[0] == (Value::Scattered {
                concrete_struct_id: first_id,
                members: *first_members,
            }),
            forall|k: int|
                0 <= k < i ==> (#[trigger] values@[k]) is Scattered
                    && values@[k]->concrete_struct_id == first_id && same_members(
                    **first_members,
                    *values@[k]->members,
                ),
        decreases values.len() - i,
    {
        match &values[i] {
            Value::Scattered { concrete_struct_id, members } => {
                if !(*concrete_struct_id == first_id) || !(&**first_members).alike(&**members) {
                    proof {
                        assert(member_lists(values@)[i as int] == **members);
                    }
                    return None;
                }
            },
            Value::Var(_) => {
                return None;
            },
        }
        i = i + 1;
    }
    Some(first_id)
}

/// The members of scattered values.
fn take_members(values: Vec<Value>) -> (res: Vec<Members>)
    requires
        scattered_alike(values@),
    ensures
        res@ == member_lists(values@),
{
    let ghost all = values@;
    let mut lists: Vec<Members> = Vec::new();
    for value in it: values
        invariant
            all == it.seq(),
            scattered_alike(all),
            lists@ == member_lists(all).take(it.index()),
    {
        assert(value is Scattered);
        if let Value::Scattered { members, .. } = value {
            lists.push(*members);
        }
        assert(lists@ =~= member_lists(all).take(it.index() + 1));
    }
    assert(member_lists(all).take(all.len() as int) =~= member_lists(all));
    lists
}

/// The first values of lists of the same members, and the lists behind them.
fn take_heads(lists: Vec<Members>) -> (res: (Vec<Value>, Vec<Members>))
    requires
        lists@.len() > 0,
        lists@[0] is Cons,
        aligned(lists@),
    ensures
        res.0@ == heads(lists@),
        res.1@ == rests(lists@),
{
    let ghost all = lists@;
    let mut values: Vec<Value> = Vec::new();
    let mut tails: Vec<Members> = Vec::new();
    for members in it: lists
        invariant
            all == it.seq(),
            all.len() > 0,
            all[0] is Cons,
            aligned(all),
            values@ == heads(all).take(it.index()),
            tails@ == rests(all).take(it.index()),
    {
        assert(members is Cons);
        if let Members::Cons { value, rest, .. } = members {
            values.push(*value);
            tails.push(*rest);
        }
        assert(values@ =~= heads(all).take(it.index() + 1));
        assert(tails@ =~= rests(all).take(it.index() + 1));
    }
    assert(heads(all).take(all.len() as int) =~= heads(all));
    assert(rests(all).take(all.len() as int) =~= rests(all));
    (values, tails)
}

/// Gives a path a new variable.
fn renew(
    ctx: &mut LoweringContext,
    member_path_value: &mut OrderedHashMap<MemberPath, VariableId>,
    path: &MemberPath,
    location: LocationId,
) -> (res: VariableId)
    requires
        path_ty(old(ctx).db, old(ctx).semantic_defs@, *path) is Some,
    ensures
        res == VariableId(old(ctx).variables@.len() as usize),
        is_renewed(
            *old(ctx),
            *final(ctx),
            path_vars(*old(member_path_value)),
            path_vars(*final(member_path_value)),
            seq![*path],
            location,
        ),
{
    let ghost entries = path_vars(*member_path_value);
    let ty = get_ty(ctx, path);
    let var = ctx.new_var(VarRequest { ty, location });
    path_vars_insert(member_path_value, path.clone(), var);
    proof {
        let next = old(ctx).variables@.len();
        assert(seq![*path].drop_last() =~= Seq::<MemberPath>::empty());
        assert(renewed(entries, Seq::<MemberPath>::empty(), next) == entries);
        assert(path_vars(*member_path_value) == renewed(entries, seq![*path], next));
        assert(ctx.variables@ =~= old(ctx).variables@ + path_variables(
            old(ctx).db,
            old(ctx).semantic_defs@,
            seq![*path],
            location,
        ));
    }
    var
}

/// Joins the values that a path has in several blocks.
fn join_path_values(
    values: Vec<Value>,
    ctx: &mut LoweringContext,
    member_path_value: &mut OrderedHashMap<MemberPath, VariableId>,
    path: &MemberPath,
    location: LocationId,
) -> (res: Value)
    requires
        values@.len() > 0,
        all_typed(
            old(ctx).db,
            old(ctx).semantic_defs@,
            join_values(values@, *path, old(ctx).variables@.len()).1,
        ),
    ensures
        ({
            let j = join_values(values@, *path, old(ctx).variables@.len());
            &&& res == j.0
            &&& is_renewed(
                *old(ctx),
                *final(ctx),
                path_vars(*old(member_path_value)),
                path_vars(*final(member_path_value)),
                j.1,
                location,
            )
        }),
    decreases values@[0],
{
    if are_all_same(&values) {
        assert(ctx.variables@ + path_variables(
            ctx.db,
            ctx.semantic_defs@,
            Seq::empty(),
            location,
        ) =~= ctx.variables@);
        values[0].clone()
    } else if let Some(concrete_struct_id) = common_struct(&values) {
        let lists = take_members(values);
        let members = join_path_members(
            lists,
            concrete_struct_id,
            ctx,
            member_path_value,
            path,
            location,
        );
        Value::Scattered { concrete_struct_id, members: Box::new(members) }
    } else {
        assert(seq![*path][0] == *path);
        Value::Var(renew(ctx, member_path_value, path, location))
    }
}

/// Joins lists of the same members, member by member.
fn join_path_members(
    lists: Vec<Members>,
    concrete_struct_id: ConcreteStructId,
    ctx: &mut LoweringContext,
    member_path_value: &mut OrderedHashMap<MemberPath, VariableId>,
    path: &MemberPath,
    location: LocationId,
) -> (res: Members)
    requires
        lists@.len() > 0,
        aligned(lists@),
        all_typed(
            old(ctx).db,
            old(ctx).semantic_defs@,
            join_members(lists@, concrete_struct_id, *path, old(ctx).variables@.len()).1,
        ),
    ensures
        ({
            let j = join_members(lists@, concrete_struct_id, *path, old(ctx).variables@.len());
            &&& res == j.0
            &&& is_renewed(
                *old(ctx),
                *final(ctx),
                path_vars(*old(member_path_value)),
                path_vars(*final(member_path_value)),
                j.1,
                location,
            )
        }),
    decreases lists@[0],
{
    let ghost next = ctx.variables@.len();
    let ghost entries = path_vars(*member_path_value);
    let member_id = match &lists[0] {
        Members::Nil => {
            assert(ctx.variables@ + path_variables(
                ctx.db,
                ctx.semantic_defs@,
                Seq::empty(),
                location,
            ) =~= ctx.variables@);
            return Members::Nil;
        },
        Members::Cons { member_id, .. } => *member_id,
    };
    let ghost all = lists@;
    let (values, tails) = take_heads(lists);
    let member_path = MemberPath::Member {
        parent: Box::new(path.clone()),
        member_id,
        concrete_struct_id,
    };
    let ghost first = join_values(values@, member_path, next);
    let ghost second = join_members(tails@, concrete_struct_id, *path, next + first.1.len());
    let ghost paths = first.1 + second.1;
    proof {
        assert(paths == join_members(all, concrete_struct_id, *path, next).1);
        assert forall|i: int| 0 <= i < first.1.len() implies path_ty(
            ctx.db,
            ctx.semantic_defs@,
            #[trigger] first.1[i],
        ) is Some by {
            assert(paths[i] == first.1[i]);
        }
        assert forall|i: int| 0 <= i < second.1.len() implies path_ty(
            ctx.db,
            ctx.semantic_defs@,
            #[trigger] second.1[i],
        ) is Some by {
            assert(paths[first.1.len() + i] == second.1[i]);
        }
        lemma_renewed_twice(entries, first.1, second.1, next);
        assert forall|i: int| 0 <= i < tails@.len() implies same_members(
            tails@[0],
            #[trigger] tails@[i],
        ) by {
            assert(same_members(all[0], all[i]));
        }
    }
    let value = join_path_values(values, ctx, member_path_value, &member_path, location);
    let rest = join_path_members(
        tails,
        concrete_struct_id,
        ctx,
        member_path_value,
        path,
        location,
    );
    assert(ctx.variables@ =~= old(ctx).variables@ + path_variables(
        old(ctx).db,
        old(ctx).semantic_defs@,
        paths,
        location,
    ));
    Members::Cons { member_id, value: Box::new(value), rest: Box::new(rest) }
}

/// Whether the mapping of each builder has an entry for the path.
fn is_in_all(builders: &Vec<BlockBuilder>, path: &MemberPath) -> (res: bool)
    ensures
        res == in_all(mappings_of(builder_views(builders@)), *path),
{
    let ghost mappings = mappings_of(builder_views(builders@));
    let mut i: usize = 0;
    while i < builders.len()
        invariant
            i <= builders.len(),
            mappings == mappings_of(builder_views(builders@)),
            forall|k: int| 0 <= k < i ==> has_key(#[trigger] mappings[k], *path),
        decreases builders.len() - i,
    {
        assert(mappings[i as int] == builders@[i as int].semantics@);
        if builders[i].semantics.index_of(path).is_none() {
            return false;
        }
        i = i + 1;
    }
    true
}

/// The values of a path in the mappings of builders.
fn path_values(builders: &Vec<BlockBuilder>, path: &MemberPath) -> (res: Vec<Value>)
    requires
        in_all(mappings_of(builder_views(builders@)), *path),
    ensures
        res@ == values_at(mappings_of(builder_views(builders@)), *path),
{
    let ghost mappings = mappings_of(builder_views(builders@));
    let mut values: Vec<Value> = Vec::new();
    let mut i: usize = 0;
    while i < builders.len()
        invariant
            i <= builders.len(),
            mappings == mappings_of(builder_views(builders@)),
            in_all(mappings, *path),
            values@ == values_at(mappings, *path).take(i as int),
        decreases builders.len() - i,
    {
        assert(mappings[i as int] == builders@[i as int].semantics@);
        let k: usize = builders[i].semantics.index_of(path).unwrap();
        values.push(builders[i].semantics.entries[k].1.clone());
        i = i + 1;
        assert(values@ =~= values_at(mappings, *path).take(i as int));
    }
    assert(values@ =~= values_at(mappings, *path));
    values
}

/// Joins the mappings of builders.
fn merge_semantics(
    builders: &Vec<BlockBuilder>,
    ctx: &mut LoweringContext,
    member_path_value: &mut OrderedHashMap<MemberPath, VariableId>,
    location: LocationId,
) -> (res: SemanticLoweringMapping)
    requires
        all_typed(
            old(ctx).db,
            old(ctx).semantic_defs@,
            join_mappings(mappings_of(builder_views(builders@)), old(ctx).variables@.len()).1,
        ),
    ensures
        ({
            let j = join_mappings(
                mappings_of(builder_views(builders@)),
                old(ctx).variables@.len(),
            );
            &&& res@ == j.0
            &&& is_renewed(
                *old(ctx),
                *final(ctx),
                path_vars(*old(member_path_value)),
                path_vars(*final(member_path_value)),
                j.1,
                location,
            )
        }),
{
    let ghost mappings = mappings_of(builder_views(builders@));
    let ghost before = *ctx;
    let ghost next = ctx.variables@.len();
    let ghost entries = path_vars(*member_path_value);
    let mut joined: Vec<(MemberPath, Value)> = Vec::new();
    assert(ctx.variables@ + path_variables(
        ctx.db,
        ctx.semantic_defs@,
        Seq::empty(),
        location,
    ) =~= ctx.variables@);
    if builders.len() == 0 {
        return SemanticLoweringMapping { entries: joined };
    }
    let ghost first = mappings[0];
    assert(first == builders@[0].semantics@);
    let mut i: usize = 0;
    while i < builders[0].semantics.entries.len()
        invariant
            builders@.len() > 0,
            mappings == mappings_of(builder_views(builders@)),
            first == mappings[0],
            first == builders@[0].semantics.entries@,
            i <= first.len(),
            next == before.variables@.len(),
            all_typed(before.db, before.semantic_defs@, join_entries(mappings, first, next).1),
            ({
                let j = join_entries(mappings, first.take(i as int), next);
                &&& joined@ == j.0
                &&& is_renewed(before, *ctx, entries, path_vars(*member_path_value), j.1, location)
            }),
        decreases first.len() - i,
    {
        let ghost before_step = join_entries(mappings, first.take(i as int), next);
        let path = builders[0].semantics.entries[i].0.clone();
        proof {
            lemma_join_entries_prefix(mappings, first, next, i + 1);
            assert(first.take(i + 1).drop_last() =~= first.take(i as int));
        }
        if is_in_all(builders, &path) {
            let values = path_values(builders, &path);
            let ghost step = join_values(values@, path, next + before_step.1.len());
            proof {
                let now = join_entries(mappings, first.take(i + 1), next).1;
                assert(now == before_step.1 + step.1);
                assert forall|k: int| 0 <= k < step.1.len() implies path_ty(
                    before.db,
                    before.semantic_defs@,
                    #[trigger] step.1[k],
                ) is Some by {
                    assert(now[before_step.1.len() + k] == step.1[k]);
                    assert(join_entries(mappings, first, next).1[before_step.1.len() + k]
                        == step.1[k]);
                }
                lemma_renewed_twice(entries, before_step.1, step.1, next);
            }
            let value = join_path_values(values, ctx, member_path_value, &path, location);
            joined.push((path, value));
            assert(ctx.variables@ =~= before.variables@ + path_variables(
                before.db,
                before.semantic_defs@,
                before_step.1 + step.1,
                location,
            ));
        }
        i = i + 1;
    }
    assert(first.take(i as int) =~= first);
    SemanticLoweringMapping { entries: joined }
}

/// Given builders, creates a single new one, and ends the blocks of all of them by going to the
/// block of the new one.
///
/// Where the semantic variables are in the new block:
///
/// * A variable that is in the same lowered variable in all the blocks stays there.
/// * A variable that only some of the blocks have is dropped.
/// * A variable that is in different lowered variables gets a new one.
///
/// A single builder is returned as it is, and no block is created.
pub fn merge_block_builders(
    ctx: &mut LoweringContext,
    parent_builders: Vec<BlockBuilder>,
    location: LocationId,
) -> (res: BlockBuilder)
    requires
        join(*old(ctx), builder_views(parent_builders@), location).ok,
    ensures
        ({
            let j = join(*old(ctx), builder_views(parent_builders@), location);
            &&& res@ == j.builder
            &&& final(ctx).variables@ == j.variables
            &&& final(ctx).blocks@ == j.blocks
        }),
        same_inputs(*old(ctx), *final(ctx)),
        final(ctx).diagnostics@ == old(ctx).diagnostics@,
{
    let ghost views = builder_views(parent_builders@);
    if parent_builders.len() == 1 {
        let mut builders = parent_builders;
        let builder = builders.pop().unwrap();
        assert(builder@ == views[0]);
        return builder;
    }
    let mut member_path_value = path_vars_new();
    proof {
        let next = ctx.variables@.len();
        let (semantics, paths) = join_mappings(mappings_of(views), next);
        lemma_close_blocks_prefix(
            ctx.db,
            Closed {
                variables: ctx.variables@ + path_variables(
                    ctx.db,
                    ctx.semantic_defs@,
                    paths,
                    location,
                ),
                blocks: ctx.blocks@.push(None),
                ok: all_typed(ctx.db, ctx.semantic_defs@, paths),
            },
            sealed_without_value(views),
            BlockId(ctx.blocks@.len() as usize),
            None,
            renewed(Seq::empty(), paths, next),
            location,
            0,
        );
    }
    let semantics = merge_semantics(&parent_builders, ctx, &mut member_path_value, location);
    let semantic_remapping = SemanticRemapping { expr: None, member_path_value };
    let block_id = ctx.blocks.alloc_empty();
    let mut sealed_blocks: Vec<SealedBlockBuilder> = Vec::new();
    for parent_builder in it: parent_builders
        invariant
            views == builder_views(it.seq()),
            sealed_blocks@.len() == it.index(),
            forall|k: int|
                0 <= k < it.index() ==> (#[trigger] sealed_blocks@[k])@ == sealed_without_value(
                    views,
                )[k],
    {
        assert(views[it.index()] == parent_builder@);
        sealed_blocks.push(parent_builder.goto_callsite(None));
    }
    assert(sealed_views(sealed_blocks@) =~= sealed_without_value(views));
    finalize_all(sealed_blocks, ctx, block_id, &semantic_remapping, location);
    let mut builder = BlockBuilder::root(block_id);
    builder.semantics = semantics;
    builder
}

} // verus!
