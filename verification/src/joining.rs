//! The joining of block builders into one, as functions of the state.
use vstd::prelude::*;

use crate::context::{path_ty, LoweringContext, StructTable};
use crate::ids::{BlockId, ConcreteStructId, LocationId, VariableId};
use crate::member_path::MemberPath;
use crate::merge::{close_blocks, member_of, Closed, SealedView};
use crate::objects::{BlockView, Variable};
use crate::ordered::{has_key, inserted, value_of};
use crate::refs::{Members, Value};
use crate::state::{root_builder, BuilderView};
use crate::types::Type;

verus! {

/// Whether two lists are of the same members.
pub open spec fn same_members(a: Members, b: Members) -> bool
    decreases a,
{
    match (a, b) {
        (Members::Nil, Members::Nil) => true,
        (
            Members::Cons { member_id: a_id, rest: a_rest, .. },
            Members::Cons { member_id: b_id, rest: b_rest, .. },
        ) => a_id == b_id && same_members(*a_rest, *b_rest),
        _ => false,
    }
}

/// The lists behind their first members.
pub open spec fn rests(lists: Seq<Members>) -> Seq<Members> {
    lists.map_values(|members: Members| *members->rest)
}

/// The values of the first members.
pub open spec fn heads(lists: Seq<Members>) -> Seq<Value> {
    lists.map_values(|members: Members| *members->value)
}

/// The members of scattered values.
pub open spec fn member_lists(values: Seq<Value>) -> Seq<Members> {
    values.map_values(|value: Value| *value->members)
}

/// Whether all the values are the same.
pub open spec fn all_same(values: Seq<Value>) -> bool {
    forall|i: int| 0 <= i < values.len() ==> #[trigger] values[i] == values[0]
}

/// Whether the lists are of the same members.
pub open spec fn aligned(lists: Seq<Members>) -> bool {
    forall|i: int| 0 <= i < lists.len() ==> same_members(lists[0], #[trigger] lists[i])
}

/// Whether all the values are scattered over the members of one struct.
pub open spec fn scattered_alike(values: Seq<Value>) -> bool {
    &&& forall|i: int|
        0 <= i < values.len() ==> (#[trigger] values[i]) is Scattered
            && values[i]->concrete_struct_id == values[0]->concrete_struct_id
    &&& aligned(member_lists(values))
}

/// Joins the values that a path has in several blocks. A value that is the same in all of them is
/// kept, one that is scattered alike in all of them is joined member by member, any other gets the
/// next new variable. Returned are the joined value and the paths that got a new variable, in the
/// order of those.
pub open spec fn join_values(values: Seq<Value>, path: MemberPath, next: nat) -> (
    Value,
    Seq<MemberPath>,
)
    decreases values[0],
    when values.len() > 0
{
    if all_same(values) {
        (values[0], Seq::empty())
    } else if scattered_alike(values) {
        let concrete_struct_id = values[0]->concrete_struct_id;
        let (members, paths) = join_members(
            member_lists(values),
            concrete_struct_id,
            path,
            next,
        );
        (Value::Scattered { concrete_struct_id, members: Box::new(members) }, paths)
    } else {
        (Value::Var(VariableId(next as usize)), seq![path])
    }
}

/// Joins lists of the same members, member by member.
pub open spec fn join_members(
    lists: Seq<Members>,
    concrete_struct_id: ConcreteStructId,
    path: MemberPath,
    next: nat,
) -> (Members, Seq<MemberPath>)
    decreases lists[0],
    when lists.len() > 0
{
    match lists[0] {
        Members::Nil => (Members::Nil, Seq::empty()),
        Members::Cons { member_id, .. } => {
            let (value, paths) = join_values(
                heads(lists),
                member_of(path, member_id, concrete_struct_id),
                next,
            );
            let (rest, rest_paths) = join_members(
                rests(lists),
                concrete_struct_id,
                path,
                next + paths.len(),
            );
            (
                Members::Cons { member_id, value: Box::new(value), rest: Box::new(rest) },
                paths + rest_paths,
            )
        },
    }
}

/// The values of a path in several mappings.
pub open spec fn values_at(mappings: Seq<Seq<(MemberPath, Value)>>, path: MemberPath) -> Seq<
    Value,
> {
    mappings.map_values(|entries: Seq<(MemberPath, Value)>| value_of(entries, path).unwrap())
}

/// Whether each of the mappings has an entry for the path.
pub open spec fn in_all(mappings: Seq<Seq<(MemberPath, Value)>>, path: MemberPath) -> bool {
    forall|i: int| 0 <= i < mappings.len() ==> has_key(#[trigger] mappings[i], path)
}

/// Joins the given entries of the first of several mappings with those of the others. An entry
/// that some mapping lacks is left out.
pub open spec fn join_entries(
    mappings: Seq<Seq<(MemberPath, Value)>>,
    entries: Seq<(MemberPath, Value)>,
    next: nat,
) -> (Seq<(MemberPath, Value)>, Seq<MemberPath>)
    decreases entries.len(),
{
    if entries.len() == 0 {
        (Seq::empty(), Seq::empty())
    } else {
        let (joined, paths) = join_entries(mappings, entries.drop_last(), next);
        let path = entries.last().0;
        if in_all(mappings, path) {
            let (value, more) = join_values(
                values_at(mappings, path),
                path,
                next + paths.len(),
            );
            (joined.push((path, value)), paths + more)
        } else {
            (joined, paths)
        }
    }
}

/// Joins several mappings.
pub open spec fn join_mappings(mappings: Seq<Seq<(MemberPath, Value)>>, next: nat) -> (
    Seq<(MemberPath, Value)>,
    Seq<MemberPath>,
) {
    if mappings.len() == 0 {
        (Seq::empty(), Seq::empty())
    } else {
        join_entries(mappings, mappings[0], next)
    }
}

/// The entries after each of the paths was given a new variable, in their order: `next` is the
/// first of those.
pub open spec fn renewed(
    entries: Seq<(MemberPath, VariableId)>,
    paths: Seq<MemberPath>,
    next: nat,
) -> Seq<(MemberPath, VariableId)>
    decreases paths.len(),
{
    if paths.len() == 0 {
        entries
    } else {
        inserted(
            renewed(entries, paths.drop_last(), next),
            paths.last(),
            VariableId((next + paths.len() - 1) as usize),
        )
    }
}

/// The new variables of the paths.
pub open spec fn path_variables(
    db: StructTable,
    defs: Map<u64, Type>,
    paths: Seq<MemberPath>,
    location: LocationId,
) -> Seq<Variable> {
    paths.map_values(
        |path: MemberPath| Variable { ty: path_ty(db, defs, path).unwrap(), location },
    )
}

/// Whether each of the paths has a type.
pub open spec fn all_typed(db: StructTable, defs: Map<u64, Type>, paths: Seq<MemberPath>) -> bool {
    forall|i: int| 0 <= i < paths.len() ==> path_ty(db, defs, #[trigger] paths[i]) is Some
}

/// The mappings of builders.
pub open spec fn mappings_of(builders: Seq<BuilderView>) -> Seq<Seq<(MemberPath, Value)>> {
    builders.map_values(|builder: BuilderView| builder.semantics)
}

/// The builders, each sealed so that its block goes on without a value.
pub open spec fn sealed_without_value(builders: Seq<BuilderView>) -> Seq<SealedView> {
    builders.map_values(
        |builder: BuilderView| SealedView::GotoCallsite { builder, expr: None },
    )
}

/// The outcome of joining builders.
#[verifier::ext_equal]
pub struct Joined {
    pub variables: Seq<Variable>,
    pub blocks: Seq<Option<BlockView>>,
    /// The builder that goes on.
    pub builder: BuilderView,
    pub ok: bool,
}

/// Joins builders: the block of each goes to a new one, whose builder has the joined mappings. A
/// single builder goes on itself.
pub open spec fn join(
    ctx: LoweringContext,
    builders: Seq<BuilderView>,
    location: LocationId,
) -> Joined {
    if builders.len() == 1 {
        Joined { variables: ctx.variables@, blocks: ctx.blocks@, builder: builders[0], ok: true }
    } else {
        let next = ctx.variables@.len();
        let (semantics, paths) = join_mappings(mappings_of(builders), next);
        let block_id = BlockId(ctx.blocks@.len() as usize);
        let closed = close_blocks(
            ctx.db,
            Closed {
                variables: ctx.variables@ + path_variables(
                    ctx.db,
                    ctx.semantic_defs@,
                    paths,
                    location,
                ),
                blocks: ctx.blocks@.push(None),
                ok: all_typed(ctx.db, ctx.semantic_defs@, paths),
            },
            sealed_without_value(builders),
            block_id,
            None,
            renewed(Seq::empty(), paths, next),
            location,
        );
        Joined {
            variables: closed.variables,
            blocks: closed.blocks,
            builder: BuilderView { semantics, ..root_builder(block_id) },
            ok: closed.ok && forall|i: int|
                0 <= i < builders.len() ==> (#[trigger] builders[i]).snapped.len() == 0,
        }
    }
}

/// New variables for some paths and then for more of them are new variables for all of them.
pub(crate) proof fn lemma_renewed_twice(
    entries: Seq<(MemberPath, VariableId)>,
    first: Seq<MemberPath>,
    second: Seq<MemberPath>,
    next: nat,
)
    ensures
        renewed(renewed(entries, first, next), second, next + first.len()) == renewed(
            entries,
            first + second,
            next,
        ),
    decreases second.len(),
{
    if second.len() > 0 {
        lemma_renewed_twice(entries, first, second.drop_last(), next);
        assert((first + second).drop_last() =~= first + second.drop_last());
    } else {
        assert(first + second =~= first);
    }
}

/// The paths that the first entries renew are the first of those that all the entries renew.
pub(crate) proof fn lemma_join_entries_prefix(
    mappings: Seq<Seq<(MemberPath, Value)>>,
    entries: Seq<(MemberPath, Value)>,
    next: nat,
    n: int,
)
    requires
        0 <= n <= entries.len(),
    ensures
        join_entries(mappings, entries.take(n), next).1.is_prefix_of(
            join_entries(mappings, entries, next).1,
        ),
    decreases entries.len(),
{
    if n < entries.len() {
        lemma_join_entries_prefix(mappings, entries.drop_last(), next, n);
        assert(entries.drop_last().take(n) =~= entries.take(n));
        assert(join_entries(mappings, entries.drop_last(), next).1.is_prefix_of(
            join_entries(mappings, entries, next).1,
        ));
    } else {
        assert(entries.take(n) =~= entries);
    }
}

} // verus!
