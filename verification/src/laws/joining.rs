//! Laws of the joining of block builders.
use vstd::prelude::*;

use crate::context::{path_ty, LoweringContext, StructTable};
use crate::ids::{BlockId, ConcreteStructId, LocationId, VariableId};
use crate::joining::{
    aligned, all_same, all_typed, heads, in_all, join, join_entries, join_mappings, join_members,
    join_values, mappings_of, member_lists, path_variables, renewed, rests, same_members,
    scattered_alike, sealed_without_value, values_at, Joined,
};
use crate::laws::emission::{entries_in_scope, in_scope, members_in_scope};
use crate::laws::mapping::{
    are_siblings, is_prefix, lemma_prefix_root, lemma_prefix_trans, lemma_siblings_not_on_one_path,
    root,
};
use crate::laws::meaning::{
    all_hold, contents, contents_at, distinct_members, ids_of, lemma_contents_len,
    lemma_member_position_is, member_contents, member_index, members_fit, path_fits, value_fits,
    Contents, Shape, Valuation,
};
use crate::laws::merging::{
    distinct_blocks, handed_over, law_blocks_are_closed, law_remap_contents,
    lemma_close_blocks_variables, rooted, well_shaped,
};
use crate::laws::progress::{is_subscope, lemma_close_ok, variables_typed};
use crate::member_path::{is_ancestor, MemberPath};
use crate::merge::{close_blocks, lemma_close_blocks_prefix, member_of, Closed};
use crate::objects::{BlockEndView, BlockView, VarUsage};
use crate::ordered::{has_key, lemma_position, lemma_position_is, position, unique_keys, value_of};
use crate::recomposer::member_ids;
use crate::refs::{Members, Value};
use crate::state::{BuilderView, Outcome, State};

verus! {

// Where the semantic variables are.

/// What the entries of the first mapping come to be.
pub(crate) proof fn lemma_join_entries(
    mappings: Seq<Seq<(MemberPath, Value)>>,
    entries: Seq<(MemberPath, Value)>,
    next: nat,
    key: MemberPath,
)
    requires
        unique_keys(entries),
    ensures
        ({
            let (joined, paths) = join_entries(mappings, entries, next);
            &&& has_key(joined, key) == (has_key(entries, key) && in_all(mappings, key))
            &&& unique_keys(joined)
            &&& has_key(joined, key) ==> exists|n: int|
                0 <= n <= paths.len() && {
                    let j = #[trigger] join_values(
                        values_at(mappings, key),
                        key,
                        (next + n) as nat,
                    );
                    &&& value_of(joined, key) == Some(j.0)
                    &&& n + j.1.len() <= paths.len()
                    &&& j.1 == paths.subrange(n, n + j.1.len())
                }
        }),
    decreases entries.len(),
{
    if entries.len() > 0 {
        let rest = entries.drop_last();
        let last = entries.last().0;
        assert(unique_keys(rest)) by {
            assert forall|i: int, j: int| 0 <= i < j < rest.len() implies (
            #[trigger] rest[i]).0 != (#[trigger] rest[j]).0 by {
                assert(entries[i].0 != entries[j].0);
            }
        }
        lemma_join_entries(mappings, rest, next, key);
        lemma_join_entries(mappings, rest, next, last);
        let (before, before_paths) = join_entries(mappings, rest, next);
        let (joined, paths) = join_entries(mappings, entries, next);
        lemma_position(rest, key);
        lemma_position(rest, last);
        lemma_position(entries, key);
        lemma_position(before, key);
        lemma_position(before, last);
        lemma_position(joined, key);
        assert(!has_key(rest, last)) by {
            if let Some(i) = position(rest, last) {
                assert(entries[i].0 == entries[entries.len() - 1].0);
            }
        }
        assert(has_key(entries, key) == (has_key(rest, key) || key == last)) by {
            assert(entries[entries.len() - 1].0 == last);
            if let Some(i) = position(rest, key) {
                assert(entries[i] == rest[i]);
            }
            if let Some(i) = position(entries, key) {
                if i < rest.len() {
                    assert(entries[i] == rest[i]);
                }
            }
        }
        if in_all(mappings, last) {
            let n = before_paths.len() as int;
            let step = join_values(values_at(mappings, last), last, (next + n) as nat);
            assert(paths =~= before_paths + step.1);
            assert(joined =~= before.push((last, step.0)));
            if key == last {
                assert(joined[before.len() as int].0 == key);
                lemma_position_is(joined, before.len() as int);
                assert(step.1 =~= paths.subrange(n, n + step.1.len()));
            } else if has_key(before, key) {
                let i = position(before, key).unwrap();
                assert(joined[i] == before[i]);
                assert forall|j: int| 0 <= j < i implies (#[trigger] joined[j]).0
                    != joined[i].0 by {
                    assert(joined[j] == before[j]);
                }
                lemma_position_is(joined, i);
                let m = choose|m: int|
                    0 <= m <= before_paths.len() && {
                        let j = #[trigger] join_values(
                            values_at(mappings, key),
                            key,
                            (next + m) as nat,
                        );
                        &&& value_of(before, key) == Some(j.0)
                        &&& m + j.1.len() <= before_paths.len()
                        &&& j.1 == before_paths.subrange(m, m + j.1.len())
                    };
                let j = join_values(values_at(mappings, key), key, (next + m) as nat);
                assert(j.1 =~= paths.subrange(m, m + j.1.len()));
            } else if let Some(i) = position(joined, key) {
                if i < before.len() {
                    assert(joined[i] == before[i]);
                }
            }
            assert(unique_keys(joined)) by {
                assert forall|i: int, j: int| 0 <= i < j < joined.len() implies (
                #[trigger] joined[i]).0 != (#[trigger] joined[j]).0 by {
                    if j == before.len() {
                        assert(before[i].0 != last);
                    }
                }
            }
        } else {
            assert(paths == before_paths);
        }
    }
}

/// A variable is in the joined mapping if and only if all the blocks have it: those that only some
/// of them have are dropped.
pub proof fn law_join_keeps_common_variables(
    mappings: Seq<Seq<(MemberPath, Value)>>,
    next: nat,
    key: MemberPath,
)
    requires
        mappings.len() > 0,
        unique_keys(mappings[0]),
    ensures
        has_key(join_mappings(mappings, next).0, key) == in_all(mappings, key),
        unique_keys(join_mappings(mappings, next).0),
{
    lemma_join_entries(mappings, mappings[0], next, key);
    if in_all(mappings, key) {
        assert(has_key(mappings[0], key));
    }
}

/// A variable that is in the same lowered variables in all the blocks stays there.
pub proof fn law_join_keeps_same(
    mappings: Seq<Seq<(MemberPath, Value)>>,
    next: nat,
    key: MemberPath,
)
    requires
        mappings.len() > 0,
        unique_keys(mappings[0]),
        in_all(mappings, key),
        all_same(values_at(mappings, key)),
    ensures
        value_of(join_mappings(mappings, next).0, key) == value_of(mappings[0], key),
{
    lemma_join_entries(mappings, mappings[0], next, key);
    assert(has_key(mappings[0], key));
    assert(values_at(mappings, key)[0] == value_of(mappings[0], key).unwrap());
}

/// A variable that is in different lowered variables gets a new one, for its own path. So does one
/// that is as a whole in a variable in one block and scattered in another.
pub proof fn law_join_renews_different(
    mappings: Seq<Seq<(MemberPath, Value)>>,
    next: nat,
    key: MemberPath,
    i: int,
    j: int,
)
    requires
        mappings.len() > 0,
        unique_keys(mappings[0]),
        in_all(mappings, key),
        0 <= i < mappings.len(),
        0 <= j < mappings.len(),
        value_of(mappings[i], key) != value_of(mappings[j], key),
        value_of(mappings[i], key).unwrap() is Var,
        next + join_mappings(mappings, next).1.len() <= usize::MAX,
    ensures
        ({
            let (joined, paths) = join_mappings(mappings, next);
            exists|n: int|
                0 <= n < paths.len() && #[trigger] paths[n] == key && value_of(joined, key)
                    == Some(Value::Var(VariableId((next + n) as usize))) && (next + n) as usize
                    == next + n
        }),
{
    let values = values_at(mappings, key);
    let (joined, paths) = join_mappings(mappings, next);
    lemma_join_entries(mappings, mappings[0], next, key);
    assert(has_key(mappings[0], key));
    assert(has_key(mappings[i], key));
    assert(has_key(mappings[j], key));
    assert(values[i] == value_of(mappings[i], key).unwrap());
    assert(values[j] == value_of(mappings[j], key).unwrap());
    assert(!all_same(values)) by {
        if all_same(values) {
            assert(values[i] == values[0]);
            assert(values[j] == values[0]);
        }
    }
    assert(!scattered_alike(values)) by {
        if scattered_alike(values) {
            assert(values[i] is Scattered);
        }
    }
    let n = choose|n: int|
        0 <= n <= paths.len() && {
            let v = #[trigger] join_values(values, key, (next + n) as nat);
            &&& value_of(joined, key) == Some(v.0)
            &&& n + v.1.len() <= paths.len()
            &&& v.1 == paths.subrange(n, n + v.1.len())
        };
    let v = join_values(values, key, (next + n) as nat);
    assert(v.1[0] == key);
    assert(paths[n] == key);
}

/// A single builder is returned as it is, and nothing happens to the function.
pub proof fn law_join_of_one(ctx: LoweringContext, builder: BuilderView, location: LocationId)
    ensures
        join(ctx, seq![builder], location) == (Joined {
            variables: ctx.variables@,
            blocks: ctx.blocks@,
            builder,
            ok: true,
        }),
{
}

/// Without any builder a new block is made, with an empty builder for it, and nothing else happens.
pub proof fn law_join_of_none(ctx: LoweringContext, location: LocationId)
    requires
        ctx.blocks@.len() <= usize::MAX,
    ensures
        ({
            let j = join(ctx, Seq::empty(), location);
            &&& j.ok
            &&& j.variables == ctx.variables@
            &&& j.blocks == ctx.blocks@.push(None)
            &&& j.builder.block_id.0 == ctx.blocks@.len()
            &&& j.builder.semantics.len() == 0
            &&& j.builder.statements.len() == 0
        }),
{
    let j = join(ctx, Seq::empty(), location);
    assert(mappings_of(Seq::empty()).len() == 0);
    assert(j.variables =~= ctx.variables@);
}

/// A joined builder starts empty but for its mapping, at a new block.
pub proof fn law_joined_starts_empty(
    ctx: LoweringContext,
    builders: Seq<BuilderView>,
    location: LocationId,
)
    requires
        builders.len() != 1,
        ctx.blocks@.len() <= usize::MAX,
    ensures
        ({
            let joined = join(ctx, builders, location).builder;
            &&& joined.snapped.len() == 0
            &&& joined.changed.len() == 0
            &&& joined.statements.len() == 0
            &&& joined.block_id.0 == ctx.blocks@.len()
        }),
{
}

// The paths that get new variables.

/// The paths that get a new variable are at or below the joined path, and none occurs twice.
proof fn lemma_join_values_paths(values: Seq<Value>, path: MemberPath, next: nat)
    requires
        values.len() > 0,
        forall|i: int| 0 <= i < values.len() ==> ids_distinct(#[trigger] values[i]),
    ensures
        ({
            let paths = join_values(values, path, next).1;
            &&& paths.no_duplicates()
            &&& forall|i: int| 0 <= i < paths.len() ==> is_prefix(path, #[trigger] paths[i])
        }),
    decreases values[0],
{
    if !all_same(values) && scattered_alike(values) {
        let concrete_struct_id = values[0]->concrete_struct_id;
        let lists = member_lists(values);
        assert forall|i: int| 0 <= i < lists.len() implies member_ids_distinct(
            #[trigger] lists[i],
        ) by {
            assert(ids_distinct(values[i]));
            assert(values[i] is Scattered);
        }
        lemma_join_members_paths(lists, concrete_struct_id, path, next);
        let paths = join_values(values, path, next).1;
        assert forall|i: int| 0 <= i < paths.len() implies is_prefix(path, #[trigger] paths[i]) by {
            let k = choose|k: int|
                0 <= k < ids_of(lists[0]).len() && is_prefix(
                    #[trigger] member_of(path, ids_of(lists[0])[k], concrete_struct_id),
                    paths[i],
                );
            let member_path = member_of(path, ids_of(lists[0])[k], concrete_struct_id);
            assert(is_ancestor(path, member_path));
            lemma_prefix_trans(path, member_path, paths[i]);
        }
    }
}

/// Whether no member occurs twice in a value.
pub open spec fn ids_distinct(value: Value) -> bool
    decreases value,
{
    match value {
        Value::Var(_) => true,
        Value::Scattered { members, .. } => member_ids_distinct(*members),
    }
}

/// Whether no member occurs twice in members or their values.
pub open spec fn member_ids_distinct(members: Members) -> bool
    decreases members,
{
    match members {
        Members::Nil => true,
        Members::Cons { member_id, value, rest } => {
            &&& ids_distinct(*value)
            &&& !ids_of(*rest).contains(member_id)
            &&& member_ids_distinct(*rest)
        },
    }
}

/// The paths that get a new variable are each at or below a member.
proof fn lemma_join_members_paths(
    lists: Seq<Members>,
    concrete_struct_id: ConcreteStructId,
    path: MemberPath,
    next: nat,
)
    requires
        lists.len() > 0,
        aligned(lists),
        forall|i: int| 0 <= i < lists.len() ==> member_ids_distinct(#[trigger] lists[i]),
    ensures
        ({
            let paths = join_members(lists, concrete_struct_id, path, next).1;
            &&& paths.no_duplicates()
            &&& forall|i: int|
                0 <= i < paths.len() ==> exists|k: int|
                    0 <= k < ids_of(lists[0]).len() && is_prefix(
                        #[trigger] member_of(path, ids_of(lists[0])[k], concrete_struct_id),
                        #[trigger] paths[i],
                    )
        }),
    decreases lists[0],
{
    if let Members::Cons { member_id, rest, .. } = lists[0] {
        let member_path = member_of(path, member_id, concrete_struct_id);
        let first = join_values(heads(lists), member_path, next);
        let second = join_members(rests(lists), concrete_struct_id, path, next + first.1.len());
        let paths = join_members(lists, concrete_struct_id, path, next).1;
        assert forall|i: int| 0 <= i < lists.len() implies (#[trigger] lists[i]) is Cons by {
            assert(same_members(lists[0], lists[i]));
        }
        assert forall|i: int| 0 <= i < heads(lists).len() implies ids_distinct(
            #[trigger] heads(lists)[i],
        ) by {
            assert(member_ids_distinct(lists[i]));
        }
        assert forall|i: int| 0 <= i < rests(lists).len() implies member_ids_distinct(
            #[trigger] rests(lists)[i],
        ) by {
            assert(member_ids_distinct(lists[i]));
        }
        assert forall|i: int| 0 <= i < rests(lists).len() implies same_members(
            rests(lists)[0],
            #[trigger] rests(lists)[i],
        ) by {
            assert(same_members(lists[0], lists[i]));
        }
        lemma_join_values_paths(heads(lists), member_path, next);
        lemma_join_members_paths(
            rests(lists),
            concrete_struct_id,
            path,
            next + first.1.len(),
        );
        assert(paths =~= first.1 + second.1);
        let ids = ids_of(lists[0]);
        assert(ids =~= seq![member_id] + ids_of(*rest));
        assert(rests(lists)[0] == *rest);
        assert(member_ids_distinct(lists[0]));
        assert forall|i: int| 0 <= i < paths.len() implies exists|k: int|
            0 <= k < ids.len() && is_prefix(
                #[trigger] member_of(path, ids[k], concrete_struct_id),
                #[trigger] paths[i],
            ) by {
            if i < first.1.len() {
                assert(paths[i] == first.1[i]);
                assert(ids[0] == member_id);
                assert(is_prefix(member_of(path, ids[0], concrete_struct_id), paths[i]));
            } else {
                let i2 = i - first.1.len();
                assert(paths[i] == second.1[i2]);
                let k = choose|k: int|
                    0 <= k < ids_of(*rest).len() && is_prefix(
                        #[trigger] member_of(path, ids_of(*rest)[k], concrete_struct_id),
                        second.1[i2],
                    );
                assert(ids[k + 1] == ids_of(*rest)[k]);
                assert(is_prefix(member_of(path, ids[k + 1], concrete_struct_id), paths[i]));
            }
        }
        assert forall|i: int, j: int| 0 <= i < j < paths.len() implies paths[i] != paths[j] by {
            if i < first.1.len() && j >= first.1.len() {
                let j2 = j - first.1.len();
                assert(paths[i] == first.1[i]);
                assert(paths[j] == second.1[j2]);
                let k = choose|k: int|
                    0 <= k < ids_of(*rest).len() && is_prefix(
                        #[trigger] member_of(path, ids_of(*rest)[k], concrete_struct_id),
                        second.1[j2],
                    );
                let other = member_of(path, ids_of(*rest)[k], concrete_struct_id);
                assert(ids_of(*rest).contains(ids_of(*rest)[k]));
                assert(are_siblings(member_path, other));
                lemma_siblings_not_on_one_path(member_path, other, paths[i]);
            } else if j < first.1.len() {
                assert(first.1[i] != first.1[j]);
            } else {
                assert(second.1[i - first.1.len()] != second.1[j - first.1.len()]);
            }
        }
    }
}

/// No member occurs twice in a fitting value.
proof fn lemma_fitting_is_distinct(db: StructTable, shape: Shape, path: MemberPath, value: Value)
    requires
        distinct_members(db),
        value_fits(db, shape, path, value),
    ensures
        ids_distinct(value),
    decreases value,
{
    if let Value::Scattered { concrete_struct_id, members } = value {
        lemma_fitting_members_are_distinct(db, shape, path, concrete_struct_id, *members);
    }
}

proof fn lemma_fitting_members_are_distinct(
    db: StructTable,
    shape: Shape,
    path: MemberPath,
    concrete_struct_id: ConcreteStructId,
    members: Members,
)
    requires
        distinct_members(db),
        members_fit(db, shape, path, concrete_struct_id, members),
        ids_of(members).no_duplicates(),
    ensures
        member_ids_distinct(members),
    decreases members,
{
    if let Members::Cons { member_id, value, rest } = members {
        let ids = ids_of(members);
        assert(ids =~= seq![member_id] + ids_of(*rest));
        assert forall|i: int, j: int| 0 <= i < j < ids_of(*rest).len() implies ids_of(*rest)[i]
            != ids_of(*rest)[j] by {
            assert(ids[i + 1] == ids_of(*rest)[i]);
            assert(ids[j + 1] == ids_of(*rest)[j]);
        }
        if ids_of(*rest).contains(member_id) {
            let i = choose|i: int| 0 <= i < ids_of(*rest).len() && ids_of(*rest)[i] == member_id;
            assert(ids[i + 1] == ids[0]);
        }
        lemma_fitting_is_distinct(
            db,
            shape,
            member_of(path, member_id, concrete_struct_id),
            *value,
        );
        lemma_fitting_members_are_distinct(db, shape, path, concrete_struct_id, *rest);
    }
}

/// The paths that get new variables are of variables that have entries, and none occurs twice.
pub(crate) proof fn lemma_join_entries_paths(
    db: StructTable,
    shape: Shape,
    mappings: Seq<Seq<(MemberPath, Value)>>,
    entries: Seq<(MemberPath, Value)>,
    next: nat,
)
    requires
        mappings.len() > 0,
        unique_keys(entries),
        rooted(entries),
        forall|j: int| 0 <= j < mappings.len() ==> well_shaped(db, shape, #[trigger] mappings[j]),
    ensures
        ({
            let paths = join_entries(mappings, entries, next).1;
            &&& paths.no_duplicates()
            &&& forall|i: int|
                0 <= i < paths.len() ==> has_key(
                    entries,
                    MemberPath::Var(root(#[trigger] paths[i])),
                )
        }),
    decreases entries.len(),
{
    if entries.len() > 0 {
        let rest = entries.drop_last();
        let key = entries.last().0;
        assert forall|k: MemberPath| #[trigger] has_key(rest, k) implies has_key(entries, k) by {
            lemma_position(rest, k);
            lemma_position(entries, k);
            let i = position(rest, k).unwrap();
            assert(entries[i] == rest[i]);
        }
        assert(unique_keys(rest)) by {
            assert forall|i: int, j: int| 0 <= i < j < rest.len() implies (
            #[trigger] rest[i]).0 != (#[trigger] rest[j]).0 by {
                assert(entries[i].0 != entries[j].0);
            }
        }
        lemma_join_entries_paths(db, shape, mappings, rest, next);
        lemma_position(entries, key);
        lemma_position(rest, key);
        assert(entries[entries.len() - 1].0 == key);
        assert(has_key(entries, key));
        assert(!has_key(rest, key)) by {
            if let Some(i) = position(rest, key) {
                assert(entries[i].0 == entries[entries.len() - 1].0);
            }
        }
        if in_all(mappings, key) {
            let before = join_entries(mappings, rest, next).1;
            let values = values_at(mappings, key);
            let more = join_values(values, key, next + before.len()).1;
            let paths = join_entries(mappings, entries, next).1;
            assert forall|j: int| 0 <= j < values.len() implies ids_distinct(
                #[trigger] values[j],
            ) by {
                assert(well_shaped(db, shape, mappings[j]));
                assert(has_key(mappings[j], key));
                assert(value_of(mappings[j], key) == Some(values[j]));
                lemma_fitting_is_distinct(db, shape, key, values[j]);
            }
            lemma_join_values_paths(values, key, next + before.len());
            assert(paths =~= before + more);
            assert forall|i: int| 0 <= i < paths.len() implies has_key(
                entries,
                MemberPath::Var(root(#[trigger] paths[i])),
            ) && (i >= before.len() ==> MemberPath::Var(root(paths[i])) == key) by {
                if i < before.len() {
                    assert(paths[i] == before[i]);
                } else {
                    assert(paths[i] == more[i - before.len()]);
                    lemma_prefix_root(key, paths[i]);
                }
            }
            assert forall|i: int, j: int| 0 <= i < j < paths.len() implies paths[i]
                != paths[j] by {
                if j < before.len() {
                    assert(before[i] != before[j]);
                } else if i >= before.len() {
                    assert(more[i - before.len()] != more[j - before.len()]);
                } else {
                    assert(paths[i] == before[i]);
                    assert(has_key(rest, MemberPath::Var(root(before[i]))));
                }
            }
        }
    }
}

/// The paths that get new variables fit.
proof fn lemma_join_values_fit(
    db: StructTable,
    shape: Shape,
    values: Seq<Value>,
    path: MemberPath,
    next: nat,
)
    requires
        distinct_members(db),
        values.len() > 0,
        path_fits(db, shape, path),
        value_fits(db, shape, path, values[0]),
    ensures
        ({
            let paths = join_values(values, path, next).1;
            forall|i: int| 0 <= i < paths.len() ==> path_fits(db, shape, #[trigger] paths[i])
        }),
    decreases values[0],
{
    if !all_same(values) && scattered_alike(values) {
        let lists = member_lists(values);
        let concrete_struct_id = values[0]->concrete_struct_id;
        assert(values[0] is Scattered);
        assert(lists[0] == *values[0]->members);
        let declared = db.members(concrete_struct_id).unwrap();
        assert forall|k: int| 0 <= k < ids_of(lists[0]).len() implies path_fits(
            db,
            shape,
            #[trigger] member_of(path, ids_of(lists[0])[k], concrete_struct_id),
        ) by {
            lemma_member_position_is(declared, ids_of(lists[0])[k]);
            assert(member_ids(declared)[k] == ids_of(lists[0])[k]);
        }
        lemma_join_members_fit(db, shape, lists, concrete_struct_id, path, next);
        assert(join_values(values, path, next).1 == join_members(
            lists,
            concrete_struct_id,
            path,
            next,
        ).1);
    } else if !all_same(values) {
        assert(join_values(values, path, next).1 =~= seq![path]);
    }
}

proof fn lemma_join_members_fit(
    db: StructTable,
    shape: Shape,
    lists: Seq<Members>,
    concrete_struct_id: ConcreteStructId,
    path: MemberPath,
    next: nat,
)
    requires
        distinct_members(db),
        lists.len() > 0,
        members_fit(db, shape, path, concrete_struct_id, lists[0]),
        forall|k: int|
            0 <= k < ids_of(lists[0]).len() ==> path_fits(
                db,
                shape,
                #[trigger] member_of(path, ids_of(lists[0])[k], concrete_struct_id),
            ),
    ensures
        ({
            let paths = join_members(lists, concrete_struct_id, path, next).1;
            forall|i: int| 0 <= i < paths.len() ==> path_fits(db, shape, #[trigger] paths[i])
        }),
    decreases lists[0],
{
    if let Members::Cons { member_id, value, rest } = lists[0] {
        let member_path = member_of(path, member_id, concrete_struct_id);
        let first = join_values(heads(lists), member_path, next);
        let second = join_members(rests(lists), concrete_struct_id, path, next + first.1.len());
        let paths = join_members(lists, concrete_struct_id, path, next).1;
        let ids = ids_of(lists[0]);
        assert(ids =~= seq![member_id] + ids_of(*rest));
        assert(ids[0] == member_id);
        assert(heads(lists)[0] == *value);
        assert(rests(lists)[0] == *rest);
        assert(path_fits(db, shape, member_of(path, ids[0], concrete_struct_id)));
        lemma_join_values_fit(db, shape, heads(lists), member_path, next);
        assert forall|k: int| 0 <= k < ids_of(*rest).len() implies path_fits(
            db,
            shape,
            #[trigger] member_of(path, ids_of(*rest)[k], concrete_struct_id),
        ) by {
            assert(ids[k + 1] == ids_of(*rest)[k]);
            assert(path_fits(db, shape, member_of(path, ids[k + 1], concrete_struct_id)));
        }
        lemma_join_members_fit(
            db,
            shape,
            rests(lists),
            concrete_struct_id,
            path,
            next + first.1.len(),
        );
        assert(paths =~= first.1 + second.1);
        assert forall|i: int| 0 <= i < paths.len() implies path_fits(
            db,
            shape,
            #[trigger] paths[i],
        ) by {
            if i < first.1.len() {
                assert(paths[i] == first.1[i]);
            } else {
                assert(paths[i] == second.1[i - first.1.len()]);
            }
        }
    }
}

proof fn lemma_join_entries_fit(
    db: StructTable,
    shape: Shape,
    mappings: Seq<Seq<(MemberPath, Value)>>,
    entries: Seq<(MemberPath, Value)>,
    next: nat,
)
    requires
        mappings.len() > 0,
        rooted(entries),
        well_shaped(db, shape, mappings[0]),
    ensures
        ({
            let paths = join_entries(mappings, entries, next).1;
            forall|i: int|
                0 <= i < paths.len() ==> path_fits(db, shape, #[trigger] paths[i]) && in_all(
                    mappings,
                    MemberPath::Var(root(paths[i])),
                )
        }),
    decreases entries.len(),
{
    if entries.len() > 0 {
        let rest = entries.drop_last();
        let key = entries.last().0;
        assert forall|k: MemberPath| #[trigger] has_key(rest, k) implies k is Var by {
            lemma_position(rest, k);
            lemma_position(entries, k);
            let i = position(rest, k).unwrap();
            assert(entries[i] == rest[i]);
            assert(has_key(entries, k));
        }
        lemma_join_entries_fit(db, shape, mappings, rest, next);
        lemma_position(entries, key);
        assert(entries[entries.len() - 1].0 == key);
        assert(has_key(entries, key));
        if in_all(mappings, key) {
            let before = join_entries(mappings, rest, next).1;
            let values = values_at(mappings, key);
            let more = join_values(values, key, next + before.len()).1;
            let paths = join_entries(mappings, entries, next).1;
            assert(has_key(mappings[0], key));
            assert(value_of(mappings[0], key) == Some(values[0]));
            lemma_join_values_fit(db, shape, values, key, next + before.len());
            lemma_join_values_below(values, key, next + before.len());
            assert(paths =~= before + more);
            assert forall|i: int| 0 <= i < paths.len() implies path_fits(
                db,
                shape,
                #[trigger] paths[i],
            ) && in_all(mappings, MemberPath::Var(root(paths[i]))) by {
                if i < before.len() {
                    assert(paths[i] == before[i]);
                } else {
                    assert(paths[i] == more[i - before.len()]);
                }
            }
        } else {
            assert(join_entries(mappings, entries, next) == join_entries(mappings, rest, next));
        }
    }
}

/// The paths that get new variables are of the variable that is joined.
proof fn lemma_join_values_below(values: Seq<Value>, path: MemberPath, next: nat)
    requires
        values.len() > 0,
    ensures
        ({
            let paths = join_values(values, path, next).1;
            forall|i: int| 0 <= i < paths.len() ==> root(#[trigger] paths[i]) == root(path)
        }),
    decreases values[0],
{
    if !all_same(values) && scattered_alike(values) {
        let lists = member_lists(values);
        let concrete_struct_id = values[0]->concrete_struct_id;
        assert(values[0] is Scattered);
        lemma_join_members_below(lists, concrete_struct_id, path, next);
        assert(join_values(values, path, next).1 == join_members(
            lists,
            concrete_struct_id,
            path,
            next,
        ).1);
    } else if !all_same(values) {
        assert(join_values(values, path, next).1 =~= seq![path]);
    }
}

proof fn lemma_join_members_below(
    lists: Seq<Members>,
    concrete_struct_id: ConcreteStructId,
    path: MemberPath,
    next: nat,
)
    requires
        lists.len() > 0,
    ensures
        ({
            let paths = join_members(lists, concrete_struct_id, path, next).1;
            forall|i: int| 0 <= i < paths.len() ==> root(#[trigger] paths[i]) == root(path)
        }),
    decreases lists[0],
{
    if let Members::Cons { member_id, .. } = lists[0] {
        let member_path = member_of(path, member_id, concrete_struct_id);
        let first = join_values(heads(lists), member_path, next);
        let second = join_members(rests(lists), concrete_struct_id, path, next + first.1.len());
        let paths = join_members(lists, concrete_struct_id, path, next).1;
        lemma_join_values_below(heads(lists), member_path, next);
        lemma_join_members_below(
            rests(lists),
            concrete_struct_id,
            path,
            next + first.1.len(),
        );
        assert(paths =~= first.1 + second.1);
        assert forall|i: int| 0 <= i < paths.len() implies root(#[trigger] paths[i]) == root(
            path,
        ) by {
            if i < first.1.len() {
                assert(paths[i] == first.1[i]);
            } else {
                assert(paths[i] == second.1[i - first.1.len()]);
            }
        }
    }
}

/// Different paths are renewed one after the other.
pub(crate) proof fn lemma_renewed_distinct(paths: Seq<MemberPath>, next: nat)
    requires
        paths.no_duplicates(),
    ensures
        renewed(Seq::empty(), paths, next) == Seq::new(
            paths.len(),
            |k: int| (paths[k], VariableId((next + k) as usize)),
        ),
    decreases paths.len(),
{
    let all = Seq::new(paths.len(), |k: int| (paths[k], VariableId((next + k) as usize)));
    if paths.len() > 0 {
        let rest = paths.drop_last();
        assert forall|i: int, j: int| 0 <= i < j < rest.len() implies rest[i] != rest[j] by {
            assert(paths[i] != paths[j]);
        }
        lemma_renewed_distinct(rest, next);
        let before = renewed(Seq::empty(), rest, next);
        lemma_position(before, paths.last());
        if let Some(i) = position(before, paths.last()) {
            assert(paths[i] == paths[paths.len() - 1]);
        }
        assert(renewed(Seq::empty(), paths, next) =~= all);
    } else {
        assert(renewed(Seq::empty(), paths, next) =~= all);
    }
}

// Contents.

/// A value that is in old variables has the same contents in valuations that agree on those.
proof fn lemma_contents_agree(value: Value, n: nat, env: Valuation, other: Valuation)
    requires
        in_scope(value, n),
        forall|var: VariableId| var.0 < n ==> #[trigger] env(var) == other(var),
    ensures
        contents(value, env) == contents(value, other),
    decreases value,
{
    if let Value::Scattered { members, .. } = value {
        lemma_member_contents_agree(*members, n, env, other);
    }
}

proof fn lemma_member_contents_agree(members: Members, n: nat, env: Valuation, other: Valuation)
    requires
        members_in_scope(members, n),
        forall|var: VariableId| var.0 < n ==> #[trigger] env(var) == other(var),
    ensures
        member_contents(members, env) == member_contents(members, other),
    decreases members,
{
    if let Members::Cons { value, rest, .. } = members {
        lemma_contents_agree(*value, n, env, other);
        lemma_member_contents_agree(*rest, n, env, other);
    }
}

/// Whether the new variables have the contents of their paths in a block, and the old ones have
/// the contents that they have there.
pub open spec fn carries_over(
    db: StructTable,
    entries: Seq<(MemberPath, Value)>,
    paths: Seq<MemberPath>,
    next: nat,
    block_env: Valuation,
    env: Valuation,
) -> bool {
    &&& forall|var: VariableId| var.0 < next ==> #[trigger] env(var) == block_env(var)
    &&& forall|k: int|
        0 <= k < paths.len() ==> env(VariableId((next + k) as usize)) == contents_at(
            db,
            entries,
            block_env,
            #[trigger] paths[k],
        )
}

/// A joined value has the contents that the value has in each of the blocks.
proof fn lemma_join_values_contents(
    db: StructTable,
    shape: Shape,
    entries: Seq<(MemberPath, Value)>,
    values: Seq<Value>,
    i: int,
    path: MemberPath,
    next: nat,
    all: Seq<MemberPath>,
    n: int,
    block_env: Valuation,
    env: Valuation,
)
    requires
        well_shaped(db, shape, entries),
        path_fits(db, shape, path),
        0 <= i < values.len(),
        value_fits(db, shape, path, values[i]),
        in_scope(values[i], next),
        contents_at(db, entries, block_env, path) == contents(values[i], block_env),
        carries_over(db, entries, all, next, block_env, env),
        0 <= n,
        n + join_values(values, path, (next + n) as nat).1.len() <= all.len(),
        join_values(values, path, (next + n) as nat).1 == all.subrange(
            n,
            n + join_values(values, path, (next + n) as nat).1.len(),
        ),
    ensures
        contents(join_values(values, path, (next + n) as nat).0, env) == contents(
            values[i],
            block_env,
        ),
    decreases values[0],
{
    let joined = join_values(values, path, (next + n) as nat);
    if all_same(values) {
        assert(values[i] == values[0]);
        lemma_contents_agree(values[i], next, env, block_env);
    } else if scattered_alike(values) {
        let lists = member_lists(values);
        let concrete_struct_id = values[0]->concrete_struct_id;
        assert(values[i] is Scattered);
        assert(values[i]->concrete_struct_id == concrete_struct_id);
        assert(lists[i] == *values[i]->members);
        let full = lists[i];
        assert(ids_of(full).skip(0) =~= ids_of(full));
        assert(member_contents(full, block_env).skip(0) =~= member_contents(full, block_env));
        lemma_join_members_contents(
            db,
            shape,
            entries,
            lists,
            concrete_struct_id,
            full,
            0,
            i,
            path,
            next,
            all,
            n,
            block_env,
            env,
        );
    } else {
        assert(joined.1[0] == path);
        assert(all[n] == path);
        assert(contents(joined.0, env) == env(VariableId((next + n) as usize)));
    }
}

/// Joined members have the contents that the members have in each of the blocks. The members are
/// those of `full` from the `k`-th on.
proof fn lemma_join_members_contents(
    db: StructTable,
    shape: Shape,
    entries: Seq<(MemberPath, Value)>,
    lists: Seq<Members>,
    concrete_struct_id: ConcreteStructId,
    full: Members,
    k: int,
    i: int,
    path: MemberPath,
    next: nat,
    all: Seq<MemberPath>,
    n: int,
    block_env: Valuation,
    env: Valuation,
)
    requires
        well_shaped(db, shape, entries),
        path_fits(db, shape, path),
        concrete_struct_id == shape(path),
        db.members(concrete_struct_id) matches Some(declared) && ids_of(full) == member_ids(
            declared,
        ),
        contents_at(db, entries, block_env, path) == Contents::Struct(
            member_contents(full, block_env),
        ),
        0 <= i < lists.len(),
        aligned(lists),
        0 <= k <= ids_of(full).len(),
        ids_of(lists[i]) == ids_of(full).skip(k),
        member_contents(lists[i], block_env) == member_contents(full, block_env).skip(k),
        members_fit(db, shape, path, concrete_struct_id, lists[i]),
        members_in_scope(lists[i], next),
        carries_over(db, entries, all, next, block_env, env),
        0 <= n,
        n + join_members(lists, concrete_struct_id, path, (next + n) as nat).1.len() <= all.len(),
        join_members(lists, concrete_struct_id, path, (next + n) as nat).1 == all.subrange(
            n,
            n + join_members(lists, concrete_struct_id, path, (next + n) as nat).1.len(),
        ),
    ensures
        member_contents(
            join_members(lists, concrete_struct_id, path, (next + n) as nat).0,
            env,
        ) == member_contents(lists[i], block_env),
    decreases lists[0],
{
    assert(same_members(lists[0], lists[i]));
    let joined = join_members(lists, concrete_struct_id, path, (next + n) as nat);
    match lists[0] {
        Members::Nil => {
            assert(lists[i] is Nil);
        },
        Members::Cons { member_id, .. } => {
            assert(lists[i] is Cons);
            let member_path = member_of(path, member_id, concrete_struct_id);
            let declared = db.members(concrete_struct_id).unwrap();
            let rest = *lists[i]->rest;
            let value = *lists[i]->value;
            assert(lists[i]->member_id == member_id);
            let first = join_values(heads(lists), member_path, (next + n) as nat);
            let m = n + first.1.len();
            let second = join_members(
                rests(lists),
                concrete_struct_id,
                path,
                (next + m) as nat,
            );
            assert(joined.1 =~= first.1 + second.1);
            assert(first.1 =~= all.subrange(n, n + first.1.len())) by {
                assert forall|x: int| 0 <= x < first.1.len() implies first.1[x] == all.subrange(
                    n,
                    n + first.1.len(),
                )[x] by {
                    assert(joined.1[x] == first.1[x]);
                }
            }
            assert(second.1 =~= all.subrange(m, m + second.1.len())) by {
                assert forall|x: int| 0 <= x < second.1.len() implies second.1[x] == all.subrange(
                    m,
                    m + second.1.len(),
                )[x] by {
                    assert(joined.1[first.1.len() + x] == second.1[x]);
                }
            }
            // The member is the `k`-th of its struct.
            let ids = ids_of(lists[i]);
            assert(ids =~= seq![member_id] + ids_of(rest));
            assert(ids == ids_of(full).skip(k));
            assert(ids[0] == member_id);
            assert(ids_of(full).skip(k)[0] == ids_of(full)[k]);
            lemma_member_position_is(declared, member_id);
            assert(member_ids(declared)[k] == member_id);
            assert(member_index(db, member_path) == Some(k));
            lemma_contents_len(full, block_env);
            lemma_contents_len(lists[i], block_env);
            let parts = member_contents(lists[i], block_env);
            assert(parts =~= seq![contents(value, block_env)] + member_contents(rest, block_env));
            assert(member_contents(full, block_env).skip(k)[0] == member_contents(
                full,
                block_env,
            )[k]);
            assert(!has_key(entries, member_path));
            assert(contents_at(db, entries, block_env, member_path) == contents(
                value,
                block_env,
            ));
            assert(heads(lists)[i] == value);
            lemma_join_values_contents(
                db,
                shape,
                entries,
                heads(lists),
                i,
                member_path,
                next,
                all,
                n,
                block_env,
                env,
            );
            assert(rests(lists)[i] == rest);
            assert(ids_of(rest) =~= ids_of(full).skip(k + 1)) by {
                assert forall|x: int| 0 <= x < ids_of(rest).len() implies ids_of(rest)[x]
                    == ids_of(full).skip(k + 1)[x] by {
                    assert(ids[x + 1] == ids_of(rest)[x]);
                    assert(ids_of(full).skip(k)[x + 1] == ids_of(full)[k + x + 1]);
                }
            }
            assert(member_contents(rest, block_env) =~= member_contents(full, block_env).skip(
                k + 1,
            )) by {
                assert forall|x: int|
                    0 <= x < member_contents(rest, block_env).len() implies member_contents(
                    rest,
                    block_env,
                )[x] == member_contents(full, block_env).skip(k + 1)[x] by {
                    assert(parts[x + 1] == member_contents(rest, block_env)[x]);
                    assert(member_contents(full, block_env).skip(k)[x + 1] == member_contents(
                        full,
                        block_env,
                    )[k + x + 1]);
                }
            }
            assert forall|j: int| 0 <= j < rests(lists).len() implies same_members(
                rests(lists)[0],
                #[trigger] rests(lists)[j],
            ) by {
                assert(same_members(lists[0], lists[j]));
            }
            lemma_join_members_contents(
                db,
                shape,
                entries,
                rests(lists),
                concrete_struct_id,
                full,
                k + 1,
                i,
                path,
                next,
                all,
                m,
                block_env,
                env,
            );
        },
    }
}

// Joins as a whole.

/// The paths that get new variables in a join.
pub open spec fn renewed_paths(ctx: LoweringContext, builders: Seq<BuilderView>) -> Seq<
    MemberPath,
> {
    join_mappings(mappings_of(builders), ctx.variables@.len()).1
}

/// What the functions holds when the builders of a join begin to end.
pub open spec fn join_start(
    ctx: LoweringContext,
    builders: Seq<BuilderView>,
    location: LocationId,
) -> Closed {
    let paths = renewed_paths(ctx, builders);
    Closed {
        variables: ctx.variables@ + path_variables(
            ctx.db,
            ctx.semantic_defs@,
            paths,
            location,
        ),
        blocks: ctx.blocks@.push(None),
        ok: all_typed(ctx.db, ctx.semantic_defs@, paths),
    }
}

/// What the block of the `i`-th builder hands over in a join.
pub open spec fn builder_hands_over(
    ctx: LoweringContext,
    builders: Seq<BuilderView>,
    location: LocationId,
    i: int,
) -> Outcome<Seq<(VariableId, VarUsage)>> {
    handed_over(
        ctx.db,
        join_start(ctx, builders, location),
        sealed_without_value(builders),
        BlockId(ctx.blocks@.len() as usize),
        None,
        renewed(Seq::empty(), renewed_paths(ctx, builders), ctx.variables@.len()),
        location,
        i,
    )
}

/// The block of every builder ends by going to the new block, with what it hands over. The other
/// blocks are left alone, and the new block is not set yet.
pub proof fn law_join_blocks(
    ctx: LoweringContext,
    builders: Seq<BuilderView>,
    location: LocationId,
)
    requires
        builders.len() != 1,
        join(ctx, builders, location).ok,
        forall|i: int, j: int|
            0 <= i < j < builders.len() ==> (#[trigger] builders[i]).block_id != (
            #[trigger] builders[j]).block_id,
        forall|i: int|
            0 <= i < builders.len() ==> (#[trigger] builders[i]).block_id.0 < ctx.blocks@.len(),
    ensures
        ({
            let blocks = join(ctx, builders, location).blocks;
            let target = join(ctx, builders, location).builder.block_id;
            &&& blocks.len() == ctx.blocks@.len() + 1
            &&& forall|i: int|
                0 <= i < builders.len() ==> {
                    let r = builder_hands_over(ctx, builders, location, i);
                    blocks[(#[trigger] builders[i]).block_id.0 as int] == Some(
                        BlockView {
                            statements: r.state.builder.statements,
                            end: BlockEndView::Goto(target, r.value),
                        },
                    )
                }
            &&& forall|b: int|
                0 <= b < ctx.blocks@.len() && (forall|i: int|
                    0 <= i < builders.len() ==> (#[trigger] builders[i]).block_id.0 != b)
                    ==> #[trigger] blocks[b] == ctx.blocks@[b]
            &&& blocks[ctx.blocks@.len() as int] is None
        }),
{
    let sealed = sealed_without_value(builders);
    let start = join_start(ctx, builders, location);
    let blocks = join(ctx, builders, location).blocks;
    let target = BlockId(ctx.blocks@.len() as usize);
    let entries = renewed(Seq::empty(), renewed_paths(ctx, builders), ctx.variables@.len());
    assert(distinct_blocks(sealed)) by {
        assert forall|i: int, j: int|
            0 <= i < j < sealed.len() && sealed[i] is GotoCallsite && sealed[j]
                is GotoCallsite implies (#[trigger] sealed[i])->builder.block_id != (
        #[trigger] sealed[j])->builder.block_id by {
            assert(builders[i].block_id != builders[j].block_id);
        }
    }
    law_blocks_are_closed(ctx.db, start, sealed, target, None, entries, location);
    assert forall|i: int| 0 <= i < builders.len() implies {
        let r = builder_hands_over(ctx, builders, location, i);
        blocks[(#[trigger] builders[i]).block_id.0 as int] == Some(
            BlockView {
                statements: r.state.builder.statements,
                end: BlockEndView::Goto(target, r.value),
            },
        )
    } by {
        assert(sealed[i] is GotoCallsite);
    }
    assert forall|b: int|
        0 <= b <= ctx.blocks@.len() && (forall|i: int|
            0 <= i < builders.len() ==> (#[trigger] builders[i]).block_id.0
                != b) implies #[trigger] blocks[b] == start.blocks[b] by {
        assert forall|i: int|
            0 <= i < sealed.len() && (#[trigger] sealed[i])
                is GotoCallsite implies sealed[i]->builder.block_id.0 != b by {
            assert(builders[i].block_id.0 != b);
        }
    }
    assert(blocks[ctx.blocks@.len() as int] == start.blocks[ctx.blocks@.len() as int]);
}

/// What follows sees what the block that ran left: with the new variables as that block hands them
/// over and the old ones as they are, every path of a variable that all the blocks have has the
/// contents that it had at the end of the block.
pub proof fn law_join_contents(
    ctx: LoweringContext,
    shape: Shape,
    builders: Seq<BuilderView>,
    location: LocationId,
    i: int,
    block_env: Valuation,
    env: Valuation,
    q: MemberPath,
)
    requires
        builders.len() > 1,
        join(ctx, builders, location).ok,
        join(ctx, builders, location).variables.len() <= usize::MAX,
        forall|j: int|
            0 <= j < builders.len() ==> well_shaped(
                ctx.db,
                shape,
                (#[trigger] builders[j]).semantics,
            ),
        unique_keys(builders[0].semantics),
        0 <= i < builders.len(),
        entries_in_scope(builders[i].semantics, ctx.variables@.len()),
        all_hold(
            builder_hands_over(ctx, builders, location, i).state.builder.statements,
            block_env,
        ),
        forall|var: VariableId|
            var.0 < ctx.variables@.len() ==> #[trigger] env(var) == block_env(var),
        ({
            let r = builder_hands_over(ctx, builders, location, i).value;
            forall|j: int|
                0 <= j < r.len() ==> env((#[trigger] r[j]).0) == block_env(r[j].1.var_id)
        }),
        in_all(mappings_of(builders), MemberPath::Var(root(q))),
    ensures
        contents_at(ctx.db, join(ctx, builders, location).builder.semantics, env, q)
            == contents_at(ctx.db, builders[i].semantics, block_env, q),
{
    let mappings = mappings_of(builders);
    let next = ctx.variables@.len();
    let (joined, paths) = join_mappings(mappings, next);
    let entries = builders[i].semantics;
    let key = MemberPath::Var(root(q));
    let start = join_start(ctx, builders, location);
    let sealed = sealed_without_value(builders);
    let target = BlockId(ctx.blocks@.len() as usize);
    let pairs = renewed(Seq::empty(), paths, next);
    assert forall|j: int| 0 <= j < mappings.len() implies well_shaped(
        ctx.db,
        shape,
        #[trigger] mappings[j],
    ) by {
        assert(well_shaped(ctx.db, shape, builders[j].semantics));
    }
    assert(mappings[0] == builders[0].semantics);
    assert(well_shaped(ctx.db, shape, builders[0].semantics));
    assert(well_shaped(ctx.db, shape, entries));
    lemma_join_entries_paths(ctx.db, shape, mappings, mappings[0], next);
    lemma_renewed_distinct(paths, next);
    lemma_join_entries_fit(ctx.db, shape, mappings, mappings[0], next);
    // What the block hands over has the contents of the paths.
    let before = close_blocks(ctx.db, start, sealed.take(i), target, None, pairs, location);
    let state = State { builder: builders[i], variables: before.variables };
    lemma_close_blocks_prefix(ctx.db, start, sealed, target, None, pairs, location, i + 1);
    assert(sealed.take(i + 1).drop_last() =~= sealed.take(i));
    assert(sealed.take(i + 1).last() == sealed[i]);
    assert forall|j: int| 0 <= j < pairs.len() implies path_fits(
        ctx.db,
        shape,
        (#[trigger] pairs[j]).0,
    ) by {
        assert(pairs[j].0 == paths[j]);
    }
    law_remap_contents(ctx.db, shape, state, pairs, location, block_env, q);
    let r = builder_hands_over(ctx, builders, location, i).value;
    assert(carries_over(ctx.db, entries, paths, next, block_env, env)) by {
        assert forall|k: int| 0 <= k < paths.len() implies env(
            VariableId((next + k) as usize),
        ) == contents_at(ctx.db, entries, block_env, #[trigger] paths[k]) by {
            assert(r[k].0 == pairs[k].1);
        }
    }
    // The variable of the path.
    lemma_join_entries(mappings, mappings[0], next, key);
    assert(has_key(mappings[0], key));
    assert(mappings[i] == entries);
    assert(has_key(mappings[i], key));
    let values = values_at(mappings, key);
    let n = choose|n: int|
        0 <= n <= paths.len() && {
            let v = #[trigger] join_values(values, key, (next + n) as nat);
            &&& value_of(joined, key) == Some(v.0)
            &&& n + v.1.len() <= paths.len()
            &&& v.1 == paths.subrange(n, n + v.1.len())
        };
    assert(values[i] == value_of(entries, key).unwrap());
    lemma_join_values_contents(
        ctx.db,
        shape,
        entries,
        values,
        i,
        key,
        next,
        paths,
        n,
        block_env,
        env,
    );
    assert forall|k: MemberPath| #[trigger] has_key(joined, k) implies k is Var by {
        lemma_join_entries(mappings, mappings[0], next, k);
    }
    lemma_contents_from_root(ctx.db, entries, joined, block_env, env, q);
}

/// Paths of a variable have the same contents in two mappings if the variable has.
proof fn lemma_contents_from_root(
    db: StructTable,
    a: Seq<(MemberPath, Value)>,
    b: Seq<(MemberPath, Value)>,
    a_env: Valuation,
    b_env: Valuation,
    path: MemberPath,
)
    requires
        rooted(a),
        rooted(b),
        contents_at(db, a, a_env, MemberPath::Var(root(path))) == contents_at(
            db,
            b,
            b_env,
            MemberPath::Var(root(path)),
        ),
    ensures
        contents_at(db, a, a_env, path) == contents_at(db, b, b_env, path),
    decreases path,
{
    if let MemberPath::Member { parent, .. } = path {
        assert(!has_key(a, path));
        assert(!has_key(b, path));
        lemma_contents_from_root(db, a, b, a_env, b_env, *parent);
    }
}

/// A join of builders without snapshots always succeeds, where their values are of the structs that
/// their paths are of, their variables exist, and their blocks do.
pub proof fn law_join_succeeds(
    ctx: LoweringContext,
    shape: Shape,
    builders: Seq<BuilderView>,
    location: LocationId,
)
    requires
        builders.len() > 1,
        join(ctx, builders, location).variables.len() <= usize::MAX,
        unique_keys(builders[0].semantics),
        forall|j: int|
            0 <= j < builders.len() ==> {
                &&& well_shaped(ctx.db, shape, (#[trigger] builders[j]).semantics)
                &&& entries_in_scope(builders[j].semantics, ctx.variables@.len())
                &&& builders[j].snapped.len() == 0
                &&& builders[j].block_id.0 < ctx.blocks@.len()
            },
        variables_typed(ctx.semantic_defs@, builders[0].semantics),
    ensures
        join(ctx, builders, location).ok,
{
    let mappings = mappings_of(builders);
    let next = ctx.variables@.len();
    let (joined, paths) = join_mappings(mappings, next);
    let start = join_start(ctx, builders, location);
    let sealed = sealed_without_value(builders);
    let target = BlockId(ctx.blocks@.len() as usize);
    let pairs = renewed(Seq::empty(), paths, next);
    let builder = join(ctx, builders, location).builder;
    assert forall|j: int| 0 <= j < mappings.len() implies well_shaped(
        ctx.db,
        shape,
        #[trigger] mappings[j],
    ) by {
        assert(well_shaped(ctx.db, shape, builders[j].semantics));
    }
    assert(mappings[0] == builders[0].semantics);
    assert(well_shaped(ctx.db, shape, builders[0].semantics));
    lemma_join_entries_paths(ctx.db, shape, mappings, mappings[0], next);
    lemma_join_entries_fit(ctx.db, shape, mappings, mappings[0], next);
    lemma_renewed_distinct(paths, next);
    assert(all_typed(ctx.db, ctx.semantic_defs@, paths)) by {
        assert forall|k: int| 0 <= k < paths.len() implies path_ty(
            ctx.db,
            ctx.semantic_defs@,
            #[trigger] paths[k],
        ) is Some by {
            assert(has_key(mappings[0], MemberPath::Var(root(paths[k]))));
        }
    }
    lemma_close_blocks_variables(ctx.db, start, sealed, target, None, pairs, location);
    assert(next + paths.len() <= usize::MAX);
    assert forall|i: int| 0 <= i < pairs.len() implies path_fits(
        ctx.db,
        shape,
        (#[trigger] pairs[i]).0,
    ) && has_key(builder.semantics, MemberPath::Var(root(pairs[i].0))) by {
        assert(pairs[i].0 == paths[i]);
        let key = MemberPath::Var(root(paths[i]));
        law_join_keeps_common_variables(mappings, next, key);
    }
    assert forall|i: int| 0 <= i < sealed.len() implies is_subscope(
        ctx,
        shape,
        builder,
        #[trigger] sealed[i],
    ) by {
        assert(well_shaped(ctx.db, shape, builders[i].semantics));
        assert forall|key: MemberPath| #[trigger] has_key(builder.semantics, key) implies has_key(
            builders[i].semantics,
            key,
        ) by {
            law_join_keeps_common_variables(mappings, next, key);
            assert(has_key(mappings[i], key));
        }
    }
    lemma_close_ok(
        ctx,
        shape,
        builder,
        start,
        sealed,
        target,
        None,
        pairs,
        location,
    );
}

} // verus!
