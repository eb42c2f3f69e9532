//! Laws of where a join leaves each part of a variable.
use vstd::prelude::*;

use crate::context::StructTable;
use crate::ids::{ConcreteStructId, MemberId, VariableId};
use crate::joining::{
    aligned, all_same, heads, join_mappings, join_members, join_values, member_lists, rests,
    same_members, scattered_alike, values_at,
};
use crate::laws::handover::lemma_join_members_ids;
use crate::laws::joining::lemma_join_entries;
use crate::laws::meaning::{ids_of, lemma_lookup_contents, path_fits, Contents, Shape, Valuation};
use crate::laws::merging::well_shaped;
use crate::member_path::MemberPath;
use crate::merge::member_of;
use crate::ordered::{has_key, lemma_position, unique_keys, value_of};
use crate::recomposer::member_ids;
use crate::refs::{lookup, member_value, Members, Value};

verus! {

/// The values that a path has in several mappings, by itself or as part of a scattered value.
pub open spec fn lookups(mappings: Seq<Seq<(MemberPath, Value)>>, path: MemberPath) -> Seq<Value> {
    mappings.map_values(|entries: Seq<(MemberPath, Value)>| lookup(entries, path).unwrap())
}

/// The values of a member in several lists.
pub open spec fn member_values(lists: Seq<Members>, id: MemberId) -> Seq<Value> {
    lists.map_values(|members: Members| member_value(members, id).unwrap())
}

/// Whether the values of a path are joined at the `n`-th of the paths that get new variables.
pub open spec fn joined_at(
    values: Seq<Value>,
    path: MemberPath,
    next: nat,
    paths: Seq<MemberPath>,
    n: int,
    value: Option<Value>,
) -> bool {
    let j = join_values(values, path, (next + n) as nat);
    &&& 0 <= n
    &&& n + j.1.len() <= paths.len()
    &&& j.1 == paths.subrange(n, n + j.1.len())
    &&& value == Some(j.0)
}

/// A member of joined lists is what its values are joined to.
proof fn lemma_join_member_at(
    lists: Seq<Members>,
    concrete_struct_id: ConcreteStructId,
    path: MemberPath,
    next: nat,
    id: MemberId,
) -> (n: int)
    requires
        lists.len() > 0,
        aligned(lists),
        member_value(lists[0], id) is Some,
    ensures
        ({
            let (members, paths) = join_members(lists, concrete_struct_id, path, next);
            joined_at(
                member_values(lists, id),
                member_of(path, id, concrete_struct_id),
                next,
                paths,
                n,
                member_value(members, id),
            )
        }),
    decreases lists[0],
{
    let member_id = lists[0]->member_id;
    let rest = *lists[0]->rest;
    assert(lists[0] is Cons);
    let first = join_values(
        heads(lists),
        member_of(path, member_id, concrete_struct_id),
        next,
    );
    let second = join_members(rests(lists), concrete_struct_id, path, next + first.1.len());
    let (members, paths) = join_members(lists, concrete_struct_id, path, next);
    assert(paths =~= first.1 + second.1);
    assert forall|i: int| 0 <= i < lists.len() implies (#[trigger] lists[i]) is Cons
        && lists[i]->member_id == member_id && same_members(rest, *lists[i]->rest) by {
        assert(same_members(lists[0], lists[i]));
    }
    if member_id == id {
        assert(member_values(lists, id) =~= heads(lists));
        assert(first.1 =~= paths.subrange(0, first.1.len() as int));
        0
    } else {
        assert(rests(lists)[0] == rest);
        assert forall|i: int| 0 <= i < rests(lists).len() implies same_members(
            rests(lists)[0],
            #[trigger] rests(lists)[i],
        ) by {
            assert(lists[i] is Cons);
        }
        let n = lemma_join_member_at(
            rests(lists),
            concrete_struct_id,
            path,
            next + first.1.len(),
            id,
        );
        assert(member_values(rests(lists), id) =~= member_values(lists, id));
        let j = join_values(
            member_values(lists, id),
            member_of(path, id, concrete_struct_id),
            (next + first.1.len() + n) as nat,
        );
        let m = first.1.len() + n;
        assert((next + m) as nat == (next + first.1.len() + n) as nat);
        assert(j.1 =~= paths.subrange(m, m + j.1.len()));
        m
    }
}

/// Lists of the same ids are of the same members.
proof fn lemma_same_ids(a: Members, b: Members)
    requires
        ids_of(a) == ids_of(b),
    ensures
        same_members(a, b),
    decreases a,
{
    let a_ids = ids_of(a);
    let b_ids = ids_of(b);
    if let Members::Cons { member_id, rest, .. } = a {
        assert(a_ids =~= seq![member_id] + ids_of(*rest));
        assert(b is Cons);
        let b_rest = *b->rest;
        assert(b_ids =~= seq![b->member_id] + ids_of(b_rest));
        assert(a_ids[0] == b_ids[0]);
        assert(ids_of(*rest) =~= ids_of(b_rest)) by {
            assert forall|k: int| 0 <= k < ids_of(*rest).len() implies ids_of(*rest)[k] == ids_of(
                b_rest,
            )[k] by {
                assert(a_ids[k + 1] == ids_of(*rest)[k]);
                assert(b_ids[k + 1] == ids_of(b_rest)[k]);
            }
        }
        lemma_same_ids(*rest, b_rest);
    } else if let Members::Cons { member_id, rest, .. } = b {
        assert(b_ids =~= seq![member_id] + ids_of(*rest));
        assert(a_ids.len() == 0);
    }
}

/// What a join makes of a path that all the mappings have is what its values are joined to.
proof fn lemma_join_lookup(
    db: StructTable,
    shape: Shape,
    mappings: Seq<Seq<(MemberPath, Value)>>,
    next: nat,
    path: MemberPath,
) -> (n: int)
    requires
        mappings.len() > 0,
        unique_keys(mappings[0]),
        forall|i: int|
            0 <= i < mappings.len() ==> well_shaped(db, shape, #[trigger] mappings[i])
                && lookup(mappings[i], path) is Some,
        path_fits(db, shape, path),
    ensures
        ({
            let (joined, paths) = join_mappings(mappings, next);
            joined_at(lookups(mappings, path), path, next, paths, n, lookup(joined, path))
        }),
    decreases path,
{
    let (joined, paths) = join_mappings(mappings, next);
    let values = lookups(mappings, path);
    match path {
        MemberPath::Var(_) => {
            assert forall|i: int| 0 <= i < mappings.len() implies has_key(
                #[trigger] mappings[i],
                path,
            ) by {
                lemma_position(mappings[i], path);
                assert(lookup(mappings[i], path) is Some);
            }
            lemma_join_entries(mappings, mappings[0], next, path);
            assert(has_key(mappings[0], path));
            assert(values_at(mappings, path) =~= values);
            let n = choose|n: int|
                0 <= n <= paths.len() && {
                    let v = #[trigger] join_values(values, path, (next + n) as nat);
                    &&& value_of(joined, path) == Some(v.0)
                    &&& n + v.1.len() <= paths.len()
                    &&& v.1 == paths.subrange(n, n + v.1.len())
                };
            n
        },
        MemberPath::Member { parent, member_id, concrete_struct_id } => {
            let above = lookups(mappings, *parent);
            let declared = db.members(concrete_struct_id).unwrap();
            assert forall|i: int| 0 <= i < mappings.len() implies {
                &&& lookup(#[trigger] mappings[i], *parent) is Some
                &&& above[i] is Scattered
                &&& above[i]->concrete_struct_id == concrete_struct_id
                &&& ids_of(*above[i]->members) == member_ids(declared)
                &&& member_value(*above[i]->members, member_id) == Some(values[i])
            } by {
                assert(lookup(mappings[i], path) is Some);
                assert(!has_key(mappings[i], path));
                lemma_position(mappings[i], path);
                let env: Valuation = |var: VariableId| Contents::Opaque(0);
                lemma_lookup_contents(db, shape, mappings[i], env, *parent);
            }
            let m = lemma_join_lookup(db, shape, mappings, next, *parent);
            assert(!has_key(joined, path)) by {
                lemma_join_entries(mappings, mappings[0], next, path);
                assert(!has_key(mappings[0], path));
            }
            lemma_position(joined, path);
            lemma_join_lookup_member(above, values, path, next, paths, joined, m)
        },
    }
}

/// The step from a scattered value to one of its members.
proof fn lemma_join_lookup_member(
    above: Seq<Value>,
    values: Seq<Value>,
    path: MemberPath,
    next: nat,
    paths: Seq<MemberPath>,
    joined: Seq<(MemberPath, Value)>,
    m: int,
) -> (n: int)
    requires
        path is Member,
        above.len() > 0,
        values.len() == above.len(),
        value_of(joined, path) is None,
        forall|i: int|
            0 <= i < above.len() ==> {
                &&& (#[trigger] above[i]) is Scattered
                &&& above[i]->concrete_struct_id == path->concrete_struct_id
                &&& ids_of(*above[i]->members) == ids_of(*above[0]->members)
                &&& member_value(*above[i]->members, path->member_id) == Some(values[i])
            },
        joined_at(above, *path->parent, next, paths, m, lookup(joined, *path->parent)),
    ensures
        joined_at(values, path, next, paths, n, lookup(joined, path)),
{
    let parent = *path->parent;
    let id = path->concrete_struct_id;
    let member_id = path->member_id;
    assert(above[0] is Scattered);
    if all_same(above) {
        assert forall|i: int| 0 <= i < values.len() implies #[trigger] values[i] == values[0] by {
            assert(above[i] == above[0]);
        }
        assert(paths.subrange(m, m) =~= Seq::empty());
        m
    } else {
        let lists = member_lists(above);
        assert(scattered_alike(above)) by {
            assert forall|i: int| 0 <= i < lists.len() implies same_members(
                lists[0],
                #[trigger] lists[i],
            ) by {
                assert(above[i] is Scattered);
                lemma_same_ids(*above[0]->members, *above[i]->members);
            }
        }
        assert(lists[0] == *above[0]->members);
        assert(member_value(lists[0], member_id) is Some);
        let at = (next + m) as nat;
        let k = lemma_join_member_at(lists, id, parent, at, member_id);
        assert(member_values(lists, member_id) =~= values) by {
            assert forall|i: int| 0 <= i < values.len() implies member_values(
                lists,
                member_id,
            )[i] == values[i] by {
                assert(above[i] is Scattered);
            }
        }
        let (members, more) = join_members(lists, id, parent, at);
        let j = join_values(values, path, (at + k) as nat);
        assert(path == member_of(parent, member_id, id));
        let n = m + k;
        assert((next + n) as nat == (at + k) as nat);
        assert(more == paths.subrange(m, m + more.len()));
        assert(j.1 =~= paths.subrange(n, n + j.1.len()));
        n
    }
}

/// A part of a variable that is in the same lowered variables at the end of all the blocks stays
/// there, whatever happens to the other parts.
pub proof fn law_join_keeps_same_part(
    db: StructTable,
    shape: Shape,
    mappings: Seq<Seq<(MemberPath, Value)>>,
    next: nat,
    path: MemberPath,
    value: Value,
)
    requires
        mappings.len() > 0,
        unique_keys(mappings[0]),
        forall|i: int|
            0 <= i < mappings.len() ==> well_shaped(db, shape, #[trigger] mappings[i])
                && lookup(mappings[i], path) == Some(value),
        path_fits(db, shape, path),
    ensures
        lookup(join_mappings(mappings, next).0, path) == Some(value),
{
    let values = lookups(mappings, path);
    let n = lemma_join_lookup(db, shape, mappings, next, path);
    assert forall|i: int| 0 <= i < values.len() implies #[trigger] values[i] == value by {
        assert(lookup(mappings[i], path) == Some(value));
    }
    assert(all_same(values));
}

/// A part of a variable that is in a lowered variable at the end of one block and elsewhere at the
/// end of another gets a new variable, for its own path. Its siblings do not, on its account.
pub proof fn law_join_renews_different_part(
    db: StructTable,
    shape: Shape,
    mappings: Seq<Seq<(MemberPath, Value)>>,
    next: nat,
    path: MemberPath,
    i: int,
    j: int,
) -> (n: int)
    requires
        mappings.len() > 0,
        unique_keys(mappings[0]),
        forall|k: int|
            0 <= k < mappings.len() ==> well_shaped(db, shape, #[trigger] mappings[k])
                && lookup(mappings[k], path) is Some,
        path_fits(db, shape, path),
        0 <= i < mappings.len(),
        0 <= j < mappings.len(),
        lookup(mappings[i], path) != lookup(mappings[j], path),
        lookup(mappings[i], path).unwrap() is Var,
        next + join_mappings(mappings, next).1.len() <= usize::MAX,
    ensures
        ({
            let (joined, paths) = join_mappings(mappings, next);
            &&& 0 <= n < paths.len()
            &&& paths[n] == path
            &&& lookup(joined, path) matches Some(Value::Var(var)) && var.0 == next + n
        }),
{
    let (joined, paths) = join_mappings(mappings, next);
    let values = lookups(mappings, path);
    let n = lemma_join_lookup(db, shape, mappings, next, path);
    assert(lookup(mappings[i], path) is Some && lookup(mappings[j], path) is Some);
    assert(values[i] == lookup(mappings[i], path).unwrap());
    assert(values[j] == lookup(mappings[j], path).unwrap());
    assert(!all_same(values)) by {
        if all_same(values) {
            assert(values[i] == values[0]);
            assert(values[j] == values[0]);
        }
    }
    assert(!scattered_alike(values)) by {
        if scattered_alike(values) {
            assert(values[i] is Scattered);
        }
    }
    let v = join_values(values, path, (next + n) as nat);
    assert(v.1[0] == path);
    assert(paths.subrange(n, n + 1)[0] == paths[n]);
    n
}

/// A part of a variable that is scattered at the end of all the blocks stays scattered, over the
/// same members.
pub proof fn law_join_keeps_scattered(
    db: StructTable,
    shape: Shape,
    mappings: Seq<Seq<(MemberPath, Value)>>,
    next: nat,
    path: MemberPath,
)
    requires
        mappings.len() > 0,
        unique_keys(mappings[0]),
        forall|k: int|
            0 <= k < mappings.len() ==> well_shaped(db, shape, #[trigger] mappings[k]) && lookup(
                mappings[k],
                path,
            ) matches Some(Value::Scattered { .. }),
        path_fits(db, shape, path),
    ensures
        lookup(join_mappings(mappings, next).0, path) matches Some(
            Value::Scattered { concrete_struct_id, members },
        ) && {
            &&& concrete_struct_id == shape(path)
            &&& db.members(concrete_struct_id) matches Some(declared) && ids_of(*members)
                == member_ids(declared)
        },
{
    let values = lookups(mappings, path);
    let n = lemma_join_lookup(db, shape, mappings, next, path);
    let at = (next + n) as nat;
    let declared = db.members(shape(path)).unwrap();
    assert forall|k: int| 0 <= k < values.len() implies {
        &&& (#[trigger] values[k]) is Scattered
        &&& values[k]->concrete_struct_id == shape(path)
        &&& db.members(shape(path)) is Some
        &&& ids_of(*values[k]->members) == member_ids(declared)
    } by {
        assert(lookup(mappings[k], path) is Some);
        let env: Valuation = |var: VariableId| Contents::Opaque(0);
        lemma_lookup_contents(db, shape, mappings[k], env, path);
    }
    assert(values[0] is Scattered);
    if !all_same(values) {
        let lists = member_lists(values);
        assert(scattered_alike(values)) by {
            assert forall|i: int| 0 <= i < lists.len() implies same_members(
                lists[0],
                #[trigger] lists[i],
            ) by {
                assert(values[i] is Scattered);
                lemma_same_ids(*values[0]->members, *values[i]->members);
            }
        }
        lemma_join_members_ids(lists, shape(path), path, at);
        assert(lists[0] == *values[0]->members);
    }
}

} // verus!
