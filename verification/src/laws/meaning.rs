//! What the values of semantic variables are, and that reads and writes keep them.
//!
//! A valuation gives each lowered variable its contents. It fits a block if every statement of the
//! block holds in it: a struct that was taken apart consists of its members, one that was built
//! consists of what it was built from. A snapshot has the contents of what it was taken of.
use vstd::prelude::*;

use crate::context::{member_position, Member, StructTable};
use crate::generators::{fresh_ids, Emitted};
use crate::ids::{ConcreteStructId, LocationId, MemberId, VariableId};
use crate::laws::mapping::{
    apart, are_siblings, is_prefix, lemma_broken_found, lemma_depth, lemma_lookup_stored,
    lemma_prefix_root, lemma_prefix_trans, lemma_siblings_not_on_one_path, lemma_stored_keys, root,
};
use crate::member_path::{is_ancestor, MemberPath};
use crate::merge::member_of;
use crate::objects::{StatementView, VarUsage};
use crate::ordered::{
    has_key, inserted, lemma_collected_distinct, lemma_inserted, unique_keys, value_of,
};
use crate::recomposer::{member_ids, paired, reconstructed, usages_at};
use crate::refs::{
    assembled, assembled_members, broken, lookup, member_value, members_in_vars, read,
    scattered_members, stored, with_member, written, Members, Value,
};

verus! {

/// The contents of a variable: something that is not looked into, or a struct of contents.
pub enum Contents {
    Opaque(int),
    Struct(Seq<Contents>),
}

/// The contents of each lowered variable.
pub type Valuation = spec_fn(VariableId) -> Contents;

/// Whether a statement holds in a valuation. Nothing is said of statements that do not move
/// structs.
pub open spec fn holds(statement: StatementView, env: Valuation) -> bool {
    match statement {
        StatementView::StructConstruct { inputs, output } => env(output) == Contents::Struct(
            inputs.map_values(|usage: VarUsage| env(usage.var_id)),
        ),
        StatementView::StructDestructure { input, outputs } => env(input.var_id)
            == Contents::Struct(outputs.map_values(|var: VariableId| env(var))),
        StatementView::Snapshot { input, output_original, output_snapshot } => {
            &&& env(output_original) == env(input.var_id)
            &&& env(output_snapshot) == env(input.var_id)
        },
        StatementView::Desnap { input, output } => env(output) == env(input.var_id),
        _ => true,
    }
}

/// Whether all statements hold in a valuation.
pub open spec fn all_hold(statements: Seq<StatementView>, env: Valuation) -> bool {
    forall|i: int| 0 <= i < statements.len() ==> holds(#[trigger] statements[i], env)
}

/// The contents of a value.
pub open spec fn contents(value: Value, env: Valuation) -> Contents
    decreases value,
{
    match value {
        Value::Var(var) => env(var),
        Value::Scattered { members, .. } => Contents::Struct(member_contents(*members, env)),
    }
}

/// The contents of the members of a value, in their order.
pub open spec fn member_contents(members: Members, env: Valuation) -> Seq<Contents>
    decreases members,
{
    match members {
        Members::Nil => Seq::empty(),
        Members::Cons { value, rest, .. } => seq![contents(*value, env)] + member_contents(
            *rest,
            env,
        ),
    }
}

/// The `i`-th part of contents.
pub open spec fn part(contents: Contents, i: int) -> Contents {
    match contents {
        Contents::Struct(parts) => parts[i],
        Contents::Opaque(_) => contents,
    }
}

/// The place of a member in its struct.
pub open spec fn member_index(db: StructTable, path: MemberPath) -> Option<int> {
    match path {
        MemberPath::Var(_) => None,
        MemberPath::Member { member_id, concrete_struct_id, .. } => match db.members(
            concrete_struct_id,
        ) {
            Some(members) => member_position(members, member_id),
            None => None,
        },
    }
}

/// The contents of what a path leads to: those of its entry, or a part of those of its parent.
pub open spec fn contents_at(
    db: StructTable,
    entries: Seq<(MemberPath, Value)>,
    env: Valuation,
    path: MemberPath,
) -> Contents
    decreases path,
{
    match value_of(entries, path) {
        Some(value) => contents(value, env),
        None => match path {
            MemberPath::Var(_) => Contents::Opaque(0),
            MemberPath::Member { parent, .. } => part(
                contents_at(db, entries, env, *parent),
                member_index(db, path).unwrap(),
            ),
        },
    }
}

// Types.

/// No struct has two members with the same id.
pub open spec fn distinct_members(db: StructTable) -> bool {
    forall|id: ConcreteStructId|
        (#[trigger] db.members(id)) matches Some(members) ==> member_ids(members).no_duplicates()
}

/// The ids of the members of a value, in their order.
pub open spec fn ids_of(members: Members) -> Seq<MemberId>
    decreases members,
{
    match members {
        Members::Nil => Seq::empty(),
        Members::Cons { member_id, rest, .. } => seq![member_id] + ids_of(*rest),
    }
}

/// The struct that the value of each path is of, for those whose value is a struct.
pub type Shape = spec_fn(MemberPath) -> ConcreteStructId;

/// Whether each member on a path is one of the struct that its parent is of.
pub open spec fn path_fits(db: StructTable, shape: Shape, path: MemberPath) -> bool
    decreases path,
{
    match path {
        MemberPath::Var(_) => true,
        MemberPath::Member { parent, concrete_struct_id, .. } => {
            &&& concrete_struct_id == shape(*parent)
            &&& member_index(db, path) is Some
            &&& path_fits(db, shape, *parent)
        },
    }
}

/// Whether a value is scattered over all the members of the struct that its path is of.
pub open spec fn value_fits(db: StructTable, shape: Shape, path: MemberPath, value: Value) -> bool
    decreases value,
{
    match value {
        Value::Var(_) => true,
        Value::Scattered { concrete_struct_id, members } => {
            &&& concrete_struct_id == shape(path)
            &&& db.members(concrete_struct_id) matches Some(declared) && ids_of(*members)
                == member_ids(declared)
            &&& members_fit(db, shape, path, concrete_struct_id, *members)
        },
    }
}

/// Whether the values of members fit.
pub open spec fn members_fit(
    db: StructTable,
    shape: Shape,
    path: MemberPath,
    concrete_struct_id: ConcreteStructId,
    members: Members,
) -> bool
    decreases members,
{
    match members {
        Members::Nil => true,
        Members::Cons { member_id, value, rest } => {
            &&& value_fits(db, shape, member_of(path, member_id, concrete_struct_id), *value)
            &&& members_fit(db, shape, path, concrete_struct_id, *rest)
        },
    }
}

/// Whether the values of all the entries fit.
pub open spec fn entries_fit(
    db: StructTable,
    shape: Shape,
    entries: Seq<(MemberPath, Value)>,
) -> bool {
    forall|path: MemberPath|
        (#[trigger] value_of(entries, path)) matches Some(value) ==> value_fits(
            db,
            shape,
            path,
            value,
        )
}

// Members.

/// The place of a member in a value is that of its id.
pub(crate) proof fn lemma_member_in_place(
    db: StructTable,
    shape: Shape,
    path: MemberPath,
    concrete_struct_id: ConcreteStructId,
    members: Members,
    id: MemberId,
    env: Valuation,
    i: int,
)
    requires
        ids_of(members).no_duplicates(),
        0 <= i < ids_of(members).len(),
        ids_of(members)[i] == id,
    ensures
        member_value(members, id) is Some,
        member_contents(members, env).len() == ids_of(members).len(),
        member_contents(members, env)[i] == contents(member_value(members, id).unwrap(), env),
        members_fit(db, shape, path, concrete_struct_id, members) ==> value_fits(
            db,
            shape,
            member_of(path, id, concrete_struct_id),
            member_value(members, id).unwrap(),
        ),
    decreases members,
{
    if let Members::Cons { member_id, value, rest } = members {
        let ids = ids_of(members);
        assert(ids =~= seq![member_id] + ids_of(*rest));
        lemma_contents_len(*rest, env);
        if i > 0 {
            assert(ids[i] == ids_of(*rest)[i - 1]);
            assert(member_id != id) by {
                assert(ids[0] == member_id);
            }
            assert(ids_of(*rest).no_duplicates()) by {
                assert forall|a: int, b: int|
                    0 <= a < b < ids_of(*rest).len() implies ids_of(*rest)[a] != ids_of(
                    *rest,
                )[b] by {
                    assert(ids[a + 1] == ids_of(*rest)[a]);
                    assert(ids[b + 1] == ids_of(*rest)[b]);
                }
            }
            lemma_member_in_place(
                db,
                shape,
                path,
                concrete_struct_id,
                *rest,
                id,
                env,
                i - 1,
            );
        }
    }
}

/// There are as many contents as members.
pub(crate) proof fn lemma_contents_len(members: Members, env: Valuation)
    ensures
        member_contents(members, env).len() == ids_of(members).len(),
    decreases members,
{
    if let Members::Cons { rest, .. } = members {
        lemma_contents_len(*rest, env);
    }
}

/// What a replaced member does to the contents: the ids stay, and the contents of every place but
/// that of the member. Where the contents of the member stay, all of them do.
proof fn lemma_with_member_contents(
    db: StructTable,
    shape: Shape,
    path: MemberPath,
    concrete_struct_id: ConcreteStructId,
    members: Members,
    id: MemberId,
    value: Value,
    env: Valuation,
)
    ensures
        ids_of(with_member(members, id, value)) == ids_of(members),
        forall|j: int|
            0 <= j < ids_of(members).len() && ids_of(members)[j] != id ==> #[trigger] member_contents(
                with_member(members, id, value),
                env,
            )[j] == member_contents(members, env)[j],
        member_value(members, id) matches Some(before) && contents(before, env) == contents(
            value,
            env,
        ) ==> member_contents(with_member(members, id, value), env) == member_contents(
            members,
            env,
        ),
        members_fit(db, shape, path, concrete_struct_id, members) && value_fits(
            db,
            shape,
            member_of(path, id, concrete_struct_id),
            value,
        ) ==> members_fit(
            db,
            shape,
            path,
            concrete_struct_id,
            with_member(members, id, value),
        ),
    decreases members,
{
    lemma_contents_len(members, env);
    lemma_contents_len(with_member(members, id, value), env);
    if let Members::Cons { member_id, rest, .. } = members {
        lemma_with_member_contents(
            db,
            shape,
            path,
            concrete_struct_id,
            *rest,
            id,
            value,
            env,
        );
        if member_id != id {
            let after = with_member(*rest, id, value);
            assert forall|j: int|
                0 <= j < ids_of(members).len() && ids_of(members)[j]
                    != id implies #[trigger] member_contents(
                with_member(members, id, value),
                env,
            )[j] == member_contents(members, env)[j] by {
                if j > 0 {
                    assert(ids_of(members)[j] == ids_of(*rest)[j - 1]);
                    assert(member_contents(after, env)[j - 1] == member_contents(*rest, env)[j
                        - 1]);
                }
            }
        }
    }
}

/// The place of a member id among the declared members.
pub(crate) proof fn lemma_member_position_is(members: Seq<Member>, id: MemberId)
    ensures
        match member_position(members, id) {
            Some(i) => 0 <= i < members.len() && member_ids(members)[i] == id,
            None => forall|j: int|
                0 <= j < members.len() ==> #[trigger] member_ids(members)[j] != id,
        },
    decreases members.len(),
{
    if members.len() > 0 {
        lemma_member_position_is(members.drop_last(), id);
        assert forall|j: int| 0 <= j < members.len() - 1 implies #[trigger] member_ids(members)[j]
            == member_ids(members.drop_last())[j] by {}
    }
}

// What is found on a path is what its contents are.

/// The value that the mapping has for a path has the contents of the path.
pub proof fn lemma_lookup_contents(
    db: StructTable,
    shape: Shape,
    entries: Seq<(MemberPath, Value)>,
    env: Valuation,
    path: MemberPath,
)
    requires
        distinct_members(db),
        entries_fit(db, shape, entries),
        path_fits(db, shape, path),
        lookup(entries, path) is Some,
    ensures
        contents(lookup(entries, path).unwrap(), env) == contents_at(db, entries, env, path),
        value_fits(db, shape, path, lookup(entries, path).unwrap()),
    decreases path,
{
    if value_of(entries, path) is None {
        if let MemberPath::Member { parent, member_id, concrete_struct_id } = path {
            lemma_lookup_contents(db, shape, entries, env, *parent);
            if let Some(Value::Scattered { concrete_struct_id: id, members }) = lookup(
                entries,
                *parent,
            ) {
                let declared = db.members(concrete_struct_id).unwrap();
                lemma_member_position_is(declared, member_id);
                assert(db.members(id) == Some(declared));
                lemma_member_in_place(
                    db,
                    shape,
                    *parent,
                    id,
                    *members,
                    member_id,
                    env,
                    member_index(db, path).unwrap(),
                );
            }
        }
    }
}

// Replaced values.

/// Whether every entry has the same contents in two mappings.
pub open spec fn same_contents(
    before: Seq<(MemberPath, Value)>,
    after: Seq<(MemberPath, Value)>,
    env: Valuation,
) -> bool {
    forall|key: MemberPath|
        #![trigger value_of(before, key)]
        #![trigger value_of(after, key)]
        match (value_of(before, key), value_of(after, key)) {
            (Some(a), Some(b)) => contents(a, env) == contents(b, env),
            (None, None) => true,
            _ => false,
        }
}

/// Where every entry has the same contents, every path does.
pub proof fn lemma_same_contents_at(
    db: StructTable,
    before: Seq<(MemberPath, Value)>,
    after: Seq<(MemberPath, Value)>,
    env: Valuation,
    path: MemberPath,
)
    requires
        same_contents(before, after, env),
    ensures
        contents_at(db, before, env, path) == contents_at(db, after, env, path),
    decreases path,
{
    if let MemberPath::Member { parent, .. } = path {
        lemma_same_contents_at(db, before, after, env, *parent);
    }
    assert(value_of(before, path) is Some == value_of(after, path) is Some);
}

/// A value that is replaced by one with the same contents changes no contents.
proof fn lemma_stored_same_contents(
    entries: Seq<(MemberPath, Value)>,
    path: MemberPath,
    value: Value,
    env: Valuation,
)
    requires
        lookup(entries, path) matches Some(before) && contents(before, env) == contents(value, env),
    ensures
        same_contents(entries, stored(entries, path, value), env),
    decreases path,
{
    if has_key(entries, path) {
        lemma_inserted(entries, path, value);
        let after = inserted(entries, path, value);
        assert forall|key: MemberPath|
            #![trigger value_of(entries, key)]
            #![trigger value_of(after, key)]
            match (value_of(entries, key), value_of(after, key)) {
                (Some(a), Some(b)) => contents(a, env) == contents(b, env),
                (None, None) => true,
                _ => false,
            } by {
            if key != path {
                assert(value_of(after, key) == value_of(entries, key));
            }
        }
    } else if let MemberPath::Member { parent, member_id, .. } = path {
        if let Some(Value::Scattered { concrete_struct_id, members }) = lookup(entries, *parent) {
            lemma_with_member_same_contents(*members, member_id, value, env);
            lemma_stored_same_contents(
                entries,
                *parent,
                Value::Scattered {
                    concrete_struct_id,
                    members: Box::new(with_member(*members, member_id, value)),
                },
                env,
            );
        }
    }
}

/// A member that is replaced by one with the same contents changes no contents.
proof fn lemma_with_member_same_contents(
    members: Members,
    id: MemberId,
    value: Value,
    env: Valuation,
)
    requires
        member_value(members, id) matches Some(before) && contents(before, env) == contents(
            value,
            env,
        ),
    ensures
        member_contents(with_member(members, id, value), env) == member_contents(members, env),
    decreases members,
{
    if let Members::Cons { member_id, rest, .. } = members {
        if member_id != id {
            lemma_with_member_same_contents(*rest, id, value, env);
        }
    }
}

/// A fitting value in place of another keeps the mapping fitting.
pub(crate) proof fn lemma_stored_fits(
    db: StructTable,
    shape: Shape,
    entries: Seq<(MemberPath, Value)>,
    path: MemberPath,
    value: Value,
)
    requires
        distinct_members(db),
        entries_fit(db, shape, entries),
        path_fits(db, shape, path),
        value_fits(db, shape, path, value),
        lookup(entries, path) is Some,
    ensures
        entries_fit(db, shape, stored(entries, path, value)),
    decreases path,
{
    if has_key(entries, path) {
        lemma_inserted(entries, path, value);
        let after = inserted(entries, path, value);
        assert forall|key: MemberPath|
            (#[trigger] value_of(after, key)) is Some implies value_fits(
            db,
            shape,
            key,
            value_of(after, key).unwrap(),
        ) by {
            if key != path {
                assert(value_of(after, key) == value_of(entries, key));
            }
        }
    } else if let MemberPath::Member { parent, member_id, concrete_struct_id } = path {
        if let Some(Value::Scattered { concrete_struct_id: id, members }) = lookup(
            entries,
            *parent,
        ) {
            let env: Valuation = |var: VariableId| Contents::Opaque(0);
            lemma_lookup_contents(db, shape, entries, env, *parent);
            lemma_with_member_contents(db, shape, *parent, id, *members, member_id, value, env);
            lemma_stored_fits(
                db,
                shape,
                entries,
                *parent,
                Value::Scattered {
                    concrete_struct_id: id,
                    members: Box::new(with_member(*members, member_id, value)),
                },
            );
        }
    }
}

// Structs that are taken apart and put together.

/// Members that are each in a variable have the contents of the variables.
proof fn lemma_members_in_vars(
    db: StructTable,
    shape: Shape,
    path: MemberPath,
    concrete_struct_id: ConcreteStructId,
    pairs: Seq<(MemberId, VariableId)>,
    env: Valuation,
)
    ensures
        member_contents(members_in_vars(pairs), env) == pairs.map_values(
            |pair: (MemberId, VariableId)| env(pair.1),
        ),
        ids_of(members_in_vars(pairs)) == pairs.map_values(
            |pair: (MemberId, VariableId)| pair.0,
        ),
        members_fit(db, shape, path, concrete_struct_id, members_in_vars(pairs)),
    decreases pairs.len(),
{
    if pairs.len() > 0 {
        lemma_members_in_vars(db, shape, path, concrete_struct_id, pairs.drop_first(), env);
        let first = Value::Var(pairs[0].1);
        assert(contents(first, env) == env(pairs[0].1));
        assert(value_fits(
            db,
            shape,
            member_of(path, pairs[0].0, concrete_struct_id),
            first,
        ));
    }
    assert(member_contents(members_in_vars(pairs), env) =~= pairs.map_values(
        |pair: (MemberId, VariableId)| env(pair.1),
    ));
    assert(ids_of(members_in_vars(pairs)) =~= pairs.map_values(
        |pair: (MemberId, VariableId)| pair.0,
    ));
}

/// A struct that is taken apart is scattered over variables with the contents of its members.
pub(crate) proof fn lemma_scattered_members(
    db: StructTable,
    shape: Shape,
    path: MemberPath,
    concrete_struct_id: ConcreteStructId,
    emitted: Emitted,
    env: Valuation,
)
    requires
        distinct_members(db),
        db.members(concrete_struct_id) is Some,
    ensures
        ({
            let declared = db.members(concrete_struct_id).unwrap();
            let members = scattered_members(declared, emitted);
            &&& member_contents(members, env) == fresh_ids(emitted, declared.len()).map_values(
                |var: VariableId| env(var),
            )
            &&& ids_of(members) == member_ids(declared)
            &&& members_fit(db, shape, path, concrete_struct_id, members)
        }),
{
    let declared = db.members(concrete_struct_id).unwrap();
    let vars = fresh_ids(emitted, declared.len());
    let pairs = paired(member_ids(declared), vars);
    assert(unique_keys(pairs)) by {
        assert forall|i: int, j: int| 0 <= i < j < pairs.len() implies (#[trigger] pairs[i]).0 != (
        #[trigger] pairs[j]).0 by {
            assert(member_ids(declared)[i] != member_ids(declared)[j]);
        }
    }
    lemma_collected_distinct(pairs);
    lemma_members_in_vars(db, shape, path, concrete_struct_id, pairs, env);
    assert(pairs.map_values(|pair: (MemberId, VariableId)| env(pair.1)) =~= vars.map_values(
        |var: VariableId| env(var),
    ));
    assert(pairs.map_values(|pair: (MemberId, VariableId)| pair.0) =~= member_ids(declared));
}

/// Making a path available changes no contents, in any valuation in which what was emitted holds.
pub proof fn lemma_broken_contents(
    db: StructTable,
    shape: Shape,
    entries: Seq<(MemberPath, Value)>,
    emitted: Emitted,
    path: MemberPath,
    location: LocationId,
    env: Valuation,
)
    requires
        distinct_members(db),
        entries_fit(db, shape, entries),
        path_fits(db, shape, path),
        broken(db, entries, emitted, path, location).ok,
        all_hold(broken(db, entries, emitted, path, location).emitted.statements, env),
    ensures
        ({
            let b = broken(db, entries, emitted, path, location);
            &&& same_contents(entries, b.entries, env)
            &&& entries_fit(db, shape, b.entries)
            &&& all_hold(emitted.statements, env)
        }),
    decreases path,
{
    if !has_key(entries, path) {
        if let MemberPath::Member { parent, concrete_struct_id, .. } = path {
            let above = broken(db, entries, emitted, *parent, location);
            let b = broken(db, entries, emitted, path, location);
            if above.ok && above.found {
                lemma_broken_found(db, entries, emitted, *parent, location);
                if let Some(Value::Var(var)) = lookup(above.entries, *parent) {
                    let declared = db.members(concrete_struct_id).unwrap();
                    let members = scattered_members(declared, above.emitted);
                    let value = Value::Scattered {
                        concrete_struct_id,
                        members: Box::new(members),
                    };
                    assert forall|i: int|
                        0 <= i < above.emitted.statements.len() implies holds(
                        #[trigger] above.emitted.statements[i],
                        env,
                    ) by {
                        assert(b.emitted.statements[i] == above.emitted.statements[i]);
                    }
                    lemma_broken_contents(db, shape, entries, emitted, *parent, location, env);
                    lemma_scattered_members(
                        db,
                        shape,
                        *parent,
                        concrete_struct_id,
                        above.emitted,
                        env,
                    );
                    let last = b.emitted.statements[above.emitted.statements.len() as int];
                    assert(holds(last, env));
                    assert(contents(value, env) == env(var));
                    lemma_stored_same_contents(above.entries, *parent, value, env);
                    lemma_stored_fits(db, shape, above.entries, *parent, value);
                    lemma_same_contents_trans(entries, above.entries, b.entries, env);
                } else {
                    lemma_broken_contents(db, shape, entries, emitted, *parent, location, env);
                }
            } else {
                lemma_broken_contents(db, shape, entries, emitted, *parent, location, env);
            }
        }
    }
}

proof fn lemma_same_contents_trans(
    a: Seq<(MemberPath, Value)>,
    b: Seq<(MemberPath, Value)>,
    c: Seq<(MemberPath, Value)>,
    env: Valuation,
)
    requires
        same_contents(a, b, env),
        same_contents(b, c, env),
    ensures
        same_contents(a, c, env),
{
    assert forall|key: MemberPath|
        #![trigger value_of(a, key)]
        #![trigger value_of(c, key)]
        match (value_of(a, key), value_of(c, key)) {
            (Some(x), Some(y)) => contents(x, env) == contents(y, env),
            (None, None) => true,
            _ => false,
        } by {
        assert(value_of(b, key) is Some == value_of(a, key) is Some);
    }
}

/// A value that is put together has its contents, in any valuation in which what was emitted holds.
pub proof fn lemma_assembled_contents(
    value: Value,
    emitted: Emitted,
    location: LocationId,
    env: Valuation,
)
    requires
        all_hold(assembled(value, emitted, location).0.statements, env),
    ensures
        env(assembled(value, emitted, location).1) == contents(value, env),
        all_hold(emitted.statements, env),
    decreases value,
{
    if let Value::Scattered { concrete_struct_id, members } = value {
        let (e, vars) = assembled_members(*members, emitted, location);
        let after = reconstructed(e, concrete_struct_id, vars, location);
        assert forall|i: int| 0 <= i < e.statements.len() implies holds(
            #[trigger] e.statements[i],
            env,
        ) by {
            assert(after.statements[i] == e.statements[i]);
        }
        lemma_assembled_members_contents(*members, emitted, location, env);
        assert(holds(after.statements[e.statements.len() as int], env));
        assert(usages_at(vars, location).map_values(|usage: VarUsage| env(usage.var_id))
            =~= vars.map_values(|var: VariableId| env(var)));
    }
}

/// Members that are put together have their contents.
proof fn lemma_assembled_members_contents(
    members: Members,
    emitted: Emitted,
    location: LocationId,
    env: Valuation,
)
    requires
        all_hold(assembled_members(members, emitted, location).0.statements, env),
    ensures
        assembled_members(members, emitted, location).1.map_values(|var: VariableId| env(var))
            == member_contents(members, env),
        all_hold(emitted.statements, env),
    decreases members,
{
    let vars = assembled_members(members, emitted, location).1;
    if let Members::Cons { value, rest, .. } = members {
        let (e1, var) = assembled(*value, emitted, location);
        let (e2, rest_vars) = assembled_members(*rest, e1, location);
        lemma_assembled_members_contents(*rest, e1, location, env);
        lemma_assembled_contents(*value, emitted, location, env);
        assert(vars.map_values(|var: VariableId| env(var)) =~= seq![env(var)]
            + rest_vars.map_values(|var: VariableId| env(var)));
    } else {
        assert(vars.map_values(|var: VariableId| env(var)) =~= member_contents(members, env));
    }
}

// Reads and writes.

/// A read gives the contents of its path, and changes the contents of no path: in every valuation in
/// which the statements hold, the variable that is returned has the contents that the path had, and
/// each path has the contents that it had.
pub proof fn law_read_contents(
    db: StructTable,
    shape: Shape,
    entries: Seq<(MemberPath, Value)>,
    emitted: Emitted,
    path: MemberPath,
    location: LocationId,
    env: Valuation,
    q: MemberPath,
)
    requires
        distinct_members(db),
        entries_fit(db, shape, entries),
        path_fits(db, shape, path),
        read(db, entries, emitted, path, location).ok,
        all_hold(read(db, entries, emitted, path, location).emitted.statements, env),
    ensures
        ({
            let r = read(db, entries, emitted, path, location);
            &&& r.var matches Some(var) ==> env(var) == contents_at(db, entries, env, path)
            &&& contents_at(db, r.entries, env, q) == contents_at(db, entries, env, q)
            &&& entries_fit(db, shape, r.entries)
            &&& all_hold(emitted.statements, env)
        }),
{
    let b = broken(db, entries, emitted, path, location);
    let r = read(db, entries, emitted, path, location);
    if b.found {
        lemma_broken_found(db, entries, emitted, path, location);
        let value = lookup(b.entries, path).unwrap();
        if let Value::Var(var) = value {
            lemma_broken_contents(db, shape, entries, emitted, path, location, env);
        } else {
            let (e, var) = assembled(value, b.emitted, location);
            lemma_assembled_contents(value, b.emitted, location, env);
            lemma_broken_contents(db, shape, entries, emitted, path, location, env);
            lemma_stored_same_contents(b.entries, path, Value::Var(var), env);
            lemma_stored_fits(db, shape, b.entries, path, Value::Var(var));
            lemma_same_contents_trans(entries, b.entries, r.entries, env);
        }
        lemma_lookup_contents(db, shape, b.entries, env, path);
        lemma_same_contents_at(db, entries, b.entries, env, path);
    } else {
        lemma_broken_contents(db, shape, entries, emitted, path, location, env);
    }
    lemma_same_contents_at(db, entries, r.entries, env, q);
}

/// A replaced value changes the contents of no path apart from it.
proof fn lemma_stored_contents_apart(
    db: StructTable,
    shape: Shape,
    entries: Seq<(MemberPath, Value)>,
    path: MemberPath,
    value: Value,
    env: Valuation,
    q: MemberPath,
)
    requires
        distinct_members(db),
        entries_fit(db, shape, entries),
        path_fits(db, shape, path),
        path_fits(db, shape, q),
        value_fits(db, shape, path, value),
        lookup(entries, path) is Some,
        apart(path, q),
    ensures
        contents_at(db, stored(entries, path, value), env, q) == contents_at(db, entries, env, q),
    decreases path,
{
    if root(path) != root(q) {
        lemma_stored_contents_other_root(db, entries, path, value, env, q);
    } else {
        let (a, b) = choose|a: MemberPath, b: MemberPath|
            #[trigger] are_siblings(a, b) && is_prefix(a, path) && is_prefix(b, q);
        if has_key(entries, path) {
            lemma_inserted_contents_not_below(db, entries, path, value, env, a, b, q);
        } else {
            let parent = *path->parent;
            if let Some(Value::Scattered { concrete_struct_id, members }) = lookup(
                entries,
                parent,
            ) {
                let new_parent = Value::Scattered {
                    concrete_struct_id,
                    members: Box::new(with_member(*members, path->member_id, value)),
                };
                lemma_lookup_contents(db, shape, entries, env, parent);
                lemma_with_member_contents(
                    db,
                    shape,
                    parent,
                    concrete_struct_id,
                    *members,
                    path->member_id,
                    value,
                    env,
                );
                if a == path {
                    lemma_stored_fits(db, shape, entries, parent, new_parent);
                    lemma_contents_below_sibling(
                        db,
                        shape,
                        entries,
                        path,
                        value,
                        env,
                        b,
                        q,
                    );
                } else {
                    assert(apart(parent, q));
                    lemma_stored_contents_apart(
                        db,
                        shape,
                        entries,
                        parent,
                        new_parent,
                        env,
                        q,
                    );
                }
            }
        }
    }
}

proof fn lemma_stored_contents_other_root(
    db: StructTable,
    entries: Seq<(MemberPath, Value)>,
    path: MemberPath,
    value: Value,
    env: Valuation,
    q: MemberPath,
)
    requires
        root(path) != root(q),
    ensures
        contents_at(db, stored(entries, path, value), env, q) == contents_at(db, entries, env, q),
    decreases q,
{
    lemma_stored_keys(entries, path, value, q);
    if is_prefix(q, path) {
        lemma_prefix_root(q, path);
    }
    if let MemberPath::Member { parent, .. } = q {
        lemma_stored_contents_other_root(db, entries, path, value, env, *parent);
    }
}

proof fn lemma_inserted_contents_not_below(
    db: StructTable,
    entries: Seq<(MemberPath, Value)>,
    path: MemberPath,
    value: Value,
    env: Valuation,
    a: MemberPath,
    b: MemberPath,
    q: MemberPath,
)
    requires
        has_key(entries, path),
        are_siblings(a, b),
        is_prefix(a, path),
        is_prefix(b, q) || is_ancestor(q, b),
    ensures
        contents_at(db, inserted(entries, path, value), env, q) == contents_at(db, entries, env, q),
    decreases q,
{
    lemma_inserted(entries, path, value);
    if q == path {
        if is_prefix(b, q) {
            lemma_siblings_not_on_one_path(a, b, q);
        } else {
            lemma_depth(q, b);
            if a != path {
                lemma_depth(a, path);
            }
        }
    }
    assert(value_of(inserted(entries, path, value), q) == value_of(entries, q));
    if let MemberPath::Member { parent, .. } = q {
        if !is_prefix(b, q) {
            assert(is_ancestor(*parent, q));
            lemma_prefix_trans(*parent, q, b);
            lemma_depth(*parent, q);
            lemma_depth(q, b);
        }
        lemma_inserted_contents_not_below(db, entries, path, value, env, a, b, *parent);
    }
}

/// A replaced member changes the contents of no path below another member of its struct.
proof fn lemma_contents_below_sibling(
    db: StructTable,
    shape: Shape,
    entries: Seq<(MemberPath, Value)>,
    path: MemberPath,
    value: Value,
    env: Valuation,
    sibling: MemberPath,
    q: MemberPath,
)
    requires
        distinct_members(db),
        entries_fit(db, shape, entries),
        entries_fit(db, shape, stored(entries, path, value)),
        path_fits(db, shape, path),
        path_fits(db, shape, q),
        value_fits(db, shape, path, value),
        !has_key(entries, path),
        lookup(entries, path) is Some,
        are_siblings(path, sibling),
        is_prefix(sibling, q),
    ensures
        contents_at(db, stored(entries, path, value), env, q) == contents_at(db, entries, env, q),
    decreases q,
{
    let after = stored(entries, path, value);
    lemma_stored_keys(entries, path, value, q);
    if is_prefix(q, path) {
        lemma_prefix_trans(sibling, q, path);
        if is_ancestor(sibling, path) {
            lemma_depth(sibling, path);
        }
    }
    if q == sibling {
        let parent = *path->parent;
        if let Some(Value::Scattered { concrete_struct_id, members }) = lookup(entries, parent) {
            let new_parent = Value::Scattered {
                concrete_struct_id,
                members: Box::new(with_member(*members, path->member_id, value)),
            };
            lemma_lookup_contents(db, shape, entries, env, parent);
            lemma_lookup_stored(entries, parent, new_parent);
            lemma_lookup_contents(db, shape, after, env, parent);
            lemma_with_member_contents(
                db,
                shape,
                parent,
                concrete_struct_id,
                *members,
                path->member_id,
                value,
                env,
            );
            let declared = db.members(concrete_struct_id).unwrap();
            lemma_member_position_is(declared, q->member_id);
            let j = member_index(db, q).unwrap();
            assert(ids_of(*members)[j] == q->member_id);
            assert(member_contents(with_member(*members, path->member_id, value), env)[j]
                == member_contents(*members, env)[j]);
        }
    } else {
        lemma_contents_below_sibling(
            db,
            shape,
            entries,
            path,
            value,
            env,
            sibling,
            *q->parent,
        );
    }
}

/// A write gives its path the contents of the variable, and changes the contents of no path apart
/// from it: in every valuation in which the statements hold, the path has the contents of the
/// variable that was written, and each path apart from it has the contents that it had.
pub proof fn law_write_contents(
    db: StructTable,
    shape: Shape,
    entries: Seq<(MemberPath, Value)>,
    emitted: Emitted,
    path: MemberPath,
    var: VariableId,
    location: LocationId,
    env: Valuation,
    q: MemberPath,
)
    requires
        distinct_members(db),
        entries_fit(db, shape, entries),
        path_fits(db, shape, path),
        path_fits(db, shape, q),
        written(db, entries, emitted, path, var, location).ok,
        all_hold(written(db, entries, emitted, path, var, location).emitted.statements, env),
    ensures
        ({
            let w = written(db, entries, emitted, path, var, location);
            &&& w.found ==> contents_at(db, w.entries, env, path) == env(var)
            &&& apart(path, q) ==> contents_at(db, w.entries, env, q) == contents_at(
                db,
                entries,
                env,
                q,
            )
            &&& entries_fit(db, shape, w.entries)
            &&& all_hold(emitted.statements, env)
        }),
{
    let b = broken(db, entries, emitted, path, location);
    let w = written(db, entries, emitted, path, var, location);
    lemma_broken_contents(db, shape, entries, emitted, path, location, env);
    lemma_same_contents_at(db, entries, b.entries, env, q);
    if b.found {
        lemma_broken_found(db, entries, emitted, path, location);
        lemma_stored_fits(db, shape, b.entries, path, Value::Var(var));
        lemma_lookup_stored(b.entries, path, Value::Var(var));
        lemma_lookup_contents(db, shape, w.entries, env, path);
        if apart(path, q) {
            lemma_stored_contents_apart(
                db,
                shape,
                b.entries,
                path,
                Value::Var(var),
                env,
                q,
            );
        }
    }
}

/// A write of a variable with the contents that the path has changes the contents of no path.
pub proof fn law_write_same_contents(
    db: StructTable,
    shape: Shape,
    entries: Seq<(MemberPath, Value)>,
    emitted: Emitted,
    path: MemberPath,
    var: VariableId,
    location: LocationId,
    env: Valuation,
    q: MemberPath,
)
    requires
        distinct_members(db),
        entries_fit(db, shape, entries),
        path_fits(db, shape, path),
        written(db, entries, emitted, path, var, location).ok,
        all_hold(written(db, entries, emitted, path, var, location).emitted.statements, env),
        env(var) == contents_at(db, entries, env, path),
    ensures
        ({
            let w = written(db, entries, emitted, path, var, location);
            &&& contents_at(db, w.entries, env, q) == contents_at(db, entries, env, q)
            &&& entries_fit(db, shape, w.entries)
        }),
{
    let b = broken(db, entries, emitted, path, location);
    let w = written(db, entries, emitted, path, var, location);
    lemma_broken_contents(db, shape, entries, emitted, path, location, env);
    if b.found {
        lemma_broken_found(db, entries, emitted, path, location);
        lemma_lookup_contents(db, shape, b.entries, env, path);
        lemma_same_contents_at(db, entries, b.entries, env, path);
        lemma_stored_same_contents(b.entries, path, Value::Var(var), env);
        lemma_stored_fits(db, shape, b.entries, path, Value::Var(var));
        lemma_same_contents_trans(entries, b.entries, w.entries, env);
    }
    lemma_same_contents_at(db, entries, w.entries, env, q);
}

} // verus!
