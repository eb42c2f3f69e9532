//! Laws of how much reads and writes emit, and of the longest and shortest known parts of a path.
use vstd::prelude::*;

use crate::context::StructTable;
use crate::generators::{fresh_ids, Emitted};
use crate::ids::{LocationId, MemberId, VariableId};
use crate::laws::mapping::{
    is_prefix, lemma_broken_available, lemma_broken_found, lemma_broken_keys, lemma_lookup_stored,
    lemma_prefix_trans,
};
use crate::member_path::MemberPath;
use crate::merge::topmost;
use crate::ordered::{collected, has_key, lemma_position};
use crate::recomposer::{member_ids, paired};
use crate::refs::{
    assembled, assembled_members, broken, lookup, member_value, members_in_vars, scattered_members,
    Members, Value,
};
use crate::state::{read_ref, write_ref, State};

verus! {

/// The number of structs that have to be taken apart before the mapping has a path.
pub open spec fn missing(entries: Seq<(MemberPath, Value)>, path: MemberPath) -> nat
    decreases path,
{
    if lookup(entries, path) is Some {
        0
    } else {
        match path {
            MemberPath::Var(_) => 0,
            MemberPath::Member { parent, .. } => missing(entries, *parent) + 1,
        }
    }
}

/// The number of structs that have to be put together for a value.
pub open spec fn scattered_structs(value: Value) -> nat
    decreases value,
{
    match value {
        Value::Var(_) => 0,
        Value::Scattered { members, .. } => scattered_among(*members) + 1,
    }
}

/// The number of structs that have to be put together for members.
pub open spec fn scattered_among(members: Members) -> nat
    decreases members,
{
    match members {
        Members::Nil => 0,
        Members::Cons { value, rest, .. } => scattered_structs(*value) + scattered_among(*rest),
    }
}

proof fn lemma_in_vars_is_var(pairs: Seq<(MemberId, VariableId)>, id: MemberId)
    ensures
        member_value(members_in_vars(pairs), id) matches Some(value) ==> value is Var,
    decreases pairs.len(),
{
    if pairs.len() > 0 {
        lemma_in_vars_is_var(pairs.drop_first(), id);
    }
}

/// A path that had to be made available is in a variable from then on.
proof fn lemma_made_available(
    db: StructTable,
    entries: Seq<(MemberPath, Value)>,
    emitted: Emitted,
    path: MemberPath,
    location: LocationId,
)
    requires
        broken(db, entries, emitted, path, location).ok,
        broken(db, entries, emitted, path, location).found,
        lookup(entries, path) is None,
    ensures
        lookup(broken(db, entries, emitted, path, location).entries, path) matches Some(
            Value::Var(_),
        ),
        broken(db, entries, emitted, path, location).emitted.statements.len()
            == emitted.statements.len() + missing(entries, path),
    decreases path,
{
    let b = broken(db, entries, emitted, path, location);
    lemma_position(entries, path);
    assert(!has_key(entries, path));
    lemma_broken_found(db, entries, emitted, path, location);
    if let MemberPath::Member { parent, member_id, concrete_struct_id } = path {
        let above = broken(db, entries, emitted, *parent, location);
        if lookup(entries, *parent) is None {
            lemma_made_available(db, entries, emitted, *parent, location);
        } else {
            lemma_broken_available(db, entries, emitted, *parent, location);
        }
        let declared = db.members(concrete_struct_id).unwrap();
        let members = scattered_members(declared, above.emitted);
        if let Some(Value::Var(_)) = lookup(above.entries, *parent) {
            let pairs = collected(
                paired(member_ids(declared), fresh_ids(above.emitted, declared.len())),
            );
            lemma_in_vars_is_var(pairs, member_id);
            lemma_lookup_stored(
                above.entries,
                *parent,
                Value::Scattered { concrete_struct_id, members: Box::new(members) },
            );
            lemma_broken_keys(db, entries, emitted, path, location, path);
            lemma_position(b.entries, path);
        }
    }
}

proof fn lemma_assembled_count(value: Value, emitted: Emitted, location: LocationId)
    ensures
        assembled(value, emitted, location).0.statements.len() == emitted.statements.len()
            + scattered_structs(value),
    decreases value,
{
    if let Value::Scattered { members, .. } = value {
        lemma_assembled_members_count(*members, emitted, location);
    }
}

proof fn lemma_assembled_members_count(
    members: Members,
    emitted: Emitted,
    location: LocationId,
)
    ensures
        assembled_members(members, emitted, location).0.statements.len()
            == emitted.statements.len() + scattered_among(members),
    decreases members,
{
    if let Members::Cons { value, rest, .. } = members {
        let (e1, _) = assembled(*value, emitted, location);
        lemma_assembled_count(*value, emitted, location);
        lemma_assembled_members_count(*rest, e1, location);
    }
}

/// A read of a path that the mapping has emits one statement for each struct that has to be put
/// together for it. A read of another emits one for each that has to be taken apart to get to it.
/// Neither emits any other.
pub proof fn law_read_emits_no_more(
    db: StructTable,
    before: State,
    path: MemberPath,
    location: LocationId,
)
    requires
        read_ref(db, before, path, location).ok,
        read_ref(db, before, path, location).value is Some,
    ensures
        ({
            let r = read_ref(db, before, path, location);
            r.state.builder.statements.len() == before.builder.statements.len() + match lookup(
                before.builder.semantics,
                path,
            ) {
                Some(value) => scattered_structs(value),
                None => missing(before.builder.semantics, path),
            }
        }),
{
    let entries = before.builder.semantics;
    if let Some(value) = lookup(entries, path) {
        lemma_broken_available(db, entries, before.emitted(), path, location);
        lemma_assembled_count(value, before.emitted(), location);
    } else {
        lemma_made_available(db, entries, before.emitted(), path, location);
    }
}

/// A write emits one statement for each struct that has to be taken apart to get to its path, and no
/// other.
pub proof fn law_write_emits_no_more(
    db: StructTable,
    before: State,
    path: MemberPath,
    var: VariableId,
    location: LocationId,
)
    requires
        write_ref(db, before, path, var, location).ok,
        read_ref(db, before, path, location).value is Some,
    ensures
        write_ref(db, before, path, var, location).state.builder.statements.len()
            == before.builder.statements.len() + missing(before.builder.semantics, path),
{
    let entries = before.builder.semantics;
    if lookup(entries, path) is Some {
        lemma_broken_available(db, entries, before.emitted(), path, location);
    } else {
        lemma_made_available(db, entries, before.emitted(), path, location);
    }
}

/// The topmost mapped part of a path is the shortest part that the mapping has an entry for. There is
/// none if and only if the mapping has no entry for any part.
pub proof fn law_topmost(entries: Seq<(MemberPath, Value)>, path: MemberPath, other: MemberPath)
    requires
        is_prefix(other, path),
        has_key(entries, other),
    ensures
        topmost(entries, path) matches Some(top) && {
            &&& has_key(entries, top)
            &&& is_prefix(top, path)
            &&& is_prefix(top, other)
        },
    decreases path,
{
    if other != path {
        let parent = *path->parent;
        law_topmost(entries, parent, other);
        lemma_prefix_trans(topmost(entries, parent).unwrap(), parent, path);
    } else if let MemberPath::Member { parent, .. } = path {
        lemma_topmost_is_part(entries, *parent);
        if let Some(top) = topmost(entries, *parent) {
            lemma_prefix_trans(top, *parent, path);
        }
    }
}

/// The topmost mapped part of a path is a part of it that the mapping has an entry for.
proof fn lemma_topmost_is_part(entries: Seq<(MemberPath, Value)>, path: MemberPath)
    ensures
        topmost(entries, path) matches Some(top) ==> has_key(entries, top) && is_prefix(top, path),
    decreases path,
{
    if let MemberPath::Member { parent, .. } = path {
        lemma_topmost_is_part(entries, *parent);
        if let Some(top) = topmost(entries, *parent) {
            lemma_prefix_trans(top, *parent, path);
        }
    }
}

/// A path has no topmost mapped part where the mapping has no entry for any part of it.
pub proof fn law_no_topmost(entries: Seq<(MemberPath, Value)>, path: MemberPath)
    requires
        forall|p: MemberPath| is_prefix(p, path) ==> !#[trigger] has_key(entries, p),
    ensures
        topmost(entries, path) is None,
{
    lemma_topmost_is_part(entries, path);
}

} // verus!
