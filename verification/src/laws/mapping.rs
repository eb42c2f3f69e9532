//! Laws of the mapping from semantic variables to lowered variables.
use vstd::prelude::*;

use crate::context::StructTable;
use crate::generators::Emitted;
use crate::ids::{LocationId, MemberId, VarId, VariableId};
use crate::member_path::{is_ancestor, MemberPath};
use crate::ordered::{has_key, inserted, lemma_inserted, unique_keys, value_of};
use crate::refs::{
    assembled, broken, lookup, member_value, read, scattered_members, stored, with_member, written,
    Broken, Members, Read, Value,
};

verus! {

/// The variable of a path.
pub open spec fn root(path: MemberPath) -> VarId
    decreases path,
{
    match path {
        MemberPath::Var(var) => var,
        MemberPath::Member { parent, .. } => root(*parent),
    }
}

/// Whether `prefix` is a prefix of `path`, or the path itself.
pub open spec fn is_prefix(prefix: MemberPath, path: MemberPath) -> bool {
    prefix == path || is_ancestor(prefix, path)
}

/// Whether two paths are different members of the same struct.
pub open spec fn are_siblings(a: MemberPath, b: MemberPath) -> bool {
    &&& a is Member
    &&& b is Member
    &&& a->parent == b->parent
    &&& a->member_id != b->member_id
}

/// Whether two paths lead to different values: they are of different variables, or part at some
/// struct.
pub open spec fn apart(p: MemberPath, q: MemberPath) -> bool {
    root(p) != root(q) || exists|a: MemberPath, b: MemberPath|
        #[trigger] are_siblings(a, b) && is_prefix(a, p) && is_prefix(b, q)
}

/// A prefix of a prefix is a prefix.
pub(crate) proof fn lemma_prefix_trans(a: MemberPath, b: MemberPath, c: MemberPath)
    requires
        is_prefix(a, b),
        is_prefix(b, c),
    ensures
        is_prefix(a, c),
    decreases c,
{
    if b != c {
        lemma_prefix_trans(a, b, *c->parent);
        if a == *c->parent {
        } else {
            assert(is_ancestor(a, *c->parent));
        }
    }
}

/// A prefix of a path is of the same variable.
pub(crate) proof fn lemma_prefix_root(a: MemberPath, b: MemberPath)
    requires
        is_prefix(a, b),
    ensures
        root(a) == root(b),
    decreases b,
{
    if a != b {
        lemma_prefix_root(a, *b->parent);
    }
}

/// The number of members on a path.
pub open spec fn depth(path: MemberPath) -> nat
    decreases path,
{
    match path {
        MemberPath::Var(_) => 0,
        MemberPath::Member { parent, .. } => depth(*parent) + 1,
    }
}

/// A proper prefix is shorter.
pub(crate) proof fn lemma_depth(a: MemberPath, b: MemberPath)
    requires
        is_ancestor(a, b),
    ensures
        depth(a) < depth(b),
    decreases b,
{
    if a != *b->parent {
        lemma_depth(a, *b->parent);
    }
}

// Members of scattered values.

/// What a replaced member is, and what the others are.
pub proof fn lemma_with_member(members: Members, id: MemberId, value: Value, other: MemberId)
    ensures
        member_value(members, id) is Some ==> member_value(with_member(members, id, value), id)
            == Some(value),
        other != id ==> member_value(with_member(members, id, value), other) == member_value(
            members,
            other,
        ),
        (member_value(with_member(members, id, value), other) is Some) == (member_value(
            members,
            other,
        ) is Some),
    decreases members,
{
    if let Members::Cons { rest, .. } = members {
        lemma_with_member(*rest, id, value, other);
    }
}

// Replaced values.

/// A replacement changes nothing but the value of a prefix of the path.
pub proof fn lemma_stored_keys(
    entries: Seq<(MemberPath, Value)>,
    path: MemberPath,
    value: Value,
    key: MemberPath,
)
    ensures
        has_key(stored(entries, path, value), key) == has_key(entries, key),
        !is_prefix(key, path) ==> value_of(stored(entries, path, value), key) == value_of(
            entries,
            key,
        ),
        unique_keys(entries) ==> unique_keys(stored(entries, path, value)),
    decreases path,
{
    if has_key(entries, path) {
        lemma_inserted(entries, path, value);
        if key != path {
            assert(value_of(inserted(entries, path, value), key) == value_of(entries, key));
        }
    } else {
        match path {
            MemberPath::Var(_) => {},
            MemberPath::Member { parent, member_id, .. } => {
                if let Some(Value::Scattered { concrete_struct_id, members }) = lookup(
                    entries,
                    *parent,
                ) {
                    lemma_stored_keys(
                        entries,
                        *parent,
                        Value::Scattered {
                            concrete_struct_id,
                            members: Box::new(with_member(*members, member_id, value)),
                        },
                        key,
                    );
                }
            },
        }
    }
}

/// A value that is replaced is the new one from then on.
pub proof fn lemma_lookup_stored(entries: Seq<(MemberPath, Value)>, path: MemberPath, value: Value)
    requires
        lookup(entries, path) is Some,
    ensures
        lookup(stored(entries, path, value), path) == Some(value),
    decreases path,
{
    lemma_stored_keys(entries, path, value, path);
    if has_key(entries, path) {
        lemma_inserted(entries, path, value);
    } else if let MemberPath::Member { parent, member_id, .. } = path {
        if let Some(Value::Scattered { concrete_struct_id, members }) = lookup(entries, *parent) {
            let new_parent = Value::Scattered {
                concrete_struct_id,
                members: Box::new(with_member(*members, member_id, value)),
            };
            lemma_lookup_stored(entries, *parent, new_parent);
            lemma_with_member(*members, member_id, value, member_id);
        }
    }
}

/// A replacement does not change what is apart from it: paths of other variables.
proof fn lemma_stored_other_root(
    entries: Seq<(MemberPath, Value)>,
    path: MemberPath,
    value: Value,
    q: MemberPath,
)
    requires
        root(path) != root(q),
    ensures
        lookup(stored(entries, path, value), q) == lookup(entries, q),
    decreases q,
{
    lemma_stored_keys(entries, path, value, q);
    if is_prefix(q, path) {
        lemma_prefix_root(q, path);
    }
    if let MemberPath::Member { parent, .. } = q {
        lemma_stored_other_root(entries, path, value, *parent);
    }
}

/// A replacement does not change what is apart from it: paths below a sibling.
proof fn lemma_stored_below_sibling(
    entries: Seq<(MemberPath, Value)>,
    path: MemberPath,
    value: Value,
    sibling: MemberPath,
    q: MemberPath,
)
    requires
        are_siblings(path, sibling),
        is_prefix(sibling, q),
        lookup(entries, path) is Some,
    ensures
        lookup(stored(entries, path, value), q) == lookup(entries, q),
    decreases q,
{
    lemma_stored_keys(entries, path, value, q);
    if is_prefix(q, path) {
        lemma_prefix_trans(sibling, q, path);
        if is_ancestor(sibling, path) {
            if *path->parent != sibling {
                lemma_depth(sibling, *path->parent);
            }
            assert(depth(sibling) == depth(path));
            lemma_depth(sibling, path);
        }
    }
    if q == sibling {
        if !has_key(entries, path) {
            let parent = *path->parent;
            if let Some(Value::Scattered { concrete_struct_id, members }) = lookup(
                entries,
                parent,
            ) {
                lemma_lookup_stored(
                    entries,
                    parent,
                    Value::Scattered {
                        concrete_struct_id,
                        members: Box::new(with_member(*members, path->member_id, value)),
                    },
                );
                lemma_with_member(*members, path->member_id, value, sibling->member_id);
            }
        } else {
            lemma_stored_above(entries, path, value, *path->parent);
        }
    } else {
        lemma_stored_below_sibling(entries, path, value, sibling, *q->parent);
    }
}

/// A replacement of the value of a key does not change what is found above it.
proof fn lemma_stored_above(
    entries: Seq<(MemberPath, Value)>,
    path: MemberPath,
    value: Value,
    q: MemberPath,
)
    requires
        has_key(entries, path),
        depth(q) < depth(path),
    ensures
        lookup(stored(entries, path, value), q) == lookup(entries, q),
    decreases q,
{
    lemma_inserted(entries, path, value);
    assert(q != path);
    assert(value_of(inserted(entries, path, value), q) == value_of(entries, q));
    if let MemberPath::Member { parent, .. } = q {
        lemma_stored_above(entries, path, value, *parent);
    }
}

/// A replacement does not change what is found on paths that are apart from it.
pub proof fn lemma_stored_apart(
    entries: Seq<(MemberPath, Value)>,
    path: MemberPath,
    value: Value,
    q: MemberPath,
)
    requires
        apart(path, q),
        lookup(entries, path) is Some,
    ensures
        lookup(stored(entries, path, value), q) == lookup(entries, q),
    decreases path,
{
    if root(path) != root(q) {
        lemma_stored_other_root(entries, path, value, q);
    } else {
        let (a, b) = choose|a: MemberPath, b: MemberPath|
            #[trigger] are_siblings(a, b) && is_prefix(a, path) && is_prefix(b, q);
        if a == path {
            lemma_stored_below_sibling(entries, path, value, b, q);
        } else {
            let parent = *path->parent;
            assert(is_prefix(a, parent));
            assert(apart(parent, q));
            if has_key(entries, path) {
                lemma_inserted_not_below(entries, path, value, a, b, q);
            } else if let Some(Value::Scattered { concrete_struct_id, members }) = lookup(
                entries,
                parent,
            ) {
                lemma_stored_apart(
                    entries,
                    parent,
                    Value::Scattered {
                        concrete_struct_id,
                        members: Box::new(with_member(*members, path->member_id, value)),
                    },
                    q,
                );
            }
        }
    }
}

/// A replacement of the value of a key does not change what is found on paths that are not below
/// it.
proof fn lemma_inserted_not_below(
    entries: Seq<(MemberPath, Value)>,
    path: MemberPath,
    value: Value,
    a: MemberPath,
    b: MemberPath,
    q: MemberPath,
)
    requires
        has_key(entries, path),
        are_siblings(a, b),
        is_prefix(a, path),
        is_prefix(b, q) || is_prefix(q, b) && q != b,
    ensures
        lookup(inserted(entries, path, value), q) == lookup(entries, q),
    decreases q,
{
    lemma_inserted(entries, path, value);
    if q == path {
        if is_prefix(b, q) {
            lemma_siblings_not_on_one_path(a, b, q);
        } else {
            lemma_depth(q, b);
            if a != path {
                lemma_depth(a, path);
            }
        }
    }
    assert(value_of(inserted(entries, path, value), q) == value_of(entries, q));
    if let MemberPath::Member { parent, .. } = q {
        if is_prefix(b, q) {
            if q == b {
                assert(is_ancestor(*parent, b));
            }
        } else {
            assert(is_ancestor(*parent, q));
            lemma_prefix_trans(*parent, q, b);
            lemma_depth(*parent, q);
            lemma_depth(q, b);
        }
        lemma_inserted_not_below(entries, path, value, a, b, *parent);
    }
}

/// Two members of a struct are not prefixes of the same path.
pub(crate) proof fn lemma_siblings_not_on_one_path(a: MemberPath, b: MemberPath, q: MemberPath)
    requires
        are_siblings(a, b),
        is_prefix(a, q),
    ensures
        !is_prefix(b, q),
    decreases q,
{
    if is_prefix(b, q) {
        if a == q {
            lemma_depth(b, q);
        } else if b == q {
            lemma_depth(a, q);
        } else {
            lemma_siblings_not_on_one_path(a, b, *q->parent);
        }
    }
}

// Values that are made available.

/// A value that the mapping has is available: nothing is taken apart and nothing is emitted.
pub proof fn lemma_broken_available(
    db: StructTable,
    entries: Seq<(MemberPath, Value)>,
    emitted: Emitted,
    path: MemberPath,
    location: LocationId,
)
    requires
        lookup(entries, path) is Some,
    ensures
        broken(db, entries, emitted, path, location) == (Broken {
            entries,
            emitted,
            found: true,
            ok: true,
        }),
    decreases path,
{
    if !has_key(entries, path) {
        if let MemberPath::Member { parent, .. } = path {
            lemma_broken_available(db, entries, emitted, *parent, location);
        }
    }
}

/// Once a path was made available, the mapping has it.
pub proof fn lemma_broken_found(
    db: StructTable,
    entries: Seq<(MemberPath, Value)>,
    emitted: Emitted,
    path: MemberPath,
    location: LocationId,
)
    requires
        broken(db, entries, emitted, path, location).ok,
    ensures
        ({
            let b = broken(db, entries, emitted, path, location);
            b.found == (lookup(b.entries, path) is Some)
        }),
    decreases path,
{
    let b = broken(db, entries, emitted, path, location);
    if !has_key(entries, path) {
        if let MemberPath::Member { parent, member_id, concrete_struct_id } = path {
            lemma_broken_found(db, entries, emitted, *parent, location);
            lemma_broken_keys(db, entries, emitted, path, location, path);
            let above = broken(db, entries, emitted, *parent, location);
            if above.found {
                if let Some(Value::Var(var)) = lookup(above.entries, *parent) {
                    let members = scattered_members(
                        db.members(concrete_struct_id).unwrap(),
                        above.emitted,
                    );
                    lemma_lookup_stored(
                        above.entries,
                        *parent,
                        Value::Scattered { concrete_struct_id, members: Box::new(members) },
                    );
                }
            }
        }
    }
}

/// Making a path available neither adds nor removes keys, nor makes one be there twice. Only the
/// values of proper prefixes of the path change.
pub proof fn lemma_broken_keys(
    db: StructTable,
    entries: Seq<(MemberPath, Value)>,
    emitted: Emitted,
    path: MemberPath,
    location: LocationId,
    key: MemberPath,
)
    ensures
        ({
            let b = broken(db, entries, emitted, path, location);
            &&& has_key(b.entries, key) == has_key(entries, key)
            &&& !is_ancestor(key, path) ==> value_of(b.entries, key) == value_of(entries, key)
            &&& unique_keys(entries) ==> unique_keys(b.entries)
        }),
    decreases path,
{
    if !has_key(entries, path) {
        if let MemberPath::Member { parent, concrete_struct_id, .. } = path {
            lemma_broken_keys(db, entries, emitted, *parent, location, key);
            let above = broken(db, entries, emitted, *parent, location);
            if above.ok && above.found && db.members(concrete_struct_id) is Some {
                let members = scattered_members(
                    db.members(concrete_struct_id).unwrap(),
                    above.emitted,
                );
                lemma_stored_keys(
                    above.entries,
                    *parent,
                    Value::Scattered { concrete_struct_id, members: Box::new(members) },
                    key,
                );
            }
        }
    }
}

/// Making a path available does not change what was already available apart from it.
pub proof fn lemma_broken_apart(
    db: StructTable,
    entries: Seq<(MemberPath, Value)>,
    emitted: Emitted,
    path: MemberPath,
    location: LocationId,
    q: MemberPath,
)
    requires
        apart(path, q),
        lookup(entries, q) is Some,
    ensures
        lookup(broken(db, entries, emitted, path, location).entries, q) == lookup(entries, q),
{
    lemma_broken_towards(db, entries, emitted, path, location, path, q);
}

/// Making a prefix of a path available does not change what was already available apart from the
/// path.
proof fn lemma_broken_towards(
    db: StructTable,
    entries: Seq<(MemberPath, Value)>,
    emitted: Emitted,
    prefix: MemberPath,
    location: LocationId,
    path: MemberPath,
    q: MemberPath,
)
    requires
        is_prefix(prefix, path),
        apart(path, q),
        lookup(entries, q) is Some,
    ensures
        lookup(broken(db, entries, emitted, prefix, location).entries, q) == lookup(entries, q),
    decreases prefix,
{
    if !has_key(entries, prefix) {
        if let MemberPath::Member { parent, concrete_struct_id, .. } = prefix {
            lemma_prefix_trans(*parent, prefix, path);
            lemma_depth(*parent, prefix);
            if prefix != path {
                lemma_depth(prefix, path);
            }
            let above = broken(db, entries, emitted, *parent, location);
            lemma_broken_towards(db, entries, emitted, *parent, location, path, q);
            if above.ok && above.found && db.members(concrete_struct_id) is Some {
                if let Some(Value::Var(_)) = lookup(above.entries, *parent) {
                    let members = scattered_members(
                        db.members(concrete_struct_id).unwrap(),
                        above.emitted,
                    );
                    lemma_stored_towards(
                        above.entries,
                        *parent,
                        Value::Scattered { concrete_struct_id, members: Box::new(members) },
                        path,
                        q,
                    );
                }
            }
        }
    }
}

/// A variable on the way to a path that is replaced by anything does not change what was available
/// apart from the path.
proof fn lemma_stored_towards(
    entries: Seq<(MemberPath, Value)>,
    prefix: MemberPath,
    value: Value,
    path: MemberPath,
    q: MemberPath,
)
    requires
        is_ancestor(prefix, path),
        apart(path, q),
        lookup(entries, q) is Some,
        lookup(entries, prefix) matches Some(Value::Var(_)),
    ensures
        lookup(stored(entries, prefix, value), q) == lookup(entries, q),
{
    if root(path) != root(q) {
        lemma_prefix_root(prefix, path);
        lemma_stored_other_root(entries, prefix, value, q);
    } else {
        let (a, b) = choose|a: MemberPath, b: MemberPath|
            #[trigger] are_siblings(a, b) && is_prefix(a, path) && is_prefix(b, q);
        if is_prefix(a, prefix) {
            assert(apart(prefix, q));
            lemma_stored_apart(entries, prefix, value, q);
        } else {
            // The paths part below the variable, so that `q` has an entry of its own there.
            lemma_prefixes_are_ordered(a, prefix, path);
            lemma_stored_below_variable(entries, prefix, value, b, q);
        }
    }
}

/// Of two prefixes of a path, one is a prefix of the other.
pub(crate) proof fn lemma_prefixes_are_ordered(a: MemberPath, b: MemberPath, path: MemberPath)
    requires
        is_prefix(a, path),
        is_prefix(b, path),
    ensures
        is_prefix(a, b) || is_ancestor(b, a),
    decreases path,
{
    if a != path && b != path {
        lemma_prefixes_are_ordered(a, b, *path->parent);
    }
}

/// What is available below a variable has an entry of its own, and is not changed where the
/// variable is replaced.
proof fn lemma_stored_below_variable(
    entries: Seq<(MemberPath, Value)>,
    prefix: MemberPath,
    value: Value,
    b: MemberPath,
    q: MemberPath,
)
    requires
        lookup(entries, prefix) matches Some(Value::Var(_)),
        b is Member,
        is_prefix(prefix, *b->parent),
        is_prefix(b, q),
        lookup(entries, q) is Some,
    ensures
        lookup(stored(entries, prefix, value), q) == lookup(entries, q),
    decreases q,
{
    lemma_stored_keys(entries, prefix, value, q);
    assert(is_ancestor(prefix, b));
    lemma_prefix_trans(prefix, b, q);
    if is_prefix(q, prefix) {
        lemma_depth(prefix, b);
        if b != q {
            lemma_depth(b, q);
        }
        if q != prefix {
            lemma_depth(q, prefix);
        }
    }
    if !has_key(entries, q) {
        let parent = *q->parent;
        if q == b {
            if parent == prefix {
                assert(lookup(entries, q) is None);
            } else {
                lemma_prefix_above(prefix, parent);
                lemma_stored_below_variable(entries, prefix, value, parent, parent);
            }
        } else {
            lemma_stored_below_variable(entries, prefix, value, b, parent);
        }
    }
}

/// A proper prefix is a prefix of the parent.
proof fn lemma_prefix_above(prefix: MemberPath, path: MemberPath)
    requires
        is_prefix(prefix, path),
        prefix != path,
    ensures
        path is Member,
        is_prefix(prefix, *path->parent),
{
}

// Reads and writes.

/// A read gives back what was written: after a variable was written to a path that the mapping
/// has, a read of the path gives that variable, emits nothing and changes nothing.
pub proof fn law_read_after_write(
    db: StructTable,
    entries: Seq<(MemberPath, Value)>,
    emitted: Emitted,
    path: MemberPath,
    var: VariableId,
    location: LocationId,
    read_location: LocationId,
)
    requires
        written(db, entries, emitted, path, var, location).ok,
        written(db, entries, emitted, path, var, location).found,
    ensures
        ({
            let w = written(db, entries, emitted, path, var, location);
            read(db, w.entries, w.emitted, path, read_location) == (Read {
                entries: w.entries,
                emitted: w.emitted,
                var: Some(var),
                ok: true,
            })
        }),
{
    let b = broken(db, entries, emitted, path, location);
    let w = written(db, entries, emitted, path, var, location);
    lemma_broken_found(db, entries, emitted, path, location);
    lemma_lookup_stored(b.entries, path, Value::Var(var));
    lemma_broken_available(db, w.entries, w.emitted, path, read_location);
}

/// A second read of a path gives the same variable as the first, emits nothing and changes nothing.
pub proof fn law_read_twice(
    db: StructTable,
    entries: Seq<(MemberPath, Value)>,
    emitted: Emitted,
    path: MemberPath,
    location: LocationId,
    read_location: LocationId,
)
    requires
        read(db, entries, emitted, path, location).ok,
        read(db, entries, emitted, path, location).var is Some,
    ensures
        ({
            let r = read(db, entries, emitted, path, location);
            read(db, r.entries, r.emitted, path, read_location) == r
        }),
{
    let b = broken(db, entries, emitted, path, location);
    let r = read(db, entries, emitted, path, location);
    lemma_broken_found(db, entries, emitted, path, location);
    if !(lookup(b.entries, path).unwrap() is Var) {
        lemma_lookup_stored(b.entries, path, Value::Var(r.var.unwrap()));
    }
    lemma_broken_available(db, r.entries, r.emitted, path, read_location);
}

/// A path can be read if and only if it can be written: the mapping has it, or has a variable that
/// it is a part of.
pub proof fn law_readable_iff_writable(
    db: StructTable,
    entries: Seq<(MemberPath, Value)>,
    emitted: Emitted,
    path: MemberPath,
    var: VariableId,
    location: LocationId,
)
    ensures
        ({
            let r = read(db, entries, emitted, path, location);
            let w = written(db, entries, emitted, path, var, location);
            &&& r.ok == w.ok
            &&& r.ok ==> (r.var is Some) == w.found
        }),
{
    if broken(db, entries, emitted, path, location).ok {
        lemma_broken_found(db, entries, emitted, path, location);
    }
}

/// A variable that was just introduced is read without emitting anything.
pub proof fn law_read_after_introduction(
    db: StructTable,
    entries: Seq<(MemberPath, Value)>,
    emitted: Emitted,
    path: MemberPath,
    var: VariableId,
    location: LocationId,
)
    ensures
        ({
            let after = inserted(entries, path, Value::Var(var));
            read(db, after, emitted, path, location) == (Read {
                entries: after,
                emitted,
                var: Some(var),
                ok: true,
            })
        }),
{
    lemma_inserted(entries, path, Value::Var(var));
}

/// A write does not change what was available apart from its path.
pub proof fn law_write_apart(
    db: StructTable,
    entries: Seq<(MemberPath, Value)>,
    emitted: Emitted,
    path: MemberPath,
    var: VariableId,
    location: LocationId,
    q: MemberPath,
)
    requires
        written(db, entries, emitted, path, var, location).ok,
        apart(path, q),
        lookup(entries, q) is Some,
    ensures
        lookup(written(db, entries, emitted, path, var, location).entries, q) == lookup(
            entries,
            q,
        ),
{
    let b = broken(db, entries, emitted, path, location);
    lemma_broken_apart(db, entries, emitted, path, location, q);
    if b.found {
        lemma_broken_found(db, entries, emitted, path, location);
        lemma_stored_apart(b.entries, path, Value::Var(var), q);
    }
}

/// A read does not change what was available apart from its path.
pub proof fn law_read_apart(
    db: StructTable,
    entries: Seq<(MemberPath, Value)>,
    emitted: Emitted,
    path: MemberPath,
    location: LocationId,
    q: MemberPath,
)
    requires
        read(db, entries, emitted, path, location).ok,
        apart(path, q),
        lookup(entries, q) is Some,
    ensures
        lookup(read(db, entries, emitted, path, location).entries, q) == lookup(entries, q),
{
    let b = broken(db, entries, emitted, path, location);
    lemma_broken_apart(db, entries, emitted, path, location, q);
    if b.found {
        lemma_broken_found(db, entries, emitted, path, location);
        let (_, var) = assembled(lookup(b.entries, path).unwrap(), b.emitted, location);
        lemma_stored_apart(b.entries, path, Value::Var(var), q);
    }
}

/// Reads and writes neither add nor remove entries, and no path comes to have two of them.
pub proof fn law_entries_stay(
    db: StructTable,
    entries: Seq<(MemberPath, Value)>,
    emitted: Emitted,
    path: MemberPath,
    var: VariableId,
    location: LocationId,
    key: MemberPath,
)
    ensures
        ({
            let r = read(db, entries, emitted, path, location).entries;
            let w = written(db, entries, emitted, path, var, location).entries;
            &&& has_key(r, key) == has_key(entries, key)
            &&& has_key(w, key) == has_key(entries, key)
            &&& unique_keys(entries) ==> unique_keys(r) && unique_keys(w)
        }),
{
    let b = broken(db, entries, emitted, path, location);
    lemma_broken_keys(db, entries, emitted, path, location, key);
    lemma_stored_keys(b.entries, path, Value::Var(var), key);
    if let Some(value) = lookup(b.entries, path) {
        let (_, assembled_var) = assembled(value, b.emitted, location);
        lemma_stored_keys(b.entries, path, Value::Var(assembled_var), key);
    }
}

} // verus!
