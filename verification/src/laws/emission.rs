//! What is emitted stays, and every variable that is spoken of exists.
use vstd::prelude::*;

use crate::context::{Member, StructTable, VarRequest};
use crate::generators::{
    constructed, destructured, fresh, fresh_ids, new_variables, requested, snapshotted, Emitted,
};
use crate::ids::{ConcreteStructId, LocationId, MemberId, VariableId};
use crate::laws::mapping::lemma_broken_found;
use crate::member_path::MemberPath;
use crate::objects::{StatementView, VarUsage, Variable};
use crate::ordered::{collected, has_key, inserted, lemma_inserted, lemma_position, value_of};
use crate::recomposer::{deconstructed, member_ids, member_types, paired, reconstructed, usages_at};
use crate::refs::{
    assembled, assembled_members, broken, lookup, member_value, members_in_vars, read,
    scattered_members, stored, with_member, written, Members, Value,
};
use crate::types::Type;

verus! {

/// Whether all that was emitted in `before` is still there in `after`, in its place.
pub open spec fn extends(before: Emitted, after: Emitted) -> bool {
    &&& before.variables.is_prefix_of(after.variables)
    &&& before.statements.is_prefix_of(after.statements)
}

/// What was emitted stays through two steps if it stays through each.
pub(crate) proof fn lemma_extends_trans(a: Emitted, b: Emitted, c: Emitted)
    requires
        extends(a, b),
        extends(b, c),
    ensures
        extends(a, c),
{
    assert(a.variables =~= c.variables.subrange(0, a.variables.len() as int));
    assert(a.statements =~= c.statements.subrange(0, a.statements.len() as int));
}

/// Whether a step emits one statement, and as many variables as given behind those that were there.
pub open spec fn emits_one(before: Emitted, after: Emitted, variables: Seq<Variable>) -> bool {
    &&& extends(before, after)
    &&& after.statements.len() == before.statements.len() + 1
    &&& after.variables.len() == before.variables.len() + variables.len()
    &&& forall|k: int|
        0 <= k < variables.len() ==> after.variables[before.variables.len() + k]
            == #[trigger] variables[k]
}

/// Taking a struct apart emits one statement, with the input, and a new variable for each of the
/// requested ones, in their order.
pub proof fn law_destructure(emitted: Emitted, input: VarUsage, outputs: Seq<Variable>)
    requires
        emitted.variables.len() + outputs.len() <= usize::MAX,
    ensures
        ({
            let after = destructured(emitted, input, outputs);
            &&& emits_one(emitted, after, outputs)
            &&& after.statements.last() matches StatementView::StructDestructure {
                input: given,
                outputs: vars,
            } && {
                &&& given == input
                &&& vars.len() == outputs.len()
                &&& forall|k: int|
                    0 <= k < vars.len() ==> (#[trigger] vars[k]).0 == emitted.variables.len() + k
            }
        }),
{
    law_statements_extend(
        emitted,
        input,
        outputs,
        Seq::empty(),
        Type::unit(),
        input.location,
    );
    let vars = fresh_ids(emitted, outputs.len());
    assert forall|k: int| 0 <= k < vars.len() implies (#[trigger] vars[k]).0
        == emitted.variables.len() + k by {
        assert(vars[k] == fresh(emitted, k));
    }
}

/// Putting a struct together emits one statement, with the inputs in their order, and one new
/// variable, of the given type and at the given location.
pub proof fn law_construct(
    emitted: Emitted,
    inputs: Seq<VarUsage>,
    ty: Type,
    location: LocationId,
)
    requires
        emitted.variables.len() < usize::MAX,
    ensures
        ({
            let after = constructed(emitted, inputs, ty, location);
            &&& emits_one(emitted, after, seq![Variable { ty, location }])
            &&& after.statements.last() matches StatementView::StructConstruct {
                inputs: given,
                output,
            } && given == inputs && output.0 == emitted.variables.len()
        }),
{
    law_statements_extend(
        emitted,
        VarUsage { var_id: VariableId(0), location },
        Seq::empty(),
        inputs,
        ty,
        location,
    );
}

/// Taking a snapshot emits one statement, with the input, and two new variables at the given
/// location: one like the input, which goes on in its place, and behind it the snapshot.
pub proof fn law_snapshot(emitted: Emitted, input: VarUsage, location: LocationId)
    requires
        emitted.variables.len() + 2 <= usize::MAX,
        input.var_id.0 < emitted.variables.len(),
    ensures
        ({
            let after = snapshotted(emitted, input, location);
            let ty = emitted.variables[input.var_id.0 as int].ty;
            let snapshot_ty = Type::Snapshot(Box::new(ty));
            &&& emits_one(
                emitted,
                after,
                seq![Variable { ty, location }, Variable { ty: snapshot_ty, location }],
            )
            &&& after.statements.last() matches StatementView::Snapshot {
                input: given,
                output_original,
                output_snapshot,
            } && {
                &&& given == input
                &&& output_original.0 == emitted.variables.len()
                &&& output_snapshot.0 == emitted.variables.len() + 1
            }
        }),
{
    law_statements_extend(
        emitted,
        input,
        Seq::empty(),
        Seq::empty(),
        Type::unit(),
        location,
    );
}

/// Requested variables are as they are asked for, one for each request.
pub proof fn law_requests(
    var_reqs: Seq<VarRequest>,
    types: Seq<Type>,
    location: LocationId,
    vars: Seq<VariableId>,
)
    ensures
        requested(var_reqs).len() == var_reqs.len(),
        forall|k: int|
            0 <= k < var_reqs.len() ==> (#[trigger] requested(var_reqs)[k]).ty == var_reqs[k].ty
                && requested(var_reqs)[k].location == var_reqs[k].location,
        new_variables(types, location).len() == types.len(),
        forall|k: int|
            0 <= k < types.len() ==> (#[trigger] new_variables(types, location)[k]).ty == types[k]
                && new_variables(types, location)[k].location == location,
        usages_at(vars, location).len() == vars.len(),
        forall|k: int|
            0 <= k < vars.len() ==> (#[trigger] usages_at(vars, location)[k]).var_id == vars[k]
                && usages_at(vars, location)[k].location == location,
{
}

/// What is taken apart at a location is used there. Its parts are at the location of the variable
/// that is taken apart, each of its type. What is put together at a location is there, from parts
/// that are used there, and is of the struct.
pub proof fn law_recomposition(
    emitted: Emitted,
    types: Seq<Type>,
    value: VariableId,
    concrete_struct_id: ConcreteStructId,
    members: Seq<VariableId>,
    location: LocationId,
)
    requires
        emitted.variables.len() + types.len() + 1 <= usize::MAX,
        value.0 < emitted.variables.len(),
    ensures
        ({
            let taken = deconstructed(emitted, types, value, location);
            let at = emitted.variables[value.0 as int].location;
            &&& emits_one(emitted, taken, new_variables(types, at))
            &&& taken.statements.last() matches StatementView::StructDestructure {
                input,
                outputs,
            } && input.var_id == value && input.location == location && outputs.len()
                == types.len()
        }),
        ({
            let put = reconstructed(emitted, concrete_struct_id, members, location);
            let variable = Variable { ty: Type::Struct(concrete_struct_id), location };
            &&& emits_one(emitted, put, seq![variable])
            &&& put.statements.last() matches StatementView::StructConstruct { inputs, output }
                && output.0 == emitted.variables.len() && inputs == usages_at(members, location)
        }),
{
    let at = emitted.variables[value.0 as int].location;
    law_destructure(
        emitted,
        VarUsage { var_id: value, location },
        new_variables(types, at),
    );
    law_construct(
        emitted,
        usages_at(members, location),
        Type::Struct(concrete_struct_id),
        location,
    );
}

/// Every statement adds to what was emitted.
pub proof fn law_statements_extend(
    emitted: Emitted,
    input: VarUsage,
    outputs: Seq<Variable>,
    inputs: Seq<VarUsage>,
    ty: Type,
    location: LocationId,
)
    ensures
        extends(emitted, destructured(emitted, input, outputs)),
        extends(emitted, constructed(emitted, inputs, ty, location)),
        extends(emitted, snapshotted(emitted, input, location)),
{
    let d = destructured(emitted, input, outputs);
    assert(emitted.variables =~= d.variables.subrange(0, emitted.variables.len() as int));
    assert(emitted.statements =~= d.statements.subrange(0, emitted.statements.len() as int));
    let c = constructed(emitted, inputs, ty, location);
    assert(emitted.variables =~= c.variables.subrange(0, emitted.variables.len() as int));
    assert(emitted.statements =~= c.statements.subrange(0, emitted.statements.len() as int));
    let s = snapshotted(emitted, input, location);
    assert(emitted.variables =~= s.variables.subrange(0, emitted.variables.len() as int));
    assert(emitted.statements =~= s.statements.subrange(0, emitted.statements.len() as int));
}

pub(crate) proof fn lemma_extends_refl(emitted: Emitted)
    ensures
        extends(emitted, emitted),
{
    assert(emitted.variables =~= emitted.variables.subrange(0, emitted.variables.len() as int));
    assert(emitted.statements =~= emitted.statements.subrange(0, emitted.statements.len() as int));
}

pub(crate) proof fn lemma_broken_extends(
    db: StructTable,
    entries: Seq<(MemberPath, Value)>,
    emitted: Emitted,
    path: MemberPath,
    location: LocationId,
)
    ensures
        extends(emitted, broken(db, entries, emitted, path, location).emitted),
    decreases path,
{
    lemma_extends_refl(emitted);
    if !has_key(entries, path) {
        if let MemberPath::Member { parent, concrete_struct_id, .. } = path {
            lemma_broken_extends(db, entries, emitted, *parent, location);
            let above = broken(db, entries, emitted, *parent, location);
            if above.ok && above.found {
                if let Some(Value::Var(var)) = lookup(above.entries, *parent) {
                    if db.members(concrete_struct_id) is Some {
                        let types = member_types(db.members(concrete_struct_id).unwrap());
                        law_statements_extend(
                            above.emitted,
                            VarUsage { var_id: var, location },
                            new_variables(
                                types,
                                above.emitted.variables[var.0 as int].location,
                            ),
                            Seq::empty(),
                            Type::unit(),
                            location,
                        );
                        lemma_extends_trans(
                            emitted,
                            above.emitted,
                            deconstructed(above.emitted, types, var, location),
                        );
                    }
                }
            }
        }
    }
}

pub(crate) proof fn lemma_assembled_extends(value: Value, emitted: Emitted, location: LocationId)
    ensures
        extends(emitted, assembled(value, emitted, location).0),
    decreases value,
{
    lemma_extends_refl(emitted);
    if let Value::Scattered { concrete_struct_id, members } = value {
        let (e, vars) = assembled_members(*members, emitted, location);
        lemma_assembled_members_extends(*members, emitted, location);
        law_statements_extend(
            e,
            VarUsage { var_id: fresh(e, 0), location },
            Seq::empty(),
            usages_at(vars, location),
            Type::Struct(concrete_struct_id),
            location,
        );
        lemma_extends_trans(emitted, e, reconstructed(e, concrete_struct_id, vars, location));
    }
}

pub(crate) proof fn lemma_assembled_members_extends(
    members: Members,
    emitted: Emitted,
    location: LocationId,
)
    ensures
        extends(emitted, assembled_members(members, emitted, location).0),
    decreases members,
{
    lemma_extends_refl(emitted);
    if let Members::Cons { value, rest, .. } = members {
        let (e1, _) = assembled(*value, emitted, location);
        lemma_assembled_extends(*value, emitted, location);
        lemma_assembled_members_extends(*rest, e1, location);
        lemma_extends_trans(emitted, e1, assembled_members(*rest, e1, location).0);
    }
}

/// Reads and writes only add to what was emitted: no variable and no statement is changed or taken
/// back.
pub proof fn law_reads_and_writes_extend(
    db: StructTable,
    entries: Seq<(MemberPath, Value)>,
    emitted: Emitted,
    path: MemberPath,
    var: VariableId,
    location: LocationId,
)
    ensures
        extends(emitted, read(db, entries, emitted, path, location).emitted),
        extends(emitted, written(db, entries, emitted, path, var, location).emitted),
{
    let b = broken(db, entries, emitted, path, location);
    lemma_broken_extends(db, entries, emitted, path, location);
    if let Some(value) = lookup(b.entries, path) {
        lemma_assembled_extends(value, b.emitted, location);
        lemma_extends_trans(emitted, b.emitted, assembled(value, b.emitted, location).0);
    }
}

// Variables that exist.

/// Whether the variables that hold a value are among the first `n`.
pub open spec fn in_scope(value: Value, n: nat) -> bool
    decreases value,
{
    match value {
        Value::Var(var) => var.0 < n,
        Value::Scattered { members, .. } => members_in_scope(*members, n),
    }
}

/// Whether the variables that hold members are among the first `n`.
pub open spec fn members_in_scope(members: Members, n: nat) -> bool
    decreases members,
{
    match members {
        Members::Nil => true,
        Members::Cons { value, rest, .. } => in_scope(*value, n) && members_in_scope(*rest, n),
    }
}

/// Whether the variables that hold the entries are among the first `n`.
pub open spec fn entries_in_scope(entries: Seq<(MemberPath, Value)>, n: nat) -> bool {
    forall|path: MemberPath|
        (#[trigger] value_of(entries, path)) matches Some(value) ==> in_scope(value, n)
}

/// Whether the members of every struct on a path are known.
pub open spec fn structs_known(db: StructTable, path: MemberPath) -> bool
    decreases path,
{
    match path {
        MemberPath::Var(_) => true,
        MemberPath::Member { parent, concrete_struct_id, .. } => db.members(concrete_struct_id)
            is Some && structs_known(db, *parent),
    }
}

proof fn lemma_in_scope_of_more(value: Value, n: nat, m: nat)
    requires
        in_scope(value, n),
        n <= m,
    ensures
        in_scope(value, m),
    decreases value,
{
    if let Value::Scattered { members, .. } = value {
        lemma_members_in_scope_of_more(*members, n, m);
    }
}

proof fn lemma_members_in_scope_of_more(members: Members, n: nat, m: nat)
    requires
        members_in_scope(members, n),
        n <= m,
    ensures
        members_in_scope(members, m),
    decreases members,
{
    if let Members::Cons { value, rest, .. } = members {
        lemma_in_scope_of_more(*value, n, m);
        lemma_members_in_scope_of_more(*rest, n, m);
    }
}

pub(crate) proof fn lemma_entries_in_scope_of_more(
    entries: Seq<(MemberPath, Value)>,
    n: nat,
    m: nat,
)
    requires
        entries_in_scope(entries, n),
        n <= m,
    ensures
        entries_in_scope(entries, m),
{
    assert forall|path: MemberPath| (#[trigger] value_of(entries, path)) is Some implies in_scope(
        value_of(entries, path).unwrap(),
        m,
    ) by {
        lemma_in_scope_of_more(value_of(entries, path).unwrap(), n, m);
    }
}

proof fn lemma_member_in_scope(members: Members, id: MemberId, n: nat)
    requires
        members_in_scope(members, n),
    ensures
        member_value(members, id) matches Some(value) ==> in_scope(value, n),
    decreases members,
{
    if let Members::Cons { rest, .. } = members {
        lemma_member_in_scope(*rest, id, n);
    }
}

proof fn lemma_with_member_in_scope(members: Members, id: MemberId, value: Value, n: nat)
    requires
        members_in_scope(members, n),
        in_scope(value, n),
    ensures
        members_in_scope(with_member(members, id, value), n),
    decreases members,
{
    if let Members::Cons { rest, .. } = members {
        lemma_with_member_in_scope(*rest, id, value, n);
    }
}

/// What is found on a path is in variables that exist.
pub(crate) proof fn lemma_lookup_in_scope(
    entries: Seq<(MemberPath, Value)>,
    path: MemberPath,
    n: nat,
)
    requires
        entries_in_scope(entries, n),
    ensures
        lookup(entries, path) matches Some(value) ==> in_scope(value, n),
    decreases path,
{
    if value_of(entries, path) is None {
        if let MemberPath::Member { parent, member_id, .. } = path {
            lemma_lookup_in_scope(entries, *parent, n);
            if let Some(Value::Scattered { members, .. }) = lookup(entries, *parent) {
                lemma_member_in_scope(*members, member_id, n);
            }
        }
    }
}

pub(crate) proof fn lemma_stored_in_scope(
    entries: Seq<(MemberPath, Value)>,
    path: MemberPath,
    value: Value,
    n: nat,
)
    requires
        entries_in_scope(entries, n),
        in_scope(value, n),
    ensures
        entries_in_scope(stored(entries, path, value), n),
    decreases path,
{
    if has_key(entries, path) {
        lemma_inserted_in_scope(entries, path, value, n);
    } else if let MemberPath::Member { parent, member_id, .. } = path {
        lemma_lookup_in_scope(entries, *parent, n);
        if let Some(Value::Scattered { concrete_struct_id, members }) = lookup(entries, *parent) {
            lemma_with_member_in_scope(*members, member_id, value, n);
            lemma_stored_in_scope(
                entries,
                *parent,
                Value::Scattered {
                    concrete_struct_id,
                    members: Box::new(with_member(*members, member_id, value)),
                },
                n,
            );
        }
    }
}

pub(crate) proof fn lemma_inserted_in_scope(
    entries: Seq<(MemberPath, Value)>,
    path: MemberPath,
    value: Value,
    n: nat,
)
    requires
        entries_in_scope(entries, n),
        in_scope(value, n),
    ensures
        entries_in_scope(inserted(entries, path, value), n),
{
    lemma_inserted(entries, path, value);
    let after = inserted(entries, path, value);
    assert forall|key: MemberPath| (#[trigger] value_of(after, key)) is Some implies in_scope(
        value_of(after, key).unwrap(),
        n,
    ) by {
        if key != path {
            assert(value_of(after, key) == value_of(entries, key));
        }
    }
}

proof fn lemma_members_in_vars_in_scope(pairs: Seq<(MemberId, VariableId)>, n: nat)
    requires
        forall|i: int| 0 <= i < pairs.len() ==> (#[trigger] pairs[i]).1.0 < n,
    ensures
        members_in_scope(members_in_vars(pairs), n),
    decreases pairs.len(),
{
    if pairs.len() > 0 {
        assert forall|i: int| 0 <= i < pairs.drop_first().len() implies (
        #[trigger] pairs.drop_first()[i]).1.0 < n by {
            assert(pairs.drop_first()[i] == pairs[i + 1]);
        }
        lemma_members_in_vars_in_scope(pairs.drop_first(), n);
        assert(in_scope(Value::Var(pairs[0].1), n));
    }
}

proof fn lemma_collected_values<K, V>(pairs: Seq<(K, V)>, i: int) -> (j: int)
    requires
        0 <= i < collected(pairs).len(),
    ensures
        0 <= j < pairs.len(),
        collected(pairs)[i].1 == pairs[j].1,
    decreases pairs.len(),
{
    let before = collected(pairs.drop_last());
    lemma_position(before, pairs.last().0);
    if i < before.len() && collected(pairs)[i] == before[i] {
        let j = lemma_collected_values(pairs.drop_last(), i);
        j
    } else {
        pairs.len() - 1
    }
}

/// A struct that is taken apart is in variables that exist.
proof fn lemma_scattered_in_scope(members: Seq<Member>, emitted: Emitted, n: nat)
    requires
        emitted.variables.len() + members.len() <= n,
        n <= usize::MAX,
    ensures
        members_in_scope(scattered_members(members, emitted), n),
{
    let pairs = paired(member_ids(members), fresh_ids(emitted, members.len()));
    assert forall|i: int| 0 <= i < collected(pairs).len() implies (#[trigger] collected(
        pairs,
    )[i]).1.0 < n by {
        let j = lemma_collected_values(pairs, i);
        assert(pairs[j].1 == fresh(emitted, j));
    }
    lemma_members_in_vars_in_scope(collected(pairs), n);
}

proof fn lemma_broken_in_scope(
    db: StructTable,
    entries: Seq<(MemberPath, Value)>,
    emitted: Emitted,
    path: MemberPath,
    location: LocationId,
)
    requires
        entries_in_scope(entries, emitted.variables.len()),
        structs_known(db, path),
        broken(db, entries, emitted, path, location).emitted.variables.len() <= usize::MAX,
    ensures
        ({
            let b = broken(db, entries, emitted, path, location);
            &&& b.ok
            &&& entries_in_scope(b.entries, b.emitted.variables.len())
        }),
    decreases path,
{
    if !has_key(entries, path) {
        if let MemberPath::Member { parent, concrete_struct_id, .. } = path {
            let above = broken(db, entries, emitted, *parent, location);
            let b = broken(db, entries, emitted, path, location);
            let declared = db.members(concrete_struct_id).unwrap();
            lemma_broken_extends(db, entries, emitted, *parent, location);
            assert(above.emitted.variables.len() <= b.emitted.variables.len());
            lemma_broken_in_scope(db, entries, emitted, *parent, location);
            if above.found {
                lemma_lookup_in_scope(above.entries, *parent, above.emitted.variables.len());
                if let Some(Value::Var(var)) = lookup(above.entries, *parent) {
                    let n = b.emitted.variables.len();
                    lemma_scattered_in_scope(declared, above.emitted, n);
                    lemma_entries_in_scope_of_more(
                        above.entries,
                        above.emitted.variables.len(),
                        n,
                    );
                    let value = Value::Scattered {
                        concrete_struct_id,
                        members: Box::new(scattered_members(declared, above.emitted)),
                    };
                    lemma_stored_in_scope(above.entries, *parent, value, n);
                }
            }
        }
    }
}

proof fn lemma_assembled_in_scope(value: Value, emitted: Emitted, location: LocationId)
    requires
        in_scope(value, emitted.variables.len()),
        assembled(value, emitted, location).0.variables.len() <= usize::MAX,
    ensures
        assembled(value, emitted, location).1.0 < assembled(
            value,
            emitted,
            location,
        ).0.variables.len(),
{
    if let Value::Scattered { members, .. } = value {
        let (e, vars) = assembled_members(*members, emitted, location);
        assert(assembled(value, emitted, location).0.variables.len() == e.variables.len() + 1);
    }
}

/// Where the variables of a mapping exist and the structs on a path are known, the path can be read.
/// The variables of the mapping still exist afterwards, and so does the one that the read gives.
pub proof fn law_reads_in_scope(
    db: StructTable,
    entries: Seq<(MemberPath, Value)>,
    emitted: Emitted,
    path: MemberPath,
    location: LocationId,
)
    requires
        entries_in_scope(entries, emitted.variables.len()),
        structs_known(db, path),
        read(db, entries, emitted, path, location).emitted.variables.len() <= usize::MAX,
    ensures
        ({
            let r = read(db, entries, emitted, path, location);
            &&& r.ok
            &&& entries_in_scope(r.entries, r.emitted.variables.len())
            &&& r.var matches Some(v) ==> v.0 < r.emitted.variables.len()
        }),
{
    let b = broken(db, entries, emitted, path, location);
    let r = read(db, entries, emitted, path, location);
    if let Some(value) = lookup(b.entries, path) {
        lemma_assembled_extends(value, b.emitted, location);
    }
    assert(b.emitted.variables.len() <= r.emitted.variables.len());
    lemma_broken_in_scope(db, entries, emitted, path, location);
    let n = b.emitted.variables.len();
    lemma_lookup_in_scope(b.entries, path, n);
    if b.found {
        lemma_broken_found(db, entries, emitted, path, location);
        let value = lookup(b.entries, path).unwrap();
        if value is Scattered {
            let (e, v) = assembled(value, b.emitted, location);
            lemma_assembled_in_scope(value, b.emitted, location);
            lemma_entries_in_scope_of_more(b.entries, n, e.variables.len());
            lemma_stored_in_scope(b.entries, path, Value::Var(v), e.variables.len());
        }
    }
}

/// Where the variables of a mapping exist and the structs on a path are known, a variable that
/// exists can be written to the path. The variables of the mapping still exist afterwards.
pub proof fn law_writes_in_scope(
    db: StructTable,
    entries: Seq<(MemberPath, Value)>,
    emitted: Emitted,
    path: MemberPath,
    var: VariableId,
    location: LocationId,
)
    requires
        entries_in_scope(entries, emitted.variables.len()),
        structs_known(db, path),
        var.0 < emitted.variables.len(),
        written(db, entries, emitted, path, var, location).emitted.variables.len() <= usize::MAX,
    ensures
        ({
            let w = written(db, entries, emitted, path, var, location);
            &&& w.ok
            &&& entries_in_scope(w.entries, w.emitted.variables.len())
        }),
{
    let b = broken(db, entries, emitted, path, location);
    lemma_broken_in_scope(db, entries, emitted, path, location);
    lemma_broken_extends(db, entries, emitted, path, location);
    lemma_stored_in_scope(b.entries, path, Value::Var(var), b.emitted.variables.len());
}

} // verus!
