//! Laws of the types of variables: what is emitted is well-typed, and what is read or made for a
//! path has the type of the path.
use vstd::prelude::*;

use crate::context::{location_of, member_position, path_ty, LoweredExpr, Member, StructTable};
use crate::generators::{constructed, fresh, fresh_ids, new_variables, snapshotted, Emitted};
use crate::ids::{ConcreteStructId, LocationId, MemberId, VariableId};
use crate::laws::builder::{law_get_snap_goes_on, law_lower_goes_on, law_update_drops_snapshot};
use crate::laws::emission::{
    extends, law_reads_and_writes_extend, lemma_assembled_extends, lemma_assembled_members_extends,
    lemma_broken_extends,
};
use crate::laws::meaning::{
    distinct_members, ids_of, lemma_scattered_members, Contents, Shape, Valuation,
};
use crate::member_path::{ExprVarMemberPath, MemberPath};
use crate::merge::member_of;
use crate::objects::{StatementView, VarUsage, Variable};
use crate::ordered::{
    has_key, inserted, lemma_collected_distinct, lemma_inserted, lemma_swap_removed, unique_keys,
    value_of,
};
use crate::recomposer::{deconstructed, member_ids, member_types, paired, reconstructed, usages_at};
use crate::refs::{
    assembled, assembled_members, broken, lookup, member_value, members_in_vars, read,
    scattered_members, stored, with_member, Members, Value,
};
use crate::state::{
    capture, captured_exprs, introduced, lower_expr, lower_exprs, read_ref, read_snap, snapped,
    snapshot_path, usage_types, usages_exist, wrapped_member_types, write_ref, State,
};
use crate::types::{snapshot_base, snapshot_depth, type_list, wrapped, Type};

verus! {

// The types of paths.

/// The type of a variable is that of its definition. The type of a member is that with which its
/// struct declares it; of two declarations with one id, the first counts. Other paths have no type.
pub proof fn law_path_types(db: StructTable, defs: Map<u64, Type>, path: MemberPath)
    ensures
        match path {
            MemberPath::Var(var) => {
                &&& path_ty(db, defs, path) is Some <==> defs.contains_key(var.0)
                &&& defs.contains_key(var.0) ==> path_ty(db, defs, path) == Some(defs[var.0])
            },
            MemberPath::Member { member_id, concrete_struct_id, .. } => {
                let declared = db.members(concrete_struct_id);
                &&& path_ty(db, defs, path) is Some <==> (declared is Some && exists|i: int|
                    0 <= i < declared.unwrap().len() && (#[trigger] declared.unwrap()[i]).id
                        == member_id)
                &&& forall|i: int|
                    declared is Some && 0 <= i < declared.unwrap().len() && (
                    #[trigger] declared.unwrap()[i]).id == member_id && (forall|j: int|
                        0 <= j < i ==> (#[trigger] declared.unwrap()[j]).id != member_id)
                        ==> path_ty(db, defs, path) == Some(declared.unwrap()[i].ty)
            },
        },
{
    if let MemberPath::Member { member_id, concrete_struct_id, .. } = path {
        if let Some(members) = db.members(concrete_struct_id) {
            lemma_first_member(members, member_id);
        }
    }
}

proof fn lemma_first_member(members: Seq<Member>, id: MemberId)
    ensures
        match member_position(members, id) {
            Some(i) => 0 <= i < members.len() && members[i].id == id && forall|j: int|
                0 <= j < i ==> (#[trigger] members[j]).id != id,
            None => forall|j: int| 0 <= j < members.len() ==> (#[trigger] members[j]).id != id,
        },
    decreases members.len(),
{
    if members.len() > 0 {
        let rest = members.drop_last();
        lemma_first_member(rest, id);
        assert forall|j: int| 0 <= j < rest.len() implies #[trigger] members[j] == rest[j] by {}
    }
}

/// The members of a struct are those of the table. A struct that the table lacks or that has an
/// error has none.
pub proof fn law_members(db: StructTable, id: ConcreteStructId)
    ensures
        db.members(id) is Some <==> (id.0 < db.structs@.len() && db.structs@[id.0 as int] is Ok),
        db.members(id) is Some ==> db.members(id).unwrap() == db.structs@[id.0 as int].unwrap()@,
{
}

/// Whether each member on a path is one of the struct that its parent is of, by type.
pub open spec fn path_typed(db: StructTable, defs: Map<u64, Type>, path: MemberPath) -> bool
    decreases path,
{
    &&& path_ty(db, defs, path) is Some
    &&& match path {
        MemberPath::Var(_) => true,
        MemberPath::Member { parent, concrete_struct_id, .. } => {
            &&& path_ty(db, defs, *parent) == Some(Type::Struct(concrete_struct_id))
            &&& path_typed(db, defs, *parent)
        },
    }
}

// The types of values.

/// Whether a variable exists and has the given type.
pub open spec fn has_type(variables: Seq<Variable>, var: VariableId, ty: Type) -> bool {
    var.0 < variables.len() && variables[var.0 as int].ty == ty
}

/// Whether a value is in variables of the type of its path, or scattered over the members of the
/// struct that its path is of.
pub open spec fn value_typed(
    db: StructTable,
    defs: Map<u64, Type>,
    variables: Seq<Variable>,
    path: MemberPath,
    value: Value,
) -> bool
    decreases value,
{
    match value {
        Value::Var(var) => path_ty(db, defs, path) is Some && has_type(
            variables,
            var,
            path_ty(db, defs, path).unwrap(),
        ),
        Value::Scattered { concrete_struct_id, members } => {
            &&& path_ty(db, defs, path) == Some(Type::Struct(concrete_struct_id))
            &&& db.members(concrete_struct_id) matches Some(declared) && ids_of(*members)
                == member_ids(declared)
            &&& members_typed(db, defs, variables, path, concrete_struct_id, *members)
        },
    }
}

/// Whether the values of members are in variables of the types of the members.
pub open spec fn members_typed(
    db: StructTable,
    defs: Map<u64, Type>,
    variables: Seq<Variable>,
    path: MemberPath,
    concrete_struct_id: ConcreteStructId,
    members: Members,
) -> bool
    decreases members,
{
    match members {
        Members::Nil => true,
        Members::Cons { member_id, value, rest } => {
            &&& value_typed(
                db,
                defs,
                variables,
                member_of(path, member_id, concrete_struct_id),
                *value,
            )
            &&& members_typed(db, defs, variables, path, concrete_struct_id, *rest)
        },
    }
}

/// Whether the values of all the entries are in variables of the types of their paths.
pub open spec fn entries_typed(
    db: StructTable,
    defs: Map<u64, Type>,
    variables: Seq<Variable>,
    entries: Seq<(MemberPath, Value)>,
) -> bool {
    forall|path: MemberPath|
        (#[trigger] value_of(entries, path)) matches Some(value) ==> value_typed(
            db,
            defs,
            variables,
            path,
            value,
        )
}

/// Whether the recorded snapshots are in variables of the types of snapshots of their paths.
pub open spec fn snaps_typed(
    db: StructTable,
    defs: Map<u64, Type>,
    variables: Seq<Variable>,
    snaps: Seq<(MemberPath, VariableId)>,
) -> bool {
    forall|path: MemberPath|
        (#[trigger] value_of(snaps, path)) matches Some(var) ==> path_ty(db, defs, path) is Some
            && has_type(
            variables,
            var,
            Type::Snapshot(Box::new(path_ty(db, defs, path).unwrap())),
        )
}

/// Whether a statement is well-typed: a struct is made from one value for each of its members, and
/// taken apart into one value for each of them, within as many snapshots as the struct is; a tuple
/// and a closure are made from values of their types; a snapshot has the type of one.
pub open spec fn statement_typed(
    db: StructTable,
    variables: Seq<Variable>,
    statement: StatementView,
) -> bool {
    match statement {
        StatementView::StructConstruct { inputs, output } => {
            &&& output.0 < variables.len()
            &&& forall|k: int|
                0 <= k < inputs.len() ==> (#[trigger] inputs[k]).var_id.0 < variables.len()
            &&& match variables[output.0 as int].ty {
                Type::Struct(id) => db.members(id) matches Some(declared) && inputs.len()
                    == declared.len() && forall|k: int|
                    0 <= k < inputs.len() ==> variables[(
                    #[trigger] inputs[k]).var_id.0 as int].ty == declared[k].ty,
                Type::Tuple(types) => types == type_list(
                    inputs.map_values(|usage: VarUsage| variables[usage.var_id.0 as int].ty),
                ),
                Type::Closure(closure) => closure.captured_types == type_list(
                    inputs.map_values(|usage: VarUsage| variables[usage.var_id.0 as int].ty),
                ),
                _ => false,
            }
        },
        StatementView::StructDestructure { input, outputs } => {
            let ty = variables[input.var_id.0 as int].ty;
            &&& input.var_id.0 < variables.len()
            &&& forall|k: int| 0 <= k < outputs.len() ==> (#[trigger] outputs[k]).0 < variables.len()
            &&& match snapshot_base(ty) {
                Type::Struct(id) => db.members(id) matches Some(declared) && outputs.len()
                    == declared.len() && forall|k: int|
                    0 <= k < outputs.len() ==> variables[(#[trigger] outputs[k]).0 as int].ty
                        == wrapped(declared[k].ty, snapshot_depth(ty)),
                Type::Closure(closure) => closure.captured_types == type_list(
                    outputs.map_values(|var: VariableId| variables[var.0 as int].ty),
                ),
                _ => false,
            }
        },
        StatementView::Snapshot { input, output_original, output_snapshot } => {
            let ty = variables[input.var_id.0 as int].ty;
            &&& input.var_id.0 < variables.len()
            &&& has_type(variables, output_original, ty)
            &&& has_type(variables, output_snapshot, Type::Snapshot(Box::new(ty)))
        },
        _ => true,
    }
}

/// Whether all that was emitted is well-typed.
pub open spec fn emitted_typed(db: StructTable, emitted: Emitted) -> bool {
    forall|i: int|
        0 <= i < emitted.statements.len() ==> statement_typed(
            db,
            emitted.variables,
            #[trigger] emitted.statements[i],
        )
}

/// Whether a block and what its builder knows are well-typed.
pub open spec fn state_typed(db: StructTable, defs: Map<u64, Type>, state: State) -> bool {
    &&& entries_typed(db, defs, state.variables, state.builder.semantics)
    &&& snaps_typed(db, defs, state.variables, state.builder.snapped)
    &&& emitted_typed(db, state.emitted())
}

// More variables.

pub(crate) proof fn lemma_value_typed_of_more(
    db: StructTable,
    defs: Map<u64, Type>,
    variables: Seq<Variable>,
    more: Seq<Variable>,
    path: MemberPath,
    value: Value,
)
    requires
        value_typed(db, defs, variables, path, value),
        variables.is_prefix_of(more),
    ensures
        value_typed(db, defs, more, path, value),
    decreases value,
{
    match value {
        Value::Var(var) => {
            assert(more[var.0 as int] == variables[var.0 as int]);
        },
        Value::Scattered { concrete_struct_id, members } => {
            lemma_members_typed_of_more(
                db,
                defs,
                variables,
                more,
                path,
                concrete_struct_id,
                *members,
            );
        },
    }
}

proof fn lemma_members_typed_of_more(
    db: StructTable,
    defs: Map<u64, Type>,
    variables: Seq<Variable>,
    more: Seq<Variable>,
    path: MemberPath,
    concrete_struct_id: ConcreteStructId,
    members: Members,
)
    requires
        members_typed(db, defs, variables, path, concrete_struct_id, members),
        variables.is_prefix_of(more),
    ensures
        members_typed(db, defs, more, path, concrete_struct_id, members),
    decreases members,
{
    if let Members::Cons { member_id, value, rest } = members {
        lemma_value_typed_of_more(
            db,
            defs,
            variables,
            more,
            member_of(path, member_id, concrete_struct_id),
            *value,
        );
        lemma_members_typed_of_more(db, defs, variables, more, path, concrete_struct_id, *rest);
    }
}

pub(crate) proof fn lemma_entries_typed_of_more(
    db: StructTable,
    defs: Map<u64, Type>,
    variables: Seq<Variable>,
    more: Seq<Variable>,
    entries: Seq<(MemberPath, Value)>,
)
    requires
        entries_typed(db, defs, variables, entries),
        variables.is_prefix_of(more),
    ensures
        entries_typed(db, defs, more, entries),
{
    assert forall|path: MemberPath| (#[trigger] value_of(entries, path)) is Some implies value_typed(
        db,
        defs,
        more,
        path,
        value_of(entries, path).unwrap(),
    ) by {
        lemma_value_typed_of_more(
            db,
            defs,
            variables,
            more,
            path,
            value_of(entries, path).unwrap(),
        );
    }
}

pub(crate) proof fn lemma_snaps_typed_of_more(
    db: StructTable,
    defs: Map<u64, Type>,
    variables: Seq<Variable>,
    more: Seq<Variable>,
    snaps: Seq<(MemberPath, VariableId)>,
)
    requires
        snaps_typed(db, defs, variables, snaps),
        variables.is_prefix_of(more),
    ensures
        snaps_typed(db, defs, more, snaps),
{
    assert forall|path: MemberPath| (#[trigger] value_of(snaps, path)) is Some implies path_ty(
        db,
        defs,
        path,
    ) is Some && has_type(
        more,
        value_of(snaps, path).unwrap(),
        Type::Snapshot(Box::new(path_ty(db, defs, path).unwrap())),
    ) by {
        let var = value_of(snaps, path).unwrap();
        assert(more[var.0 as int] == variables[var.0 as int]);
    }
}

/// A well-typed statement stays so when there are more variables.
pub(crate) proof fn lemma_statement_typed_of_more(
    db: StructTable,
    variables: Seq<Variable>,
    more: Seq<Variable>,
    statement: StatementView,
)
    requires
        statement_typed(db, variables, statement),
        variables.is_prefix_of(more),
    ensures
        statement_typed(db, more, statement),
{
    assert forall|k: int| 0 <= k < variables.len() implies #[trigger] more[k] == variables[k] by {}
    match statement {
        StatementView::StructConstruct { inputs, output } => {
            assert(inputs.map_values(|usage: VarUsage| variables[usage.var_id.0 as int].ty)
                =~= inputs.map_values(|usage: VarUsage| more[usage.var_id.0 as int].ty));
        },
        StatementView::StructDestructure { input, outputs } => {
            assert(outputs.map_values(|var: VariableId| variables[var.0 as int].ty)
                =~= outputs.map_values(|var: VariableId| more[var.0 as int].ty));
        },
        _ => {},
    }
}

/// One more well-typed statement keeps what was emitted well-typed.
proof fn lemma_emitted_typed_with(
    db: StructTable,
    before: Emitted,
    after: Emitted,
    statement: StatementView,
)
    requires
        emitted_typed(db, before),
        before.variables.is_prefix_of(after.variables),
        after.statements == before.statements.push(statement),
        statement_typed(db, after.variables, statement),
    ensures
        emitted_typed(db, after),
{
    assert forall|i: int| 0 <= i < after.statements.len() implies statement_typed(
        db,
        after.variables,
        #[trigger] after.statements[i],
    ) by {
        if i < before.statements.len() {
            lemma_statement_typed_of_more(
                db,
                before.variables,
                after.variables,
                before.statements[i],
            );
        }
    }
}

// Members.

/// A member with its place in a struct without two members of one id has the type of that place.
proof fn lemma_member_ty(
    db: StructTable,
    defs: Map<u64, Type>,
    path: MemberPath,
    concrete_struct_id: ConcreteStructId,
    i: int,
)
    requires
        distinct_members(db),
        db.members(concrete_struct_id) is Some,
        0 <= i < db.members(concrete_struct_id).unwrap().len(),
    ensures
        ({
            let declared = db.members(concrete_struct_id).unwrap();
            path_ty(db, defs, member_of(path, declared[i].id, concrete_struct_id)) == Some(
                declared[i].ty,
            )
        }),
{
    let declared = db.members(concrete_struct_id).unwrap();
    lemma_first_member(declared, declared[i].id);
    let j = member_position(declared, declared[i].id).unwrap();
    assert(member_ids(declared)[i] == member_ids(declared)[j]);
}

proof fn lemma_member_value_typed(
    db: StructTable,
    defs: Map<u64, Type>,
    variables: Seq<Variable>,
    path: MemberPath,
    concrete_struct_id: ConcreteStructId,
    members: Members,
    id: MemberId,
)
    requires
        members_typed(db, defs, variables, path, concrete_struct_id, members),
    ensures
        member_value(members, id) matches Some(value) ==> value_typed(
            db,
            defs,
            variables,
            member_of(path, id, concrete_struct_id),
            value,
        ),
    decreases members,
{
    if let Members::Cons { rest, .. } = members {
        lemma_member_value_typed(db, defs, variables, path, concrete_struct_id, *rest, id);
    }
}

proof fn lemma_with_member_typed(
    db: StructTable,
    defs: Map<u64, Type>,
    variables: Seq<Variable>,
    path: MemberPath,
    concrete_struct_id: ConcreteStructId,
    members: Members,
    id: MemberId,
    value: Value,
)
    requires
        members_typed(db, defs, variables, path, concrete_struct_id, members),
        value_typed(db, defs, variables, member_of(path, id, concrete_struct_id), value),
    ensures
        members_typed(
            db,
            defs,
            variables,
            path,
            concrete_struct_id,
            with_member(members, id, value),
        ),
        ids_of(with_member(members, id, value)) == ids_of(members),
    decreases members,
{
    if let Members::Cons { rest, .. } = members {
        lemma_with_member_typed(
            db,
            defs,
            variables,
            path,
            concrete_struct_id,
            *rest,
            id,
            value,
        );
    }
}

// Mappings.

proof fn lemma_lookup_typed(
    db: StructTable,
    defs: Map<u64, Type>,
    variables: Seq<Variable>,
    entries: Seq<(MemberPath, Value)>,
    path: MemberPath,
)
    requires
        entries_typed(db, defs, variables, entries),
        path_typed(db, defs, path),
    ensures
        lookup(entries, path) matches Some(value) ==> value_typed(
            db,
            defs,
            variables,
            path,
            value,
        ),
    decreases path,
{
    if value_of(entries, path) is None {
        if let MemberPath::Member { parent, member_id, concrete_struct_id } = path {
            lemma_lookup_typed(db, defs, variables, entries, *parent);
            if let Some(Value::Scattered { members, .. }) = lookup(entries, *parent) {
                lemma_member_value_typed(
                    db,
                    defs,
                    variables,
                    *parent,
                    concrete_struct_id,
                    *members,
                    member_id,
                );
            }
        }
    }
}

proof fn lemma_stored_typed(
    db: StructTable,
    defs: Map<u64, Type>,
    variables: Seq<Variable>,
    entries: Seq<(MemberPath, Value)>,
    path: MemberPath,
    value: Value,
)
    requires
        entries_typed(db, defs, variables, entries),
        path_typed(db, defs, path),
        value_typed(db, defs, variables, path, value),
    ensures
        entries_typed(db, defs, variables, stored(entries, path, value)),
    decreases path,
{
    if has_key(entries, path) {
        lemma_inserted_typed(db, defs, variables, entries, path, value);
    } else if let MemberPath::Member { parent, member_id, concrete_struct_id } = path {
        lemma_lookup_typed(db, defs, variables, entries, *parent);
        if let Some(Value::Scattered { concrete_struct_id: id, members }) = lookup(
            entries,
            *parent,
        ) {
            lemma_with_member_typed(
                db,
                defs,
                variables,
                *parent,
                concrete_struct_id,
                *members,
                member_id,
                value,
            );
            lemma_stored_typed(
                db,
                defs,
                variables,
                entries,
                *parent,
                Value::Scattered {
                    concrete_struct_id: id,
                    members: Box::new(with_member(*members, member_id, value)),
                },
            );
        }
    }
}

proof fn lemma_inserted_typed(
    db: StructTable,
    defs: Map<u64, Type>,
    variables: Seq<Variable>,
    entries: Seq<(MemberPath, Value)>,
    path: MemberPath,
    value: Value,
)
    requires
        entries_typed(db, defs, variables, entries),
        value_typed(db, defs, variables, path, value),
    ensures
        entries_typed(db, defs, variables, inserted(entries, path, value)),
{
    lemma_inserted(entries, path, value);
    let after = inserted(entries, path, value);
    assert forall|key: MemberPath| (#[trigger] value_of(after, key)) is Some implies value_typed(
        db,
        defs,
        variables,
        key,
        value_of(after, key).unwrap(),
    ) by {
        if key != path {
            assert(value_of(after, key) == value_of(entries, key));
        }
    }
}

// Structs that are taken apart and put together.

proof fn lemma_members_in_vars_typed(
    db: StructTable,
    defs: Map<u64, Type>,
    variables: Seq<Variable>,
    path: MemberPath,
    concrete_struct_id: ConcreteStructId,
    pairs: Seq<(MemberId, VariableId)>,
)
    requires
        forall|k: int|
            0 <= k < pairs.len() ==> value_typed(
                db,
                defs,
                variables,
                member_of(path, (#[trigger] pairs[k]).0, concrete_struct_id),
                Value::Var(pairs[k].1),
            ),
    ensures
        members_typed(db, defs, variables, path, concrete_struct_id, members_in_vars(pairs)),
    decreases pairs.len(),
{
    if pairs.len() > 0 {
        let rest = pairs.drop_first();
        assert forall|k: int| 0 <= k < rest.len() implies value_typed(
            db,
            defs,
            variables,
            member_of(path, (#[trigger] rest[k]).0, concrete_struct_id),
            Value::Var(rest[k].1),
        ) by {
            assert(rest[k] == pairs[k + 1]);
        }
        lemma_members_in_vars_typed(db, defs, variables, path, concrete_struct_id, rest);
        assert(value_typed(
            db,
            defs,
            variables,
            member_of(path, pairs[0].0, concrete_struct_id),
            Value::Var(pairs[0].1),
        ));
    }
}

/// A struct that is taken apart is scattered over variables of the types of its members, by a
/// well-typed statement.
proof fn lemma_deconstructed_typed(
    db: StructTable,
    defs: Map<u64, Type>,
    emitted: Emitted,
    path: MemberPath,
    concrete_struct_id: ConcreteStructId,
    var: VariableId,
    location: LocationId,
)
    requires
        distinct_members(db),
        emitted_typed(db, emitted),
        db.members(concrete_struct_id) is Some,
        has_type(emitted.variables, var, Type::Struct(concrete_struct_id)),
        path_ty(db, defs, path) == Some(Type::Struct(concrete_struct_id)),
        emitted.variables.len() + db.members(concrete_struct_id).unwrap().len() <= usize::MAX,
    ensures
        ({
            let declared = db.members(concrete_struct_id).unwrap();
            let after = deconstructed(emitted, member_types(declared), var, location);
            &&& emitted_typed(db, after)
            &&& emitted.variables.is_prefix_of(after.variables)
            &&& value_typed(
                db,
                defs,
                after.variables,
                path,
                Value::Scattered {
                    concrete_struct_id,
                    members: Box::new(scattered_members(declared, emitted)),
                },
            )
        }),
{
    let declared = db.members(concrete_struct_id).unwrap();
    let after = deconstructed(emitted, member_types(declared), var, location);
    let n = emitted.variables.len() as int;
    let outputs = fresh_ids(emitted, declared.len());
    assert(emitted.variables =~= after.variables.subrange(0, n));
    assert forall|k: int| 0 <= k < outputs.len() implies has_type(
        after.variables,
        #[trigger] outputs[k],
        declared[k].ty,
    ) by {
        assert(outputs[k] == fresh(emitted, k));
        assert(after.variables[n + k].ty == member_types(declared)[k]);
    }
    let statement = StatementView::StructDestructure {
        input: VarUsage { var_id: var, location },
        outputs,
    };
    assert(after.statements == emitted.statements.push(statement));
    assert(after.variables[var.0 as int] == emitted.variables[var.0 as int]);
    assert(statement_typed(db, after.variables, statement));
    lemma_emitted_typed_with(db, emitted, after, statement);
    let pairs = paired(member_ids(declared), outputs);
    assert(unique_keys(pairs)) by {
        assert forall|i: int, j: int| 0 <= i < j < pairs.len() implies (#[trigger] pairs[i]).0 != (
        #[trigger] pairs[j]).0 by {
            assert(member_ids(declared)[i] != member_ids(declared)[j]);
        }
    }
    lemma_collected_distinct(pairs);
    assert forall|k: int| 0 <= k < pairs.len() implies value_typed(
        db,
        defs,
        after.variables,
        member_of(path, (#[trigger] pairs[k]).0, concrete_struct_id),
        Value::Var(pairs[k].1),
    ) by {
        lemma_member_ty(db, defs, path, concrete_struct_id, k);
        assert(has_type(after.variables, outputs[k], declared[k].ty));
    }
    lemma_members_in_vars_typed(
        db,
        defs,
        after.variables,
        path,
        concrete_struct_id,
        pairs,
    );
    let shape: Shape = |p: MemberPath| concrete_struct_id;
    let env: Valuation = |v: VariableId| Contents::Opaque(0);
    lemma_scattered_members(db, shape, path, concrete_struct_id, emitted, env);
}

proof fn lemma_broken_typed(
    db: StructTable,
    defs: Map<u64, Type>,
    entries: Seq<(MemberPath, Value)>,
    emitted: Emitted,
    path: MemberPath,
    location: LocationId,
)
    requires
        distinct_members(db),
        path_typed(db, defs, path),
        entries_typed(db, defs, emitted.variables, entries),
        emitted_typed(db, emitted),
        broken(db, entries, emitted, path, location).ok,
        broken(db, entries, emitted, path, location).emitted.variables.len() <= usize::MAX,
    ensures
        ({
            let b = broken(db, entries, emitted, path, location);
            &&& entries_typed(db, defs, b.emitted.variables, b.entries)
            &&& emitted_typed(db, b.emitted)
            &&& extends(emitted, b.emitted)
        }),
    decreases path,
{
    lemma_broken_extends(db, entries, emitted, path, location);
    if !has_key(entries, path) {
        if let MemberPath::Member { parent, concrete_struct_id, .. } = path {
            let above = broken(db, entries, emitted, *parent, location);
            let b = broken(db, entries, emitted, path, location);
            assert(above.emitted.variables.len() <= b.emitted.variables.len());
            lemma_broken_typed(db, defs, entries, emitted, *parent, location);
            if above.ok && above.found {
                lemma_lookup_typed(db, defs, above.emitted.variables, above.entries, *parent);
                if let Some(Value::Var(var)) = lookup(above.entries, *parent) {
                    let declared = db.members(concrete_struct_id).unwrap();
                    lemma_deconstructed_typed(
                        db,
                        defs,
                        above.emitted,
                        *parent,
                        concrete_struct_id,
                        var,
                        location,
                    );
                    lemma_entries_typed_of_more(
                        db,
                        defs,
                        above.emitted.variables,
                        b.emitted.variables,
                        above.entries,
                    );
                    lemma_stored_typed(
                        db,
                        defs,
                        b.emitted.variables,
                        above.entries,
                        *parent,
                        Value::Scattered {
                            concrete_struct_id,
                            members: Box::new(scattered_members(declared, above.emitted)),
                        },
                    );
                }
            }
        }
    }
}

/// A value that is put together has the type of its path.
proof fn lemma_assembled_typed(
    db: StructTable,
    defs: Map<u64, Type>,
    path: MemberPath,
    value: Value,
    emitted: Emitted,
    location: LocationId,
)
    requires
        distinct_members(db),
        value_typed(db, defs, emitted.variables, path, value),
        emitted_typed(db, emitted),
        assembled(value, emitted, location).0.variables.len() <= usize::MAX,
    ensures
        ({
            let (after, var) = assembled(value, emitted, location);
            &&& value_typed(db, defs, after.variables, path, Value::Var(var))
            &&& emitted_typed(db, after)
            &&& extends(emitted, after)
        }),
    decreases value,
{
    lemma_assembled_extends(value, emitted, location);
    if let Value::Scattered { concrete_struct_id, members } = value {
        let declared = db.members(concrete_struct_id).unwrap();
        let (e, vars) = assembled_members(*members, emitted, location);
        let after = reconstructed(e, concrete_struct_id, vars, location);
        lemma_assembled_members_typed(
            db,
            defs,
            path,
            concrete_struct_id,
            *members,
            emitted,
            location,
        );
        let n = e.variables.len() as int;
        assert(e.variables =~= after.variables.subrange(0, n));
        let inputs = usages_at(vars, location);
        let statement = StatementView::StructConstruct { inputs, output: fresh(e, 0) };
        assert(after.statements == e.statements.push(statement));
        assert forall|k: int| 0 <= k < inputs.len() implies has_type(
            after.variables,
            (#[trigger] inputs[k]).var_id,
            declared[k].ty,
        ) by {
            assert(inputs[k].var_id == vars[k]);
            assert(ids_of(*members)[k] == member_ids(declared)[k]);
            lemma_member_ty(db, defs, path, concrete_struct_id, k);
            assert(after.variables[vars[k].0 as int] == e.variables[vars[k].0 as int]);
        }
        assert(after.variables[n].ty == Type::Struct(concrete_struct_id));
        assert(vars.len() == member_ids(declared).len());
        assert(statement_typed(db, after.variables, statement));
        lemma_emitted_typed_with(db, e, after, statement);
    }
}

proof fn lemma_assembled_members_typed(
    db: StructTable,
    defs: Map<u64, Type>,
    path: MemberPath,
    concrete_struct_id: ConcreteStructId,
    members: Members,
    emitted: Emitted,
    location: LocationId,
)
    requires
        distinct_members(db),
        members_typed(db, defs, emitted.variables, path, concrete_struct_id, members),
        emitted_typed(db, emitted),
        assembled_members(members, emitted, location).0.variables.len() <= usize::MAX,
    ensures
        ({
            let (after, vars) = assembled_members(members, emitted, location);
            &&& vars.len() == ids_of(members).len()
            &&& forall|k: int|
                0 <= k < vars.len() ==> value_typed(
                    db,
                    defs,
                    after.variables,
                    member_of(path, ids_of(members)[k], concrete_struct_id),
                    Value::Var(#[trigger] vars[k]),
                )
            &&& emitted_typed(db, after)
            &&& extends(emitted, after)
        }),
    decreases members,
{
    lemma_assembled_members_extends(members, emitted, location);
    if let Members::Cons { member_id, value, rest } = members {
        let (e1, var) = assembled(*value, emitted, location);
        let (e2, rest_vars) = assembled_members(*rest, e1, location);
        let vars = assembled_members(members, emitted, location).1;
        lemma_assembled_members_extends(*rest, e1, location);
        let first = member_of(path, member_id, concrete_struct_id);
        lemma_assembled_typed(db, defs, first, *value, emitted, location);
        lemma_members_typed_of_more(
            db,
            defs,
            emitted.variables,
            e1.variables,
            path,
            concrete_struct_id,
            *rest,
        );
        lemma_assembled_members_typed(
            db,
            defs,
            path,
            concrete_struct_id,
            *rest,
            e1,
            location,
        );
        lemma_value_typed_of_more(
            db,
            defs,
            e1.variables,
            e2.variables,
            first,
            Value::Var(var),
        );
        assert(ids_of(members) =~= seq![member_id] + ids_of(*rest));
        assert forall|k: int| 0 <= k < vars.len() implies value_typed(
            db,
            defs,
            e2.variables,
            member_of(path, ids_of(members)[k], concrete_struct_id),
            Value::Var(#[trigger] vars[k]),
        ) by {
            if k > 0 {
                assert(vars[k] == rest_vars[k - 1]);
                assert(ids_of(members)[k] == ids_of(*rest)[k - 1]);
            }
        }
    }
}

// The steps of a builder.

/// A `get_ref` gives a variable of the type of its path, and keeps the block well-typed.
pub proof fn law_get_typed(
    db: StructTable,
    defs: Map<u64, Type>,
    before: State,
    path: MemberPath,
    location: LocationId,
)
    requires
        distinct_members(db),
        path_typed(db, defs, path),
        state_typed(db, defs, before),
        read_ref(db, before, path, location).ok,
        read_ref(db, before, path, location).state.variables.len() <= usize::MAX,
    ensures
        ({
            let r = read_ref(db, before, path, location);
            &&& state_typed(db, defs, r.state)
            &&& r.value matches Some(usage) ==> has_type(
                r.state.variables,
                usage.var_id,
                path_ty(db, defs, path).unwrap(),
            ) && usage.location == location
            &&& before.variables.is_prefix_of(r.state.variables)
        }),
{
    let entries = before.builder.semantics;
    let emitted = before.emitted();
    let b = broken(db, entries, emitted, path, location);
    let r = read(db, entries, emitted, path, location);
    let after = read_ref(db, before, path, location).state;
    law_reads_and_writes_extend(db, entries, emitted, path, VariableId(0), location);
    if let Some(value) = lookup(b.entries, path) {
        lemma_assembled_extends(value, b.emitted, location);
    }
    assert(b.emitted.variables.len() <= r.emitted.variables.len());
    lemma_broken_typed(db, defs, entries, emitted, path, location);
    lemma_lookup_typed(db, defs, b.emitted.variables, b.entries, path);
    if b.found {
        if let Some(value) = lookup(b.entries, path) {
            if value is Scattered {
                let (e, var) = assembled(value, b.emitted, location);
                lemma_assembled_typed(db, defs, path, value, b.emitted, location);
                lemma_entries_typed_of_more(
                    db,
                    defs,
                    b.emitted.variables,
                    e.variables,
                    b.entries,
                );
                lemma_stored_typed(db, defs, e.variables, b.entries, path, Value::Var(var));
            }
        }
    }
    lemma_snaps_typed_of_more(
        db,
        defs,
        before.variables,
        after.variables,
        before.builder.snapped,
    );
    assert(after.emitted() == r.emitted);
}

/// An `update_ref` with a variable of the type of its path keeps the block well-typed.
pub proof fn law_update_typed(
    db: StructTable,
    defs: Map<u64, Type>,
    before: State,
    path: MemberPath,
    var: VariableId,
    location: LocationId,
)
    requires
        distinct_members(db),
        path_typed(db, defs, path),
        state_typed(db, defs, before),
        unique_keys(before.builder.snapped),
        has_type(before.variables, var, path_ty(db, defs, path).unwrap()),
        write_ref(db, before, path, var, location).ok,
        write_ref(db, before, path, var, location).state.variables.len() <= usize::MAX,
    ensures
        state_typed(db, defs, write_ref(db, before, path, var, location).state),
        before.variables.is_prefix_of(write_ref(db, before, path, var, location).state.variables),
{
    let entries = before.builder.semantics;
    let emitted = before.emitted();
    let b = broken(db, entries, emitted, path, location);
    let after = write_ref(db, before, path, var, location).state;
    law_reads_and_writes_extend(db, entries, emitted, path, var, location);
    lemma_broken_typed(db, defs, entries, emitted, path, location);
    assert(after.variables[var.0 as int] == before.variables[var.0 as int]);
    lemma_stored_typed(db, defs, b.emitted.variables, b.entries, path, Value::Var(var));
    lemma_snaps_typed_of_more(
        db,
        defs,
        before.variables,
        after.variables,
        before.builder.snapped,
    );
    lemma_swap_removed(before.builder.snapped, path);
    assert forall|key: MemberPath|
        (#[trigger] value_of(after.builder.snapped, key)) is Some implies path_ty(db, defs, key)
        is Some && has_type(
        after.variables,
        value_of(after.builder.snapped, key).unwrap(),
        Type::Snapshot(Box::new(path_ty(db, defs, key).unwrap())),
    ) by {
        law_update_drops_snapshot(db, before, path, var, location, key);
        assert(value_of(after.builder.snapped, key) == value_of(before.builder.snapped, key));
    }
    assert(after.emitted() == b.emitted);
}

/// A `put_semantic` of a variable of the type of its definition keeps the block well-typed.
pub proof fn law_put_typed(
    db: StructTable,
    defs: Map<u64, Type>,
    before: State,
    path: MemberPath,
    var: VariableId,
)
    requires
        state_typed(db, defs, before),
        path_ty(db, defs, path) is Some,
        has_type(before.variables, var, path_ty(db, defs, path).unwrap()),
    ensures
        state_typed(
            db,
            defs,
            State { builder: introduced(before.builder, path, var), ..before },
        ),
{
    let after = State { builder: introduced(before.builder, path, var), ..before };
    lemma_inserted_typed(
        db,
        defs,
        before.variables,
        before.builder.semantics,
        path,
        Value::Var(var),
    );
    assert(after.emitted() == before.emitted());
}

/// An `update_snap_ref` with a variable of the type of a snapshot of its path keeps the block
/// well-typed.
pub proof fn law_update_snap_typed(
    db: StructTable,
    defs: Map<u64, Type>,
    before: State,
    path: MemberPath,
    var: VariableId,
)
    requires
        state_typed(db, defs, before),
        path_ty(db, defs, path) is Some,
        has_type(
            before.variables,
            var,
            Type::Snapshot(Box::new(path_ty(db, defs, path).unwrap())),
        ),
    ensures
        state_typed(db, defs, State { builder: snapped(before.builder, path, var), ..before }),
{
    let after = State { builder: snapped(before.builder, path, var), ..before };
    lemma_inserted(before.builder.snapped, path, var);
    assert forall|key: MemberPath|
        (#[trigger] value_of(after.builder.snapped, key)) is Some implies path_ty(db, defs, key)
        is Some && has_type(
        after.variables,
        value_of(after.builder.snapped, key).unwrap(),
        Type::Snapshot(Box::new(path_ty(db, defs, key).unwrap())),
    ) by {
        if key != path {
            assert(value_of(after.builder.snapped, key) == value_of(before.builder.snapped, key));
        }
    }
    assert(after.emitted() == before.emitted());
}

// Snapshots.

/// A `get_snap_ref` gives a variable of the type of a snapshot of its path, and keeps the block
/// well-typed.
pub proof fn law_get_snap_typed(
    db: StructTable,
    defs: Map<u64, Type>,
    before: State,
    path: ExprVarMemberPath,
)
    requires
        distinct_members(db),
        path_typed(db, defs, path.path()),
        state_typed(db, defs, before),
        read_snap(db, before, path).ok,
        read_snap(db, before, path).state.variables.len() <= usize::MAX,
    ensures
        ({
            let r = read_snap(db, before, path);
            &&& state_typed(db, defs, r.state)
            &&& r.value matches Some(usage) ==> has_type(
                r.state.variables,
                usage.var_id,
                Type::Snapshot(Box::new(path_ty(db, defs, path.path()).unwrap())),
            ) && usage.location == location_of(path.spec_stable_ptr())
            &&& before.variables.is_prefix_of(r.state.variables)
            &&& r.state.builder.snapped == before.builder.snapped
            &&& r.state.builder.semantics == before.builder.semantics
        }),
    decreases path,
{
    let r = read_snap(db, before, path);
    let n = before.variables.len() as int;
    assert(before.variables =~= before.variables.subrange(0, n));
    if value_of(before.builder.snapped, path.path()) is None {
        if let ExprVarMemberPath::Member { parent, member_id, concrete_struct_id, .. } = path {
            let above = read_snap(db, before, *parent);
            law_get_snap_goes_on(db, before, path);
            assert(above.state.variables.len() <= r.state.variables.len());
            law_get_snap_typed(db, defs, before, *parent);
            if above.value is Some && db.members(concrete_struct_id) is Some && member_position(
                db.members(concrete_struct_id).unwrap(),
                member_id,
            ) is Some {
                lemma_snap_member_typed(db, defs, before, path);
            }
        }
    }
}

/// The member that is taken out of the snapshot of a struct is a snapshot of the member.
proof fn lemma_snap_member_typed(
    db: StructTable,
    defs: Map<u64, Type>,
    before: State,
    path: ExprVarMemberPath,
)
    requires
        distinct_members(db),
        path_typed(db, defs, path.path()),
        path is Member,
        value_of(before.builder.snapped, path.path()) is None,
        read_snap(db, before, path).ok,
        read_snap(db, before, path).state.variables.len() <= usize::MAX,
        ({
            let parent = *path->parent;
            let above = read_snap(db, before, parent);
            &&& above.ok
            &&& state_typed(db, defs, above.state)
            &&& above.value matches Some(usage) && has_type(
                above.state.variables,
                usage.var_id,
                Type::Snapshot(Box::new(path_ty(db, defs, parent.path()).unwrap())),
            )
        }),
        db.members(path->concrete_struct_id) is Some,
        member_position(
            db.members(path->concrete_struct_id).unwrap(),
            path->member_id,
        ) is Some,
    ensures
        ({
            let above = read_snap(db, before, *path->parent);
            let r = read_snap(db, before, path);
            &&& state_typed(db, defs, r.state)
            &&& r.value matches Some(usage) && has_type(
                r.state.variables,
                usage.var_id,
                Type::Snapshot(Box::new(path_ty(db, defs, path.path()).unwrap())),
            )
            &&& above.state.variables.is_prefix_of(r.state.variables)
        }),
{
    let id = path->concrete_struct_id;
    let declared = db.members(id).unwrap();
    let above = read_snap(db, before, *path->parent);
    let r = read_snap(db, before, path);
    let input = above.value.unwrap();
    let e = above.state.emitted();
    let n = e.variables.len() as int;
    let ty = e.variables[input.var_id.0 as int].ty;
    assert(snapshot_depth(Type::Struct(id)) == 0);
    assert(snapshot_depth(ty) == 1 && snapshot_base(ty) == Type::Struct(id)) by {
        reveal_with_fuel(snapshot_depth, 3);
        reveal_with_fuel(snapshot_base, 3);
    }
    assert forall|t: Type| #[trigger] wrapped(t, 1) == Type::Snapshot(Box::new(t)) by {
        reveal_with_fuel(wrapped, 3);
    }
    let outputs = fresh_ids(e, declared.len());
    let after = r.state.emitted();
    let types = wrapped_member_types(declared, 1);
    assert(after.variables =~= e.variables + new_variables(
        types,
        location_of(path.spec_stable_ptr()),
    ));
    assert(e.variables =~= after.variables.subrange(0, n));
    assert forall|k: int| 0 <= k < declared.len() implies has_type(
        after.variables,
        #[trigger] outputs[k],
        Type::Snapshot(Box::new(declared[k].ty)),
    ) by {
        assert(outputs[k] == fresh(e, k));
        assert(after.variables[n + k].ty == types[k]);
        assert(types[k] == wrapped(declared[k].ty, 1));
    }
    let statement = StatementView::StructDestructure { input, outputs };
    assert(after.statements =~= e.statements.push(statement));
    assert(after.variables[input.var_id.0 as int] == e.variables[input.var_id.0 as int]);
    assert(statement_typed(db, after.variables, statement));
    lemma_emitted_typed_with(db, e, after, statement);
    lemma_entries_typed_of_more(
        db,
        defs,
        e.variables,
        after.variables,
        above.state.builder.semantics,
    );
    lemma_snaps_typed_of_more(
        db,
        defs,
        e.variables,
        after.variables,
        above.state.builder.snapped,
    );
    let i = member_position(declared, path->member_id).unwrap();
    lemma_first_member(declared, path->member_id);
    assert(has_type(after.variables, outputs[i], Type::Snapshot(Box::new(declared[i].ty))));
}

/// A snapshot that is taken of a variable is well-typed: the variable that goes on has the type of
/// the variable, and the snapshot that of a snapshot of it.
pub(crate) proof fn lemma_snapshotted_typed(
    db: StructTable,
    defs: Map<u64, Type>,
    before: State,
    input: VarUsage,
    location: LocationId,
)
    requires
        state_typed(db, defs, before),
        input.var_id.0 < before.variables.len(),
        before.variables.len() + 2 <= usize::MAX,
    ensures
        ({
            let after = before.emitting(snapshotted(before.emitted(), input, location));
            let ty = before.variables[input.var_id.0 as int].ty;
            &&& state_typed(db, defs, after)
            &&& before.variables.is_prefix_of(after.variables)
            &&& has_type(after.variables, fresh(before.emitted(), 0), ty)
            &&& has_type(
                after.variables,
                fresh(before.emitted(), 1),
                Type::Snapshot(Box::new(ty)),
            )
        }),
{
    let e = before.emitted();
    let after = before.emitting(snapshotted(e, input, location));
    let n = e.variables.len() as int;
    let statement = StatementView::Snapshot {
        input,
        output_original: fresh(e, 0),
        output_snapshot: fresh(e, 1),
    };
    assert(e.variables =~= after.variables.subrange(0, n));
    assert(after.variables[input.var_id.0 as int] == e.variables[input.var_id.0 as int]);
    assert(after.emitted().statements =~= e.statements.push(statement));
    assert(statement_typed(db, after.variables, statement));
    lemma_emitted_typed_with(db, e, after.emitted(), statement);
    lemma_entries_typed_of_more(
        db,
        defs,
        e.variables,
        after.variables,
        before.builder.semantics,
    );
    lemma_snaps_typed_of_more(db, defs, e.variables, after.variables, before.builder.snapped);
}

/// A snapshot that is taken of a path, or read, has the type of a snapshot of the path.
proof fn lemma_snapshot_path_typed(
    db: StructTable,
    defs: Map<u64, Type>,
    before: State,
    path: ExprVarMemberPath,
    location: LocationId,
)
    requires
        distinct_members(db),
        path_typed(db, defs, path.path()),
        state_typed(db, defs, before),
        unique_keys(before.builder.snapped),
        snapshot_path(db, before, path, location).ok,
        snapshot_path(db, before, path, location).state.variables.len() <= usize::MAX,
    ensures
        ({
            let l = snapshot_path(db, before, path, location);
            &&& state_typed(db, defs, l.state)
            &&& has_type(
                l.state.variables,
                l.value.var_id,
                Type::Snapshot(Box::new(path_ty(db, defs, path.path()).unwrap())),
            )
            &&& l.value.location == location
            &&& before.variables.is_prefix_of(l.state.variables)
            &&& unique_keys(l.state.builder.snapped)
        }),
{
    let at = location_of(path.spec_stable_ptr());
    let known = read_snap(db, before, path);
    let l = snapshot_path(db, before, path, location);
    if known.value is Some {
        law_get_snap_typed(db, defs, before, path);
    } else {
        let r = read_ref(db, known.state, path.path(), at);
        let input = r.value.unwrap();
        let e = r.state.emitted();
        let s = r.state.emitting(snapshotted(e, input, location));
        let w = write_ref(db, s, path.path(), fresh(e, 0), at);
        law_reads_and_writes_extend(
            db,
            s.builder.semantics,
            s.emitted(),
            path.path(),
            fresh(e, 0),
            at,
        );
        assert(s.variables.len() <= w.state.variables.len());
        assert(s.variables.len() == r.state.variables.len() + 2);
        law_reads_and_writes_extend(
            db,
            known.state.builder.semantics,
            known.state.emitted(),
            path.path(),
            fresh(e, 0),
            at,
        );
        assert(known.state.variables.len() <= r.state.variables.len());
        law_get_snap_typed(db, defs, before, path);
        law_get_typed(db, defs, known.state, path.path(), at);
        lemma_snapshotted_typed(db, defs, r.state, input, location);
        assert(s.builder.snapped == before.builder.snapped);
        law_update_typed(db, defs, s, path.path(), fresh(e, 0), at);
        lemma_swap_removed(s.builder.snapped, path.path());
        assert(w.state.variables[fresh(e, 1).0 as int] == s.variables[fresh(e, 1).0 as int]);
        law_update_snap_typed(db, defs, w.state, path.path(), fresh(e, 1));
        lemma_inserted(w.state.builder.snapped, path.path(), fresh(e, 1));
    }
}

// Expressions.

/// Whether the variables of an expression exist, and each member on its paths is one of the struct
/// that its parent is of, by type.
pub open spec fn expr_typed(
    db: StructTable,
    defs: Map<u64, Type>,
    variables: Seq<Variable>,
    expr: LoweredExpr,
) -> bool
    decreases expr,
{
    match expr {
        LoweredExpr::AtVariable(usage) => usage.var_id.0 < variables.len(),
        LoweredExpr::Tuple { exprs, .. } => exprs_typed(db, defs, variables, exprs@),
        LoweredExpr::MemberPath(path, _) => path_typed(db, defs, path.path()),
        LoweredExpr::Snapshot { expr: inner, .. } => expr_typed(db, defs, variables, *inner),
    }
}

/// Whether each of the expressions is well-typed.
pub open spec fn exprs_typed(
    db: StructTable,
    defs: Map<u64, Type>,
    variables: Seq<Variable>,
    exprs: Seq<LoweredExpr>,
) -> bool
    decreases exprs,
{
    exprs.len() > 0 ==> exprs_typed(db, defs, variables, exprs.drop_last()) && expr_typed(
        db,
        defs,
        variables,
        exprs[exprs.len() - 1],
    )
}

/// The type of an expression.
pub open spec fn expr_ty(
    db: StructTable,
    defs: Map<u64, Type>,
    variables: Seq<Variable>,
    expr: LoweredExpr,
) -> Type
    decreases expr,
{
    match expr {
        LoweredExpr::AtVariable(usage) => variables[usage.var_id.0 as int].ty,
        LoweredExpr::Tuple { exprs, .. } => Type::Tuple(
            type_list(expr_tys(db, defs, variables, exprs@)),
        ),
        LoweredExpr::MemberPath(path, _) => path_ty(db, defs, path.path()).unwrap(),
        LoweredExpr::Snapshot { expr: inner, .. } => Type::Snapshot(
            Box::new(expr_ty(db, defs, variables, *inner)),
        ),
    }
}

/// The types of expressions.
pub open spec fn expr_tys(
    db: StructTable,
    defs: Map<u64, Type>,
    variables: Seq<Variable>,
    exprs: Seq<LoweredExpr>,
) -> Seq<Type>
    decreases exprs,
{
    if exprs.len() == 0 {
        Seq::empty()
    } else {
        expr_tys(db, defs, variables, exprs.drop_last()).push(
            expr_ty(db, defs, variables, exprs[exprs.len() - 1]),
        )
    }
}

pub(crate) proof fn lemma_expr_typed_of_more(
    db: StructTable,
    defs: Map<u64, Type>,
    variables: Seq<Variable>,
    more: Seq<Variable>,
    expr: LoweredExpr,
)
    requires
        expr_typed(db, defs, variables, expr),
        variables.is_prefix_of(more),
    ensures
        expr_typed(db, defs, more, expr),
        expr_ty(db, defs, more, expr) == expr_ty(db, defs, variables, expr),
    decreases expr,
{
    match expr {
        LoweredExpr::AtVariable(usage) => {
            assert(more[usage.var_id.0 as int] == variables[usage.var_id.0 as int]);
        },
        LoweredExpr::Tuple { exprs, .. } => {
            lemma_exprs_typed_of_more(db, defs, variables, more, exprs@);
        },
        LoweredExpr::MemberPath(..) => {},
        LoweredExpr::Snapshot { expr: inner, .. } => {
            lemma_expr_typed_of_more(db, defs, variables, more, *inner);
        },
    }
}

proof fn lemma_exprs_typed_of_more(
    db: StructTable,
    defs: Map<u64, Type>,
    variables: Seq<Variable>,
    more: Seq<Variable>,
    exprs: Seq<LoweredExpr>,
)
    requires
        exprs_typed(db, defs, variables, exprs),
        variables.is_prefix_of(more),
    ensures
        exprs_typed(db, defs, more, exprs),
        expr_tys(db, defs, more, exprs) == expr_tys(db, defs, variables, exprs),
    decreases exprs,
{
    if exprs.len() > 0 {
        lemma_exprs_typed_of_more(db, defs, variables, more, exprs.drop_last());
        lemma_expr_typed_of_more(db, defs, variables, more, exprs[exprs.len() - 1]);
    }
}

/// The variable that the value of an expression is put into has the type of the expression: a tuple
/// that of a tuple of its parts, a path that of the path, a snapshot that of a snapshot. The block
/// stays well-typed.
pub proof fn law_lower_typed(
    db: StructTable,
    defs: Map<u64, Type>,
    before: State,
    expr: LoweredExpr,
)
    requires
        distinct_members(db),
        expr_typed(db, defs, before.variables, expr),
        state_typed(db, defs, before),
        unique_keys(before.builder.snapped),
        lower_expr(db, before, expr).ok,
        lower_expr(db, before, expr).state.variables.len() <= usize::MAX,
    ensures
        ({
            let l = lower_expr(db, before, expr);
            &&& state_typed(db, defs, l.state)
            &&& has_type(
                l.state.variables,
                l.value.var_id,
                expr_ty(db, defs, before.variables, expr),
            )
            &&& before.variables.is_prefix_of(l.state.variables)
            &&& unique_keys(l.state.builder.snapped)
        }),
    decreases expr,
{
    let after = lower_expr(db, before, expr);
    let n = before.variables.len() as int;
    match expr {
        LoweredExpr::AtVariable(_) => {
            assert(before.variables =~= before.variables.subrange(0, n));
        },
        LoweredExpr::Tuple { exprs, location } => {
            let l = lower_exprs(db, before, exprs@);
            assert(after.state.variables.len() == l.state.variables.len() + 1);
            law_lower_all_typed(db, defs, before, exprs@);
            let types = usage_types(l.state.variables, l.value);
            assert(types =~= expr_tys(db, defs, before.variables, exprs@));
            lemma_constructed_typed(
                db,
                defs,
                l.state,
                l.value,
                Type::Tuple(type_list(types)),
                location,
            );
        },
        LoweredExpr::MemberPath(path, _) => {
            let at = location_of(path.spec_stable_ptr());
            law_get_typed(db, defs, before, path.path(), at);
        },
        LoweredExpr::Snapshot { expr: inner, location } => match *inner {
            LoweredExpr::MemberPath(path, _) => {
                assert(expr_typed(db, defs, before.variables, *inner));
                assert(expr_ty(db, defs, before.variables, *inner) == path_ty(
                    db,
                    defs,
                    path.path(),
                ).unwrap());
                lemma_snapshot_path_typed(db, defs, before, path, location);
            },
            _ => {
                let l = lower_expr(db, before, *inner);
                assert(after.state.variables.len() == l.state.variables.len() + 2);
                law_lower_typed(db, defs, before, *inner);
                lemma_snapshotted_typed(db, defs, l.state, l.value, location);
            },
        },
    }
}

/// The variables that the values of expressions are put into have the types of the expressions.
pub proof fn law_lower_all_typed(
    db: StructTable,
    defs: Map<u64, Type>,
    before: State,
    exprs: Seq<LoweredExpr>,
)
    requires
        distinct_members(db),
        exprs_typed(db, defs, before.variables, exprs),
        state_typed(db, defs, before),
        unique_keys(before.builder.snapped),
        lower_exprs(db, before, exprs).ok,
        lower_exprs(db, before, exprs).state.variables.len() <= usize::MAX,
    ensures
        ({
            let l = lower_exprs(db, before, exprs);
            let types = expr_tys(db, defs, before.variables, exprs);
            &&& state_typed(db, defs, l.state)
            &&& l.value.len() == exprs.len()
            &&& types.len() == exprs.len()
            &&& forall|k: int|
                0 <= k < exprs.len() ==> has_type(
                    l.state.variables,
                    (#[trigger] l.value[k]).var_id,
                    types[k],
                )
            &&& before.variables.is_prefix_of(l.state.variables)
            &&& unique_keys(l.state.builder.snapped)
        }),
    decreases exprs,
{
    let n = before.variables.len() as int;
    assert(before.variables =~= before.variables.subrange(0, n));
    if exprs.len() > 0 {
        let first = lower_exprs(db, before, exprs.drop_last());
        let expr = exprs[exprs.len() - 1];
        let last = lower_expr(db, first.state, expr);
        law_lower_goes_on(db, first.state, expr);
        assert(first.state.variables.len() <= last.state.variables.len());
        law_lower_all_typed(db, defs, before, exprs.drop_last());
        lemma_expr_typed_of_more(
            db,
            defs,
            before.variables,
            first.state.variables,
            expr,
        );
        law_lower_typed(db, defs, first.state, expr);
        let l = lower_exprs(db, before, exprs);
        let types = expr_tys(db, defs, before.variables, exprs);
        assert forall|k: int| 0 <= k < exprs.len() implies has_type(
            l.state.variables,
            (#[trigger] l.value[k]).var_id,
            types[k],
        ) by {
            if k < exprs.len() - 1 {
                let var = first.value[k].var_id;
                assert(l.value[k] == first.value[k]);
                assert(l.state.variables[var.0 as int] == first.state.variables[var.0 as int]);
            }
        }
    }
}

/// A tuple or a closure that is made from values of its types is well-typed.
pub(crate) proof fn lemma_constructed_typed(
    db: StructTable,
    defs: Map<u64, Type>,
    before: State,
    inputs: Seq<VarUsage>,
    ty: Type,
    location: LocationId,
)
    requires
        state_typed(db, defs, before),
        usages_exist(before.variables, inputs),
        match ty {
            Type::Tuple(types) => types == type_list(usage_types(before.variables, inputs)),
            Type::Closure(closure) => closure.captured_types == type_list(
                usage_types(before.variables, inputs),
            ),
            _ => false,
        },
        before.variables.len() + 1 <= usize::MAX,
    ensures
        ({
            let after = before.emitting(constructed(before.emitted(), inputs, ty, location));
            &&& state_typed(db, defs, after)
            &&& before.variables.is_prefix_of(after.variables)
            &&& has_type(after.variables, fresh(before.emitted(), 0), ty)
        }),
{
    let e = before.emitted();
    let after = before.emitting(constructed(e, inputs, ty, location));
    let n = e.variables.len() as int;
    let statement = StatementView::StructConstruct { inputs, output: fresh(e, 0) };
    assert(e.variables =~= after.variables.subrange(0, n));
    assert(after.emitted().statements =~= e.statements.push(statement));
    assert(usage_types(before.variables, inputs) =~= inputs.map_values(
        |usage: VarUsage| after.variables[usage.var_id.0 as int].ty,
    )) by {
        assert forall|k: int| 0 <= k < inputs.len() implies after.variables[(
        #[trigger] inputs[k]).var_id.0 as int] == before.variables[inputs[k].var_id.0 as int] by {}
    }
    assert(statement_typed(db, after.variables, statement));
    lemma_emitted_typed_with(db, e, after.emitted(), statement);
    lemma_entries_typed_of_more(
        db,
        defs,
        e.variables,
        after.variables,
        before.builder.semantics,
    );
    lemma_snaps_typed_of_more(db, defs, e.variables, after.variables, before.builder.snapped);
}

// Closures.

/// A closure has the type that it is asked to have, at the location of the closure, in a new
/// variable. Its parts are the used paths, with their types, then the paths used as snapshots, with
/// the types of snapshots of them. The block stays well-typed.
pub proof fn law_capture_typed(
    db: StructTable,
    defs: Map<u64, Type>,
    before: State,
    usage: Seq<(MemberPath, ExprVarMemberPath)>,
    changes: Seq<(MemberPath, ExprVarMemberPath)>,
    snap_usage: Seq<(MemberPath, ExprVarMemberPath)>,
    ty: Type,
    location: LocationId,
)
    requires
        distinct_members(db),
        state_typed(db, defs, before),
        unique_keys(before.builder.snapped),
        forall|k: int|
            0 <= k < usage.len() ==> path_typed(db, defs, (#[trigger] usage[k]).1.path()),
        forall|k: int|
            0 <= k < snap_usage.len() ==> path_typed(db, defs, (#[trigger] snap_usage[k]).1.path()),
        capture(db, before, usage, changes, snap_usage, ty, location).ok,
        capture(
            db,
            before,
            usage,
            changes,
            snap_usage,
            ty,
            location,
        ).state.variables.len() <= usize::MAX,
    ensures
        ({
            let c = capture(db, before, usage, changes, snap_usage, ty, location);
            let var = c.value.closure.var_id;
            &&& state_typed(db, defs, c.state)
            &&& has_type(c.state.variables, var, ty)
            &&& var.0 >= before.variables.len()
            &&& c.state.variables[var.0 as int].location == location
            &&& c.value.closure.location == location
            &&& c.state.builder.statements.len() > 0
            &&& c.state.builder.statements.last() matches StatementView::StructConstruct {
                inputs,
                output,
            } && {
                &&& output == var
                &&& inputs.len() == usage.len() + snap_usage.len()
                &&& forall|k: int|
                    0 <= k < usage.len() ==> has_type(
                        c.state.variables,
                        (#[trigger] inputs[k]).var_id,
                        path_ty(db, defs, usage[k].1.path()).unwrap(),
                    )
                &&& forall|k: int|
                    usage.len() <= k < inputs.len() ==> has_type(
                        c.state.variables,
                        (#[trigger] inputs[k]).var_id,
                        Type::Snapshot(
                            Box::new(
                                path_ty(db, defs, snap_usage[k - usage.len()].1.path()).unwrap(),
                            ),
                        ),
                    )
            }
        }),
{
    let exprs = captured_exprs(usage, snap_usage, location);
    let l = lower_exprs(db, before, exprs);
    let c = capture(db, before, usage, changes, snap_usage, ty, location);
    assert(c.state.variables.len() == l.state.variables.len() + 1);
    assert forall|k: int| 0 <= k < exprs.len() implies expr_typed(
        db,
        defs,
        before.variables,
        #[trigger] exprs[k],
    ) && expr_ty(db, defs, before.variables, exprs[k]) == (if k < usage.len() {
        path_ty(db, defs, usage[k].1.path()).unwrap()
    } else {
        Type::Snapshot(
            Box::new(path_ty(db, defs, snap_usage[k - usage.len()].1.path()).unwrap()),
        )
    }) by {
        if k < usage.len() {
            assert(exprs[k] == LoweredExpr::MemberPath(usage[k].1, location));
            assert(path_typed(db, defs, usage[k].1.path()));
        } else {
            let inner = LoweredExpr::MemberPath(snap_usage[k - usage.len()].1, location);
            assert(exprs[k] == (LoweredExpr::Snapshot { expr: Box::new(inner), location }));
            assert(path_typed(db, defs, snap_usage[k - usage.len()].1.path()));
            assert(expr_typed(db, defs, before.variables, inner));
            assert(expr_ty(db, defs, before.variables, inner) == path_ty(
                db,
                defs,
                snap_usage[k - usage.len()].1.path(),
            ).unwrap());
        }
    }
    lemma_exprs_typed_each(db, defs, before.variables, exprs);
    law_lower_all_typed(db, defs, before, exprs);
    lemma_constructed_typed(db, defs, l.state, l.value, ty, location);
    let statement = StatementView::StructConstruct {
        inputs: l.value,
        output: fresh(l.state.emitted(), 0),
    };
    assert(c.state.builder.statements == l.state.builder.statements.push(statement));
    assert(c.state.builder.statements.last() == statement);
    assert forall|k: int| 0 <= k < l.value.len() implies has_type(
        c.state.variables,
        (#[trigger] l.value[k]).var_id,
        expr_ty(db, defs, before.variables, exprs[k]),
    ) by {
        let var = l.value[k].var_id;
        lemma_expr_tys_index(db, defs, before.variables, exprs, k);
        assert(c.state.variables[var.0 as int] == l.state.variables[var.0 as int]);
    }
}

proof fn lemma_exprs_typed_each(
    db: StructTable,
    defs: Map<u64, Type>,
    variables: Seq<Variable>,
    exprs: Seq<LoweredExpr>,
)
    requires
        forall|k: int|
            0 <= k < exprs.len() ==> expr_typed(db, defs, variables, #[trigger] exprs[k]),
    ensures
        exprs_typed(db, defs, variables, exprs),
    decreases exprs.len(),
{
    if exprs.len() > 0 {
        let rest = exprs.drop_last();
        assert forall|k: int| 0 <= k < rest.len() implies expr_typed(
            db,
            defs,
            variables,
            #[trigger] rest[k],
        ) by {
            assert(rest[k] == exprs[k]);
        }
        lemma_exprs_typed_each(db, defs, variables, rest);
        assert(expr_typed(db, defs, variables, exprs[exprs.len() - 1]));
    }
}

proof fn lemma_expr_tys_index(
    db: StructTable,
    defs: Map<u64, Type>,
    variables: Seq<Variable>,
    exprs: Seq<LoweredExpr>,
    k: int,
)
    requires
        0 <= k < exprs.len(),
    ensures
        expr_tys(db, defs, variables, exprs).len() == exprs.len(),
        expr_tys(db, defs, variables, exprs)[k] == expr_ty(db, defs, variables, exprs[k]),
    decreases exprs.len(),
{
    if exprs.len() == 1 {
        assert(expr_tys(db, defs, variables, exprs.drop_last()).len() == 0);
    } else if k < exprs.len() - 1 {
        lemma_expr_tys_index(db, defs, variables, exprs.drop_last(), k);
    } else {
        lemma_expr_tys_index(db, defs, variables, exprs.drop_last(), 0);
    }
}

} // verus!
