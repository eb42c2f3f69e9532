//! The steps of a block builder, as functions of its state.
use vstd::prelude::*;

use crate::context::{location_of, member_position, LoweredExpr, Member, StructTable};
use crate::generators::{constructed, destructured, fresh, new_variables, snapshotted, Emitted};
use crate::ids::{BlockId, LocationId, VariableId};
use crate::member_path::{ExprVarMemberPath, MemberPath};
use crate::objects::{StatementView, VarUsage, Variable};
use crate::ordered::{collected, inserted, set_inserted, swap_removed, value_of};
use crate::refs::{read, written, Value};
use crate::types::{snapshot_depth, type_list, wrapped, Type};

verus! {

/// What a block builder holds.
#[verifier::ext_equal]
pub struct BuilderView {
    /// Where the semantic variables are.
    pub semantics: Seq<(MemberPath, Value)>,
    /// The snapshots that were taken of semantic variables and are still good.
    pub snapped: Seq<(MemberPath, VariableId)>,
    /// The member paths that were introduced or changed in the block.
    pub changed: Seq<MemberPath>,
    /// The statements of the block.
    pub statements: Seq<StatementView>,
    /// The block.
    pub block_id: BlockId,
}

/// A block builder and the variables of its function.
#[verifier::ext_equal]
pub struct State {
    pub builder: BuilderView,
    pub variables: Seq<Variable>,
}

/// The outcome of a step.
#[verifier::ext_equal]
pub struct Outcome<T> {
    pub state: State,
    pub value: T,
    /// Whether the step can be taken. Where it cannot, nothing is said of its outcome.
    pub ok: bool,
}

impl State {
    /// What was emitted so far.
    pub open spec fn emitted(self) -> Emitted {
        Emitted { variables: self.variables, statements: self.builder.statements }
    }

    /// The state once more was emitted.
    pub open spec fn emitting(self, emitted: Emitted) -> State {
        State {
            builder: BuilderView { statements: emitted.statements, ..self.builder },
            variables: emitted.variables,
        }
    }
}

/// A new builder with nothing in it.
pub open spec fn root_builder(block_id: BlockId) -> BuilderView {
    BuilderView {
        semantics: Seq::empty(),
        snapped: Seq::empty(),
        changed: Seq::empty(),
        statements: Seq::empty(),
        block_id,
    }
}

/// A builder for a scope within that of `builder`.
pub open spec fn child_builder(builder: BuilderView, block_id: BlockId) -> BuilderView {
    BuilderView {
        changed: Seq::empty(),
        statements: Seq::empty(),
        block_id,
        ..builder
    }
}

/// A builder that goes on where `builder` ends.
pub open spec fn sibling_builder(builder: BuilderView, block_id: BlockId) -> BuilderView {
    BuilderView { statements: Seq::empty(), block_id, ..builder }
}

/// Introduces a semantic variable, or binds it anew.
pub open spec fn introduced(
    builder: BuilderView,
    path: MemberPath,
    var: VariableId,
) -> BuilderView {
    BuilderView {
        semantics: inserted(builder.semantics, path, Value::Var(var)),
        changed: set_inserted(builder.changed, path),
        ..builder
    }
}

/// Records a snapshot.
pub open spec fn snapped(builder: BuilderView, path: MemberPath, var: VariableId) -> BuilderView {
    BuilderView { snapped: inserted(builder.snapped, path, var), ..builder }
}

/// Reads a member path.
pub open spec fn read_ref(
    db: StructTable,
    state: State,
    path: MemberPath,
    location: LocationId,
) -> Outcome<Option<VarUsage>> {
    let r = read(db, state.builder.semantics, state.emitted(), path, location);
    let s = state.emitting(r.emitted);
    Outcome {
        state: State { builder: BuilderView { semantics: r.entries, ..s.builder }, ..s },
        value: match r.var {
            Some(var_id) => Some(VarUsage { var_id, location }),
            None => None,
        },
        ok: r.ok,
    }
}

/// Writes a member path. A snapshot of its old value is no longer good.
pub open spec fn write_ref(
    db: StructTable,
    state: State,
    path: MemberPath,
    var: VariableId,
    location: LocationId,
) -> Outcome<()> {
    let w = written(db, state.builder.semantics, state.emitted(), path, var, location);
    let s = state.emitting(w.emitted);
    Outcome {
        state: State {
            builder: BuilderView {
                semantics: w.entries,
                snapped: swap_removed(state.builder.snapped, path),
                changed: set_inserted(state.builder.changed, path),
                ..s.builder
            },
            ..s
        },
        value: (),
        ok: w.ok,
    }
}

/// The types of members, each with `n` snapshots around it.
pub open spec fn wrapped_member_types(members: Seq<Member>, n: nat) -> Seq<Type> {
    members.map_values(|member: Member| wrapped(member.ty, n))
}

/// Reads the snapshot of a member path: the one that was recorded, or the member of that of its
/// parent.
pub open spec fn read_snap(
    db: StructTable,
    state: State,
    path: ExprVarMemberPath,
) -> Outcome<Option<VarUsage>>
    decreases path,
{
    let location = location_of(path.spec_stable_ptr());
    match value_of(state.builder.snapped, path.path()) {
        Some(var_id) => Outcome {
            state,
            value: Some(VarUsage { var_id, location }),
            ok: true,
        },
        None => match path {
            ExprVarMemberPath::Var(_) => Outcome { state, value: None, ok: true },
            ExprVarMemberPath::Member { parent, member_id, concrete_struct_id, .. } => {
                let p = read_snap(db, state, *parent);
                match (p.value, db.members(concrete_struct_id)) {
                    (Some(parent_var), Some(members)) => {
                        let var = parent_var.var_id.0 as int;
                        if !p.ok || var >= p.state.variables.len() {
                            Outcome { ok: false, ..p }
                        } else {
                            match member_position(members, member_id) {
                                Some(i) => {
                                    let n = snapshot_depth(p.state.variables[var].ty);
                                    Outcome {
                                        state: p.state.emitting(
                                            destructured(
                                                p.state.emitted(),
                                                parent_var,
                                                new_variables(
                                                    wrapped_member_types(members, n),
                                                    location,
                                                ),
                                            ),
                                        ),
                                        value: Some(
                                            VarUsage {
                                                var_id: fresh(p.state.emitted(), i),
                                                location,
                                            },
                                        ),
                                        ok: true,
                                    }
                                },
                                None => Outcome { value: None, ..p },
                            }
                        }
                    },
                    _ => Outcome { value: None, ..p },
                }
            },
        },
    }
}

/// Whether the variables of all the usages exist.
pub open spec fn usages_exist(variables: Seq<Variable>, usages: Seq<VarUsage>) -> bool {
    forall|i: int|
        0 <= i < usages.len() ==> (#[trigger] usages[i]).var_id.0 < variables.len()
}

/// The types of the variables of the usages.
pub open spec fn usage_types(variables: Seq<Variable>, usages: Seq<VarUsage>) -> Seq<Type> {
    usages.map_values(|usage: VarUsage| variables[usage.var_id.0 as int].ty)
}

/// Puts the value of a lowered expression into a variable.
pub open spec fn lower_expr(db: StructTable, state: State, expr: LoweredExpr) -> Outcome<VarUsage>
    decreases expr,
{
    match expr {
        LoweredExpr::AtVariable(usage) => Outcome { state, value: usage, ok: true },
        LoweredExpr::Tuple { exprs, location } => {
            let l = lower_exprs(db, state, exprs@);
            let types = usage_types(l.state.variables, l.value);
            Outcome {
                state: l.state.emitting(
                    constructed(
                        l.state.emitted(),
                        l.value,
                        Type::Tuple(type_list(types)),
                        location,
                    ),
                ),
                value: VarUsage { var_id: fresh(l.state.emitted(), 0), location },
                ok: l.ok && usages_exist(l.state.variables, l.value),
            }
        },
        LoweredExpr::MemberPath(path, _) => {
            let r = read_ref(db, state, path.path(), location_of(path.spec_stable_ptr()));
            Outcome {
                state: r.state,
                value: r.value.unwrap(),
                ok: r.ok && r.value is Some,
            }
        },
        LoweredExpr::Snapshot { expr: inner, location } => match *inner {
            LoweredExpr::MemberPath(path, _) => snapshot_path(db, state, path, location),
            _ => {
                let l = lower_expr(db, state, *inner);
                let input = l.value;
                Outcome {
                    state: l.state.emitting(snapshotted(l.state.emitted(), input, location)),
                    value: VarUsage { var_id: fresh(l.state.emitted(), 1), location },
                    ok: l.ok && input.var_id.0 < l.state.variables.len(),
                }
            },
        },
    }
}

/// Takes a snapshot of the value at a member path, unless one that is still good can be read.
pub open spec fn snapshot_path(
    db: StructTable,
    state: State,
    path: ExprVarMemberPath,
    location: LocationId,
) -> Outcome<VarUsage> {
    let path_location = location_of(path.spec_stable_ptr());
    let known = read_snap(db, state, path);
    match known.value {
        Some(usage) => Outcome {
            state: known.state,
            value: VarUsage { var_id: usage.var_id, location },
            ok: known.ok,
        },
        None => {
            let r = read_ref(db, known.state, path.path(), path_location);
            let input = r.value.unwrap();
            let before = r.state.emitted();
            let w = write_ref(
                db,
                r.state.emitting(snapshotted(before, input, location)),
                path.path(),
                fresh(before, 0),
                path_location,
            );
            Outcome {
                state: State {
                    builder: snapped(w.state.builder, path.path(), fresh(before, 1)),
                    ..w.state
                },
                value: VarUsage { var_id: fresh(before, 1), location },
                ok: known.ok && r.ok && r.value is Some && input.var_id.0 < r.state.variables.len()
                    && w.ok,
            }
        },
    }
}

/// Puts the values of lowered expressions into variables, one after the other.
pub open spec fn lower_exprs(
    db: StructTable,
    state: State,
    exprs: Seq<LoweredExpr>,
) -> Outcome<Seq<VarUsage>>
    decreases exprs,
{
    if exprs.len() == 0 {
        Outcome { state, value: Seq::empty(), ok: true }
    } else {
        let first = lower_exprs(db, state, exprs.drop_last());
        let last = lower_expr(db, first.state, exprs[exprs.len() - 1]);
        Outcome {
            state: last.state,
            value: first.value.push(last.value),
            ok: first.ok && last.ok,
        }
    }
}

/// The types of what an expression path leads to, by member path.
pub open spec fn typed_paths(exprs: Seq<(MemberPath, ExprVarMemberPath)>) -> Seq<
    (MemberPath, Type),
> {
    exprs.map_values(
        |entry: (MemberPath, ExprVarMemberPath)| (entry.1.path(), entry.1.spec_ty()),
    )
}

/// The expressions that a closure captures: values first, then snapshots.
pub open spec fn captured_exprs(
    values: Seq<(MemberPath, ExprVarMemberPath)>,
    snaps: Seq<(MemberPath, ExprVarMemberPath)>,
    location: LocationId,
) -> Seq<LoweredExpr> {
    values.map_values(
        |entry: (MemberPath, ExprVarMemberPath)| LoweredExpr::MemberPath(entry.1, location),
    ) + snaps.map_values(
        |entry: (MemberPath, ExprVarMemberPath)|
            LoweredExpr::Snapshot {
                expr: Box::new(LoweredExpr::MemberPath(entry.1, location)),
                location,
            },
    )
}

/// The paths of the captured snapshots, each with the type of its input. The inputs of the
/// snapshots are those behind the first `skipped`.
pub open spec fn typed_snapshots(
    snaps: Seq<(MemberPath, ExprVarMemberPath)>,
    input_types: Seq<Type>,
    skipped: nat,
) -> Seq<(MemberPath, Type)> {
    let rest = input_types.len() - skipped;
    let n = if rest < 0 {
        0
    } else if rest < snaps.len() {
        rest
    } else {
        snaps.len() as int
    };
    Seq::new(n as nat, |k: int| (snaps[k].0, input_types[skipped + k]))
}

/// What a closure captured.
pub struct Captured {
    /// The closure itself.
    pub closure: VarUsage,
    /// The types of the captured and of the changed paths.
    pub members: Seq<(MemberPath, Type)>,
    /// The types of the captured snapshots.
    pub snapshots: Seq<(MemberPath, Type)>,
}

/// Builds a closure of the given type from the paths that it uses, changes and uses as snapshots.
pub open spec fn capture(
    db: StructTable,
    state: State,
    usage: Seq<(MemberPath, ExprVarMemberPath)>,
    changes: Seq<(MemberPath, ExprVarMemberPath)>,
    snap_usage: Seq<(MemberPath, ExprVarMemberPath)>,
    ty: Type,
    location: LocationId,
) -> Outcome<Captured> {
    let l = lower_exprs(db, state, captured_exprs(usage, snap_usage, location));
    let types = usage_types(l.state.variables, l.value);
    let members = collected(typed_paths(usage) + typed_paths(changes));
    Outcome {
        state: l.state.emitting(constructed(l.state.emitted(), l.value, ty, location)),
        value: Captured {
            closure: VarUsage { var_id: fresh(l.state.emitted(), 0), location },
            members,
            snapshots: collected(typed_snapshots(snap_usage, types, members.len())),
        },
        ok: l.ok && usages_exist(l.state.variables, l.value) && (ty matches Type::Closure(closure)
            && closure.captured_types == type_list(types)),
    }
}

/// Reads member paths one after the other, until one of them is not there.
pub open spec fn read_refs(
    db: StructTable,
    state: State,
    paths: Seq<ExprVarMemberPath>,
) -> Outcome<Option<Seq<VarUsage>>>
    decreases paths.len(),
{
    if paths.len() == 0 {
        Outcome { state, value: Some(Seq::empty()), ok: true }
    } else {
        let first = read_refs(db, state, paths.drop_last());
        match first.value {
            Some(usages) => {
                let path = paths.last();
                let last = read_ref(
                    db,
                    first.state,
                    path.path(),
                    location_of(path.spec_stable_ptr()),
                );
                Outcome {
                    state: last.state,
                    value: match last.value {
                        Some(usage) => Some(usages.push(usage)),
                        None => None,
                    },
                    ok: first.ok && last.ok,
                }
            },
            None => first,
        }
    }
}

/// Where reading all the paths can be done, reading the first of them can.
pub(crate) proof fn lemma_read_refs_prefix(
    db: StructTable,
    state: State,
    paths: Seq<ExprVarMemberPath>,
    n: int,
)
    requires
        0 <= n <= paths.len(),
        read_refs(db, state, paths).ok,
    ensures
        read_refs(db, state, paths.take(n)).ok,
        read_refs(db, state, paths.take(n)).value is None ==> read_refs(db, state, paths)
            == read_refs(db, state, paths.take(n)),
    decreases paths.len(),
{
    if n < paths.len() {
        lemma_read_refs_prefix(db, state, paths.drop_last(), n);
        assert(paths.drop_last().take(n) =~= paths.take(n));
    } else {
        assert(paths.take(n) =~= paths);
    }
}

/// Where all the expressions can be lowered, the first of them can.
pub(crate) proof fn lemma_lower_exprs_prefix(
    db: StructTable,
    state: State,
    exprs: Seq<LoweredExpr>,
    n: int,
)
    requires
        0 <= n <= exprs.len(),
        lower_exprs(db, state, exprs).ok,
    ensures
        lower_exprs(db, state, exprs.take(n)).ok,
    decreases exprs.len(),
{
    if n < exprs.len() {
        lemma_lower_exprs_prefix(db, state, exprs.drop_last(), n);
        assert(exprs.drop_last().take(n) =~= exprs.take(n));
    } else {
        assert(exprs.take(n) =~= exprs);
    }
}

} // verus!
