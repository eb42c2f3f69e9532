//! Emission of lowered statements.
use vstd::prelude::*;

use crate::context::{same_but_variables, LoweringContext, VarRequest};
use crate::ids::{LocationId, VariableId};
use crate::objects::{statement_views, Statement, StatementView, VarUsage, Variable};
use crate::types::Type;

verus! {

/// The statements of a block, so far.
#[derive(Debug)]
pub struct StatementsBuilder {
    pub statements: Vec<Statement>,
}

impl View for StatementsBuilder {
    type V = Seq<StatementView>;

    open spec fn view(&self) -> Seq<StatementView> {
        statement_views(self.statements@)
    }
}

impl Clone for StatementsBuilder {
    fn clone(&self) -> (res: Self)
        ensures
            res@ == self@,
    {
        let mut statements: Vec<Statement> = Vec::new();
        let mut i: usize = 0;
        while i < self.statements.len()
            invariant
                i <= self.statements.len(),
                statement_views(statements@) == statement_views(self.statements@.take(i as int)),
                statements@.len() == i,
            decreases self.statements.len() - i,
        {
            let ghost views = statement_views(statements@);
            let statement = self.statements[i].clone();
            statements.push(statement);
            i = i + 1;
            assert(statement_views(statements@) =~= views.push(statement@));
            assert(statement_views(self.statements@.take(i as int)) =~= views.push(statement@));
        }
        assert(self.statements@.take(i as int) =~= self.statements@);
        StatementsBuilder { statements }
    }
}

impl StatementsBuilder {
    /// No statements.
    pub fn new() -> (res: Self)
        ensures
            res@ == Seq::<StatementView>::empty(),
    {
        let res = StatementsBuilder { statements: Vec::new() };
        assert(res@ =~= Seq::<StatementView>::empty());
        res
    }

    /// Adds a statement.
    pub fn push_statement(&mut self, statement: Statement)
        ensures
            final(self)@ == old(self)@.push(statement@),
    {
        self.statements.push(statement);
        assert(self@ =~= old(self)@.push(statement@));
    }
}

/// What was emitted so far: the variables of the function and the statements of the block.
#[verifier::ext_equal]
pub struct Emitted {
    pub variables: Seq<Variable>,
    pub statements: Seq<StatementView>,
}

/// What was emitted into a function and a block of it.
pub open spec fn emitted(ctx: LoweringContext, statements: StatementsBuilder) -> Emitted {
    Emitted { variables: ctx.variables@, statements: statements@ }
}

/// The `k`-th variable from now on.
pub open spec fn fresh(emitted: Emitted, k: int) -> VariableId {
    VariableId((emitted.variables.len() + k) as usize)
}

/// The next `n` variables.
pub open spec fn fresh_ids(emitted: Emitted, n: nat) -> Seq<VariableId> {
    Seq::new(n, |k: int| fresh(emitted, k))
}

/// New variables of the given types, all with one location.
pub open spec fn new_variables(types: Seq<Type>, location: LocationId) -> Seq<Variable> {
    types.map_values(|ty: Type| Variable { ty, location })
}

/// What is emitted once `input` was taken apart into new variables.
pub open spec fn destructured(
    emitted: Emitted,
    input: VarUsage,
    outputs: Seq<Variable>,
) -> Emitted {
    Emitted {
        variables: emitted.variables + outputs,
        statements: emitted.statements.push(
            StatementView::StructDestructure { input, outputs: fresh_ids(emitted, outputs.len()) },
        ),
    }
}

/// What is emitted once a struct was built.
pub open spec fn constructed(
    emitted: Emitted,
    inputs: Seq<VarUsage>,
    ty: Type,
    location: LocationId,
) -> Emitted {
    Emitted {
        variables: emitted.variables.push(Variable { ty, location }),
        statements: emitted.statements.push(
            StatementView::StructConstruct { inputs, output: fresh(emitted, 0) },
        ),
    }
}

/// What is emitted once a snapshot of `input` was taken.
pub open spec fn snapshotted(emitted: Emitted, input: VarUsage, location: LocationId) -> Emitted {
    let ty = emitted.variables[input.var_id.0 as int].ty;
    Emitted {
        variables: emitted.variables.push(Variable { ty, location }).push(
            Variable { ty: Type::Snapshot(Box::new(ty)), location },
        ),
        statements: emitted.statements.push(
            StatementView::Snapshot {
                input,
                output_original: fresh(emitted, 0),
                output_snapshot: fresh(emitted, 1),
            },
        ),
    }
}

/// The variables that the requests ask for.
pub open spec fn requested(var_reqs: Seq<VarRequest>) -> Seq<Variable> {
    var_reqs.map_values(|req: VarRequest| Variable { ty: req.ty, location: req.location })
}

/// Takes a struct apart.
pub struct StructDestructure {
    pub input: VarUsage,
    pub var_reqs: Vec<VarRequest>,
}

impl StructDestructure {
    /// Emits the statement. Returns the variables of the members.
    pub fn add(self, ctx: &mut LoweringContext, builder: &mut StatementsBuilder) -> (res: Vec<
        VariableId,
    >)
        ensures
            res@ == fresh_ids(emitted(*old(ctx), *old(builder)), self.var_reqs@.len()),
            emitted(*final(ctx), *final(builder)) == destructured(
                emitted(*old(ctx), *old(builder)),
                self.input,
                requested(self.var_reqs@),
            ),
            forall|k: int|
                0 <= k < res@.len() ==> #[trigger] res@[k].0 == old(ctx).variables@.len() + k,
            same_but_variables(*old(ctx), *final(ctx)),
    {
        let ghost before = emitted(*ctx, *builder);
        let ghost reqs = self.var_reqs@;
        let mut outputs: Vec<VariableId> = Vec::new();
        let mut statement_outputs: Vec<VariableId> = Vec::new();
        let mut i: usize = 0;
        while i < self.var_reqs.len()
            invariant
                i <= self.var_reqs.len(),
                reqs == self.var_reqs@,
                before == emitted(*old(ctx), *old(builder)),
                *builder == *old(builder),
                outputs@ == fresh_ids(before, i as nat),
                statement_outputs@ == fresh_ids(before, i as nat),
                forall|k: int|
                    0 <= k < outputs@.len() ==> #[trigger] outputs@[k].0
                        == before.variables.len() + k,
                ctx.variables@ == before.variables + requested(reqs.take(i as int)),
                same_but_variables(*old(ctx), *ctx),
            decreases self.var_reqs.len() - i,
        {
            let req = VarRequest {
                ty: self.var_reqs[i].ty.clone(),
                location: self.var_reqs[i].location,
            };
            let var = ctx.new_var(req);
            outputs.push(var);
            statement_outputs.push(var);
            assert(requested(reqs.take(i + 1)) =~= requested(reqs.take(i as int)).push(
                Variable { ty: reqs[i as int].ty, location: reqs[i as int].location },
            ));
            i = i + 1;
            assert(outputs@ =~= fresh_ids(before, i as nat));
            assert(ctx.variables@ =~= before.variables + requested(reqs.take(i as int)));
        }
        assert(reqs.take(i as int) =~= reqs);
        builder.push_statement(
            Statement::StructDestructure { input: self.input, outputs: statement_outputs },
        );
        outputs
    }
}

/// Reads a member of a struct, by taking the struct apart.
pub struct StructMemberAccess {
    pub input: VarUsage,
    pub member_tys: Vec<Type>,
    pub member_idx: usize,
    pub location: LocationId,
}

impl StructMemberAccess {
    /// Emits the statement. Returns the member.
    pub fn add(self, ctx: &mut LoweringContext, builder: &mut StatementsBuilder) -> (res: VarUsage)
        requires
            self.member_idx < self.member_tys@.len(),
        ensures
            res == (VarUsage {
                var_id: fresh(emitted(*old(ctx), *old(builder)), self.member_idx as int),
                location: self.location,
            }),
            res.var_id.0 == old(ctx).variables@.len() + self.member_idx,
            emitted(*final(ctx), *final(builder)) == destructured(
                emitted(*old(ctx), *old(builder)),
                self.input,
                new_variables(self.member_tys@, self.location),
            ),
            same_but_variables(*old(ctx), *final(ctx)),
    {
        let var_reqs = requests_at(&self.member_tys, self.location);
        let vars = StructDestructure { input: self.input, var_reqs }.add(ctx, builder);
        VarUsage { var_id: vars[self.member_idx], location: self.location }
    }
}

/// Requests for variables of the given types, all with one location.
pub fn requests_at(types: &Vec<Type>, location: LocationId) -> (res: Vec<VarRequest>)
    ensures
        res@.len() == types@.len(),
        requested(res@) == new_variables(types@, location),
{
    let mut res: Vec<VarRequest> = Vec::new();
    let mut i: usize = 0;
    while i < types.len()
        invariant
            i <= types.len(),
            res@.len() == i,
            forall|k: int|
                0 <= k < i ==> #[trigger] res@[k] == (VarRequest { ty: types@[k], location }),
        decreases types.len() - i,
    {
        res.push(VarRequest { ty: types[i].clone(), location });
        i = i + 1;
    }
    assert(requested(res@) =~= new_variables(types@, location));
    res
}

/// Builds a struct.
pub struct StructConstruct {
    pub inputs: Vec<VarUsage>,
    pub ty: Type,
    pub location: LocationId,
}

impl StructConstruct {
    /// Emits the statement. Returns the struct.
    pub fn add(self, ctx: &mut LoweringContext, builder: &mut StatementsBuilder) -> (res: VarUsage)
        ensures
            res == (VarUsage {
                var_id: fresh(emitted(*old(ctx), *old(builder)), 0),
                location: self.location,
            }),
            res.var_id.0 == old(ctx).variables@.len(),
            emitted(*final(ctx), *final(builder)) == constructed(
                emitted(*old(ctx), *old(builder)),
                self.inputs@,
                self.ty,
                self.location,
            ),
            same_but_variables(*old(ctx), *final(ctx)),
    {
        let output = ctx.new_var(VarRequest { ty: self.ty, location: self.location });
        builder.push_statement(Statement::StructConstruct { inputs: self.inputs, output });
        VarUsage { var_id: output, location: self.location }
    }
}

/// Takes a snapshot.
pub struct Snapshot {
    pub input: VarUsage,
    pub location: LocationId,
}

impl Snapshot {
    /// Emits the statement. Returns the variable that goes on as the value itself, and the
    /// snapshot.
    pub fn add(self, ctx: &mut LoweringContext, builder: &mut StatementsBuilder) -> (res: (
        VariableId,
        VariableId,
    ))
        requires
            self.input.var_id.0 < old(ctx).variables@.len(),
        ensures
            res.0 == fresh(emitted(*old(ctx), *old(builder)), 0),
            res.1 == fresh(emitted(*old(ctx), *old(builder)), 1),
            res.0.0 == old(ctx).variables@.len(),
            res.1.0 == old(ctx).variables@.len() + 1,
            emitted(*final(ctx), *final(builder)) == snapshotted(
                emitted(*old(ctx), *old(builder)),
                self.input,
                self.location,
            ),
            same_but_variables(*old(ctx), *final(ctx)),
    {
        let ty = ctx.variables[self.input.var_id.0].ty.clone();
        let snapshot_ty = Type::Snapshot(Box::new(ty.clone()));
        let output_original = ctx.new_var(VarRequest { ty, location: self.location });
        let output_snapshot = ctx.new_var(VarRequest { ty: snapshot_ty, location: self.location });
        builder.push_statement(
            Statement::Snapshot { input: self.input, output_original, output_snapshot },
        );
        (output_original, output_snapshot)
    }
}

} // verus!
