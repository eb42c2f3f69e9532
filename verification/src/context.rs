//! What the lowering of a function reads and builds.
use std::collections::HashMap;

use vstd::prelude::*;

use crate::ids::{ConcreteStructId, LocationId, MemberId, StablePtrId, VariableId};
use crate::member_path::{ExprVarMemberPath, MemberPath};
use crate::objects::{BlocksBuilder, MatchInfo, VarUsage, Variable};
use crate::types::Type;

verus! {

broadcast use vstd::std_specs::hash::group_hash_axioms;

/// Stands for a diagnostic that was already reported.
#[derive(Clone, Copy, Debug, PartialEq, Eq, Structural)]
pub struct DiagnosticAdded;

/// A value, or the knowledge that its absence was already reported.
pub type Maybe<T> = Result<T, DiagnosticAdded>;

/// A member of a struct.
#[derive(Debug, PartialEq, Eq)]
pub struct Member {
    pub id: MemberId,
    pub ty: Type,
}

/// The members of the structs that a function may use, by struct, in the order of declaration.
#[derive(Debug)]
pub struct StructTable {
    pub structs: Vec<Maybe<Vec<Member>>>,
}

/// The place of the first member with the given id.
pub open spec fn member_position(members: Seq<Member>, id: MemberId) -> Option<int>
    decreases members.len(),
{
    if members.len() == 0 {
        None
    } else {
        match member_position(members.drop_last(), id) {
            Some(i) => Some(i),
            None => if members.last().id == id {
                Some(members.len() - 1)
            } else {
                None
            },
        }
    }
}

/// The place of the member with the given id.
pub fn find_member(members: &Vec<Member>, id: MemberId) -> (res: Option<usize>)
    ensures
        match res {
            Some(i) => i < members.len() && member_position(members@, id) == Some(i as int),
            None => member_position(members@, id) is None,
        },
{
    let mut i: usize = 0;
    while i < members.len()
        invariant
            i <= members.len(),
            member_position(members@.take(i as int), id) is None,
        decreases members.len() - i,
    {
        assert(members@.take(i + 1).drop_last() =~= members@.take(i as int));
        if members[i].id == id {
            proof {
                lemma_member_position_of_prefix(members@, i + 1, id);
            }
            return Some(i);
        }
        i = i + 1;
    }
    assert(members@.take(i as int) =~= members@);
    None
}

proof fn lemma_member_position_of_prefix(members: Seq<Member>, n: int, id: MemberId)
    requires
        0 <= n <= members.len(),
        member_position(members.take(n), id) is Some,
    ensures
        member_position(members, id) == member_position(members.take(n), id),
    decreases members.len() - n,
{
    if n < members.len() {
        assert(members.take(n + 1).drop_last() =~= members.take(n));
        lemma_member_position_of_prefix(members, n + 1, id);
    } else {
        assert(members.take(n) =~= members);
    }
}

impl StructTable {
    /// The members of a struct; nothing where an error in the struct was already reported.
    pub open spec fn members(&self, id: ConcreteStructId) -> Option<Seq<Member>> {
        if id.0 < self.structs@.len() {
            match self.structs@[id.0 as int] {
                Ok(members) => Some(members@),
                Err(_) => None,
            }
        } else {
            None
        }
    }

    /// The members of a struct, in the order of their declaration.
    pub fn concrete_struct_members(&self, id: ConcreteStructId) -> (res: Maybe<&Vec<Member>>)
        ensures
            match res {
                Ok(members) => self.members(id) == Some(members@),
                Err(_) => self.members(id) is None,
            },
    {
        if id.0 < self.structs.len() {
            match &self.structs[id.0] {
                Ok(members) => Ok(members),
                Err(_) => Err(DiagnosticAdded),
            }
        } else {
            Err(DiagnosticAdded)
        }
    }
}

/// The part of a function's signature that its lowering reads.
#[derive(Debug)]
pub struct Signature {
    /// The references that the function returns besides its value.
    pub extra_rets: Vec<ExprVarMemberPath>,
}

/// What went wrong in the lowering.
#[derive(Clone, Copy, Debug, PartialEq, Eq, Structural)]
pub enum LoweringDiagnosticKind {
    UnexpectedError,
}

/// A diagnostic of the lowering.
#[derive(Clone, Copy, Debug, PartialEq, Eq, Structural)]
pub struct LoweringDiagnostic {
    pub location: LocationId,
    pub kind: LoweringDiagnosticKind,
}

/// What a new variable is to be.
#[derive(Debug, PartialEq, Eq)]
pub struct VarRequest {
    pub ty: Type,
    pub location: LocationId,
}

/// The state of the lowering of a function that its blocks share.
#[derive(Debug)]
pub struct LoweringContext {
    /// The structs of the program.
    pub db: StructTable,
    /// The lowered variables of the function.
    pub variables: Vec<Variable>,
    pub signature: Signature,
    /// The types of the semantic variables, by the number of the variable.
    pub semantic_defs: HashMap<u64, Type>,
    /// The blocks of the function.
    pub blocks: BlocksBuilder,
    /// The diagnostics of the function.
    pub diagnostics: Vec<LoweringDiagnostic>,
}

/// The location of a syntax node.
pub open spec fn location_of(stable_ptr: StablePtrId) -> LocationId {
    LocationId { stable_ptr }
}

/// Nothing but the variables, the blocks and the diagnostics changed.
pub open spec fn same_inputs(a: LoweringContext, b: LoweringContext) -> bool {
    &&& a.db == b.db
    &&& a.signature == b.signature
    &&& a.semantic_defs == b.semantic_defs
}

/// Nothing but the variables changed.
pub open spec fn same_but_variables(a: LoweringContext, b: LoweringContext) -> bool {
    &&& same_inputs(a, b)
    &&& a.blocks == b.blocks
    &&& a.diagnostics == b.diagnostics
}

/// The type of the value at a member path: that of the variable, or that of the member in its
/// struct.
pub open spec fn path_ty(db: StructTable, defs: Map<u64, Type>, path: MemberPath) -> Option<Type> {
    match path {
        MemberPath::Var(var) => if defs.contains_key(var.0) {
            Some(defs[var.0])
        } else {
            None
        },
        MemberPath::Member { member_id, concrete_struct_id, .. } => {
            match db.members(concrete_struct_id) {
                Some(members) => match member_position(members, member_id) {
                    Some(i) => Some(members[i].ty),
                    None => None,
                },
                None => None,
            }
        },
    }
}

impl LoweringContext {
    /// The location of a syntax node.
    pub fn get_location(&self, stable_ptr: StablePtrId) -> (res: LocationId)
        ensures
            res == location_of(stable_ptr),
    {
        LocationId { stable_ptr }
    }

    /// Makes a new variable.
    pub fn new_var(&mut self, req: VarRequest) -> (res: VariableId)
        ensures
            res == VariableId(old(self).variables@.len() as usize),
            res.0 == old(self).variables@.len(),
            final(self).variables@ == old(self).variables@.push(
                (Variable { ty: req.ty, location: req.location }),
            ),
            same_but_variables(*old(self), *final(self)),
    {
        let id = VariableId(self.variables.len());
        self.variables.push(Variable { ty: req.ty, location: req.location });
        id
    }
}

/// The type of the value at a member path.
pub fn get_ty(ctx: &LoweringContext, member_path: &MemberPath) -> (res: Type)
    requires
        path_ty(ctx.db, ctx.semantic_defs@, *member_path) is Some,
    ensures
        Some(res) == path_ty(ctx.db, ctx.semantic_defs@, *member_path),
{
    match member_path {
        MemberPath::Var(var) => ctx.semantic_defs.get(&var.0).unwrap().clone(),
        MemberPath::Member { member_id, concrete_struct_id, .. } => {
            let members = ctx.db.concrete_struct_members(*concrete_struct_id).unwrap();
            let i: usize = find_member(members, *member_id).unwrap();
            members[i].ty.clone()
        },
    }
}

/// An expression that was lowered, but whose value need not be in a variable yet.
#[derive(Debug)]
pub enum LoweredExpr {
    /// The value is in a variable.
    AtVariable(VarUsage),
    /// The value is a tuple.
    Tuple { exprs: Vec<LoweredExpr>, location: LocationId },
    /// The value is that of a member path.
    MemberPath(ExprVarMemberPath, LocationId),
    /// The value is a snapshot of another one.
    Snapshot { expr: Box<LoweredExpr>, location: LocationId },
}

/// Why the lowering of an expression does not go on.
#[derive(Debug)]
pub enum LoweringFlowError {
    /// An error was reported.
    Failed(DiagnosticAdded),
    /// The expression always panics.
    Panic(VarUsage, LocationId),
    /// The expression always returns.
    Return(VarUsage, LocationId),
    /// No arm of the match goes on.
    Match(MatchInfo),
}

pub type LoweringResult<T> = Result<T, LoweringFlowError>;

} // verus!
