//! Paths from a variable to a part of it.
use vstd::prelude::*;

use crate::ids::{ConcreteStructId, MemberId, StablePtrId, VarId};
use crate::types::Type;

verus! {

/// A member path, such as `a.b.c`. Unlike [ExprVarMemberPath] it is no expression and holds no
/// syntax pointers.
#[derive(Debug, Eq, Hash)]
pub enum MemberPath {
    Var(VarId),
    Member { parent: Box<MemberPath>, member_id: MemberId, concrete_struct_id: ConcreteStructId },
}

impl Clone for MemberPath {
    fn clone(&self) -> (res: Self)
        ensures
            res == *self,
        decreases self,
    {
        match self {
            MemberPath::Var(var) => MemberPath::Var(*var),
            MemberPath::Member { parent, member_id, concrete_struct_id } => MemberPath::Member {
                parent: Box::new((&**parent).clone()),
                member_id: *member_id,
                concrete_struct_id: *concrete_struct_id,
            },
        }
    }
}

impl PartialEq for MemberPath {
    fn eq(&self, other: &Self) -> (res: bool)
        decreases self,
    {
        match (self, other) {
            (MemberPath::Var(a), MemberPath::Var(b)) => *a == *b,
            (
                MemberPath::Member { parent: pa, member_id: ma, concrete_struct_id: sa },
                MemberPath::Member { parent: pb, member_id: mb, concrete_struct_id: sb },
            ) => *ma == *mb && *sa == *sb && (&**pa).eq(&**pb),
            _ => false,
        }
    }
}

impl vstd::std_specs::cmp::PartialEqSpecImpl for MemberPath {
    open spec fn obeys_eq_spec() -> bool {
        true
    }

    open spec fn eq_spec(&self, other: &Self) -> bool {
        *self == *other
    }
}

/// Whether `ancestor` is a proper prefix of `path`.
pub open spec fn is_ancestor(ancestor: MemberPath, path: MemberPath) -> bool
    decreases path,
{
    match path {
        MemberPath::Var(_) => false,
        MemberPath::Member { parent, .. } => *parent == ancestor || is_ancestor(ancestor, *parent),
    }
}

/// A variable expression.
#[derive(Debug, PartialEq, Eq)]
pub struct ExprVar {
    pub var: VarId,
    pub ty: Type,
    pub stable_ptr: StablePtrId,
}

/// A sequence of member accesses of a variable, as it stands in the source: `a`, `a.b`, ...
#[derive(Debug, PartialEq, Eq)]
pub enum ExprVarMemberPath {
    Var(ExprVar),
    Member {
        parent: Box<ExprVarMemberPath>,
        member_id: MemberId,
        stable_ptr: StablePtrId,
        concrete_struct_id: ConcreteStructId,
        /// The type of the member.
        ty: Type,
    },
}

impl ExprVarMemberPath {
    /// The path without types and syntax pointers.
    pub open spec fn path(self) -> MemberPath
        decreases self,
    {
        match self {
            ExprVarMemberPath::Var(expr) => MemberPath::Var(expr.var),
            ExprVarMemberPath::Member { parent, member_id, concrete_struct_id, .. } => {
                MemberPath::Member {
                    parent: Box::new(parent.path()),
                    member_id,
                    concrete_struct_id,
                }
            },
        }
    }

    pub open spec fn spec_stable_ptr(self) -> StablePtrId {
        match self {
            ExprVarMemberPath::Var(expr) => expr.stable_ptr,
            ExprVarMemberPath::Member { stable_ptr, .. } => stable_ptr,
        }
    }

    pub open spec fn spec_ty(self) -> Type {
        match self {
            ExprVarMemberPath::Var(expr) => expr.ty,
            ExprVarMemberPath::Member { ty, .. } => ty,
        }
    }

    /// The path without types and syntax pointers.
    pub fn member_path(&self) -> (res: MemberPath)
        ensures
            res == self.path(),
        decreases self,
    {
        match self {
            ExprVarMemberPath::Var(expr) => MemberPath::Var(expr.var),
            ExprVarMemberPath::Member { parent, member_id, concrete_struct_id, .. } => {
                MemberPath::Member {
                    parent: Box::new((&**parent).member_path()),
                    member_id: *member_id,
                    concrete_struct_id: *concrete_struct_id,
                }
            },
        }
    }

    /// The syntax node of the last access.
    pub fn stable_ptr(&self) -> (res: StablePtrId)
        ensures
            res == self.spec_stable_ptr(),
    {
        match self {
            ExprVarMemberPath::Var(expr) => expr.stable_ptr,
            ExprVarMemberPath::Member { stable_ptr, .. } => *stable_ptr,
        }
    }

    /// The type of the value at the path.
    pub fn ty(&self) -> (res: Type)
        ensures
            res == self.spec_ty(),
    {
        match self {
            ExprVarMemberPath::Var(expr) => expr.ty.clone(),
            ExprVarMemberPath::Member { ty, .. } => ty.clone(),
        }
    }
}

impl Clone for ExprVarMemberPath {
    fn clone(&self) -> (res: Self)
        ensures
            res == *self,
        decreases self,
    {
        match self {
            ExprVarMemberPath::Var(expr) => ExprVarMemberPath::Var(
                ExprVar { var: expr.var, ty: expr.ty.clone(), stable_ptr: expr.stable_ptr },
            ),
            ExprVarMemberPath::Member { parent, member_id, stable_ptr, concrete_struct_id, ty } => {
                ExprVarMemberPath::Member {
                    parent: Box::new((&**parent).clone()),
                    member_id: *member_id,
                    stable_ptr: *stable_ptr,
                    concrete_struct_id: *concrete_struct_id,
                    ty: ty.clone(),
                }
            },
        }
    }
}

} // verus!
