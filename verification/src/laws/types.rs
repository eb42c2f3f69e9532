//! Laws of types.
use vstd::prelude::*;

use crate::context::location_of;
use crate::ids::StablePtrId;
use crate::member_path::{ExprVarMemberPath, MemberPath};
use crate::merge::member_of;
use crate::types::{snapshot_base, snapshot_depth, type_list, wrapped, Type, TypeList};

verus! {

/// Wrapping a type in snapshots and peeling them off again undo each other.
pub proof fn law_wrap_and_peel(ty: Type, n: nat)
    ensures
        snapshot_depth(wrapped(ty, n)) == n + snapshot_depth(ty),
        snapshot_base(wrapped(ty, n)) == snapshot_base(ty),
        wrapped(snapshot_base(ty), snapshot_depth(ty)) == ty,
    decreases n, ty,
{
    if n > 0 {
        law_wrap_and_peel(ty, (n - 1) as nat);
    } else if let Type::Snapshot(inner) = ty {
        law_wrap_and_peel(*inner, 0);
    }
}

/// Lists of types are equal if and only if they are of the same types.
pub proof fn law_type_lists(a: Seq<Type>, b: Seq<Type>)
    ensures
        type_list(a) == type_list(b) <==> a == b,
    decreases a.len(),
{
    if a.len() > 0 && b.len() > 0 {
        law_type_lists(a.drop_first(), b.drop_first());
        if type_list(a) == type_list(b) {
            assert(a =~= seq![a[0]] + a.drop_first());
            assert(b =~= seq![b[0]] + b.drop_first());
        }
    } else if a.len() == 0 && b.len() == 0 {
        assert(a =~= b);
    }
}

/// A list of types has the types in their order.
pub proof fn law_type_list_in_order(types: Seq<Type>)
    ensures
        match type_list(types) {
            TypeList::Nil => types.len() == 0,
            TypeList::Cons(head, tail) => {
                &&& types.len() > 0
                &&& *head == types[0]
                &&& *tail == type_list(types.skip(1))
            },
        },
{
    if types.len() > 0 {
        assert(types.drop_first() =~= types.skip(1));
    }
}

/// The unit type is the tuple of no types.
pub proof fn law_unit()
    ensures
        Type::unit() == Type::Tuple(type_list(Seq::empty())),
{
}

/// The path of an expression is its variable and the members that it names, in their order. Its type
/// and place are those of the whole expression, and not those of a part of it.
pub proof fn law_expression_paths(expr: ExprVarMemberPath)
    ensures
        match expr {
            ExprVarMemberPath::Var(var) => {
                &&& expr.path() == MemberPath::Var(var.var)
                &&& expr.spec_ty() == var.ty
                &&& expr.spec_stable_ptr() == var.stable_ptr
            },
            ExprVarMemberPath::Member { parent, member_id, stable_ptr, concrete_struct_id, ty } => {
                &&& expr.path() == member_of(parent.path(), member_id, concrete_struct_id)
                &&& expr.spec_ty() == ty
                &&& expr.spec_stable_ptr() == stable_ptr
            },
        },
{
}

/// The location of a syntax node is that node: two nodes have one location if and only if they are
/// one.
pub proof fn law_locations(a: StablePtrId, b: StablePtrId)
    ensures
        location_of(a).stable_ptr == a,
        location_of(a) == location_of(b) <==> a == b,
{
}

} // verus!
