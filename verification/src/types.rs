//! The types of semantic and lowered variables.
//!
//! A type is held as a tree. Tuples are linked lists and not vectors, so that two equal types are
//! one and the same value in a contract.
use vstd::prelude::*;

use crate::ids::{ConcreteStructId, StablePtrId};

verus! {

/// A semantic type.
#[derive(Debug, PartialEq, Eq, Hash)]
pub enum Type {
    /// A struct.
    Struct(ConcreteStructId),
    /// A tuple. The empty one is the unit type.
    Tuple(TypeList),
    /// A snapshot (`@`) of a type.
    Snapshot(Box<Type>),
    /// The type of a closure.
    Closure(ClosureType),
    /// Any other type, by its number.
    Other(u64),
}

/// A list of types.
#[derive(Debug, PartialEq, Eq, Hash)]
pub enum TypeList {
    Nil,
    Cons(Box<Type>, Box<TypeList>),
}

/// The type of a closure. Every closure has its own, told apart by where the closure stands.
#[derive(Debug, PartialEq, Eq, Hash)]
pub struct ClosureType {
    /// The types of the captured values, in the order in which they are captured.
    pub captured_types: TypeList,
    /// Where the closure stands.
    pub wrapper_location: StablePtrId,
}

/// The list of the given types.
pub open spec fn type_list(types: Seq<Type>) -> TypeList
    decreases types.len(),
{
    if types.len() == 0 {
        TypeList::Nil
    } else {
        TypeList::Cons(Box::new(types[0]), Box::new(type_list(types.drop_first())))
    }
}

/// The number of snapshots around the first type that is not a snapshot.
pub open spec fn snapshot_depth(ty: Type) -> nat
    decreases ty,
{
    match ty {
        Type::Snapshot(inner) => 1 + snapshot_depth(*inner),
        _ => 0,
    }
}

/// The first type that is not a snapshot.
pub open spec fn snapshot_base(ty: Type) -> Type
    decreases ty,
{
    match ty {
        Type::Snapshot(inner) => snapshot_base(*inner),
        _ => ty,
    }
}

/// The type with `n` snapshots around it.
pub open spec fn wrapped(ty: Type, n: nat) -> Type
    decreases n,
{
    if n == 0 {
        ty
    } else {
        Type::Snapshot(Box::new(wrapped(ty, (n - 1) as nat)))
    }
}

impl Type {
    /// The type `()`.
    pub open spec fn unit() -> Type {
        Type::Tuple(TypeList::Nil)
    }
}

impl Clone for Type {
    fn clone(&self) -> (res: Self)
        ensures
            res == *self,
        decreases self,
    {
        match self {
            Type::Struct(id) => Type::Struct(*id),
            Type::Tuple(types) => Type::Tuple(types.clone()),
            Type::Snapshot(inner) => Type::Snapshot(Box::new((&**inner).clone())),
            Type::Closure(closure) => Type::Closure(
                ClosureType {
                    captured_types: closure.captured_types.clone(),
                    wrapper_location: closure.wrapper_location,
                },
            ),
            Type::Other(number) => Type::Other(*number),
        }
    }
}

impl Clone for TypeList {
    fn clone(&self) -> (res: Self)
        ensures
            res == *self,
        decreases self,
    {
        match self {
            TypeList::Nil => TypeList::Nil,
            TypeList::Cons(head, tail) => TypeList::Cons(
                Box::new((&**head).clone()),
                Box::new((&**tail).clone()),
            ),
        }
    }
}

/// The type `ty` with as many snapshots around it as there are around `like`.
pub fn wrap_in_snapshots_of(like: &Type, ty: &Type) -> (res: Type)
    ensures
        res == wrapped(*ty, snapshot_depth(*like)),
    decreases like,
{
    match like {
        Type::Snapshot(inner) => Type::Snapshot(Box::new(wrap_in_snapshots_of(&**inner, ty))),
        _ => ty.clone(),
    }
}

impl TypeList {
    /// The list of the given types, in their order.
    pub fn from_types(types: &Vec<Type>) -> (res: TypeList)
        ensures
            res == type_list(types@),
    {
        let mut list = TypeList::Nil;
        let mut i: usize = types.len();
        while i > 0
            invariant
                i <= types.len(),
                list == type_list(types@.skip(i as int)),
            decreases i,
        {
            i = i - 1;
            assert(types@.skip(i as int).drop_first() =~= types@.skip(i + 1));
            list = TypeList::Cons(Box::new(types[i].clone()), Box::new(list));
        }
        assert(types@.skip(0) =~= types@);
        list
    }
}

} // verus!
