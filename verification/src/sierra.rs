//! Signatures and type infos of Sierra functions and types.
use std::sync::Arc;

use cairo_lang_sierra::program::ConcreteTypeLongId;
use vstd::prelude::*;

use crate::context::{DiagnosticAdded, Maybe};

verus! {

broadcast use vstd::std_specs::hash::group_hash_axioms;

/// The long id of a Sierra type, of `cairo_lang_sierra`: a generic type and its arguments.
#[verifier::external_type_specification]
#[verifier::external_body]
pub struct ExConcreteTypeLongId(ConcreteTypeLongId);

/// `ConcreteTypeLongId::clone`: the clone is equal to its original, field by field.
pub assume_specification[ <ConcreteTypeLongId as Clone>::clone ](id: &ConcreteTypeLongId) -> (res:
    ConcreteTypeLongId)
    ensures
        res == *id,
;

/// A semantic type.
#[derive(Clone, Copy, Debug, PartialEq, Eq, Hash, Structural)]
pub struct TypeId(pub u64);

/// A Sierra type.
#[derive(Clone, Copy, Debug, PartialEq, Eq, Hash, Structural)]
pub struct ConcreteTypeId(pub u64);

/// A Sierra function.
#[derive(Clone, Copy, Debug, PartialEq, Eq, Hash, Structural)]
pub struct FunctionId(pub u64);

/// A lowered function.
#[derive(Clone, Copy, Debug, PartialEq, Eq, Hash, Structural)]
pub struct LoweredFunctionId(pub u64);

/// The long id of a Sierra type, or of one that breaks a cycle of types. Types may be self
/// referential, and then have no long id of finite size.
#[derive(Debug, PartialEq, Eq, Hash)]
pub enum SierraGeneratorTypeLongId {
    /// A normal long id.
    Regular(Arc<ConcreteTypeLongId>),
    /// The long id of a cycle breaker, such as `Box` or `Nullable`.
    CycleBreaker(TypeId),
    /// The long id of a phantom type. A phantom type has one Sierra type.
    Phantom(TypeId),
}

impl Clone for SierraGeneratorTypeLongId {
    fn clone(&self) -> (res: Self)
        ensures
            res == *self,
    {
        match self {
            SierraGeneratorTypeLongId::Regular(long_id) => SierraGeneratorTypeLongId::Regular(
                Arc::new((&**long_id).clone()),
            ),
            SierraGeneratorTypeLongId::CycleBreaker(ty) => {
                SierraGeneratorTypeLongId::CycleBreaker(*ty)
            },
            SierraGeneratorTypeLongId::Phantom(ty) => SierraGeneratorTypeLongId::Phantom(*ty),
        }
    }
}

/// What libfuncs need to know of a Sierra type.
#[derive(Debug, PartialEq, Eq)]
pub struct TypeInfo {
    pub long_id: ConcreteTypeLongId,
    /// Whether the type can be stored.
    pub storable: bool,
    /// Whether the type can be dropped.
    pub droppable: bool,
    /// Whether the type can be duplicated.
    pub duplicatable: bool,
    /// Whether the type has no size.
    pub zero_sized: bool,
}

impl Clone for TypeInfo {
    fn clone(&self) -> (res: Self)
        ensures
            res == *self,
    {
        TypeInfo {
            long_id: self.long_id.clone(),
            storable: self.storable,
            droppable: self.droppable,
            duplicatable: self.duplicatable,
            zero_sized: self.zero_sized,
        }
    }
}

/// What is known of a cycle breaker without looking into it.
#[derive(Clone, Copy, Debug, PartialEq, Eq, Structural)]
pub struct CycleBreakerTypeInfo {
    pub duplicatable: bool,
    pub droppable: bool,
}

/// The signature of a lowered function.
#[derive(Debug, PartialEq, Eq)]
pub struct LoweredSignature {
    /// The types of the parameters.
    pub params: Vec<TypeId>,
    /// The types of the references that are returned besides the value.
    pub extra_rets: Vec<TypeId>,
    /// The type of the value.
    pub return_type: TypeId,
    /// The type that is returned instead, of all of these, where the function may panic.
    pub panic_return_type: TypeId,
}

/// What a lowered signature says.
#[verifier::ext_equal]
pub struct LoweredSignatureView {
    pub params: Seq<TypeId>,
    pub extra_rets: Seq<TypeId>,
    pub return_type: TypeId,
    pub panic_return_type: TypeId,
}

impl View for LoweredSignature {
    type V = LoweredSignatureView;

    open spec fn view(&self) -> LoweredSignatureView {
        LoweredSignatureView {
            params: self.params@,
            extra_rets: self.extra_rets@,
            return_type: self.return_type,
            panic_return_type: self.panic_return_type,
        }
    }
}

impl Clone for LoweredSignature {
    fn clone(&self) -> (res: Self)
        ensures
            res@ == self@,
    {
        LoweredSignature {
            params: self.params.clone(),
            extra_rets: self.extra_rets.clone(),
            return_type: self.return_type,
            panic_return_type: self.panic_return_type,
        }
    }
}

/// The signature of a Sierra function.
#[derive(Debug, PartialEq, Eq)]
pub struct FunctionSignature {
    /// The types of the parameters.
    pub param_types: Vec<ConcreteTypeId>,
    /// The types of the returned values.
    pub ret_types: Vec<ConcreteTypeId>,
}

/// What a signature of a Sierra function says.
#[verifier::ext_equal]
pub struct FunctionSignatureView {
    pub param_types: Seq<ConcreteTypeId>,
    pub ret_types: Seq<ConcreteTypeId>,
}

impl View for FunctionSignature {
    type V = FunctionSignatureView;

    open spec fn view(&self) -> FunctionSignatureView {
        FunctionSignatureView { param_types: self.param_types@, ret_types: self.ret_types@ }
    }
}

/// The queries behind the generation of Sierra.
///
/// Each query is given as a function of the database, and the method that asks it.
pub trait SierraGenGroup {
    /// What a Sierra type was interned for.
    spec fn concrete_type(&self, id: ConcreteTypeId) -> Option<SierraGeneratorTypeLongId>;

    /// What a Sierra type was interned for.
    fn lookup_intern_concrete_type(&self, id: ConcreteTypeId) -> (res: SierraGeneratorTypeLongId)
        requires
            self.concrete_type(id) is Some,
        ensures
            Some(res) == self.concrete_type(id),
    ;

    /// What a Sierra function was interned for.
    spec fn sierra_function(&self, id: FunctionId) -> Option<LoweredFunctionId>;

    /// What a Sierra function was interned for.
    fn lookup_intern_sierra_function(&self, id: FunctionId) -> (res: LoweredFunctionId)
        requires
            self.sierra_function(id) is Some,
        ensures
            Some(res) == self.sierra_function(id),
    ;

    /// The Sierra type of a semantic type.
    spec fn type_of(&self, ty: TypeId) -> Option<ConcreteTypeId>;

    /// The Sierra type of a semantic type.
    fn get_concrete_type_id(&self, type_id: TypeId) -> (res: Maybe<ConcreteTypeId>)
        ensures
            res == (match self.type_of(type_id) {
                Some(id) => Ok(id),
                None => Err(DiagnosticAdded),
            }),
    ;

    /// The long id of the Sierra type of a semantic type.
    spec fn long_id_of(&self, ty: TypeId) -> Option<ConcreteTypeLongId>;

    /// The long id of the Sierra type of a semantic type.
    fn get_concrete_long_type_id(&self, type_id: TypeId) -> (res: Maybe<Arc<ConcreteTypeLongId>>)
        ensures
            res == (match self.long_id_of(type_id) {
                Some(id) => Ok(Arc::new(id)),
                None => Err(DiagnosticAdded),
            }),
    ;

    /// Whether a cycle breaker can be duplicated and dropped.
    spec fn breaker_info(&self, ty: TypeId) -> Option<CycleBreakerTypeInfo>;

    /// Whether a cycle breaker can be duplicated and dropped.
    fn cycle_breaker_info(&self, ty: TypeId) -> (res: Maybe<CycleBreakerTypeInfo>)
        ensures
            res == (match self.breaker_info(ty) {
                Some(info) => Ok(info),
                None => Err(DiagnosticAdded),
            }),
    ;

    /// The info of the specialization of the Sierra type with the given long id. There is none
    /// where the type cannot be specialized.
    spec fn specialization(&self, long_id: ConcreteTypeLongId) -> Option<TypeInfo>;

    /// The info of the specialization of the Sierra type with the given long id.
    fn specialize(&self, long_id: &ConcreteTypeLongId) -> (res: Option<TypeInfo>)
        ensures
            res == self.specialization(*long_id),
    ;

    /// The signature of a lowered function.
    spec fn lowered_signature(&self, id: LoweredFunctionId) -> Option<LoweredSignatureView>;

    /// The signature of a lowered function.
    fn signature(&self, id: LoweredFunctionId) -> (res: Maybe<LoweredSignature>)
        ensures
            match self.lowered_signature(id) {
                Some(signature) => res is Ok && res->Ok_0@ == signature,
                None => res is Err,
            },
    ;

    /// The types of the implicit parameters of a lowered function.
    spec fn implicits(&self, id: LoweredFunctionId) -> Option<Seq<TypeId>>;

    /// The types of the implicit parameters of a lowered function.
    fn function_implicits(&self, id: LoweredFunctionId) -> (res: Maybe<Vec<TypeId>>)
        ensures
            match self.implicits(id) {
                Some(types) => res is Ok && res->Ok_0@ == types,
                None => res is Err,
            },
    ;

    /// Whether a lowered function may panic.
    spec fn may_panic(&self, id: LoweredFunctionId) -> Option<bool>;

    /// Whether a lowered function may panic.
    fn function_may_panic(&self, id: LoweredFunctionId) -> (res: Maybe<bool>)
        ensures
            res == (match self.may_panic(id) {
                Some(may_panic) => Ok(may_panic),
                None => Err(DiagnosticAdded),
            }),
    ;

    /// Whether panics are taken to be impossible to observe.
    spec fn unsafe_panic(&self) -> bool;

    /// Whether panics are taken to be impossible to observe.
    fn flag_unsafe_panic(&self) -> (res: bool)
        ensures
            res == self.unsafe_panic(),
    ;

    /// Whether a semantic type is the unit type.
    spec fn unit(&self, ty: TypeId) -> bool;

    /// Whether a semantic type is the unit type.
    fn is_unit(&self, ty: TypeId) -> (res: bool)
        ensures
            res == self.unit(ty),
    ;
}

// Function signatures.

/// The Sierra types of semantic types; nothing where one of them has none.
pub open spec fn concrete_types<Db: SierraGenGroup>(db: &Db, types: Seq<TypeId>) -> Option<
    Seq<ConcreteTypeId>,
> {
    if forall|i: int| 0 <= i < types.len() ==> db.type_of(#[trigger] types[i]) is Some {
        Some(types.map_values(|ty: TypeId| db.type_of(ty).unwrap()))
    } else {
        None
    }
}

/// What a Sierra function returns behind its implicits: a single panic result where the function
/// may panic, the references and the value otherwise. The unit type is not returned.
pub open spec fn explicit_rets<Db: SierraGenGroup>(
    db: &Db,
    id: LoweredFunctionId,
    signature: LoweredSignatureView,
) -> Option<Seq<ConcreteTypeId>> {
    if !db.unsafe_panic() && db.may_panic(id) is None {
        None
    } else if !db.unsafe_panic() && db.may_panic(id).unwrap() {
        concrete_types(db, seq![signature.panic_return_type])
    } else if db.unit(signature.return_type) {
        concrete_types(db, signature.extra_rets)
    } else {
        concrete_types(db, signature.extra_rets.push(signature.return_type))
    }
}

/// The signature of the Sierra function of a lowered function; nothing where some part of it is not
/// known.
pub open spec fn function_signature<Db: SierraGenGroup>(db: &Db, id: LoweredFunctionId) -> Option<
    FunctionSignatureView,
> {
    match (db.lowered_signature(id), db.implicits(id)) {
        (Some(signature), Some(implicits)) => {
            match (
                concrete_types(db, implicits),
                concrete_types(db, signature.params),
                concrete_types(db, signature.extra_rets),
                explicit_rets(db, id, signature),
            ) {
                (Some(implicits), Some(params), Some(_), Some(rets)) => Some(
                    FunctionSignatureView {
                        param_types: implicits + params,
                        ret_types: implicits + rets,
                    },
                ),
                _ => None,
            }
        },
        _ => None,
    }
}

/// Adds the Sierra types of semantic types to `out`.
fn push_concrete_types<Db: SierraGenGroup>(
    db: &Db,
    types: &Vec<TypeId>,
    out: &mut Vec<ConcreteTypeId>,
) -> (res: Maybe<()>)
    ensures
        match concrete_types(db, types@) {
            Some(ids) => res is Ok && final(out)@ == old(out)@ + ids,
            None => res is Err,
        },
{
    let ghost ids = types@.map_values(|ty: TypeId| db.type_of(ty).unwrap());
    let mut i: usize = 0;
    while i < types.len()
        invariant
            i <= types.len(),
            ids == types@.map_values(|ty: TypeId| db.type_of(ty).unwrap()),
            forall|k: int| 0 <= k < i ==> db.type_of(#[trigger] types@[k]) is Some,
            out@ == old(out)@ + ids.take(i as int),
        decreases types.len() - i,
    {
        match db.get_concrete_type_id(types[i]) {
            Ok(id) => {
                out.push(id);
            },
            Err(error) => {
                return Err(error);
            },
        }
        i = i + 1;
        assert(out@ =~= old(out)@ + ids.take(i as int));
    }
    assert(ids.take(i as int) =~= ids);
    Ok(())
}

/// Returns the signature of a Sierra function.
pub fn get_function_signature<Db: SierraGenGroup>(db: &Db, function_id: FunctionId) -> (res: Maybe<
    Arc<FunctionSignature>,
>)
    requires
        db.sierra_function(function_id) is Some,
    ensures
        match function_signature(db, db.sierra_function(function_id).unwrap()) {
            Some(signature) => res is Ok && (*res->Ok_0)@ == signature,
            None => res is Err,
        },
{
    let lowered_function_id = db.lookup_intern_sierra_function(function_id);
    let signature = db.signature(lowered_function_id)?;
    let implicits = db.function_implicits(lowered_function_id)?;

    let mut all_params: Vec<ConcreteTypeId> = Vec::new();
    push_concrete_types(db, &implicits, &mut all_params)?;
    let mut ret_types = all_params.clone();
    let ghost implicit_types = ret_types@;
    push_concrete_types(db, &signature.params, &mut all_params)?;
    let mut extra_rets: Vec<ConcreteTypeId> = Vec::new();
    push_concrete_types(db, &signature.extra_rets, &mut extra_rets)?;

    let may_panic = !db.flag_unsafe_panic() && db.function_may_panic(lowered_function_id)?;
    if may_panic {
        assert(seq![signature.panic_return_type][0] == signature.panic_return_type);
        ret_types.push(db.get_concrete_type_id(signature.panic_return_type)?);
        assert(ret_types@ =~= implicit_types + concrete_types(
            db,
            seq![signature.panic_return_type],
        ).unwrap());
    } else {
        ret_types.append(&mut extra_rets);
        // Functions that return the unit type have no return type in their signature.
        if !db.is_unit(signature.return_type) {
            let ghost types = signature.extra_rets@.push(signature.return_type);
            assert(types[types.len() - 1] == signature.return_type);
            ret_types.push(db.get_concrete_type_id(signature.return_type)?);
            proof {
                assert forall|i: int| 0 <= i < types.len() implies db.type_of(
                    #[trigger] types[i],
                ) is Some by {
                    if i < signature.extra_rets@.len() {
                        assert(types[i] == signature.extra_rets@[i]);
                    }
                }
                assert(ret_types@ =~= implicit_types + concrete_types(db, types).unwrap());
            }
        }
    }
    Ok(Arc::new(FunctionSignature { param_types: all_params, ret_types }))
}

// Type infos.

/// Whether the specialization of a Sierra type that is not special is known.
pub open spec fn specializable<Db: SierraGenGroup>(db: &Db, id: ConcreteTypeId) -> bool {
    db.concrete_type(id) matches Some(SierraGeneratorTypeLongId::Regular(long_id))
        ==> db.specialization(*long_id) is Some
}

/// The info of a Sierra type; nothing where some part of it is not known.
pub open spec fn type_info<Db: SierraGenGroup>(db: &Db, id: ConcreteTypeId) -> Option<TypeInfo> {
    match db.concrete_type(id).unwrap() {
        SierraGeneratorTypeLongId::Regular(long_id) => db.specialization(*long_id),
        SierraGeneratorTypeLongId::CycleBreaker(ty) => match (
            db.breaker_info(ty),
            db.long_id_of(ty),
        ) {
            (Some(info), Some(long_id)) => Some(
                TypeInfo {
                    long_id,
                    storable: true,
                    droppable: info.droppable,
                    duplicatable: info.duplicatable,
                    zero_sized: false,
                },
            ),
            _ => None,
        },
        SierraGeneratorTypeLongId::Phantom(ty) => match db.long_id_of(ty) {
            Some(long_id) => Some(
                TypeInfo {
                    long_id,
                    storable: false,
                    droppable: false,
                    duplicatable: false,
                    zero_sized: true,
                },
            ),
            None => None,
        },
    }
}

/// Returns the info of a Sierra type.
pub fn get_type_info<Db: SierraGenGroup>(db: &Db, concrete_type_id: ConcreteTypeId) -> (res: Maybe<
    Arc<TypeInfo>,
>)
    requires
        db.concrete_type(concrete_type_id) is Some,
        specializable(db, concrete_type_id),
    ensures
        res == (match type_info(db, concrete_type_id) {
            Some(info) => Ok(Arc::new(info)),
            None => Err(DiagnosticAdded),
        }),
{
    match db.lookup_intern_concrete_type(concrete_type_id) {
        SierraGeneratorTypeLongId::Regular(long_id) => {
            let info = db.specialize(&*long_id).unwrap();
            Ok(Arc::new(info))
        },
        SierraGeneratorTypeLongId::CycleBreaker(ty) => {
            let info = db.cycle_breaker_info(ty)?;
            let long_id = db.get_concrete_long_type_id(ty)?;
            Ok(
                Arc::new(
                    TypeInfo {
                        long_id: (&*long_id).clone(),
                        storable: true,
                        droppable: info.droppable,
                        duplicatable: info.duplicatable,
                        zero_sized: false,
                    },
                ),
            )
        },
        SierraGeneratorTypeLongId::Phantom(ty) => {
            let long_id = db.get_concrete_long_type_id(ty)?;
            Ok(
                Arc::new(
                    TypeInfo {
                        long_id: (&*long_id).clone(),
                        storable: false,
                        droppable: false,
                        duplicatable: false,
                        zero_sized: true,
                    },
                ),
            )
        },
    }
}

/// Returns the info of a Sierra type; `None` where the type cannot be specialized.
pub fn try_get_type_info<Db: SierraGenGroup>(db: &Db, concrete_type_id: ConcreteTypeId) -> (res:
    Option<Maybe<Arc<TypeInfo>>>)
    requires
        db.concrete_type(concrete_type_id) is Some,
    ensures
        res == (if specializable(db, concrete_type_id) {
            Some(
                match type_info(db, concrete_type_id) {
                    Some(info) => Ok(Arc::new(info)),
                    None => Err(DiagnosticAdded),
                },
            )
        } else {
            None
        }),
{
    if let SierraGeneratorTypeLongId::Regular(long_id) = db.lookup_intern_concrete_type(
        concrete_type_id,
    ) {
        if db.specialize(&*long_id).is_none() {
            return None;
        }
    }
    Some(get_type_info(db, concrete_type_id))
}

/// The long id of a Sierra type; nothing where it is not known.
pub open spec fn concrete_long_id<Db: SierraGenGroup>(db: &Db, id: ConcreteTypeId) -> Option<
    ConcreteTypeLongId,
> {
    match db.concrete_type(id).unwrap() {
        SierraGeneratorTypeLongId::Regular(long_id) => Some(*long_id),
        SierraGeneratorTypeLongId::CycleBreaker(ty) => db.long_id_of(ty),
        SierraGeneratorTypeLongId::Phantom(ty) => db.long_id_of(ty),
    }
}

/// Returns the long id of a Sierra type.
pub fn sierra_concrete_long_id<Db: SierraGenGroup>(
    db: &Db,
    concrete_type_id: ConcreteTypeId,
) -> (res: Maybe<Arc<ConcreteTypeLongId>>)
    requires
        db.concrete_type(concrete_type_id) is Some,
    ensures
        res == (match concrete_long_id(db, concrete_type_id) {
            Some(long_id) => Ok(Arc::new(long_id)),
            None => Err(DiagnosticAdded),
        }),
{
    match db.lookup_intern_concrete_type(concrete_type_id) {
        SierraGeneratorTypeLongId::Regular(long_id) => Ok(long_id),
        SierraGeneratorTypeLongId::Phantom(type_id) => db.get_concrete_long_type_id(type_id),
        SierraGeneratorTypeLongId::CycleBreaker(type_id) => db.get_concrete_long_type_id(type_id),
    }
}

} // verus!
