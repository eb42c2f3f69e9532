//! A database of Sierra types and functions.
use std::collections::HashMap;
use std::sync::Arc;

use cairo_lang_sierra::extensions;
use cairo_lang_sierra::extensions::types::{
    ConcreteType, GenericTypeEx, InfoOnlyConcreteType, TypeInfo as SierraTypeInfo,
};
use cairo_lang_sierra::ids::ConcreteTypeId as SierraTypeId;
use cairo_lang_sierra::program::{ConcreteTypeLongId, GenericArg};
use cairo_lang_sierra::program_registry::SpecializationContextForRegistry;
use vstd::prelude::*;

use crate::context::{DiagnosticAdded, Maybe};
use crate::sierra::{
    ConcreteTypeId, CycleBreakerTypeInfo, FunctionId, LoweredFunctionId, LoweredSignature,
    LoweredSignatureView, SierraGenGroup, SierraGeneratorTypeLongId, TypeId, TypeInfo,
};

verus! {

broadcast use vstd::std_specs::hash::group_hash_axioms;

/// The name of the generic type of a long id.
pub uninterp spec fn generic_name(long_id: ConcreteTypeLongId) -> Seq<char>;

/// `GenericTypeId`'s string, of the generic type of a long id: its name.
#[verifier::external_body]
pub(crate) fn generic_name_of(long_id: &ConcreteTypeLongId) -> (res: String)
    ensures
        res@ == generic_name(*long_id),
{
    long_id.generic_id.0.to_string()
}

/// The values among the generic arguments of a long id that are `u64`s, each at the place of its
/// argument.
pub uninterp spec fn value_args(long_id: ConcreteTypeLongId) -> Seq<Option<u64>>;

/// `<u64 as TryFrom<&BigInt>>::try_from` of `num_bigint`, on the number in each generic argument
/// that is a value. There is nothing at the place of an argument that is no value, or whose value
/// is no `u64`.
#[verifier::external_body]
pub(crate) fn value_args_of(long_id: &ConcreteTypeLongId) -> (res: Vec<Option<u64>>)
    ensures
        res@ == value_args(*long_id),
{
    let as_number = |arg: &GenericArg| match arg {
        GenericArg::Value(value) => <u64 as TryFrom<&num_bigint::BigInt>>::try_from(value).ok(),
        GenericArg::UserType(_) => None,
        GenericArg::Type(_) => None,
        GenericArg::UserFunc(_) => None,
        GenericArg::Libfunc(_) => None,
    };
    long_id.generic_args.iter().map(as_number).collect()
}

/// Whether two long ids are equal.
pub uninterp spec fn same_long_id(a: ConcreteTypeLongId, b: ConcreteTypeLongId) -> bool;

/// `ConcreteTypeLongId::eq`: whether two long ids are equal, the names that are only there for
/// debugging left aside.
#[verifier::external_body]
pub(crate) fn is_same_long_id(a: &ConcreteTypeLongId, b: &ConcreteTypeLongId) -> (res: bool)
    ensures
        res == same_long_id(*a, *b),
{
    a == b
}

/// Whether the specialization of the generic type of that name relies on the infos of other types
/// to agree with each other. `IntRange` relies on integer types being ordinary values, `Const` on
/// the bounds of integer types to be in order, `Circuit` on the gates to be well formed and not to
/// form a cycle.
pub open spec fn relies_on_infos(name: Seq<char>) -> bool {
    name == "IntRange"@ || name == "Const"@ || name == "Circuit"@
}

/// Whether the generic type of that name is one whose infos others rely on: an integer type, or a
/// component of circuits.
pub open spec fn is_relied_on(name: Seq<char>) -> bool {
    ||| name == "u8"@
    ||| name == "u16"@
    ||| name == "u32"@
    ||| name == "u64"@
    ||| name == "u128"@
    ||| name == "i8"@
    ||| name == "i16"@
    ||| name == "i32"@
    ||| name == "i64"@
    ||| name == "i128"@
    ||| name == "BoundedInt"@
    ||| name == "CircuitInput"@
    ||| name == "AddModGate"@
    ||| name == "SubModGate"@
    ||| name == "MulModGate"@
    ||| name == "InverseGate"@
}

/// Whether two infos say the same of their types.
pub open spec fn same_properties(a: TypeInfo, b: TypeInfo) -> bool {
    &&& a.storable == b.storable
    &&& a.droppable == b.droppable
    &&& a.duplicatable == b.duplicatable
    &&& a.zero_sized == b.zero_sized
}

/// Whether an info agrees with those that are there: its type has none yet, and, if others rely on
/// it, it is the one that specialization gives. An input of circuits has one type.
pub open spec fn agrees(
    infos: Seq<(ConcreteTypeId, TypeInfo)>,
    entry: (ConcreteTypeId, TypeInfo),
) -> bool {
    let name = generic_name(entry.1.long_id);
    &&& forall|i: int| 0 <= i < infos.len() ==> (#[trigger] infos[i]).0 != entry.0
    &&& is_relied_on(name) ==> {
        &&& specialized(infos, entry.1.long_id) is Some
        &&& same_properties(specialized(infos, entry.1.long_id).unwrap(), entry.1)
    }
    &&& name == "CircuitInput"@ ==> forall|i: int|
        0 <= i < infos.len() ==> !same_long_id((#[trigger] infos[i]).1.long_id, entry.1.long_id)
}

/// Whether each info agrees with those before it.
pub open spec fn consistent(infos: Seq<(ConcreteTypeId, TypeInfo)>) -> bool {
    forall|i: int| 0 <= i < infos.len() ==> agrees(infos.take(i), #[trigger] infos[i])
}

/// Whether there are three generic arguments, the second of which is the largest index. No
/// constant has such arguments: those of an enum are the enum, the number of a variant and the
/// constant in it, and no enum has a variant of that number.
pub open spec fn selects_too_far(args: Seq<Option<u64>>) -> bool {
    args.len() == 3 && args[1] == Some(usize::MAX as u64)
}

/// The info of the specialization of a long id, given the infos of some types.
pub uninterp spec fn specialized(
    known: Seq<(ConcreteTypeId, TypeInfo)>,
    long_id: ConcreteTypeLongId,
) -> Option<TypeInfo>;

/// `CoreType::specialize_by_id`, in the context of the types whose infos are given: the info of the
/// specialization, or nothing where there is an error. It depends on the infos and on the long id
/// alone. The context knows nothing of a type but its info.
///
/// The specialization of `IntRange` asserts that an integer type is an ordinary value, that of
/// `Const` that the bounds of a bounded integer are in order. That of `Circuit` asserts that gates
/// have the arguments that they should, and that no two types are the same input, and does not end
/// where gates form a cycle. With consistent infos none of this happens. That of `Const` also adds
/// one to the number of an enum's variant, which is why that number may not be the largest.
#[verifier::external_body]
pub(crate) fn specialize_by_id(
    known: Vec<(ConcreteTypeId, TypeInfo)>,
    id: &ConcreteTypeLongId,
) -> (res: Option<TypeInfo>)
    requires
        relies_on_infos(generic_name(*id)) ==> consistent(known@),
        generic_name(*id) == "Const"@ ==> !selects_too_far(value_args(*id)),
    ensures
        res == specialized(known@, *id),
{
    let as_type = |(ConcreteTypeId(id), info)| {
        let TypeInfo { long_id, storable, droppable, duplicatable, zero_sized } = info;
        let info = SierraTypeInfo { long_id, storable, droppable, duplicatable, zero_sized };
        (SierraTypeId::new(id), extensions::core::CoreTypeConcrete::Felt252(InfoOnlyConcreteType { info }))
    };
    let context = SpecializationContextForRegistry::<extensions::core::CoreType> {
        functions: &Default::default(),
        concrete_type_ids: &Default::default(),
        concrete_types: &known.into_iter().map(as_type).collect(),
        function_ap_change: Default::default(),
    };
    let ty = extensions::core::CoreType::specialize_by_id(&context, &id.generic_id, &id.generic_args);
    let SierraTypeInfo { long_id, storable, droppable, duplicatable, zero_sized } =
        ty.ok()?.info().clone();
    Some(TypeInfo { long_id, storable, droppable, duplicatable, zero_sized })
}

/// A database whose queries were answered beforehand, by the number of what is asked for. What has
/// no entry was reported as an error.
#[derive(Debug)]
pub struct SierraGenDatabase {
    /// What the Sierra types were interned for.
    pub concrete_types: HashMap<u64, SierraGeneratorTypeLongId>,
    /// What the Sierra functions were interned for.
    pub sierra_functions: HashMap<u64, LoweredFunctionId>,
    /// The Sierra types of the semantic types.
    pub type_ids: HashMap<u64, ConcreteTypeId>,
    /// The long ids of the Sierra types of the semantic types.
    pub long_ids: HashMap<u64, ConcreteTypeLongId>,
    /// What is known of the semantic types that break cycles.
    pub cycle_breakers: HashMap<u64, CycleBreakerTypeInfo>,
    /// The infos of the Sierra types that others depend on.
    pub known: Vec<(ConcreteTypeId, TypeInfo)>,
    /// The signatures of the lowered functions.
    pub signatures: HashMap<u64, LoweredSignature>,
    /// The types of the implicits of the lowered functions.
    pub implicits: HashMap<u64, Vec<TypeId>>,
    /// Whether the lowered functions may panic.
    pub may_panic: HashMap<u64, bool>,
    /// Whether panics are taken to be impossible to observe.
    pub unsafe_panic: bool,
    /// The unit type.
    pub unit: TypeId,
}

/// Whether the specialization of the generic type of that name relies on the infos of other types.
fn is_reliant(name: &String) -> (res: bool)
    ensures
        res == relies_on_infos(name@),
{
    *name == "IntRange".to_owned() || *name == "Const".to_owned() || *name == "Circuit".to_owned()
}

/// A copy of infos.
fn copy_infos(infos: &Vec<(ConcreteTypeId, TypeInfo)>) -> (res: Vec<(ConcreteTypeId, TypeInfo)>)
    ensures
        res@ == infos@,
{
    let mut res: Vec<(ConcreteTypeId, TypeInfo)> = Vec::new();
    let mut i: usize = 0;
    while i < infos.len()
        invariant
            i <= infos.len(),
            res@ == infos@.take(i as int),
        decreases infos.len() - i,
    {
        res.push((infos[i].0, infos[i].1.clone()));
        i = i + 1;
        assert(res@ =~= infos@.take(i as int));
    }
    assert(infos@.take(i as int) =~= infos@);
    res
}

/// The infos once those that agree with them were added, in their order.
pub open spec fn grown(
    infos: Seq<(ConcreteTypeId, TypeInfo)>,
    more: Seq<(ConcreteTypeId, TypeInfo)>,
) -> Seq<(ConcreteTypeId, TypeInfo)>
    decreases more.len(),
{
    if more.len() == 0 {
        infos
    } else {
        let before = grown(infos, more.drop_last());
        if agrees(before, more.last()) {
            before.push(more.last())
        } else {
            before
        }
    }
}

/// The infos that agree with each other, found in `n` rounds.
pub open spec fn consistent_within(known: Seq<(ConcreteTypeId, TypeInfo)>, n: nat) -> Seq<
    (ConcreteTypeId, TypeInfo),
>
    decreases n,
{
    if n == 0 {
        Seq::empty()
    } else {
        grown(consistent_within(known, (n - 1) as nat), known)
    }
}

/// The infos that a long id is specialized with: all that are known, or, where it relies on them,
/// those that agree with each other. As many rounds as there are infos find all of these.
pub open spec fn infos_for(
    known: Seq<(ConcreteTypeId, TypeInfo)>,
    long_id: ConcreteTypeLongId,
) -> Seq<(ConcreteTypeId, TypeInfo)> {
    if relies_on_infos(generic_name(long_id)) {
        consistent_within(known, known.len())
    } else {
        known
    }
}

/// No type that others rely on relies on others itself.
proof fn lemma_relied_on_is_not_reliant(name: Seq<char>)
    requires
        is_relied_on(name),
    ensures
        !relies_on_infos(name),
{
    reveal_strlit("u8");
    reveal_strlit("u16");
    reveal_strlit("u32");
    reveal_strlit("u64");
    reveal_strlit("u128");
    reveal_strlit("i8");
    reveal_strlit("i16");
    reveal_strlit("i32");
    reveal_strlit("i64");
    reveal_strlit("i128");
    reveal_strlit("BoundedInt");
    reveal_strlit("CircuitInput");
    reveal_strlit("AddModGate");
    reveal_strlit("SubModGate");
    reveal_strlit("MulModGate");
    reveal_strlit("InverseGate");
    reveal_strlit("IntRange");
    reveal_strlit("Const");
    reveal_strlit("Circuit");
    assert(name.len() < 5 || name.len() >= 10);
}

/// Consistent infos stay where they are and consistent as more are added.
pub(crate) proof fn lemma_grown(
    infos: Seq<(ConcreteTypeId, TypeInfo)>,
    more: Seq<(ConcreteTypeId, TypeInfo)>,
)
    requires
        consistent(infos),
    ensures
        consistent(grown(infos, more)),
        infos.is_prefix_of(grown(infos, more)),
    decreases more.len(),
{
    if more.len() > 0 {
        lemma_grown(infos, more.drop_last());
        let before = grown(infos, more.drop_last());
        let after = grown(infos, more);
        assert forall|i: int| 0 <= i < after.len() implies agrees(
            after.take(i),
            #[trigger] after[i],
        ) by {
            if i < before.len() {
                assert(after.take(i) =~= before.take(i));
                assert(after[i] == before[i]);
            } else {
                assert(after.take(i) =~= before);
            }
        }
        assert(infos =~= after.subrange(0, infos.len() as int));
    } else {
        assert(infos =~= infos.subrange(0, infos.len() as int));
    }
}

/// Once a round finds nothing, no later one does.
proof fn lemma_rounds_are_over(known: Seq<(ConcreteTypeId, TypeInfo)>, n: nat, m: nat)
    requires
        n <= m,
        consistent_within(known, n + 1) == consistent_within(known, n),
    ensures
        consistent_within(known, m) == consistent_within(known, n),
    decreases m,
{
    if n < m {
        lemma_rounds_are_over(known, n, (m - 1) as nat);
        assert(consistent_within(known, n + 1) == grown(consistent_within(known, n), known));
    }
}

/// Whether the generic type of that name is one whose infos others rely on.
fn others_rely_on(name: &String) -> (res: bool)
    ensures
        res == is_relied_on(name@),
{
    *name == "u8".to_owned()
        || *name == "u16".to_owned()
        || *name == "u32".to_owned()
        || *name == "u64".to_owned()
        || *name == "u128".to_owned()
        || *name == "i8".to_owned()
        || *name == "i16".to_owned()
        || *name == "i32".to_owned()
        || *name == "i64".to_owned()
        || *name == "i128".to_owned()
        || *name == "BoundedInt".to_owned()
        || *name == "CircuitInput".to_owned()
        || *name == "AddModGate".to_owned()
        || *name == "SubModGate".to_owned()
        || *name == "MulModGate".to_owned()
        || *name == "InverseGate".to_owned()
}

/// Whether an info agrees with those that are there.
fn does_agree(infos: &Vec<(ConcreteTypeId, TypeInfo)>, entry: &(ConcreteTypeId, TypeInfo)) -> (res:
    bool)
    ensures
        res == agrees(infos@, *entry),
{
    let name = generic_name_of(&entry.1.long_id);
    let is_input = name == "CircuitInput".to_owned();
    let mut i: usize = 0;
    while i < infos.len()
        invariant
            i <= infos.len(),
            is_input == (generic_name(entry.1.long_id) == "CircuitInput"@),
            forall|k: int| 0 <= k < i ==> (#[trigger] infos@[k]).0 != entry.0,
            is_input ==> forall|k: int|
                0 <= k < i ==> !same_long_id(
                    (#[trigger] infos@[k]).1.long_id,
                    entry.1.long_id,
                ),
        decreases infos.len() - i,
    {
        if infos[i].0 == entry.0 {
            return false;
        }
        if is_input && is_same_long_id(&infos[i].1.long_id, &entry.1.long_id) {
            return false;
        }
        i = i + 1;
    }
    if others_rely_on(&name) {
        proof {
            lemma_relied_on_is_not_reliant(name@);
        }
        match specialize_by_id(copy_infos(infos), &entry.1.long_id) {
            Some(info) => info.storable == entry.1.storable && info.droppable == entry.1.droppable
                && info.duplicatable == entry.1.duplicatable && info.zero_sized
                == entry.1.zero_sized,
            None => false,
        }
    } else {
        true
    }
}

/// Adds the infos that agree with those that are there.
fn grow(infos: &mut Vec<(ConcreteTypeId, TypeInfo)>, more: &Vec<(ConcreteTypeId, TypeInfo)>)
    ensures
        final(infos)@ == grown(old(infos)@, more@),
{
    let mut i: usize = 0;
    while i < more.len()
        invariant
            i <= more.len(),
            infos@ == grown(old(infos)@, more@.take(i as int)),
        decreases more.len() - i,
    {
        assert(more@.take(i + 1).drop_last() =~= more@.take(i as int));
        if does_agree(infos, &more[i]) {
            infos.push((more[i].0, more[i].1.clone()));
        }
        i = i + 1;
    }
    assert(more@.take(i as int) =~= more@);
}

/// The infos that agree with each other.
fn consistent_part(known: &Vec<(ConcreteTypeId, TypeInfo)>) -> (res: Vec<
    (ConcreteTypeId, TypeInfo),
>)
    ensures
        res@ == consistent_within(known@, known@.len()),
        consistent(res@),
{
    let mut infos: Vec<(ConcreteTypeId, TypeInfo)> = Vec::new();
    let mut n: usize = 0;
    while n < known.len()
        invariant
            n <= known.len(),
            infos@ == consistent_within(known@, n as nat),
            consistent(infos@),
        decreases known.len() - n,
    {
        let ghost before = infos@;
        let found: usize = infos.len();
        grow(&mut infos, known);
        proof {
            lemma_grown(before, known@);
        }
        if infos.len() == found {
            proof {
                assert(before =~= infos@);
                lemma_rounds_are_over(known@, n as nat, known@.len());
            }
            return infos;
        }
        n = n + 1;
    }
    infos
}

impl SierraGenDatabase {
    /// The infos that a long id is specialized with.
    pub fn infos_for(&self, long_id: &ConcreteTypeLongId) -> (res: Vec<(ConcreteTypeId, TypeInfo)>)
        ensures
            res@ == infos_for(self.known@, *long_id),
            relies_on_infos(generic_name(*long_id)) ==> consistent(res@),
    {
        if is_reliant(&generic_name_of(long_id)) {
            consistent_part(&self.known)
        } else {
            copy_infos(&self.known)
        }
    }
}

impl SierraGenGroup for SierraGenDatabase {
    open spec fn concrete_type(&self, id: ConcreteTypeId) -> Option<SierraGeneratorTypeLongId> {
        if self.concrete_types@.contains_key(id.0) {
            Some(self.concrete_types@[id.0])
        } else {
            None
        }
    }

    fn lookup_intern_concrete_type(&self, id: ConcreteTypeId) -> (res: SierraGeneratorTypeLongId) {
        self.concrete_types.get(&id.0).unwrap().clone()
    }

    open spec fn sierra_function(&self, id: FunctionId) -> Option<LoweredFunctionId> {
        if self.sierra_functions@.contains_key(id.0) {
            Some(self.sierra_functions@[id.0])
        } else {
            None
        }
    }

    fn lookup_intern_sierra_function(&self, id: FunctionId) -> (res: LoweredFunctionId) {
        *self.sierra_functions.get(&id.0).unwrap()
    }

    open spec fn type_of(&self, id: TypeId) -> Option<ConcreteTypeId> {
        if self.type_ids@.contains_key(id.0) {
            Some(self.type_ids@[id.0])
        } else {
            None
        }
    }

    fn get_concrete_type_id(&self, type_id: TypeId) -> (res: Maybe<ConcreteTypeId>) {
        match self.type_ids.get(&type_id.0) {
            Some(id) => Ok(*id),
            None => Err(DiagnosticAdded),
        }
    }

    open spec fn long_id_of(&self, id: TypeId) -> Option<ConcreteTypeLongId> {
        if self.long_ids@.contains_key(id.0) {
            Some(self.long_ids@[id.0])
        } else {
            None
        }
    }

    fn get_concrete_long_type_id(&self, type_id: TypeId) -> (res: Maybe<Arc<ConcreteTypeLongId>>) {
        match self.long_ids.get(&type_id.0) {
            Some(long_id) => Ok(Arc::new(long_id.clone())),
            None => Err(DiagnosticAdded),
        }
    }

    open spec fn breaker_info(&self, id: TypeId) -> Option<CycleBreakerTypeInfo> {
        if self.cycle_breakers@.contains_key(id.0) {
            Some(self.cycle_breakers@[id.0])
        } else {
            None
        }
    }

    fn cycle_breaker_info(&self, ty: TypeId) -> (res: Maybe<CycleBreakerTypeInfo>) {
        match self.cycle_breakers.get(&ty.0) {
            Some(info) => Ok(*info),
            None => Err(DiagnosticAdded),
        }
    }

    open spec fn specialization(&self, long_id: ConcreteTypeLongId) -> Option<TypeInfo> {
        if generic_name(long_id) == "Const"@ && selects_too_far(value_args(long_id)) {
            None
        } else {
            specialized(infos_for(self.known@, long_id), long_id)
        }
    }

    fn specialize(&self, long_id: &ConcreteTypeLongId) -> (res: Option<TypeInfo>) {
        if generic_name_of(long_id) == "Const".to_owned() {
            let args = value_args_of(long_id);
            if args.len() == 3 && args[1] == Some(usize::MAX as u64) {
                return None;
            }
        }
        specialize_by_id(self.infos_for(long_id), long_id)
    }

    open spec fn lowered_signature(&self, id: LoweredFunctionId) -> Option<LoweredSignatureView> {
        if self.signatures@.contains_key(id.0) {
            Some(self.signatures@[id.0]@)
        } else {
            None
        }
    }

    fn signature(&self, id: LoweredFunctionId) -> (res: Maybe<LoweredSignature>) {
        match self.signatures.get(&id.0) {
            Some(signature) => Ok(signature.clone()),
            None => Err(DiagnosticAdded),
        }
    }

    open spec fn implicits(&self, id: LoweredFunctionId) -> Option<Seq<TypeId>> {
        if self.implicits@.contains_key(id.0) {
            Some(self.implicits@[id.0]@)
        } else {
            None
        }
    }

    fn function_implicits(&self, id: LoweredFunctionId) -> (res: Maybe<Vec<TypeId>>) {
        match self.implicits.get(&id.0) {
            Some(types) => Ok(types.clone()),
            None => Err(DiagnosticAdded),
        }
    }

    open spec fn may_panic(&self, id: LoweredFunctionId) -> Option<bool> {
        if self.may_panic@.contains_key(id.0) {
            Some(self.may_panic@[id.0])
        } else {
            None
        }
    }

    fn function_may_panic(&self, id: LoweredFunctionId) -> (res: Maybe<bool>) {
        match self.may_panic.get(&id.0) {
            Some(may_panic) => Ok(*may_panic),
            None => Err(DiagnosticAdded),
        }
    }

    open spec fn unsafe_panic(&self) -> bool {
        self.unsafe_panic
    }

    fn flag_unsafe_panic(&self) -> (res: bool) {
        self.unsafe_panic
    }

    open spec fn unit(&self, ty: TypeId) -> bool {
        ty == self.unit
    }

    fn is_unit(&self, ty: TypeId) -> (res: bool) {
        ty == self.unit
    }
}

} // verus!
