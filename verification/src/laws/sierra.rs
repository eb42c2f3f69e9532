//! Laws of Sierra signatures and type infos.
use std::sync::Arc;

use cairo_lang_sierra::program::ConcreteTypeLongId;
use vstd::prelude::*;

use crate::sierra::{
    concrete_long_id, concrete_types, function_signature, specializable, type_info, ConcreteTypeId,
    FunctionId, LoweredFunctionId, SierraGenGroup, SierraGeneratorTypeLongId, TypeId, TypeInfo,
};
use crate::sierra_db::{
    agrees, consistent, consistent_within, generic_name, grown, infos_for, is_relied_on,
    lemma_grown, relies_on_infos, same_long_id, specialized, value_args, SierraGenDatabase,
};

verus! {

/// The parameters of a Sierra function and what it returns both start with its implicits.
pub proof fn law_signature_starts_with_implicits<Db: SierraGenGroup>(
    db: &Db,
    id: LoweredFunctionId,
)
    requires
        function_signature(db, id) is Some,
    ensures
        ({
            let signature = function_signature(db, id).unwrap();
            let implicits = concrete_types(db, db.implicits(id).unwrap()).unwrap();
            &&& implicits.is_prefix_of(signature.param_types)
            &&& implicits.is_prefix_of(signature.ret_types)
        }),
{
    let signature = function_signature(db, id).unwrap();
    let implicits = concrete_types(db, db.implicits(id).unwrap()).unwrap();
    assert(implicits =~= signature.param_types.subrange(0, implicits.len() as int));
    assert(implicits =~= signature.ret_types.subrange(0, implicits.len() as int));
}

/// The number of types in a signature: a function that may panic returns a single value behind its
/// implicits, any other returns its references and, unless it is of the unit type, its value.
pub proof fn law_signature_length<Db: SierraGenGroup>(db: &Db, id: LoweredFunctionId)
    requires
        function_signature(db, id) is Some,
    ensures
        ({
            let signature = function_signature(db, id).unwrap();
            let lowered = db.lowered_signature(id).unwrap();
            let n = db.implicits(id).unwrap().len();
            let panics = !db.unsafe_panic() && db.may_panic(id) == Some(true);
            &&& signature.param_types.len() == n + lowered.params.len()
            &&& signature.ret_types.len() == n + (if panics {
                1
            } else if db.unit(lowered.return_type) {
                lowered.extra_rets.len()
            } else {
                lowered.extra_rets.len() + 1
            })
        }),
{
}

/// The types of a signature, one by one. The parameters are the implicits and then the parameters of
/// the lowered function. What is returned is the implicits again, and behind them a single panic
/// result where a panic can be observed and the function may panic, whatever else the function
/// returns; otherwise each of the references and then the value, unless that is of the unit type.
pub proof fn law_signature_types<Db: SierraGenGroup>(db: &Db, id: LoweredFunctionId)
    requires
        function_signature(db, id) is Some,
    ensures
        ({
            let signature = function_signature(db, id).unwrap();
            let lowered = db.lowered_signature(id).unwrap();
            let implicits = db.implicits(id).unwrap();
            let n = implicits.len();
            let refs = lowered.extra_rets;
            let panics = !db.unsafe_panic() && db.may_panic(id) == Some(true);
            &&& forall|i: int|
                0 <= i < n ==> {
                    &&& Some(#[trigger] signature.param_types[i]) == db.type_of(implicits[i])
                    &&& Some(signature.ret_types[i]) == db.type_of(implicits[i])
                }
            &&& forall|i: int|
                0 <= i < lowered.params.len() ==> Some(signature.param_types[n + i])
                    == db.type_of(#[trigger] lowered.params[i])
            &&& panics ==> {
                &&& signature.ret_types.len() == n + 1
                &&& Some(signature.ret_types.last()) == db.type_of(lowered.panic_return_type)
            }
            &&& !panics ==> forall|i: int|
                0 <= i < refs.len() ==> Some(signature.ret_types[n + i]) == db.type_of(
                    #[trigger] refs[i],
                )
            &&& !panics && !db.unit(lowered.return_type) ==> {
                &&& signature.ret_types.len() == n + refs.len() + 1
                &&& Some(signature.ret_types.last()) == db.type_of(lowered.return_type)
            }
            &&& !panics && db.unit(lowered.return_type) ==> signature.ret_types.len() == n
                + refs.len()
        }),
{
    let signature = function_signature(db, id).unwrap();
    let lowered = db.lowered_signature(id).unwrap();
    let implicits = db.implicits(id).unwrap();
    let n = implicits.len();
    let refs = lowered.extra_rets;
    let panics = !db.unsafe_panic() && db.may_panic(id) == Some(true);
    assert forall|i: int| 0 <= i < n implies {
        &&& Some(#[trigger] signature.param_types[i]) == db.type_of(implicits[i])
        &&& Some(signature.ret_types[i]) == db.type_of(implicits[i])
    } by {
        assert(db.type_of(implicits[i]) is Some);
    }
    if panics {
        let single = seq![lowered.panic_return_type];
        assert(db.type_of(single[0]) is Some);
    } else if !db.unit(lowered.return_type) {
        let all = refs.push(lowered.return_type);
        assert(db.type_of(all[refs.len() as int]) is Some);
        assert forall|i: int| 0 <= i < refs.len() implies Some(signature.ret_types[n + i])
            == db.type_of(#[trigger] refs[i]) by {
            assert(all[i] == refs[i]);
            assert(db.type_of(all[i]) is Some);
        }
    }
}

/// A signature is known if and only if the lowered signature and the implicits are, whether the
/// function may panic is where that matters, and every type that is named has a Sierra type. That
/// of the panic result is needed only where there is one, that of the value only where it is
/// returned.
pub proof fn law_signature_known<Db: SierraGenGroup>(db: &Db, id: LoweredFunctionId)
    ensures
        function_signature(db, id) is Some <==> {
            &&& db.lowered_signature(id) is Some
            &&& db.implicits(id) is Some
            &&& db.unsafe_panic() || db.may_panic(id) is Some
            &&& {
                let lowered = db.lowered_signature(id).unwrap();
                let panics = !db.unsafe_panic() && db.may_panic(id) == Some(true);
                &&& all_have_types(db, db.implicits(id).unwrap())
                &&& all_have_types(db, lowered.params)
                &&& all_have_types(db, lowered.extra_rets)
                &&& panics ==> db.type_of(lowered.panic_return_type) is Some
                &&& !panics && !db.unit(lowered.return_type) ==> db.type_of(
                    lowered.return_type,
                ) is Some
            }
        },
{
    let lowered = db.lowered_signature(id).unwrap();
    let single = seq![lowered.panic_return_type];
    let all = lowered.extra_rets.push(lowered.return_type);
    assert(single[0] == lowered.panic_return_type);
    assert(all[lowered.extra_rets.len() as int] == lowered.return_type);
    assert forall|i: int| 0 <= i < lowered.extra_rets.len() implies #[trigger] all[i]
        == lowered.extra_rets[i] by {}
    if all_have_types(db, lowered.extra_rets) && db.type_of(lowered.return_type) is Some {
        assert forall|i: int| 0 <= i < all.len() implies db.type_of(#[trigger] all[i]) is Some by {
            if i < lowered.extra_rets.len() {
                assert(db.type_of(lowered.extra_rets[i]) is Some);
            }
        }
    }
}

/// Whether each of the semantic types has a Sierra type.
pub open spec fn all_have_types<Db: SierraGenGroup>(db: &Db, types: Seq<TypeId>) -> bool {
    forall|i: int| 0 <= i < types.len() ==> db.type_of(#[trigger] types[i]) is Some
}

/// Whether two databases answer alike but for which functions may panic.
pub open spec fn same_but_panics<A: SierraGenGroup, B: SierraGenGroup>(
    a: &A,
    b: &B,
    id: LoweredFunctionId,
) -> bool {
    &&& a.lowered_signature(id) == b.lowered_signature(id)
    &&& a.implicits(id) == b.implicits(id)
    &&& a.unsafe_panic() == b.unsafe_panic()
    &&& forall|ty: TypeId| #[trigger] a.type_of(ty) == b.type_of(ty)
    &&& forall|ty: TypeId| #[trigger] a.unit(ty) == b.unit(ty)
}

/// Where panics cannot be observed, a signature does not depend on which functions may panic, nor
/// on whether that is known.
pub proof fn law_unsafe_panic_signature<A: SierraGenGroup, B: SierraGenGroup>(
    a: &A,
    b: &B,
    id: LoweredFunctionId,
)
    requires
        same_but_panics(a, b, id),
        a.unsafe_panic(),
    ensures
        function_signature(a, id) == function_signature(b, id),
{
    assert forall|types: Seq<TypeId>| #[trigger]
        concrete_types(a, types) == concrete_types(b, types) by {
        if forall|i: int| 0 <= i < types.len() ==> a.type_of(#[trigger] types[i]) is Some {
            assert forall|i: int| 0 <= i < types.len() implies b.type_of(
                #[trigger] types[i],
            ) is Some by {
                assert(a.type_of(types[i]) is Some);
            }
            assert(types.map_values(|ty: TypeId| a.type_of(ty).unwrap()) =~= types.map_values(
                |ty: TypeId| b.type_of(ty).unwrap(),
            ));
        } else {
            let i = choose|i: int|
                0 <= i < types.len() && !(a.type_of(#[trigger] types[i]) is Some);
            assert(b.type_of(types[i]) is None);
        }
    }
}

/// The info of a cycle breaker or of a phantom type has the long id that the type has. A cycle
/// breaker can be stored and has a size, a phantom type has neither. A cycle breaker can be
/// duplicated or dropped if and only if its cycle breaker info says so, a phantom type never.
pub proof fn law_special_type_info<Db: SierraGenGroup>(db: &Db, id: ConcreteTypeId)
    requires
        db.concrete_type(id) is Some,
        !(db.concrete_type(id).unwrap() is Regular),
        type_info(db, id) is Some,
    ensures
        ({
            let info = type_info(db, id).unwrap();
            &&& concrete_long_id(db, id) == Some(info.long_id)
            &&& info.storable == (db.concrete_type(id).unwrap() is CycleBreaker)
            &&& info.zero_sized == (db.concrete_type(id).unwrap() is Phantom)
            &&& match db.concrete_type(id).unwrap() {
                SierraGeneratorTypeLongId::CycleBreaker(ty) => {
                    &&& info.duplicatable == db.breaker_info(ty).unwrap().duplicatable
                    &&& info.droppable == db.breaker_info(ty).unwrap().droppable
                    &&& Some(info.long_id) == db.long_id_of(ty)
                },
                SierraGeneratorTypeLongId::Phantom(ty) => {
                    &&& !info.duplicatable
                    &&& !info.droppable
                    &&& Some(info.long_id) == db.long_id_of(ty)
                },
                SierraGeneratorTypeLongId::Regular(_) => true,
            }
        }),
{
}

/// Where the long id of a phantom type is not known, neither is its info, and conversely.
pub proof fn law_phantom_info_known<Db: SierraGenGroup>(db: &Db, id: ConcreteTypeId)
    requires
        db.concrete_type(id) matches Some(SierraGeneratorTypeLongId::Phantom(_)),
    ensures
        (type_info(db, id) is Some) == (concrete_long_id(db, id) is Some),
{
}

/// The info of a cycle breaker is known if and only if its cycle breaker info and its long id are.
pub proof fn law_breaker_info_known<Db: SierraGenGroup>(db: &Db, id: ConcreteTypeId, ty: TypeId)
    requires
        db.concrete_type(id) == Some(SierraGeneratorTypeLongId::CycleBreaker(ty)),
    ensures
        type_info(db, id) is Some <==> db.breaker_info(ty) is Some && db.long_id_of(ty) is Some,
{
}

/// A type with a long id of its own has that long id, and the info that specialization gives for
/// it: nothing else has a part in it.
pub proof fn law_regular_type<Db: SierraGenGroup>(
    db: &Db,
    id: ConcreteTypeId,
    long_id: Arc<ConcreteTypeLongId>,
)
    requires
        db.concrete_type(id) == Some(SierraGeneratorTypeLongId::Regular(long_id)),
    ensures
        concrete_long_id(db, id) == Some(*long_id),
        type_info(db, id) == db.specialization(*long_id),
        specializable(db, id) == (db.specialization(*long_id) is Some),
{
}

/// The long id of a cycle breaker or of a phantom type is that of its semantic type, and both can
/// be asked for without any specialization.
pub proof fn law_special_long_id<Db: SierraGenGroup>(db: &Db, id: ConcreteTypeId, ty: TypeId)
    requires
        db.concrete_type(id) == Some(SierraGeneratorTypeLongId::CycleBreaker(ty))
            || db.concrete_type(id) == Some(SierraGeneratorTypeLongId::Phantom(ty)),
    ensures
        concrete_long_id(db, id) == db.long_id_of(ty),
        specializable(db, id),
{
}

// Consistent infos.

/// The infos that a type is specialized with where it relies on them are known ones that agree with
/// each other, and they are all that do: none that is known can be added to them.
pub proof fn law_consistent_infos(
    known: Seq<(ConcreteTypeId, TypeInfo)>,
    long_id: ConcreteTypeLongId,
)
    requires
        relies_on_infos(generic_name(long_id)),
    ensures
        consistent(infos_for(known, long_id)),
        forall|i: int|
            0 <= i < infos_for(known, long_id).len() ==> known.contains(
                #[trigger] infos_for(known, long_id)[i],
            ),
        forall|i: int|
            0 <= i < known.len() ==> !agrees(infos_for(known, long_id), #[trigger] known[i]),
{
    let n = known.len();
    let infos = consistent_within(known, n);
    lemma_within(known, n);
    lemma_within(known, n + 1);
    lemma_few(known, infos);
    lemma_few(known, grown(infos, known));
    lemma_grown(infos, known);
    assert(grown(infos, known) == consistent_within(known, n + 1));
    if grown(infos, known).len() > infos.len() {
        lemma_each_round_finds(known, n + 1);
    }
    assert forall|i: int| 0 <= i < known.len() implies !agrees(infos, #[trigger] known[i]) by {
        lemma_grown_adds(infos, known, i);
    }
}

/// What is found in rounds is consistent and known.
proof fn lemma_within(known: Seq<(ConcreteTypeId, TypeInfo)>, n: nat)
    ensures
        consistent(consistent_within(known, n)),
        forall|i: int|
            0 <= i < consistent_within(known, n).len() ==> known.contains(
                #[trigger] consistent_within(known, n)[i],
            ),
    decreases n,
{
    if n > 0 {
        let before = consistent_within(known, (n - 1) as nat);
        lemma_within(known, (n - 1) as nat);
        lemma_grown(before, known);
        lemma_grown_from(before, known, known);
    }
}

proof fn lemma_grown_from(
    infos: Seq<(ConcreteTypeId, TypeInfo)>,
    more: Seq<(ConcreteTypeId, TypeInfo)>,
    known: Seq<(ConcreteTypeId, TypeInfo)>,
)
    requires
        forall|i: int| 0 <= i < infos.len() ==> known.contains(#[trigger] infos[i]),
        forall|i: int| 0 <= i < more.len() ==> known.contains(#[trigger] more[i]),
    ensures
        forall|i: int|
            0 <= i < grown(infos, more).len() ==> known.contains(#[trigger] grown(infos, more)[i]),
    decreases more.len(),
{
    if more.len() > 0 {
        assert forall|i: int| 0 <= i < more.drop_last().len() implies known.contains(
            #[trigger] more.drop_last()[i],
        ) by {
            assert(more.drop_last()[i] == more[i]);
        }
        lemma_grown_from(infos, more.drop_last(), known);
        let before = grown(infos, more.drop_last());
        assert forall|i: int| 0 <= i < grown(infos, more).len() implies known.contains(
            #[trigger] grown(infos, more)[i],
        ) by {
            if i < before.len() {
                assert(grown(infos, more)[i] == before[i]);
            } else {
                assert(grown(infos, more)[i] == more[more.len() - 1]);
            }
        }
    }
}

/// Infos that agree with each other are not more than there are.
proof fn lemma_few(
    known: Seq<(ConcreteTypeId, TypeInfo)>,
    infos: Seq<(ConcreteTypeId, TypeInfo)>,
)
    requires
        consistent(infos),
        forall|i: int| 0 <= i < infos.len() ==> known.contains(#[trigger] infos[i]),
    ensures
        infos.len() <= known.len(),
{
    assert forall|i: int, j: int| 0 <= i < j < infos.len() implies infos[i] != infos[j] by {
        assert(agrees(infos.take(j), infos[j]));
        assert(infos.take(j)[i] == infos[i]);
    }
    assert(infos.no_duplicates());
    infos.unique_seq_to_set();
    known.lemma_cardinality_of_set();
    assert(infos.to_set().subset_of(known.to_set())) by {
        assert forall|entry: (ConcreteTypeId, TypeInfo)|
            infos.to_set().contains(entry) implies known.to_set().contains(entry) by {
            let i = choose|i: int| 0 <= i < infos.len() && infos[i] == entry;
            assert(known.contains(infos[i]));
        }
    }
    vstd::set_lib::lemma_len_subset(infos.to_set(), known.to_set());
}

/// While a round finds something, each round before it did.
proof fn lemma_each_round_finds(known: Seq<(ConcreteTypeId, TypeInfo)>, n: nat)
    requires
        n > 0,
        consistent_within(known, n).len() > consistent_within(known, (n - 1) as nat).len(),
    ensures
        consistent_within(known, n).len() >= n,
    decreases n,
{
    if n > 1 {
        let first = consistent_within(known, (n - 2) as nat);
        let second = consistent_within(known, (n - 1) as nat);
        lemma_within(known, (n - 2) as nat);
        lemma_grown(first, known);
        assert(second == grown(first, known));
        if second.len() == first.len() {
            assert(first =~= second);
        } else {
            lemma_each_round_finds(known, (n - 1) as nat);
        }
    }
}

/// A round that finds nothing leaves nothing that agrees.
proof fn lemma_grown_adds(
    infos: Seq<(ConcreteTypeId, TypeInfo)>,
    more: Seq<(ConcreteTypeId, TypeInfo)>,
    i: int,
)
    requires
        consistent(infos),
        grown(infos, more).len() == infos.len(),
        0 <= i < more.len(),
    ensures
        !agrees(infos, more[i]),
    decreases more.len(),
{
    let before = grown(infos, more.drop_last());
    lemma_grown(infos, more.drop_last());
    assert(before =~= infos);
    if i < more.len() - 1 {
        lemma_grown_adds(infos, more.drop_last(), i);
    }
}

/// Integer ranges, constants and circuits are specialized with infos that agree with each other.
pub proof fn law_reliant_types(
    known: Seq<(ConcreteTypeId, TypeInfo)>,
    long_id: ConcreteTypeLongId,
)
    requires
        generic_name(long_id) == "IntRange"@ || generic_name(long_id) == "Const"@ || generic_name(
            long_id,
        ) == "Circuit"@,
    ensures
        consistent(infos_for(known, long_id)),
{
    law_consistent_infos(known, long_id);
}

/// Where the known infos all agree with each other, every type is specialized with all of them. A
/// type that does not rely on them always is.
pub proof fn law_all_infos_are_used(
    known: Seq<(ConcreteTypeId, TypeInfo)>,
    long_id: ConcreteTypeLongId,
)
    requires
        consistent(known) || !relies_on_infos(generic_name(long_id)),
    ensures
        infos_for(known, long_id) == known,
{
    if relies_on_infos(generic_name(long_id)) {
        lemma_grown_to(known, known.len() as int);
        assert(known.take(known.len() as int) =~= known);
        lemma_nothing_left(known, known.len());
        if known.len() == 0 {
            assert(known =~= Seq::empty());
        }
    }
}

/// Consistent infos are all found, in their order.
proof fn lemma_grown_to(known: Seq<(ConcreteTypeId, TypeInfo)>, n: int)
    requires
        consistent(known),
        0 <= n <= known.len(),
    ensures
        grown(Seq::empty(), known.take(n)) == known.take(n),
    decreases n,
{
    if n > 0 {
        lemma_grown_to(known, n - 1);
        assert(known.take(n).drop_last() =~= known.take(n - 1));
        assert(known.take(n).last() == known[n - 1]);
        assert(agrees(known.take(n - 1), known[n - 1]));
        assert(known.take(n - 1).push(known[n - 1]) =~= known.take(n));
    } else {
        assert(known.take(0) =~= Seq::empty());
    }
}

/// Once all the infos are there, no round adds any.
proof fn lemma_nothing_left(known: Seq<(ConcreteTypeId, TypeInfo)>, n: nat)
    requires
        grown(Seq::empty(), known) == known,
    ensures
        n > 0 ==> consistent_within(known, n) == known,
    decreases n,
{
    if n > 1 {
        lemma_nothing_left(known, (n - 1) as nat);
        lemma_grown_full(known, known, known.len() as int);
        assert(known.take(known.len() as int) =~= known);
    } else if n == 1 {
        assert(consistent_within(known, 0) == Seq::<(ConcreteTypeId, TypeInfo)>::empty());
    }
}

/// Infos of types that are there are not added.
proof fn lemma_grown_full(
    infos: Seq<(ConcreteTypeId, TypeInfo)>,
    more: Seq<(ConcreteTypeId, TypeInfo)>,
    n: int,
)
    requires
        0 <= n <= more.len(),
        infos == more,
    ensures
        grown(infos, more.take(n)) == infos,
    decreases n,
{
    if n > 0 {
        lemma_grown_full(infos, more, n - 1);
        assert(more.take(n).drop_last() =~= more.take(n - 1));
        assert(more.take(n).last() == infos[n - 1]);
    }
}

/// An info of a type that nothing relies on agrees with all others, as long as its type has no other
/// info.
pub proof fn law_others_agree(
    infos: Seq<(ConcreteTypeId, TypeInfo)>,
    entry: (ConcreteTypeId, TypeInfo),
)
    requires
        !is_relied_on(generic_name(entry.1.long_id)),
        forall|i: int| 0 <= i < infos.len() ==> (#[trigger] infos[i]).0 != entry.0,
    ensures
        agrees(infos, entry),
{
}

/// Among consistent infos no type has two, those of integer types, of circuit inputs and of gates
/// are what specialization gives with the ones before them, and no two are of the same circuit
/// input.
pub proof fn law_consistent_infos_are_specialized(
    infos: Seq<(ConcreteTypeId, TypeInfo)>,
    i: int,
)
    requires
        consistent(infos),
        0 <= i < infos.len(),
    ensures
        ({
            let (id, info) = infos[i];
            let name = generic_name(info.long_id);
            &&& forall|j: int| 0 <= j < i ==> (#[trigger] infos[j]).0 != id
            &&& (name == "u8"@ || name == "u16"@ || name == "u32"@ || name == "u64"@ || name
                == "u128"@ || name == "i8"@ || name == "i16"@ || name == "i32"@ || name == "i64"@
                || name == "i128"@ || name == "BoundedInt"@ || name == "CircuitInput"@ || name
                == "AddModGate"@ || name == "SubModGate"@ || name == "MulModGate"@ || name
                == "InverseGate"@) ==> (specialized(infos.take(i), info.long_id) matches Some(
                given,
            ) && {
                &&& given.storable == info.storable
                &&& given.droppable == info.droppable
                &&& given.duplicatable == info.duplicatable
                &&& given.zero_sized == info.zero_sized
            })
            &&& name == "CircuitInput"@ ==> forall|j: int|
                0 <= j < i ==> !same_long_id((#[trigger] infos[j]).1.long_id, info.long_id)
        }),
{
    assert(agrees(infos.take(i), infos[i]));
    assert forall|j: int| 0 <= j < i implies (#[trigger] infos[j]).0 != infos[i].0 by {
        assert(infos.take(i)[j] == infos[j]);
    }
    if generic_name(infos[i].1.long_id) == "CircuitInput"@ {
        assert forall|j: int| 0 <= j < i implies !same_long_id(
            (#[trigger] infos[j]).1.long_id,
            infos[i].1.long_id,
        ) by {
            assert(infos.take(i)[j] == infos[j]);
        }
    }
}

// A database whose queries were answered beforehand.

/// Each query is answered from its own table, by the number of what is asked for, and by nothing
/// where the table has no entry.
pub proof fn law_database_answers(db: SierraGenDatabase, n: u64)
    ensures
        match db.concrete_type(ConcreteTypeId(n)) {
            Some(long_id) => db.concrete_types@.contains_pair(n, long_id),
            None => !db.concrete_types@.contains_key(n),
        },
        match db.sierra_function(FunctionId(n)) {
            Some(id) => db.sierra_functions@.contains_pair(n, id),
            None => !db.sierra_functions@.contains_key(n),
        },
        match db.type_of(TypeId(n)) {
            Some(id) => db.type_ids@.contains_pair(n, id),
            None => !db.type_ids@.contains_key(n),
        },
        match db.long_id_of(TypeId(n)) {
            Some(long_id) => db.long_ids@.contains_pair(n, long_id),
            None => !db.long_ids@.contains_key(n),
        },
        match db.breaker_info(TypeId(n)) {
            Some(info) => db.cycle_breakers@.contains_pair(n, info),
            None => !db.cycle_breakers@.contains_key(n),
        },
        match db.lowered_signature(LoweredFunctionId(n)) {
            Some(signature) => db.signatures@.contains_key(n) && db.signatures@[n]@ == signature,
            None => !db.signatures@.contains_key(n),
        },
        match db.implicits(LoweredFunctionId(n)) {
            Some(types) => db.implicits@.contains_key(n) && db.implicits@[n]@ == types,
            None => !db.implicits@.contains_key(n),
        },
        match db.may_panic(LoweredFunctionId(n)) {
            Some(may_panic) => db.may_panic@.contains_pair(n, may_panic),
            None => !db.may_panic@.contains_key(n),
        },
        db.unsafe_panic() == db.unsafe_panic,
        db.unit(TypeId(n)) <==> n == db.unit.0,
{
}

/// A type is specialized with the known infos that it may be specialized with. A constant whose
/// second argument of three is the largest number is not specialized.
pub proof fn law_database_specialization(db: SierraGenDatabase, long_id: ConcreteTypeLongId)
    ensures
        ({
            let args = value_args(long_id);
            let too_far = generic_name(long_id) == "Const"@ && args.len() == 3 && args[1] == Some(
                usize::MAX as u64,
            );
            &&& too_far ==> db.specialization(long_id) is None
            &&& !too_far ==> db.specialization(long_id) == specialized(
                infos_for(db.known@, long_id),
                long_id,
            )
        }),
{
}

} // verus!
