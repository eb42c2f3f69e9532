//! Taking structs apart and putting them together again within a block.
use cairo_lang_utils::ordered_hash_map::OrderedHashMap;
use vstd::prelude::*;

use crate::context::{same_but_variables, LoweringContext, Member};
use crate::generators::{
    constructed, destructured, emitted, fresh, fresh_ids, new_variables, requests_at, Emitted,
    StatementsBuilder, StructConstruct, StructDestructure,
};
use crate::ids::{ConcreteStructId, LocationId, MemberId, VariableId};
use crate::objects::VarUsage;
use crate::ordered::{collected, member_vars, member_vars_from};
use crate::types::Type;

verus! {

/// The ids of members, in their order.
pub open spec fn member_ids(members: Seq<Member>) -> Seq<MemberId> {
    members.map_values(|member: Member| member.id)
}

/// The types of members, in their order.
pub open spec fn member_types(members: Seq<Member>) -> Seq<Type> {
    members.map_values(|member: Member| member.ty)
}

/// The elements of two sequences, pair by pair.
pub open spec fn paired(ids: Seq<MemberId>, vars: Seq<VariableId>) -> Seq<(MemberId, VariableId)> {
    Seq::new(ids.len(), |k: int| (ids[k], vars[k]))
}

/// Usages of the given variables, all in one location.
pub open spec fn usages_at(vars: Seq<VariableId>, location: LocationId) -> Seq<VarUsage> {
    vars.map_values(|var_id: VariableId| VarUsage { var_id, location })
}

/// What is emitted once the struct in `value` was taken apart at `location`. The variables of the
/// members have the location of the struct's own variable, so that an error about a member that is
/// not dropped points there.
pub open spec fn deconstructed(
    emitted: Emitted,
    types: Seq<Type>,
    value: VariableId,
    location: LocationId,
) -> Emitted {
    destructured(
        emitted,
        VarUsage { var_id: value, location },
        new_variables(types, emitted.variables[value.0 as int].location),
    )
}

/// What is emitted once a struct was put together from its members at `location`.
pub open spec fn reconstructed(
    emitted: Emitted,
    concrete_struct_id: ConcreteStructId,
    members: Seq<VariableId>,
    location: LocationId,
) -> Emitted {
    constructed(
        emitted,
        usages_at(members, location),
        Type::Struct(concrete_struct_id),
        location,
    )
}

/// `itertools::zip_eq`: the elements of two sequences of the same length, pair by pair.
#[verifier::external_body]
fn zip_members(ids: Vec<MemberId>, vars: Vec<VariableId>) -> (res: Vec<(MemberId, VariableId)>)
    requires
        ids@.len() == vars@.len(),
    ensures
        res@ == paired(ids@, vars@),
{
    itertools::zip_eq(ids, vars).collect()
}

/// Takes structs apart and puts them together in a block, on behalf of one place in the source.
pub struct BlockStructRecomposer {
    pub location: LocationId,
}

impl BlockStructRecomposer {
    /// Takes a struct apart. Returns the variables of its members.
    pub fn deconstruct(
        &self,
        ctx: &mut LoweringContext,
        statements: &mut StatementsBuilder,
        concrete_struct_id: ConcreteStructId,
        value: VariableId,
    ) -> (res: OrderedHashMap<MemberId, VariableId>)
        requires
            old(ctx).db.members(concrete_struct_id) is Some,
            value.0 < old(ctx).variables@.len(),
        ensures
            ({
                let members = old(ctx).db.members(concrete_struct_id).unwrap();
                let before = emitted(*old(ctx), *old(statements));
                &&& member_vars(res) == collected(
                    paired(member_ids(members), fresh_ids(before, members.len())),
                )
                &&& emitted(*final(ctx), *final(statements)) == deconstructed(
                    before,
                    member_types(members),
                    value,
                    self.location,
                )
            }),
            same_but_variables(*old(ctx), *final(ctx)),
    {
        let members = ctx.db.concrete_struct_members(concrete_struct_id).unwrap();
        let mut ids: Vec<MemberId> = Vec::new();
        let mut types: Vec<Type> = Vec::new();
        let mut i: usize = 0;
        while i < members.len()
            invariant
                i <= members.len(),
                ids@ == member_ids(members@.take(i as int)),
                types@ == member_types(members@.take(i as int)),
            decreases members.len() - i,
        {
            ids.push(members[i].id);
            types.push(members[i].ty.clone());
            i = i + 1;
            assert(ids@ =~= member_ids(members@.take(i as int)));
            assert(types@ =~= member_types(members@.take(i as int)));
        }
        assert(members@.take(i as int) =~= members@);
        let member_values = self.deconstruct_by_types(ctx, statements, value, &types);
        member_vars_from(zip_members(ids, member_values))
    }

    /// Takes a value apart whose members have the given types. Returns their variables.
    pub fn deconstruct_by_types(
        &self,
        ctx: &mut LoweringContext,
        statements: &mut StatementsBuilder,
        value: VariableId,
        types: &Vec<Type>,
    ) -> (res: Vec<VariableId>)
        requires
            value.0 < old(ctx).variables@.len(),
        ensures
            res@ == fresh_ids(emitted(*old(ctx), *old(statements)), types@.len()),
            emitted(*final(ctx), *final(statements)) == deconstructed(
                emitted(*old(ctx), *old(statements)),
                types@,
                value,
                self.location,
            ),
            same_but_variables(*old(ctx), *final(ctx)),
    {
        let location = ctx.variables[value.0].location;
        let var_reqs = requests_at(types, location);
        StructDestructure {
            input: VarUsage { var_id: value, location: self.location },
            var_reqs,
        }.add(ctx, statements)
    }

    /// Puts a struct together from its members. Returns its variable.
    pub fn reconstruct(
        &self,
        ctx: &mut LoweringContext,
        statements: &mut StatementsBuilder,
        concrete_struct_id: ConcreteStructId,
        members: &Vec<VariableId>,
    ) -> (res: VariableId)
        ensures
            res == fresh(emitted(*old(ctx), *old(statements)), 0),
            emitted(*final(ctx), *final(statements)) == reconstructed(
                emitted(*old(ctx), *old(statements)),
                concrete_struct_id,
                members@,
                self.location,
            ),
            same_but_variables(*old(ctx), *final(ctx)),
    {
        let mut inputs: Vec<VarUsage> = Vec::new();
        let mut i: usize = 0;
        while i < members.len()
            invariant
                i <= members.len(),
                inputs@ == usages_at(members@.take(i as int), self.location),
            decreases members.len() - i,
        {
            inputs.push(VarUsage { var_id: members[i], location: self.location });
            i = i + 1;
            assert(inputs@ =~= usages_at(members@.take(i as int), self.location));
        }
        assert(members@.take(i as int) =~= members@);
        StructConstruct {
            inputs,
            ty: Type::Struct(concrete_struct_id),
            location: self.location,
        }.add(ctx, statements).var_id
    }

    /// The type of a variable.
    pub fn var_ty(&self, ctx: &LoweringContext, var: VariableId) -> (res: Type)
        requires
            var.0 < ctx.variables@.len(),
        ensures
            res == ctx.variables@[var.0 as int].ty,
    {
        ctx.variables[var.0].ty.clone()
    }
}

} // verus!
