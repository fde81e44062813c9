//! The variables of a function and their places in the checkpoint memory.

use vstd::prelude::*;
use crate::body::LocalGroup;
use crate::types::{views, MigrateError, ValType};

verus! {

/// The address at which the number of the region to start from is stored.
pub const RESUMING_BLOCK_ADDR: u64 = 0;

/// How many bytes the number of the region to start from takes.
pub const RESUMING_BLOCK_SIZE: u64 = 4;

/// The types of the local variables that are declared in runs.
pub open spec fn expanded(groups: Seq<(u32, Seq<u8>)>) -> Seq<ValType>
    decreases groups.len(),
{
    if groups.len() == 0 {
        Seq::empty()
    } else {
        let (count, ty) = groups.last();
        expanded(groups.drop_last()) + Seq::new(count as nat, |i: int| ValType::of_encoding(ty))
    }
}

/// The parameters of the function number `func_index` among those that the
/// module defines.
pub open spec fn params_of(
    function_to_type: Seq<u32>,
    params: Seq<Seq<ValType>>,
    num_imports: u32,
    func_index: int,
) -> Result<Seq<ValType>, MigrateError> {
    let absolute = func_index + num_imports;
    if absolute >= function_to_type.len() || function_to_type[absolute] >= params.len() {
        Err(MigrateError::MissingType)
    } else {
        Ok(params[function_to_type[absolute] as int])
    }
}

/// Lists the types of the parameters and locals of a function that the module
/// defines.
pub fn get_params_and_locals(
    function_to_type: &Vec<u32>,
    params: &Vec<Vec<ValType>>,
    num_imports: u32,
    func_index: usize,
    groups: &Vec<LocalGroup>,
) -> (types: Result<Vec<ValType>, MigrateError>)
    ensures
        match (types, params_of(
            function_to_type@,
            views(params@),
            num_imports,
            func_index as int,
        )) {
            (Ok(found), Ok(param_types)) => found@ == param_types + expanded(views(groups@)),
            (Err(error), Err(expected)) => error == expected,
            _ => false,
        },
{
    if func_index >= function_to_type.len() || num_imports as usize >= function_to_type.len()
        - func_index {
        return Err(MigrateError::MissingType);
    }
    let type_index: usize = function_to_type[func_index + num_imports as usize] as usize;
    if type_index >= params.len() {
        return Err(MigrateError::MissingType);
    }
    let mut types = vstd::slice::slice_to_vec(params[type_index].as_slice());
    let ghost param_types = types@;
    let mut i: usize = 0;
    assert(views(groups@).take(0) =~= Seq::empty());
    assert(types@ =~= param_types + Seq::empty());
    while i < groups.len()
        invariant
            i <= groups@.len(),
            types@ == param_types + expanded(views(groups@).take(i as int)),
        decreases groups@.len() - i,
    {
        let ghost before = types@;
        let count: u32 = groups[i].count;
        let ty = ValType::from_encoding(&groups[i].ty);
        let mut n: u32 = 0;
        assert(types@ =~= before + Seq::new(0, |j: int| ty));
        while n < count
            invariant
                n <= count,
                types@ == before + Seq::new(n as nat, |j: int| ty),
            decreases count - n,
        {
            types.push(ty);
            n = n + 1;
            assert(types@ =~= before + Seq::new(n as nat, |j: int| ty));
        }
        proof {
            let all = views(groups@);
            assert(all.take(i + 1).drop_last() =~= all.take(i as int));
            assert(all.take(i + 1).last() == groups@[i as int]@);
            let run = Seq::new(count as nat, |j: int| ValType::of_encoding(groups@[i as int].ty@));
            assert(Seq::new(count as nat, |j: int| ty) =~= run);
            assert(types@ =~= param_types + (expanded(all.take(i as int)) + run));
        }
        i = i + 1;
    }
    assert(views(groups@).take(groups@.len() as int) =~= views(groups@));
    Ok(types)
}

/// How many bytes are set aside for a variable of this type. A value takes all of
/// them; for a reference, which is not checkpointed, as many as for an index.
pub open spec fn slot_size(ty: ValType) -> u64 {
    match ty {
        ValType::I32 => 4,
        ValType::I64 => 8,
        ValType::F32 => 4,
        ValType::F64 => 8,
        ValType::V128 => 16,
        ValType::Ref => 4,
    }
}

/// The sum of the slots of the first `count` variables.
pub open spec fn slots(types: Seq<ValType>, count: int) -> int
    decreases count,
{
    if count <= 0 {
        0
    } else {
        slots(types, count - 1) + slot_size(types[count - 1])
    }
}

/// The addresses of variables of these types that are stored one after the
/// other from `start` on.
pub open spec fn addresses(types: Seq<ValType>, start: int) -> Seq<u64> {
    Seq::new(types.len(), |i: int| (start + slots(types, i)) as u64)
}

/// The slots of a number of variables take at most sixteen bytes each.
pub proof fn lemma_slots_bounded(types: Seq<ValType>, count: int)
    requires
        0 <= count,
    ensures
        0 <= slots(types, count) <= 16 * count,
    decreases count,
{
    if count > 0 {
        lemma_slots_bounded(types, count - 1);
    }
}

/// Gives the slot of a variable.
pub fn size_of_slot(ty: ValType) -> (size: u64)
    ensures
        size == slot_size(ty),
{
    match ty {
        ValType::I32 => 4,
        ValType::I64 => 8,
        ValType::F32 => 4,
        ValType::F64 => 8,
        ValType::V128 => 16,
        ValType::Ref => 4,
    }
}

/// Assigns to each variable the address where its checkpoint will be stored,
/// and finds the first address behind.
pub fn assign_addresses(types: &Vec<ValType>, start: u64) -> (assigned: (Vec<u64>, u64))
    requires
        start <= 0x1_0000_0000_0000,
        types@.len() <= u32::MAX,
    ensures
        assigned.0@ == addresses(types@, start as int),
        assigned.1 == start + slots(types@, types@.len() as int),
        assigned.1 <= start + 16 * types@.len(),
{
    let mut list: Vec<u64> = Vec::new();
    let mut next_address: u64 = start;
    let mut i: usize = 0;
    while i < types.len()
        invariant
            i <= types@.len(),
            types@.len() <= u32::MAX,
            start <= 0x1_0000_0000_0000,
            next_address == start + slots(types@, i as int),
            list@ == addresses(types@, start as int).take(i as int),
        decreases types@.len() - i,
    {
        proof {
            lemma_slots_bounded(types@, i as int);
        }
        list.push(next_address);
        assert(list@ =~= addresses(types@, start as int).take(i + 1));
        next_address = next_address + size_of_slot(types[i]);
        i = i + 1;
    }
    proof {
        lemma_slots_bounded(types@, types@.len() as int);
        assert(addresses(types@, start as int).take(types@.len() as int) =~= addresses(
            types@,
            start as int,
        ));
    }
    (list, next_address)
}

/// The slots up to a variable are those up to one before it, and what lies between.
proof fn lemma_slots_ordered(types: Seq<ValType>, i: int, j: int)
    requires
        0 <= i < j,
    ensures
        slots(types, i) + slot_size(types[i]) <= slots(types, j),
    decreases j,
{
    if i + 1 < j {
        lemma_slots_ordered(types, i, j - 1);
    }
}

/// Each variable has its place for itself: it starts behind all of the places of
/// the variables before it, and none lies before the first one.
pub proof fn law_slots_disjoint(types: Seq<ValType>, start: int, i: int, j: int)
    requires
        0 <= start,
        start + 16 * types.len() <= u64::MAX,
        0 <= i < j < types.len(),
    ensures
        start <= addresses(types, start)[i],
        addresses(types, start)[i] + slot_size(types[i]) <= addresses(types, start)[j],
{
    lemma_slots_bounded(types, i);
    lemma_slots_bounded(types, j);
    lemma_slots_ordered(types, i, j);
}

/// A variable lies behind the start, and its place ends with the slots up to it.
pub proof fn lemma_slot_range(types: Seq<ValType>, start: int, i: int)
    requires
        0 <= start,
        start + 16 * types.len() <= u64::MAX,
        0 <= i < types.len(),
    ensures
        start <= addresses(types, start)[i],
        addresses(types, start)[i] + slot_size(types[i]) <= start + slots(
            types,
            types.len() as int,
        ),
{
    lemma_slots_bounded(types, i);
    lemma_slots_ordered(types, i, types.len() as int);
}

/// Variables lie one directly behind the other from the start on.
pub proof fn law_no_gaps(types: Seq<ValType>, start: int, i: int)
    requires
        0 <= start,
        start + 16 * types.len() <= u64::MAX,
        0 <= i < types.len(),
    ensures
        addresses(types, start).len() == types.len(),
        addresses(types, start)[0] == start,
        i + 1 < types.len() ==> addresses(types, start)[i + 1] == addresses(types, start)[i]
            + slot_size(types[i]),
        i + 1 == types.len() ==> start + slots(types, types.len() as int) == addresses(
            types,
            start,
        )[i] + slot_size(types[i]),
{
    lemma_slots_bounded(types, i);
    lemma_slots_bounded(types, i + 1);
}

} // verus!
