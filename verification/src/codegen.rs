//! The code of a function with checkpoints.

use vstd::prelude::*;
use crate::encoder;
use crate::instruction::{Instruction, MemArg, NumType};
use crate::layout;
use crate::leb;
use crate::body::LocalGroup;
use crate::plan::{Plan, PlanView};
use crate::tree::{Inst, TreeNode};
use crate::types::{views, MigrateError, Operator};

verus! {

/// How many functions are added to the imports of a module.
pub const ADDED_FUNCTIONS: u32 = 2;

/// Where a value of the checkpoint memory is accessed, relative to its address.
pub open spec fn mem_arg(plan: PlanView) -> MemArg {
    MemArg { offset: 0, align: 2, memory_index: plan.memory_index }
}

/// The code that has the host restore the memories and then loads the number
/// of the region to resume from, which is zero if nothing is resumed.
pub open spec fn init_code(plan: PlanView, index_restore_memory: u32) -> Seq<Instruction> {
    seq![
        Instruction::Block,
        Instruction::Call(index_restore_memory),
        Instruction::I32Const(layout::RESUMING_BLOCK_ADDR as i32),
        Instruction::Load(NumType::I32, mem_arg(plan)),
        Instruction::LocalSet(plan.resuming_var()),
        Instruction::End,
    ]
}

/// The address and the type with which a local variable is loaded and stored.
pub open spec fn var_slot(plan: PlanView, var: u32) -> Result<(u64, NumType), MigrateError> {
    if var >= plan.types.len() {
        Err(MigrateError::UnknownVariable)
    } else {
        match NumType::of(plan.types[var as int]) {
            None => Err(MigrateError::ReferenceType),
            Some(ty) => Ok((plan.var_addresses()[var as int], ty)),
        }
    }
}

/// The address and the type with which a global variable is loaded and stored.
pub open spec fn global_slot(plan: PlanView, global: u32) -> Result<(u64, NumType), MigrateError> {
    if global >= plan.globals.len() {
        Err(MigrateError::UnknownGlobal)
    } else {
        match NumType::of(plan.globals[global as int].0) {
            None => Err(MigrateError::ReferenceType),
            Some(ty) => Ok((plan.global_addresses()[global as int], ty)),
        }
    }
}

/// The code that sets a local variable to its checkpointed value.
pub open spec fn load_var(plan: PlanView, var: u32) -> Result<Seq<Instruction>, MigrateError> {
    match var_slot(plan, var) {
        Err(error) => Err(error),
        Ok((address, ty)) => Ok(
            seq![
                Instruction::I32Const(address as i32),
                Instruction::Load(ty, mem_arg(plan)),
                Instruction::LocalSet(var),
            ],
        ),
    }
}

/// The code that sets a global variable to its checkpointed value.
pub open spec fn load_global(plan: PlanView, global: u32) -> Result<
    Seq<Instruction>,
    MigrateError,
> {
    match global_slot(plan, global) {
        Err(error) => Err(error),
        Ok((address, ty)) => Ok(
            seq![
                Instruction::I32Const(address as i32),
                Instruction::Load(ty, mem_arg(plan)),
                Instruction::GlobalSet(global),
            ],
        ),
    }
}

/// The code that checkpoints the value of a local variable.
pub open spec fn store_var(plan: PlanView, var: u32) -> Result<Seq<Instruction>, MigrateError> {
    match var_slot(plan, var) {
        Err(error) => Err(error),
        Ok((address, ty)) => Ok(
            seq![
                Instruction::I32Const(address as i32),
                Instruction::LocalGet(var),
                Instruction::Store(ty, mem_arg(plan)),
            ],
        ),
    }
}

/// The code that checkpoints the value of a global variable.
pub open spec fn store_global(plan: PlanView, global: u32) -> Result<
    Seq<Instruction>,
    MigrateError,
> {
    match global_slot(plan, global) {
        Err(error) => Err(error),
        Ok((address, ty)) => Ok(
            seq![
                Instruction::I32Const(address as i32),
                Instruction::GlobalGet(global),
                Instruction::Store(ty, mem_arg(plan)),
            ],
        ),
    }
}

/// One piece of code behind the other, if there are both.
pub open spec fn joined(
    first: Result<Seq<Instruction>, MigrateError>,
    second: Result<Seq<Instruction>, MigrateError>,
) -> Result<Seq<Instruction>, MigrateError> {
    match first {
        Err(error) => Err(error),
        Ok(code) => match second {
            Err(error) => Err(error),
            Ok(more) => Ok(code + more),
        },
    }
}

/// The code that restores local variables, the last of the list first.
pub open spec fn load_vars(plan: PlanView, vars: Seq<u32>) -> Result<
    Seq<Instruction>,
    MigrateError,
>
    decreases vars.len(),
{
    if vars.len() == 0 {
        Ok(Seq::empty())
    } else {
        joined(load_var(plan, vars.last()), load_vars(plan, vars.drop_last()))
    }
}

/// The code that restores global variables, the last of the list first.
pub open spec fn load_globals(plan: PlanView, globals: Seq<u32>) -> Result<
    Seq<Instruction>,
    MigrateError,
>
    decreases globals.len(),
{
    if globals.len() == 0 {
        Ok(Seq::empty())
    } else {
        joined(load_global(plan, globals.last()), load_globals(plan, globals.drop_last()))
    }
}

/// The code that checkpoints local variables, the first of the list first.
pub open spec fn store_vars(plan: PlanView, vars: Seq<u32>) -> Result<
    Seq<Instruction>,
    MigrateError,
>
    decreases vars.len(),
{
    if vars.len() == 0 {
        Ok(Seq::empty())
    } else {
        joined(store_vars(plan, vars.drop_last()), store_var(plan, vars.last()))
    }
}

/// The code that checkpoints global variables, the first of the list first.
pub open spec fn store_globals(plan: PlanView, globals: Seq<u32>) -> Result<
    Seq<Instruction>,
    MigrateError,
>
    decreases globals.len(),
{
    if globals.len() == 0 {
        Ok(Seq::empty())
    } else {
        joined(store_globals(plan, globals.drop_last()), store_global(plan, globals.last()))
    }
}

/// The test with which a restoration starts. It leaves the block if nothing is
/// resumed. Unless checkpoints are distributed, it leaves the block too if another
/// region than the one whose node has number `index` is to be started from.
pub open spec fn resume_test(plan: PlanView, index: usize, distributed: bool) -> Seq<Instruction> {
    let not_resuming = seq![
        Instruction::Block,
        Instruction::LocalGet(plan.resuming_var()),
        Instruction::I32Const(0),
        Instruction::I32Eq,
        Instruction::BrIf(0),
    ];
    if distributed {
        not_resuming
    } else {
        not_resuming + seq![
            Instruction::LocalGet(plan.resuming_var()),
            Instruction::I32Const(index as i32),
            Instruction::I32Ne,
            Instruction::BrIf(0),
        ]
    }
}

/// The code that restores the variables that were checkpointed at the end of
/// region number `k`, which stands in front of the region behind it.
pub open spec fn resume_code(plan: PlanView, k: int, distributed: bool) -> Result<
    Seq<Instruction>,
    MigrateError,
> {
    let test: Seq<Instruction> = resume_test(plan, plan.regions()[k + 1].index, distributed);
    let vars = load_vars(plan, plan.saved_vars(k, distributed));
    let globals = load_globals(plan, plan.saved_globals(k, distributed));
    joined(joined(joined(Ok(test), vars), globals), Ok(seq![Instruction::End]))
}

/// The code that checkpoints the variables of region number `k` and records that
/// the region behind it is the one to start from.
pub open spec fn save_code(plan: PlanView, k: int, distributed: bool) -> Result<
    Seq<Instruction>,
    MigrateError,
> {
    let vars = store_vars(plan, plan.saved_vars(k, distributed));
    let globals = store_globals(plan, plan.saved_globals(k, distributed));
    let record = seq![
        Instruction::I32Const(layout::RESUMING_BLOCK_ADDR as i32),
        Instruction::I32Const(plan.regions()[k + 1].index as i32),
        Instruction::Store(NumType::I32, mem_arg(plan)),
        Instruction::End,
    ];
    joined(joined(joined(Ok(seq![Instruction::Block]), vars), globals), Ok(record))
}

/// The code in front of the region whose node has number `index`. If the
/// region or nothing is resumed, it goes on with the region, otherwise it jumps
/// behind the enclosing block.
pub open spec fn jump_code(plan: PlanView, index: usize) -> Seq<Instruction> {
    seq![
        Instruction::Block,
        Instruction::LocalGet(plan.resuming_var()),
        Instruction::I32Const(index as i32),
        Instruction::I32Eq,
        Instruction::BrIf(0),
        Instruction::LocalGet(plan.resuming_var()),
        Instruction::I32Const(0),
        Instruction::I32Eq,
        Instruction::BrIf(0),
        Instruction::Br(1),
        Instruction::End,
    ]
}

/// The code that ends a resumption: from here on nothing is resumed.
pub open spec fn clear_code(plan: PlanView) -> Seq<Instruction> {
    seq![Instruction::I32Const(0), Instruction::LocalSet(plan.resuming_var())]
}

/// The index of a function after functions have been added behind the imported
/// ones.
pub open spec fn shifted(index: u32, num_imports: u32) -> Result<u32, MigrateError> {
    if index < num_imports {
        Ok(index)
    } else if index + ADDED_FUNCTIONS > u32::MAX {
        Err(MigrateError::IndexOverflow)
    } else {
        Ok((index + ADDED_FUNCTIONS) as u32)
    }
}

/// The instruction with the function that it calls or refers to at its new index.
pub open spec fn copied(inst: Inst, num_imports: u32) -> Result<Instruction, MigrateError> {
    match inst.op {
        Operator::Call(index) => match shifted(index, num_imports) {
            Err(error) => Err(error),
            Ok(new_index) => Ok(Instruction::Call(new_index)),
        },
        Operator::ReturnCall(index) => match shifted(index, num_imports) {
            Err(error) => Err(error),
            Ok(new_index) => Ok(Instruction::ReturnCall(new_index)),
        },
        Operator::RefFunc(index) => match shifted(index, num_imports) {
            Err(error) => Err(error),
            Ok(new_index) => Ok(Instruction::RefFunc(new_index)),
        },
        _ => Ok(Instruction::Original(inst.pos)),
    }
}

/// The instructions between two positions, both included, with the functions
/// that they call at their new indices.
pub open spec fn copied_between(
    insts: Seq<Inst>,
    start: usize,
    end: usize,
    num_imports: u32,
) -> Result<Seq<Instruction>, MigrateError>
    decreases insts.len(),
{
    if insts.len() == 0 {
        Ok(Seq::empty())
    } else {
        let before = copied_between(insts.drop_last(), start, end, num_imports);
        let inst = insts.last();
        if start <= inst.pos <= end {
            match before {
                Err(error) => Err(error),
                Ok(code) => match copied(inst, num_imports) {
                    Err(error) => Err(error),
                    Ok(instruction) => Ok(code.push(instruction)),
                },
            }
        } else {
            before
        }
    }
}

/// The code that asks the host whether to migrate and stops the execution if
/// so.
pub open spec fn migration_code(index_should_migrate: u32) -> Seq<Instruction> {
    seq![
        Instruction::Block,
        Instruction::Call(index_should_migrate),
        Instruction::I32Const(0),
        Instruction::I32Eq,
        Instruction::BrIf(0),
        Instruction::Unreachable,
        Instruction::End,
    ]
}

/// The code in front of region number `k`. All regions but the last are
/// enclosed in a block and jumped over when a later one is resumed from; where
/// one is entered, nothing is resumed from then on. All but the first restore the
/// variables that were saved behind the one before.
pub open spec fn region_head(plan: PlanView, k: int, distributed: bool) -> Result<
    Seq<Instruction>,
    MigrateError,
> {
    let last = k == plan.regions().len() - 1;
    let open: Result<Seq<Instruction>, MigrateError> = if last {
        Ok(Seq::empty())
    } else {
        Ok(seq![Instruction::Block])
    };
    let resume = if k == 0 {
        Ok(Seq::empty())
    } else {
        resume_code(plan, k - 1, distributed)
    };
    let jump: Result<Seq<Instruction>, MigrateError> = if last {
        Ok(Seq::empty())
    } else {
        Ok(jump_code(plan, plan.regions()[k].index) + clear_code(plan))
    };
    joined(joined(open, resume), jump)
}

/// The code behind region number `k`. All regions but the last are followed by
/// a checkpoint, the question whether to migrate, and the end of the block that
/// encloses them.
pub open spec fn region_tail(plan: PlanView, k: int, distributed: bool) -> Result<
    Seq<Instruction>,
    MigrateError,
> {
    if k == plan.regions().len() - 1 {
        Ok(Seq::empty())
    } else {
        joined(
            save_code(plan, k, distributed),
            Ok(migration_code(plan.num_imports) + seq![Instruction::End]),
        )
    }
}

/// The code of region number `k`.
pub open spec fn region_code(plan: PlanView, k: int, distributed: bool) -> Result<
    Seq<Instruction>,
    MigrateError,
> {
    let node = plan.regions()[k];
    let content = copied_between(plan.insts, node.start_inst, node.end_inst, plan.num_imports);
    joined(
        joined(region_head(plan, k, distributed), content),
        region_tail(plan, k, distributed),
    )
}

/// The code of the first `count` regions.
pub open spec fn regions_code(plan: PlanView, count: int, distributed: bool) -> Result<
    Seq<Instruction>,
    MigrateError,
>
    decreases count,
{
    if count <= 0 {
        Ok(Seq::empty())
    } else {
        joined(
            regions_code(plan, count - 1, distributed),
            region_code(plan, count - 1, distributed),
        )
    }
}

/// The code of the function with checkpoints.
pub open spec fn function_code(plan: PlanView, distributed: bool) -> Result<
    Seq<Instruction>,
    MigrateError,
> {
    if plan.num_imports + 1 > u32::MAX {
        Err(MigrateError::IndexOverflow)
    } else {
        let init: Seq<Instruction> = init_code(plan, (plan.num_imports + 1) as u32);
        joined(
            joined(Ok(init), regions_code(plan, plan.regions().len() as int, distributed)),
            Ok(seq![Instruction::End]),
        )
    }
}

/// The outcome is that of the specification.
pub open spec fn agrees(
    code: Result<Vec<Instruction>, MigrateError>,
    expected: Result<Seq<Instruction>, MigrateError>,
) -> bool {
    match (code, expected) {
        (Ok(found), Ok(view)) => found@ == view,
        (Err(error), Err(expected_error)) => error == expected_error,
        _ => false,
    }
}

/// Produces the code that has the host restore the memories and then loads the
/// number of the region to resume from.
pub fn initialize_resuming_block_var(plan: &Plan, index_restore_memory: u32) -> (code: Vec<
    Instruction,
>)
    requires
        plan.well_formed(),
    ensures
        code@ == init_code(plan@, index_restore_memory),
{
    let arg = MemArg { offset: 0, align: 2, memory_index: plan.checkpoint_memory_index };
    let code = vec![
        Instruction::Block,
        Instruction::Call(index_restore_memory),
        Instruction::I32Const(layout::RESUMING_BLOCK_ADDR as i32),
        Instruction::Load(NumType::I32, arg),
        Instruction::LocalSet(plan.resuming_block_var),
        Instruction::End,
    ];
    assert(code@ =~= init_code(plan@, index_restore_memory));
    code
}

/// Finds the address and the type with which a local variable is loaded and
/// stored.
fn find_var_slot(plan: &Plan, var: u32) -> (slot: Result<(u64, NumType), MigrateError>)
    requires
        plan.well_formed(),
    ensures
        slot == var_slot(plan@, var),
{
    broadcast use vstd::std_specs::hash::group_hash_axioms;

    let index: usize = var as usize;
    if index >= plan.params_and_locals.len() {
        return Err(MigrateError::UnknownVariable);
    }
    match NumType::from_val_type(plan.params_and_locals[index]) {
        None => Err(MigrateError::ReferenceType),
        Some(ty) => match plan.checkpoint_var_memory_mapping.get(&var) {
            Some(address) => Ok((*address, ty)),
            None => Err(MigrateError::UnknownVariable),
        },
    }
}

/// Finds the address and the type with which a global variable is loaded and
/// stored.
fn find_global_slot(plan: &Plan, global: u32) -> (slot: Result<(u64, NumType), MigrateError>)
    requires
        plan.well_formed(),
    ensures
        slot == global_slot(plan@, global),
{
    broadcast use vstd::std_specs::hash::group_hash_axioms;

    let index: usize = global as usize;
    if index >= plan.globals.len() {
        return Err(MigrateError::UnknownGlobal);
    }
    match NumType::from_val_type(plan.globals[index].0) {
        None => Err(MigrateError::ReferenceType),
        Some(ty) => match plan.checkpoint_global_memory_mapping.get(&global) {
            Some(address) => Ok((*address, ty)),
            None => Err(MigrateError::UnknownGlobal),
        },
    }
}

/// Selects the local variables that are checkpointed at the end of region
/// number `k`.
fn select_vars(plan: &Plan, k: usize, distributed: bool) -> (vars: Vec<u32>)
    requires
        plan.well_formed(),
        k < plan@.regions().len(),
    ensures
        vars@ == plan@.saved_vars(k as int, distributed),
{
    proof {
        assert(views(plan.modified_vars_set@).len() == plan@.written_vars().len());
        assert(views(plan.live_out_set_vars@).len() == plan@.live_vars().len());
        assert(views(plan.modified_vars_set@)[k as int] == plan@.written_vars()[k as int]);
        assert(views(plan.live_out_set_vars@)[k as int] == plan@.live_vars()[k as int]);
    }
    if distributed {
        vstd::slice::slice_to_vec(plan.modified_vars_set[k].as_slice())
    } else {
        vstd::slice::slice_to_vec(plan.live_out_set_vars[k].as_slice())
    }
}

/// Selects the global variables that are checkpointed at the end of region
/// number `k`.
fn select_globals(plan: &Plan, k: usize, distributed: bool) -> (globals: Vec<u32>)
    requires
        plan.well_formed(),
        k < plan@.regions().len(),
    ensures
        globals@ == plan@.saved_globals(k as int, distributed),
{
    proof {
        assert(views(plan.set_global_vars@).len() == plan@.written_globals().len());
        assert(views(plan.live_out_global_vars@).len() == plan@.live_globals().len());
        assert(views(plan.set_global_vars@)[k as int] == plan@.written_globals()[k as int]);
        assert(views(plan.live_out_global_vars@)[k as int] == plan@.live_globals()[k as int]);
    }
    if distributed {
        vstd::slice::slice_to_vec(plan.set_global_vars[k].as_slice())
    } else {
        vstd::slice::slice_to_vec(plan.live_out_global_vars[k].as_slice())
    }
}

/// Produces the code that restores local variables, the last of the list first.
fn restore_vars(plan: &Plan, vars: &Vec<u32>) -> (code: Result<Vec<Instruction>, MigrateError>)
    requires
        plan.well_formed(),
    ensures
        agrees(code, load_vars(plan@, vars@)),
{
    let arg = MemArg { offset: 0, align: 2, memory_index: plan.checkpoint_memory_index };
    let mut code: Vec<Instruction> = Vec::new();
    let mut left: usize = vars.len();
    proof {
        assert(vars@.take(left as int) =~= vars@);
        if let Ok(more) = load_vars(plan@, vars@) {
            assert(code@ + more =~= more);
        }
    }
    while left > 0
        invariant
            left <= vars@.len(),
            plan.well_formed(),
            arg == mem_arg(plan@),
            joined(Ok(code@), load_vars(plan@, vars@.take(left as int))) == load_vars(plan@, vars@),
        decreases left,
    {
        let ghost before = code@;
        left = left - 1;
        let var: u32 = vars[left];
        assert(vars@.take(left + 1).drop_last() =~= vars@.take(left as int));
        let (address, ty) = match find_var_slot(plan, var) {
            Ok(slot) => slot,
            Err(error) => return Err(error),
        };
        code.push(Instruction::I32Const(address as i32));
        code.push(Instruction::Load(ty, arg));
        code.push(Instruction::LocalSet(var));
        proof {
            let piece = seq![
                Instruction::I32Const(address as i32),
                Instruction::Load(ty, arg),
                Instruction::LocalSet(var),
            ];
            assert(load_var(plan@, var) == Ok::<Seq<Instruction>, MigrateError>(piece));
            if let Ok(rest) = load_vars(plan@, vars@.take(left as int)) {
                assert(before + (piece + rest) =~= code@ + rest);
            }
        }
    }
    assert(code@ + Seq::empty() =~= code@);
    Ok(code)
}

/// Produces the code that restores global variables, the last of the list
/// first.
fn restore_globals(plan: &Plan, globals: &Vec<u32>) -> (code: Result<
    Vec<Instruction>,
    MigrateError,
>)
    requires
        plan.well_formed(),
    ensures
        agrees(code, load_globals(plan@, globals@)),
{
    let arg = MemArg { offset: 0, align: 2, memory_index: plan.checkpoint_memory_index };
    let mut code: Vec<Instruction> = Vec::new();
    let mut left: usize = globals.len();
    proof {
        assert(globals@.take(left as int) =~= globals@);
        if let Ok(more) = load_globals(plan@, globals@) {
            assert(code@ + more =~= more);
        }
    }
    while left > 0
        invariant
            left <= globals@.len(),
            plan.well_formed(),
            arg == mem_arg(plan@),
            joined(Ok(code@), load_globals(plan@, globals@.take(left as int))) == load_globals(plan@, globals@),
        decreases left,
    {
        let ghost before = code@;
        left = left - 1;
        let global: u32 = globals[left];
        assert(globals@.take(left + 1).drop_last() =~= globals@.take(left as int));
        let (address, ty) = match find_global_slot(plan, global) {
            Ok(slot) => slot,
            Err(error) => return Err(error),
        };
        code.push(Instruction::I32Const(address as i32));
        code.push(Instruction::Load(ty, arg));
        code.push(Instruction::GlobalSet(global));
        proof {
            let piece = seq![
                Instruction::I32Const(address as i32),
                Instruction::Load(ty, arg),
                Instruction::GlobalSet(global),
            ];
            assert(load_global(plan@, global) == Ok::<Seq<Instruction>, MigrateError>(piece));
            if let Ok(rest) = load_globals(plan@, globals@.take(left as int)) {
                assert(before + (piece + rest) =~= code@ + rest);
            }
        }
    }
    assert(code@ + Seq::empty() =~= code@);
    Ok(code)
}

/// Produces the code that restores the variables that were checkpointed at the end
/// of region number `k`.
pub fn resume_modified_vars(plan: &Plan, k: usize, distributed: bool) -> (code: Result<
    Vec<Instruction>,
    MigrateError,
>)
    requires
        plan.well_formed(),
        k + 1 < plan@.regions().len(),
    ensures
        agrees(code, resume_code(plan@, k as int, distributed)),
{
    let count: usize = plan.regions.len();
    assert(k + 1 < count);
    let next_index: usize = plan.regions[k + 1].index;
    let mut code = vec![
        Instruction::Block,
        // If nothing is resumed, there is nothing to restore.
        Instruction::LocalGet(plan.resuming_block_var),
        Instruction::I32Const(0),
        Instruction::I32Eq,
        Instruction::BrIf(0),
    ];
    if !distributed {
        // If another region is to be started from, its variables are restored elsewhere.
        code.push(Instruction::LocalGet(plan.resuming_block_var));
        code.push(Instruction::I32Const(next_index as i32));
        code.push(Instruction::I32Ne);
        code.push(Instruction::BrIf(0));
    }
    assert(code@ =~= resume_test(plan@, next_index, distributed));
    let mut vars = match restore_vars(plan, &select_vars(plan, k, distributed)) {
        Ok(found) => found,
        Err(error) => return Err(error),
    };
    code.append(&mut vars);
    let mut globals = match restore_globals(plan, &select_globals(plan, k, distributed)) {
        Ok(found) => found,
        Err(error) => return Err(error),
    };
    code.append(&mut globals);
    let ghost with_globals = code@;
    code.push(Instruction::End);
    assert(code@ =~= with_globals + seq![Instruction::End]);
    Ok(code)
}

/// Produces the code that checkpoints local variables.
fn save_vars(plan: &Plan, vars: &Vec<u32>) -> (code: Result<Vec<Instruction>, MigrateError>)
    requires
        plan.well_formed(),
    ensures
        agrees(code, store_vars(plan@, vars@)),
{
    let arg = MemArg { offset: 0, align: 2, memory_index: plan.checkpoint_memory_index };
    let mut code: Vec<Instruction> = Vec::new();
    assert(vars@.take(0) =~= Seq::empty());
    let mut i: usize = 0;
    while i < vars.len()
        invariant
            i <= vars@.len(),
            plan.well_formed(),
            arg == mem_arg(plan@),
            store_vars(plan@, vars@.take(i as int)) == Ok::<Seq<Instruction>, MigrateError>(code@),
        decreases vars@.len() - i,
    {
        let ghost before = code@;
        let var: u32 = vars[i];
        assert(vars@.take(i + 1).drop_last() =~= vars@.take(i as int));
        let (address, ty) = match find_var_slot(plan, var) {
            Ok(slot) => slot,
            Err(error) => {
                proof {
                    lemma_store_vars_error(plan@, vars@, i + 1);
                }
                return Err(error);
            },
        };
        code.push(Instruction::I32Const(address as i32));
        code.push(Instruction::LocalGet(var));
        code.push(Instruction::Store(ty, arg));
        assert(code@ =~= before + seq![
            Instruction::I32Const(address as i32),
            Instruction::LocalGet(var),
            Instruction::Store(ty, arg),
        ]);
        i = i + 1;
    }
    assert(vars@.take(vars@.len() as int) =~= vars@);
    Ok(code)
}

/// Produces the code that checkpoints global variables.
fn save_globals(plan: &Plan, globals: &Vec<u32>) -> (code: Result<Vec<Instruction>, MigrateError>)
    requires
        plan.well_formed(),
    ensures
        agrees(code, store_globals(plan@, globals@)),
{
    let arg = MemArg { offset: 0, align: 2, memory_index: plan.checkpoint_memory_index };
    let mut code: Vec<Instruction> = Vec::new();
    assert(globals@.take(0) =~= Seq::empty());
    let mut i: usize = 0;
    while i < globals.len()
        invariant
            i <= globals@.len(),
            plan.well_formed(),
            arg == mem_arg(plan@),
            store_globals(plan@, globals@.take(i as int)) == Ok::<Seq<Instruction>, MigrateError>(
                code@,
            ),
        decreases globals@.len() - i,
    {
        let ghost before = code@;
        let global: u32 = globals[i];
        assert(globals@.take(i + 1).drop_last() =~= globals@.take(i as int));
        let (address, ty) = match find_global_slot(plan, global) {
            Ok(slot) => slot,
            Err(error) => {
                proof {
                    lemma_store_globals_error(plan@, globals@, i + 1);
                }
                return Err(error);
            },
        };
        code.push(Instruction::I32Const(address as i32));
        code.push(Instruction::GlobalGet(global));
        code.push(Instruction::Store(ty, arg));
        assert(code@ =~= before + seq![
            Instruction::I32Const(address as i32),
            Instruction::GlobalGet(global),
            Instruction::Store(ty, arg),
        ]);
        i = i + 1;
    }
    assert(globals@.take(globals@.len() as int) =~= globals@);
    Ok(code)
}

/// Produces the code that checkpoints the variables of region number `k` and
/// records that the region behind it is the one to start from.
pub fn checkpoint_live_out_vars(plan: &Plan, k: usize, distributed: bool) -> (code: Result<
    Vec<Instruction>,
    MigrateError,
>)
    requires
        plan.well_formed(),
        k + 1 < plan@.regions().len(),
    ensures
        agrees(code, save_code(plan@, k as int, distributed)),
{
    let arg = MemArg { offset: 0, align: 2, memory_index: plan.checkpoint_memory_index };
    let count: usize = plan.regions.len();
    assert(k + 1 < count);
    let next_index: usize = plan.regions[k + 1].index;
    let mut code = vec![Instruction::Block];
    assert(code@ =~= seq![Instruction::Block]);
    let mut vars = match save_vars(plan, &select_vars(plan, k, distributed)) {
        Ok(found) => found,
        Err(error) => return Err(error),
    };
    code.append(&mut vars);
    let mut globals = match save_globals(plan, &select_globals(plan, k, distributed)) {
        Ok(found) => found,
        Err(error) => return Err(error),
    };
    code.append(&mut globals);
    let ghost with_globals = code@;
    code.push(Instruction::I32Const(layout::RESUMING_BLOCK_ADDR as i32));
    code.push(Instruction::I32Const(next_index as i32));
    code.push(Instruction::Store(NumType::I32, arg));
    code.push(Instruction::End);
    assert(code@ =~= with_globals + seq![
        Instruction::I32Const(layout::RESUMING_BLOCK_ADDR as i32),
        Instruction::I32Const(next_index as i32),
        Instruction::Store(NumType::I32, arg),
        Instruction::End,
    ]);
    Ok(code)
}

/// The first local variable that cannot be stored decides on the error.
proof fn lemma_store_vars_error(plan: PlanView, vars: Seq<u32>, count: int)
    requires
        0 <= count <= vars.len(),
        store_vars(plan, vars.take(count)) is Err,
    ensures
        store_vars(plan, vars) == store_vars(plan, vars.take(count)),
    decreases vars.len() - count,
{
    if count < vars.len() {
        assert(vars.take(count + 1).drop_last() =~= vars.take(count));
        lemma_store_vars_error(plan, vars, count + 1);
    } else {
        assert(vars.take(count) =~= vars);
    }
}

/// The first global variable that cannot be stored decides on the error.
proof fn lemma_store_globals_error(plan: PlanView, globals: Seq<u32>, count: int)
    requires
        0 <= count <= globals.len(),
        store_globals(plan, globals.take(count)) is Err,
    ensures
        store_globals(plan, globals) == store_globals(plan, globals.take(count)),
    decreases globals.len() - count,
{
    if count < globals.len() {
        assert(globals.take(count + 1).drop_last() =~= globals.take(count));
        lemma_store_globals_error(plan, globals, count + 1);
    } else {
        assert(globals.take(count) =~= globals);
    }
}

/// Produces the code that jumps over the region whose node has number
/// `block_index` when a later one is resumed from.
pub fn jump_to_end(plan: &Plan, block_index: usize) -> (code: Vec<Instruction>)
    requires
        plan.well_formed(),
    ensures
        code@ == jump_code(plan@, block_index),
{
    let code = vec![
        Instruction::Block,
        // If this region is resumed, go on with it.
        Instruction::LocalGet(plan.resuming_block_var),
        Instruction::I32Const(block_index as i32),
        Instruction::I32Eq,
        Instruction::BrIf(0),
        // If nothing is resumed, go on with it too.
        Instruction::LocalGet(plan.resuming_block_var),
        Instruction::I32Const(0),
        Instruction::I32Eq,
        Instruction::BrIf(0),
        // Otherwise jump to the end of the region.
        Instruction::Br(1),
        Instruction::End,
    ];
    assert(code@ =~= jump_code(plan@, block_index));
    code
}

/// Produces the code that ends a resumption.
pub fn clear_resuming_block_var(plan: &Plan) -> (code: Vec<Instruction>)
    requires
        plan.well_formed(),
    ensures
        code@ == clear_code(plan@),
{
    let code = vec![
        Instruction::I32Const(0),
        Instruction::LocalSet(plan.resuming_block_var),
    ];
    assert(code@ =~= clear_code(plan@));
    code
}

/// Gives the index of a function after functions have been added behind the
/// imported ones.
pub fn shift_index(index: u32, num_imports: u32) -> (new_index: Result<u32, MigrateError>)
    ensures
        new_index == shifted(index, num_imports),
{
    if index < num_imports {
        Ok(index)
    } else if index > u32::MAX - ADDED_FUNCTIONS {
        Err(MigrateError::IndexOverflow)
    } else {
        Ok(index + ADDED_FUNCTIONS)
    }
}

/// Gives the instruction with the function that it calls at its new index.
pub fn copy_instruction(inst: Inst, num_imports: u32) -> (instruction: Result<
    Instruction,
    MigrateError,
>)
    ensures
        instruction == copied(inst, num_imports),
{
    match inst.op {
        Operator::Call(index) => match shift_index(index, num_imports) {
            Err(error) => Err(error),
            Ok(new_index) => Ok(Instruction::Call(new_index)),
        },
        Operator::ReturnCall(index) => match shift_index(index, num_imports) {
            Err(error) => Err(error),
            Ok(new_index) => Ok(Instruction::ReturnCall(new_index)),
        },
        Operator::RefFunc(index) => match shift_index(index, num_imports) {
            Err(error) => Err(error),
            Ok(new_index) => Ok(Instruction::RefFunc(new_index)),
        },
        _ => Ok(Instruction::Original(inst.pos)),
    }
}

/// The first instruction that cannot be copied decides on the error.
proof fn lemma_copied_between_error(
    insts: Seq<Inst>,
    start: usize,
    end: usize,
    num_imports: u32,
    count: int,
)
    requires
        0 <= count <= insts.len(),
        copied_between(insts.take(count), start, end, num_imports) is Err,
    ensures
        copied_between(insts, start, end, num_imports) == copied_between(
            insts.take(count),
            start,
            end,
            num_imports,
        ),
    decreases insts.len() - count,
{
    if count < insts.len() {
        assert(insts.take(count + 1).drop_last() =~= insts.take(count));
        lemma_copied_between_error(insts, start, end, num_imports, count + 1);
    } else {
        assert(insts.take(count) =~= insts);
    }
}

/// Copies the instructions between two positions, both included.
pub fn copy_between(insts: &Vec<Inst>, start: usize, end: usize, num_imports: u32) -> (code: Result<
    Vec<Instruction>,
    MigrateError,
>)
    ensures
        agrees(code, copied_between(insts@, start, end, num_imports)),
{
    let mut code: Vec<Instruction> = Vec::new();
    let mut i: usize = 0;
    assert(insts@.take(0) =~= Seq::empty());
    while i < insts.len()
        invariant
            i <= insts@.len(),
            copied_between(insts@.take(i as int), start, end, num_imports) == Ok::<
                Seq<Instruction>,
                MigrateError,
            >(code@),
        decreases insts@.len() - i,
    {
        let inst = insts[i];
        assert(insts@.take(i + 1).drop_last() =~= insts@.take(i as int));
        if start <= inst.pos && inst.pos <= end {
            match copy_instruction(inst, num_imports) {
                Ok(instruction) => code.push(instruction),
                Err(error) => {
                    proof {
                        lemma_copied_between_error(insts@, start, end, num_imports, i + 1);
                    }
                    return Err(error);
                },
            }
        }
        i = i + 1;
    }
    assert(insts@.take(insts@.len() as int) =~= insts@);
    Ok(code)
}

/// Produces the instructions of a region.
pub fn print_block_instructions(plan: &Plan, node: TreeNode) -> (code: Result<
    Vec<Instruction>,
    MigrateError,
>)
    ensures
        agrees(
            code,
            copied_between(plan@.insts, node.start_inst, node.end_inst, plan@.num_imports),
        ),
{
    copy_between(&plan.insts, node.start_inst, node.end_inst, plan.num_of_import_functions)
}

/// Produces the code in front of region number `k`.
fn encode_region_head(plan: &Plan, k: usize, distributed: bool) -> (code: Result<
    Vec<Instruction>,
    MigrateError,
>)
    requires
        plan.well_formed(),
        k < plan@.regions().len(),
    ensures
        agrees(code, region_head(plan@, k as int, distributed)),
{
    let is_last = k == plan.regions.len() - 1;
    let mut code: Vec<Instruction> = Vec::new();
    if !is_last {
        code.push(Instruction::Block);
        assert(code@ =~= seq![Instruction::Block]);
    }
    let mut resume: Vec<Instruction> = Vec::new();
    if k > 0 {
        resume = match resume_modified_vars(plan, k - 1, distributed) {
            Ok(found) => found,
            Err(error) => return Err(error),
        };
    }
    code.append(&mut resume);
    let mut jump: Vec<Instruction> = Vec::new();
    if !is_last {
        jump = jump_to_end(plan, plan.regions[k].index);
        let mut clear = clear_resuming_block_var(plan);
        jump.append(&mut clear);
    }
    code.append(&mut jump);
    Ok(code)
}

/// Produces the code behind region number `k`.
fn encode_region_tail(plan: &Plan, k: usize, distributed: bool) -> (code: Result<
    Vec<Instruction>,
    MigrateError,
>)
    requires
        plan.well_formed(),
        k < plan@.regions().len(),
    ensures
        agrees(code, region_tail(plan@, k as int, distributed)),
{
    if k == plan.regions.len() - 1 {
        let code: Vec<Instruction> = Vec::new();
        return Ok(code);
    }
    let mut code = match checkpoint_live_out_vars(plan, k, distributed) {
        Ok(found) => found,
        Err(error) => return Err(error),
    };
    let ghost saved = code@;
    code.push(Instruction::Block);
    code.push(Instruction::Call(plan.num_of_import_functions));
    code.push(Instruction::I32Const(0));
    code.push(Instruction::I32Eq);
    code.push(Instruction::BrIf(0));
    code.push(Instruction::Unreachable);
    code.push(Instruction::End);
    code.push(Instruction::End);
    assert(code@ =~= saved + (migration_code(plan@.num_imports) + seq![Instruction::End]));
    Ok(code)
}

/// Produces the code of region number `k`.
fn encode_region(plan: &Plan, k: usize, distributed: bool) -> (code: Result<
    Vec<Instruction>,
    MigrateError,
>)
    requires
        plan.well_formed(),
        k < plan@.regions().len(),
    ensures
        agrees(code, region_code(plan@, k as int, distributed)),
{
    let mut code = match encode_region_head(plan, k, distributed) {
        Ok(found) => found,
        Err(error) => return Err(error),
    };
    let mut content = match print_block_instructions(plan, plan.regions[k]) {
        Ok(found) => found,
        Err(error) => return Err(error),
    };
    code.append(&mut content);
    let mut tail = match encode_region_tail(plan, k, distributed) {
        Ok(found) => found,
        Err(error) => return Err(error),
    };
    code.append(&mut tail);
    Ok(code)
}

/// The first region whose code cannot be produced decides on the error.
proof fn lemma_regions_code_error(plan: PlanView, count: int, total: int, distributed: bool)
    requires
        0 <= count <= total,
        regions_code(plan, count, distributed) is Err,
    ensures
        regions_code(plan, total, distributed) == regions_code(plan, count, distributed),
    decreases total - count,
{
    if count < total {
        lemma_regions_code_error(plan, count + 1, total, distributed);
    }
}

/// Produces the code of all regions.
fn encode_regions(plan: &Plan, distributed: bool) -> (code: Result<Vec<Instruction>, MigrateError>)
    requires
        plan.well_formed(),
    ensures
        agrees(code, regions_code(plan@, plan@.regions().len() as int, distributed)),
{
    let mut code: Vec<Instruction> = Vec::new();
    let count: usize = plan.regions.len();
    let mut k: usize = 0;
    while k < count
        invariant
            k <= count,
            count == plan@.regions().len(),
            plan.well_formed(),
            regions_code(plan@, k as int, distributed) == Ok::<Seq<Instruction>, MigrateError>(
                code@,
            ),
        decreases count - k,
    {
        let mut region = match encode_region(plan, k, distributed) {
            Ok(found) => found,
            Err(error) => {
                proof {
                    lemma_regions_code_error(plan@, k + 1, count as int, distributed);
                }
                return Err(error);
            },
        };
        code.append(&mut region);
        k = k + 1;
    }
    Ok(code)
}

/// Produces the code of the function with checkpoints.
pub fn encode_target(plan: &Plan, distributed: bool) -> (code: Result<
    Vec<Instruction>,
    MigrateError,
>)
    requires
        plan.well_formed(),
    ensures
        agrees(code, function_code(plan@, distributed)),
{
    if plan.num_of_import_functions == u32::MAX {
        return Err(MigrateError::IndexOverflow);
    }
    let mut code = initialize_resuming_block_var(plan, plan.num_of_import_functions + 1);
    let mut regions = match encode_regions(plan, distributed) {
        Ok(found) => found,
        Err(error) => return Err(error),
    };
    code.append(&mut regions);
    let ghost with_regions = code@;
    code.push(Instruction::End);
    assert(code@ =~= with_regions + seq![Instruction::End]);
    Ok(code)
}

/// The encoding of an instruction of a function with this original body.
pub open spec fn encoded_instruction(body: Seq<u8>, instruction: Instruction) -> Result<
    Seq<u8>,
    MigrateError,
> {
    match instruction {
        Instruction::Original(pos) => if pos > body.len() {
            Err(MigrateError::OutOfBounds)
        } else {
            match encoder::reencoded_operator(body, pos as int) {
                None => Err(MigrateError::Reencode),
                Some(bytes) => Ok(bytes),
            }
        },
        _ => Ok(encoder::instruction_bytes(instruction)),
    }
}

/// The encodings of instructions one after the other.
pub open spec fn encoded_code(body: Seq<u8>, code: Seq<Instruction>) -> Result<
    Seq<u8>,
    MigrateError,
>
    decreases code.len(),
{
    if code.len() == 0 {
        Ok(Seq::empty())
    } else {
        match encoded_code(body, code.drop_last()) {
            Err(error) => Err(error),
            Ok(before) => match encoded_instruction(body, code.last()) {
                Err(error) => Err(error),
                Ok(bytes) => Ok(before + bytes),
            },
        }
    }
}

/// The declaration of runs of locals one after the other.
pub open spec fn encoded_groups(groups: Seq<(u32, Seq<u8>)>) -> Seq<u8>
    decreases groups.len(),
{
    if groups.len() == 0 {
        Seq::empty()
    } else {
        let (count, ty) = groups.last();
        encoded_groups(groups.drop_last()) + leb::uleb128(count as nat) + ty
    }
}

/// The declaration of the locals of a function.
pub open spec fn encoded_locals(groups: Seq<(u32, Seq<u8>)>) -> Seq<u8> {
    leb::uleb128(groups.len()) + encoded_groups(groups)
}

/// Encodes an instruction of a function with this original body.
pub fn encode_instruction(body: &[u8], instruction: Instruction) -> (bytes: Result<
    Vec<u8>,
    MigrateError,
>)
    ensures
        match (bytes, encoded_instruction(body@, instruction)) {
            (Ok(found), Ok(view)) => found@ == view,
            (Err(error), Err(expected)) => error == expected,
            _ => false,
        },
{
    match instruction {
        Instruction::Original(pos) => {
            if pos > body.len() {
                return Err(MigrateError::OutOfBounds);
            }
            match encoder::reencode_operator(body, pos) {
                Ok(bytes) => Ok(bytes),
                Err(_) => Err(MigrateError::Reencode),
            }
        },
        Instruction::Load(ty, arg) => Ok(encoder::encode_load(ty, arg)),
        Instruction::Store(ty, arg) => Ok(encoder::encode_store(ty, arg)),
        Instruction::Block
        | Instruction::End
        | Instruction::Br(_)
        | Instruction::BrIf(_)
        | Instruction::Call(_)
        | Instruction::ReturnCall(_)
        | Instruction::Unreachable => Ok(encoder::encode_control(instruction)),
        _ => Ok(encoder::encode_operand(instruction)),
    }
}

/// The first instruction that cannot be encoded decides on the error.
proof fn lemma_encoded_code_error(body: Seq<u8>, code: Seq<Instruction>, count: int)
    requires
        0 <= count <= code.len(),
        encoded_code(body, code.take(count)) is Err,
    ensures
        encoded_code(body, code) == encoded_code(body, code.take(count)),
    decreases code.len() - count,
{
    if count < code.len() {
        assert(code.take(count + 1).drop_last() =~= code.take(count));
        lemma_encoded_code_error(body, code, count + 1);
    } else {
        assert(code.take(count) =~= code);
    }
}

/// Encodes instructions one after the other.
pub fn encode_instructions(body: &[u8], code: &Vec<Instruction>) -> (bytes: Result<
    Vec<u8>,
    MigrateError,
>)
    ensures
        match (bytes, encoded_code(body@, code@)) {
            (Ok(found), Ok(view)) => found@ == view,
            (Err(error), Err(expected)) => error == expected,
            _ => false,
        },
{
    let mut bytes: Vec<u8> = Vec::new();
    let mut i: usize = 0;
    assert(code@.take(0) =~= Seq::empty());
    while i < code.len()
        invariant
            i <= code@.len(),
            encoded_code(body@, code@.take(i as int)) == Ok::<Seq<u8>, MigrateError>(bytes@),
        decreases code@.len() - i,
    {
        assert(code@.take(i + 1).drop_last() =~= code@.take(i as int));
        match encode_instruction(body, code[i]) {
            Ok(mut more) => {
                bytes.append(&mut more);
            },
            Err(error) => {
                proof {
                    lemma_encoded_code_error(body@, code@, i + 1);
                }
                return Err(error);
            },
        }
        i = i + 1;
    }
    assert(code@.take(code@.len() as int) =~= code@);
    Ok(bytes)
}

/// Encodes the declaration of the locals of a function, if their runs can be
/// counted.
pub fn encode_locals(groups: &Vec<LocalGroup>) -> (bytes: Option<Vec<u8>>)
    ensures
        bytes is Some == (groups@.len() <= u32::MAX),
        bytes matches Some(found) ==> found@ == encoded_locals(views(groups@)),
{
    if groups.len() > 0xffff_ffff {
        return None;
    }
    let mut bytes = leb::encode_u32(groups.len() as u32);
    let ghost header = bytes@;
    let ghost all = views(groups@);
    let mut i: usize = 0;
    assert(all.take(0) =~= Seq::empty());
    assert(bytes@ =~= header + Seq::empty());
    while i < groups.len()
        invariant
            i <= groups@.len(),
            all == views(groups@),
            bytes@ == header + encoded_groups(all.take(i as int)),
        decreases groups@.len() - i,
    {
        let ghost before = bytes@;
        let mut count = leb::encode_u32(groups[i].count);
        let ghost count_bytes = count@;
        let mut ty = vstd::slice::slice_to_vec(groups[i].ty.as_slice());
        bytes.append(&mut count);
        bytes.append(&mut ty);
        proof {
            assert(all.take(i + 1).drop_last() =~= all.take(i as int));
            assert(all.take(i + 1).last() == groups@[i as int]@);
            let done = encoded_groups(all.take(i as int));
            assert(bytes@ =~= header + (done + count_bytes + groups@[i as int].ty@));
        }
        i = i + 1;
    }
    assert(all.take(groups@.len() as int) =~= all);
    Some(bytes)
}

/// Functions keep their order at their new indices. Imported functions keep
/// their indices, and no function gets the index of one that the host provides.
pub proof fn law_shifted(first: u32, second: u32, num_imports: u32)
    ensures
        first < num_imports ==> shifted(first, num_imports) == Ok::<u32, MigrateError>(first),
        shifted(first, num_imports) matches Ok(index) ==> index < num_imports || index
            >= num_imports + ADDED_FUNCTIONS,
        match (shifted(first, num_imports), shifted(second, num_imports)) {
            (Ok(a), Ok(b)) => (first < second) == (a < b),
            _ => true,
        },
{
}

} // verus!
