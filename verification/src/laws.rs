//! Laws of checkpoint and restore.

use vstd::prelude::*;
use crate::balance;
use crate::codegen;
use crate::instruction::{Instruction, NumType};
use crate::layout;
use crate::machine;
use crate::machine::{Machine, Value};
use crate::partition;
use crate::plan;
use crate::plan::{FunctionContext, PlanView};
use crate::tree;
use crate::tree::Inst;
use crate::types::MigrateError;

verus! {

/// The local and global variables of a function have values of their types.
pub open spec fn typed(plan: PlanView, m: Machine) -> bool {
    &&& forall|v: u32|
        #![trigger m.locals[v]]
        v < plan.types.len() && NumType::of(plan.types[v as int]) is Some ==> m.locals.dom().contains(
            v,
        ) && Some(m.locals[v].ty) == NumType::of(plan.types[v as int]) && machine::fits(m.locals[v])
    &&& forall|g: u32|
        #![trigger m.globals[g]]
        g < plan.globals.len() && NumType::of(plan.globals[g as int].0) is Some
            ==> m.globals.dom().contains(g) && Some(m.globals[g].ty) == NumType::of(
            plan.globals[g as int].0,
        ) && machine::fits(m.globals[g])
    &&& m.locals.dom().contains(plan.resuming_var())
    &&& m.locals[plan.resuming_var()].ty == NumType::I32
}

/// All variables have room in a checkpoint memory of this size.
pub open spec fn has_room(plan: PlanView, size: nat) -> bool {
    &&& 4 <= size <= i32::MAX
    &&& forall|v: u32|
        (#[trigger] codegen::var_slot(plan, v)) matches Ok((address, ty)) ==> address + ty.width()
            <= size
    &&& forall|g: u32|
        (#[trigger] codegen::global_slot(plan, g)) matches Ok((address, ty)) ==> address
            + ty.width() <= size
}

/// The memory after local variables have been stored.
pub open spec fn with_vars(
    plan: PlanView,
    locals: Map<u32, Value>,
    vars: Seq<u32>,
    memory: Seq<u8>,
) -> Seq<u8>
    decreases vars.len(),
{
    if vars.len() == 0 {
        memory
    } else {
        let before = with_vars(plan, locals, vars.drop_last(), memory);
        match codegen::var_slot(plan, vars.last()) {
            Err(_) => before,
            Ok((address, ty)) => machine::write(
                before,
                address as int,
                machine::to_bytes(locals[vars.last()].bits, ty.width()),
            ),
        }
    }
}

/// The memory after global variables have been stored.
pub open spec fn with_globals(
    plan: PlanView,
    globals: Map<u32, Value>,
    list: Seq<u32>,
    memory: Seq<u8>,
) -> Seq<u8>
    decreases list.len(),
{
    if list.len() == 0 {
        memory
    } else {
        let before = with_globals(plan, globals, list.drop_last(), memory);
        match codegen::global_slot(plan, list.last()) {
            Err(_) => before,
            Ok((address, ty)) => machine::write(
                before,
                address as int,
                machine::to_bytes(globals[list.last()].bits, ty.width()),
            ),
        }
    }
}

/// The checkpoint memory after the checkpoint at the end of region number `k`:
/// the local variables, then the global ones, then the number of the next region.
pub open spec fn checkpointed(plan: PlanView, k: int, distributed: bool, m: Machine) -> Seq<u8> {
    let vars = with_vars(plan, m.locals, plan.saved_vars(k, distributed), m.memory);
    let globals = with_globals(plan, m.globals, plan.saved_globals(k, distributed), vars);
    machine::write(
        globals,
        layout::RESUMING_BLOCK_ADDR as int,
        machine::to_bytes(plan.regions()[k + 1].index as nat, 4),
    )
}

/// Three instructions one after the other.
proof fn lemma_run_three(
    plan: PlanView,
    m: Machine,
    a: Instruction,
    b: Instruction,
    c: Instruction,
)
    ensures
        machine::run(plan, m, seq![a, b, c]) == machine::step(
            plan,
            machine::step(plan, machine::step(plan, m, a), b),
            c,
        ),
{
    assert(seq![a, b, c] =~= seq![a] + (seq![b] + seq![c]));
    machine::lemma_run_first(plan, m, a, seq![b] + seq![c]);
    machine::lemma_run_first(plan, machine::step(plan, m, a), b, seq![c]);
    machine::lemma_run_one(plan, machine::step(plan, machine::step(plan, m, a), b), c);
}

/// The code for a local variable stores its value.
proof fn lemma_store_var(plan: PlanView, m: Machine, var: u32)
    requires
        m.running(),
        typed(plan, m),
        has_room(plan, m.memory.len()),
        codegen::store_var(plan, var) is Ok,
    ensures
        machine::run(plan, m, codegen::store_var(plan, var)->Ok_0) == (Machine {
            memory: with_vars(plan, m.locals, seq![var], m.memory),
            ..m
        }),
{
    let (address, ty) = codegen::var_slot(plan, var)->Ok_0;
    let a = Instruction::I32Const(address as i32);
    let b = Instruction::LocalGet(var);
    let c = Instruction::Store(ty, codegen::mem_arg(plan));
    lemma_run_three(plan, m, a, b, c);
    let value = m.locals[var];
    let m1 = machine::step(plan, m, a);
    let m2 = machine::step(plan, m1, b);
    assert(machine::i32_bits(address as i32) == address);
    assert(m2.stack =~= m.stack.push(machine::i32_value(address as nat)).push(value));
    assert(m2.pop().stack =~= m.stack.push(machine::i32_value(address as nat)));
    assert(m2.pop().pop().stack =~= m.stack);
    assert(seq![var].drop_last() =~= Seq::empty());
    assert(with_vars(plan, m.locals, seq![var].drop_last(), m.memory) == m.memory);
    assert(machine::step(plan, m2, c) =~= Machine {
        memory: with_vars(plan, m.locals, seq![var], m.memory),
        ..m
    });
}

/// The code for a global variable stores its value.
proof fn lemma_store_global(plan: PlanView, m: Machine, global: u32)
    requires
        m.running(),
        typed(plan, m),
        has_room(plan, m.memory.len()),
        codegen::store_global(plan, global) is Ok,
    ensures
        machine::run(plan, m, codegen::store_global(plan, global)->Ok_0) == (Machine {
            memory: with_globals(plan, m.globals, seq![global], m.memory),
            ..m
        }),
{
    let (address, ty) = codegen::global_slot(plan, global)->Ok_0;
    let a = Instruction::I32Const(address as i32);
    let b = Instruction::GlobalGet(global);
    let c = Instruction::Store(ty, codegen::mem_arg(plan));
    lemma_run_three(plan, m, a, b, c);
    let value = m.globals[global];
    let m1 = machine::step(plan, m, a);
    let m2 = machine::step(plan, m1, b);
    assert(machine::i32_bits(address as i32) == address);
    assert(m2.stack =~= m.stack.push(machine::i32_value(address as nat)).push(value));
    assert(m2.pop().stack =~= m.stack.push(machine::i32_value(address as nat)));
    assert(m2.pop().pop().stack =~= m.stack);
    assert(seq![global].drop_last() =~= Seq::empty());
    assert(with_globals(plan, m.globals, seq![global].drop_last(), m.memory) == m.memory);
    assert(machine::step(plan, m2, c) =~= Machine {
        memory: with_globals(plan, m.globals, seq![global], m.memory),
        ..m
    });
}

/// The code for a list of local variables stores their values.
proof fn lemma_store_vars(plan: PlanView, m: Machine, vars: Seq<u32>)
    requires
        m.running(),
        typed(plan, m),
        has_room(plan, m.memory.len()),
        codegen::store_vars(plan, vars) is Ok,
    ensures
        machine::run(plan, m, codegen::store_vars(plan, vars)->Ok_0) == (Machine {
            memory: with_vars(plan, m.locals, vars, m.memory),
            ..m
        }),
        with_vars(plan, m.locals, vars, m.memory).len() == m.memory.len(),
    decreases vars.len(),
{
    if vars.len() > 0 {
        let init = vars.drop_last();
        lemma_store_vars(plan, m, init);
        let first = codegen::store_vars(plan, init)->Ok_0;
        let last = codegen::store_var(plan, vars.last())->Ok_0;
        machine::lemma_run_concat(plan, m, first, last);
        let m1 = machine::run(plan, m, first);
        lemma_store_var(plan, m1, vars.last());
        let (address, ty) = codegen::var_slot(plan, vars.last())->Ok_0;
        assert(seq![vars.last()].drop_last() =~= Seq::empty());
        assert(with_vars(plan, m1.locals, seq![vars.last()].drop_last(), m1.memory) == m1.memory);
        assert(machine::run(plan, m1, last) =~= Machine {
            memory: with_vars(plan, m.locals, vars, m.memory),
            ..m
        });
    }
}

/// The code for a list of global variables stores their values.
proof fn lemma_store_globals(plan: PlanView, m: Machine, list: Seq<u32>)
    requires
        m.running(),
        typed(plan, m),
        has_room(plan, m.memory.len()),
        codegen::store_globals(plan, list) is Ok,
    ensures
        machine::run(plan, m, codegen::store_globals(plan, list)->Ok_0) == (Machine {
            memory: with_globals(plan, m.globals, list, m.memory),
            ..m
        }),
        with_globals(plan, m.globals, list, m.memory).len() == m.memory.len(),
    decreases list.len(),
{
    if list.len() > 0 {
        let init = list.drop_last();
        lemma_store_globals(plan, m, init);
        let first = codegen::store_globals(plan, init)->Ok_0;
        let last = codegen::store_global(plan, list.last())->Ok_0;
        machine::lemma_run_concat(plan, m, first, last);
        let m1 = machine::run(plan, m, first);
        lemma_store_global(plan, m1, list.last());
        assert(seq![list.last()].drop_last() =~= Seq::empty());
        assert(with_globals(plan, m1.globals, seq![list.last()].drop_last(), m1.memory)
            == m1.memory);
        assert(machine::run(plan, m1, last) =~= Machine {
            memory: with_globals(plan, m.globals, list, m.memory),
            ..m
        });
    }
}

/// The number of the node of a region fits in 32 bits and is not zero.
pub open spec fn numbered(plan: PlanView, k: int) -> bool {
    1 <= plan.regions()[k].index <= i32::MAX
}

/// The code that records the number of a region stores it at the address for
/// it.
proof fn lemma_record(plan: PlanView, m: Machine, index: usize)
    requires
        m.running(),
        4 <= m.memory.len(),
        1 <= index <= i32::MAX,
    ensures
        machine::run(
            plan,
            m,
            seq![
                Instruction::I32Const(layout::RESUMING_BLOCK_ADDR as i32),
                Instruction::I32Const(index as i32),
                Instruction::Store(NumType::I32, codegen::mem_arg(plan)),
                Instruction::End,
            ],
        ) == (Machine {
            memory: machine::write(
                m.memory,
                layout::RESUMING_BLOCK_ADDR as int,
                machine::to_bytes(index as nat, 4),
            ),
            ..m
        }),
{
    let a = Instruction::I32Const(layout::RESUMING_BLOCK_ADDR as i32);
    let b = Instruction::I32Const(index as i32);
    let c = Instruction::Store(NumType::I32, codegen::mem_arg(plan));
    let d = Instruction::End;
    assert(seq![a, b, c, d] =~= seq![a, b, c] + seq![d]);
    machine::lemma_run_concat(plan, m, seq![a, b, c], seq![d]);
    lemma_run_three(plan, m, a, b, c);
    let m2 = machine::step(plan, machine::step(plan, m, a), b);
    assert(m2.pop().stack =~= m.stack.push(machine::i32_value(0)));
    assert(m2.pop().pop().stack =~= m.stack);
    let m3 = machine::step(plan, m2, c);
    machine::lemma_run_one(plan, m3, d);
    assert(m3 =~= Machine {
        memory: machine::write(
            m.memory,
            layout::RESUMING_BLOCK_ADDR as int,
            machine::to_bytes(index as nat, 4),
        ),
        ..m
    });
}

/// A checkpoint changes nothing but the checkpoint memory: the variables and
/// the operands stay as they are, and the execution goes on.
pub proof fn law_checkpoint_changes_only_memory(
    plan: PlanView,
    k: int,
    distributed: bool,
    m: Machine,
)
    requires
        0 <= k < plan.regions().len() - 1,
        numbered(plan, k + 1),
        m.running(),
        typed(plan, m),
        has_room(plan, m.memory.len()),
        codegen::save_code(plan, k, distributed) is Ok,
    ensures
        machine::run(plan, m, codegen::save_code(plan, k, distributed)->Ok_0) == (Machine {
            memory: checkpointed(plan, k, distributed, m),
            ..m
        }),
        checkpointed(plan, k, distributed, m).len() == m.memory.len(),
{
    let vars = plan.saved_vars(k, distributed);
    let list = plan.saved_globals(k, distributed);
    let open = seq![Instruction::Block];
    let first = codegen::store_vars(plan, vars)->Ok_0;
    let second = codegen::store_globals(plan, list)->Ok_0;
    let record = seq![
        Instruction::I32Const(layout::RESUMING_BLOCK_ADDR as i32),
        Instruction::I32Const(plan.regions()[k + 1].index as i32),
        Instruction::Store(NumType::I32, codegen::mem_arg(plan)),
        Instruction::End,
    ];
    let code = codegen::save_code(plan, k, distributed)->Ok_0;
    assert(code == open + first + second + record);
    machine::lemma_run_concat(plan, m, open + first + second, record);
    machine::lemma_run_concat(plan, m, open + first, second);
    machine::lemma_run_concat(plan, m, open, first);
    machine::lemma_run_one(plan, m, Instruction::Block);
    lemma_store_vars(plan, m, vars);
    let m1 = machine::run(plan, m, first);
    lemma_store_globals(plan, m1, list);
    let m2 = machine::run(plan, m1, second);
    lemma_record(plan, m2, plan.regions()[k + 1].index);
    assert(machine::run(plan, m2, record) =~= Machine {
        memory: checkpointed(plan, k, distributed, m),
        ..m
    });
}

/// Bytes that are written at an address are read there.
proof fn lemma_read_written(memory: Seq<u8>, address: int, bits: nat, width: nat)
    requires
        0 <= address,
        address + width <= memory.len(),
        bits < machine::limit(width),
    ensures
        machine::read(
            machine::write(memory, address, machine::to_bytes(bits, width)),
            address,
            width,
        ) == bits,
{
    machine::lemma_bytes_roundtrip(bits, width);
    let bytes = machine::to_bytes(bits, width);
    assert(machine::write(memory, address, bytes).subrange(address, address + width) =~= bytes);
}

/// Bytes that are written elsewhere do not matter.
proof fn lemma_read_elsewhere(
    memory: Seq<u8>,
    address: int,
    bytes: Seq<u8>,
    other: int,
    width: nat,
)
    requires
        0 <= other,
        other + width <= memory.len(),
        other + width <= address || address + bytes.len() <= other,
    ensures
        machine::read(machine::write(memory, address, bytes), other, width) == machine::read(
            memory,
            other,
            width,
        ),
{
    assert(machine::write(memory, address, bytes).subrange(other, other + width)
        =~= memory.subrange(other, other + width));
}

/// The checkpoint records the number of the region to start from, which is the one
/// behind the completed region.
pub proof fn law_checkpoint_records_region(
    plan: PlanView,
    k: int,
    distributed: bool,
    m: Machine,
)
    requires
        0 <= k < plan.regions().len() - 1,
        numbered(plan, k + 1),
        m.running(),
        typed(plan, m),
        has_room(plan, m.memory.len()),
        codegen::save_code(plan, k, distributed) is Ok,
    ensures
        machine::read(
            machine::run(plan, m, codegen::save_code(plan, k, distributed)->Ok_0).memory,
            layout::RESUMING_BLOCK_ADDR as int,
            4,
        ) == plan.regions()[k + 1].index,
{
    law_checkpoint_changes_only_memory(plan, k, distributed, m);
    lemma_limits();
    let vars = with_vars(plan, m.locals, plan.saved_vars(k, distributed), m.memory);
    let globals = with_globals(plan, m.globals, plan.saved_globals(k, distributed), vars);
    assert(globals.len() == m.memory.len());
    lemma_read_written(globals, 0, plan.regions()[k + 1].index as nat, 4);
}

/// Four bytes hold all integers of 32 bits.
proof fn lemma_limits()
    ensures
        machine::limit(4) == 0x1_0000_0000,
{
    reveal_with_fuel(machine::limit, 5);
}

/// The slots of two variables have no byte in common.
pub open spec fn apart(first: (u64, NumType), second: (u64, NumType)) -> bool {
    first.0 + first.1.width() <= second.0 || second.0 + second.1.width() <= first.0
}

/// The slot lies behind the number of the region.
pub open spec fn behind_number(slot: (u64, NumType)) -> bool {
    slot.0 >= layout::RESUMING_BLOCK_ADDR + 4
}

/// The slot is apart from those of a list of local variables.
pub open spec fn apart_from_vars(plan: PlanView, slot: (u64, NumType), vars: Seq<u32>) -> bool {
    forall|i: int|
        0 <= i < vars.len() ==> ((#[trigger] codegen::var_slot(plan, vars[i])) matches Ok(other)
            ==> apart(slot, other))
}

/// The slot is apart from those of a list of global variables.
pub open spec fn apart_from_globals(plan: PlanView, slot: (u64, NumType), list: Seq<u32>) -> bool {
    forall|i: int|
        0 <= i < list.len() ==> ((#[trigger] codegen::global_slot(plan, list[i])) matches Ok(other)
            ==> apart(slot, other))
}

/// All variables have indices and addresses.
pub open spec fn sized(plan: PlanView) -> bool {
    plan.types.len() < u32::MAX && plan.globals.len() <= u32::MAX
}

/// Each variable has its place for itself, behind the number of the region.
pub proof fn law_places_apart(plan: PlanView)
    requires
        sized(plan),
    ensures
        forall|a: u32|
            (#[trigger] codegen::var_slot(plan, a)) matches Ok(slot) ==> behind_number(slot),
        forall|a: u32|
            (#[trigger] codegen::global_slot(plan, a)) matches Ok(slot) ==> behind_number(slot),
        forall|a: u32, b: u32|
            a != b ==> ((#[trigger] codegen::var_slot(plan, a)) matches Ok(first) ==> ((
            #[trigger] codegen::var_slot(plan, b)) matches Ok(second) ==> apart(first, second))),
        forall|a: u32, b: u32|
            a != b ==> ((#[trigger] codegen::global_slot(plan, a)) matches Ok(first) ==> ((
            #[trigger] codegen::global_slot(plan, b)) matches Ok(second) ==> apart(first, second))),
        forall|a: u32, b: u32|
            (#[trigger] codegen::var_slot(plan, a)) matches Ok(first) ==> ((
            #[trigger] codegen::global_slot(plan, b)) matches Ok(second) ==> apart(first, second)),
{
    let start = layout::RESUMING_BLOCK_ADDR + layout::RESUMING_BLOCK_SIZE;
    let behind = start + layout::slots(plan.types, plan.types.len() as int);
    let global_types = plan.global_types();
    layout::lemma_slots_bounded(plan.types, plan.types.len() as int);
    assert forall|a: u32| (#[trigger] codegen::var_slot(plan, a)) is Ok implies (
    codegen::var_slot(plan, a) matches Ok(slot) && behind_number(slot) && slot.0 + slot.1.width()
        <= behind) by {
        layout::lemma_slot_range(plan.types, start, a as int);
    }
    assert forall|a: u32| (#[trigger] codegen::global_slot(plan, a)) is Ok implies (
    codegen::global_slot(plan, a) matches Ok(slot) && behind <= slot.0 && behind_number(slot)) by {
        layout::lemma_slot_range(global_types, behind, a as int);
    }
    assert forall|a: u32, b: u32| a != b implies ((#[trigger] codegen::var_slot(
        plan,
        a,
    )) matches Ok(first) ==> ((#[trigger] codegen::var_slot(plan, b)) matches Ok(second) ==> apart(
        first,
        second,
    ))) by {
        if codegen::var_slot(plan, a) is Ok && codegen::var_slot(plan, b) is Ok {
            if a < b {
                layout::law_slots_disjoint(plan.types, start, a as int, b as int);
            } else {
                layout::law_slots_disjoint(plan.types, start, b as int, a as int);
            }
        }
    }
    assert forall|a: u32, b: u32| a != b implies ((#[trigger] codegen::global_slot(
        plan,
        a,
    )) matches Ok(first) ==> ((#[trigger] codegen::global_slot(plan, b)) matches Ok(second)
        ==> apart(first, second))) by {
        if codegen::global_slot(plan, a) is Ok && codegen::global_slot(plan, b) is Ok {
            if a < b {
                layout::law_slots_disjoint(global_types, behind, a as int, b as int);
            } else {
                layout::law_slots_disjoint(global_types, behind, b as int, a as int);
            }
        }
    }
}

/// Storing local variables leaves a slot alone that is apart from theirs.
proof fn lemma_vars_elsewhere(
    plan: PlanView,
    locals: Map<u32, Value>,
    vars: Seq<u32>,
    memory: Seq<u8>,
    slot: (u64, NumType),
)
    requires
        apart_from_vars(plan, slot, vars),
        slot.0 + slot.1.width() <= memory.len(),
        forall|i: int|
            0 <= i < vars.len() ==> (codegen::var_slot(plan, vars[i]) matches Ok((_, ty)) ==> (
            #[trigger] locals[vars[i]]).ty == ty && machine::fits(locals[vars[i]])),
    ensures
        with_vars(plan, locals, vars, memory).len() == memory.len(),
        machine::read(with_vars(plan, locals, vars, memory), slot.0 as int, slot.1.width())
            == machine::read(memory, slot.0 as int, slot.1.width()),
    decreases vars.len(),
{
    if vars.len() > 0 {
        let init = vars.drop_last();
        assert forall|i: int| 0 <= i < init.len() implies (codegen::var_slot(
            plan,
            init[i],
        ) matches Ok((_, ty)) ==> (#[trigger] locals[init[i]]).ty == ty && machine::fits(
            locals[init[i]],
        )) by {
            assert(init[i] == vars[i]);
            assert(locals[vars[i]] == locals[init[i]]);
        }
        assert forall|i: int| 0 <= i < init.len() implies ((#[trigger] codegen::var_slot(
            plan,
            init[i],
        )) matches Ok(other) ==> apart(slot, other)) by {
            assert(init[i] == vars[i]);
            assert(codegen::var_slot(plan, vars[i]) == codegen::var_slot(plan, init[i]));
        }
        lemma_vars_elsewhere(plan, locals, init, memory, slot);
        let last = vars[vars.len() - 1];
        if let Ok((address, ty)) = codegen::var_slot(plan, last) {
            assert(apart(slot, (address, ty)));
            assert(machine::fits(locals[last]));
            machine::lemma_bytes_roundtrip(locals[last].bits, ty.width());
            lemma_read_elsewhere(
                with_vars(plan, locals, init, memory),
                address as int,
                machine::to_bytes(locals[last].bits, ty.width()),
                slot.0 as int,
                slot.1.width(),
            );
        }
    }
}

/// Storing global variables leaves a slot alone that is apart from theirs.
proof fn lemma_globals_elsewhere(
    plan: PlanView,
    globals: Map<u32, Value>,
    list: Seq<u32>,
    memory: Seq<u8>,
    slot: (u64, NumType),
)
    requires
        apart_from_globals(plan, slot, list),
        slot.0 + slot.1.width() <= memory.len(),
        forall|i: int|
            0 <= i < list.len() ==> (codegen::global_slot(plan, list[i]) matches Ok((_, ty)) ==> (
            #[trigger] globals[list[i]]).ty == ty && machine::fits(globals[list[i]])),
    ensures
        with_globals(plan, globals, list, memory).len() == memory.len(),
        machine::read(with_globals(plan, globals, list, memory), slot.0 as int, slot.1.width())
            == machine::read(memory, slot.0 as int, slot.1.width()),
    decreases list.len(),
{
    if list.len() > 0 {
        let init = list.drop_last();
        assert forall|i: int| 0 <= i < init.len() implies (codegen::global_slot(
            plan,
            init[i],
        ) matches Ok((_, ty)) ==> (#[trigger] globals[init[i]]).ty == ty && machine::fits(
            globals[init[i]],
        )) by {
            assert(init[i] == list[i]);
            assert(globals[list[i]] == globals[init[i]]);
        }
        assert forall|i: int| 0 <= i < init.len() implies ((#[trigger] codegen::global_slot(
            plan,
            init[i],
        )) matches Ok(other) ==> apart(slot, other)) by {
            assert(init[i] == list[i]);
            assert(codegen::global_slot(plan, list[i]) == codegen::global_slot(plan, init[i]));
        }
        lemma_globals_elsewhere(plan, globals, init, memory, slot);
        let last = list[list.len() - 1];
        if let Ok((address, ty)) = codegen::global_slot(plan, last) {
            assert(apart(slot, (address, ty)));
            assert(machine::fits(globals[last]));
            machine::lemma_bytes_roundtrip(globals[last].bits, ty.width());
            lemma_read_elsewhere(
                with_globals(plan, globals, init, memory),
                address as int,
                machine::to_bytes(globals[last].bits, ty.width()),
                slot.0 as int,
                slot.1.width(),
            );
        }
    }
}

/// The values of local variables fit the slots in which they are stored.
proof fn lemma_locals_fit(plan: PlanView, m: Machine, vars: Seq<u32>)
    requires
        typed(plan, m),
    ensures
        forall|i: int|
            0 <= i < vars.len() ==> (codegen::var_slot(plan, vars[i]) matches Ok((_, ty)) ==> (
            #[trigger] m.locals[vars[i]]).ty == ty && machine::fits(m.locals[vars[i]])),
{
}

/// The values of global variables fit the slots in which they are stored.
proof fn lemma_globals_fit(plan: PlanView, m: Machine, list: Seq<u32>)
    requires
        typed(plan, m),
    ensures
        forall|i: int|
            0 <= i < list.len() ==> (codegen::global_slot(plan, list[i]) matches Ok((_, ty)) ==> (
            #[trigger] m.globals[list[i]]).ty == ty && machine::fits(m.globals[list[i]])),
{
}

/// Storing local variables keeps the size of the memory.
proof fn lemma_with_vars_len(
    plan: PlanView,
    locals: Map<u32, Value>,
    vars: Seq<u32>,
    memory: Seq<u8>,
)
    ensures
        with_vars(plan, locals, vars, memory).len() == memory.len(),
    decreases vars.len(),
{
    if vars.len() > 0 {
        lemma_with_vars_len(plan, locals, vars.drop_last(), memory);
    }
}

/// Storing global variables keeps the size of the memory.
proof fn lemma_with_globals_len(
    plan: PlanView,
    globals: Map<u32, Value>,
    list: Seq<u32>,
    memory: Seq<u8>,
)
    ensures
        with_globals(plan, globals, list, memory).len() == memory.len(),
    decreases list.len(),
{
    if list.len() > 0 {
        lemma_with_globals_len(plan, globals, list.drop_last(), memory);
    }
}

/// Storing a list of local variables leaves the value of each in its slot.
proof fn lemma_with_vars_holds(plan: PlanView, m: Machine, vars: Seq<u32>, memory: Seq<u8>, var: u32)
    requires
        sized(plan),
        typed(plan, m),
        has_room(plan, memory.len()),
        vars.contains(var),
        codegen::var_slot(plan, var) is Ok,
    ensures
        held_var(plan, with_vars(plan, m.locals, vars, memory), var) == m.locals[var],
    decreases vars.len(),
{
    let slot = codegen::var_slot(plan, var)->Ok_0;
    let (address, ty) = slot;
    let init = vars.drop_last();
    let last = vars.last();
    let before = with_vars(plan, m.locals, init, memory);
    lemma_with_vars_len(plan, m.locals, init, memory);
    assert(machine::fits(m.locals[var]));
    if last == var {
        lemma_read_written(before, address as int, m.locals[var].bits, ty.width());
    } else {
        let i = choose|i: int| 0 <= i < vars.len() && vars[i] == var;
        assert(init[i] == var);
        lemma_with_vars_holds(plan, m, init, memory, var);
        if let Ok((other, other_ty)) = codegen::var_slot(plan, last) {
            law_places_apart(plan);
            assert(machine::fits(m.locals[last]));
            machine::lemma_bytes_roundtrip(m.locals[last].bits, other_ty.width());
            lemma_read_elsewhere(
                before,
                other as int,
                machine::to_bytes(m.locals[last].bits, other_ty.width()),
                address as int,
                ty.width(),
            );
        }
    }
}

/// Storing a list of global variables leaves the value of each in its slot.
proof fn lemma_with_globals_holds(
    plan: PlanView,
    m: Machine,
    list: Seq<u32>,
    memory: Seq<u8>,
    global: u32,
)
    requires
        sized(plan),
        typed(plan, m),
        has_room(plan, memory.len()),
        list.contains(global),
        codegen::global_slot(plan, global) is Ok,
    ensures
        held_global(plan, with_globals(plan, m.globals, list, memory), global)
            == m.globals[global],
    decreases list.len(),
{
    let slot = codegen::global_slot(plan, global)->Ok_0;
    let (address, ty) = slot;
    let init = list.drop_last();
    let last = list.last();
    let before = with_globals(plan, m.globals, init, memory);
    lemma_with_globals_len(plan, m.globals, init, memory);
    assert(machine::fits(m.globals[global]));
    if last == global {
        lemma_read_written(before, address as int, m.globals[global].bits, ty.width());
    } else {
        let i = choose|i: int| 0 <= i < list.len() && list[i] == global;
        assert(init[i] == global);
        lemma_with_globals_holds(plan, m, init, memory, global);
        if let Ok((other, other_ty)) = codegen::global_slot(plan, last) {
            law_places_apart(plan);
            assert(machine::fits(m.globals[last]));
            machine::lemma_bytes_roundtrip(m.globals[last].bits, other_ty.width());
            lemma_read_elsewhere(
                before,
                other as int,
                machine::to_bytes(m.globals[last].bits, other_ty.width()),
                address as int,
                ty.width(),
            );
        }
    }
}

/// Recording the number of a region leaves all slots alone.
proof fn lemma_record_elsewhere(memory: Seq<u8>, index: usize, slot: (u64, NumType))
    requires
        behind_number(slot),
        slot.0 + slot.1.width() <= memory.len(),
        index <= i32::MAX,
    ensures
        machine::read(
            machine::write(
                memory,
                layout::RESUMING_BLOCK_ADDR as int,
                machine::to_bytes(index as nat, 4),
            ),
            slot.0 as int,
            slot.1.width(),
        ) == machine::read(memory, slot.0 as int, slot.1.width()),
{
    lemma_limits();
    machine::lemma_bytes_roundtrip(index as nat, 4);
    lemma_read_elsewhere(
        memory,
        0,
        machine::to_bytes(index as nat, 4),
        slot.0 as int,
        slot.1.width(),
    );
}

/// After a checkpoint, the slot of a local variable holds its value if it was
/// stored, and what it held before otherwise.
pub proof fn law_checkpoint_holds_var(
    plan: PlanView,
    k: int,
    distributed: bool,
    m: Machine,
    var: u32,
)
    requires
        0 <= k < plan.regions().len() - 1,
        numbered(plan, k + 1),
        sized(plan),
        typed(plan, m),
        has_room(plan, m.memory.len()),
        codegen::var_slot(plan, var) is Ok,
    ensures
        held_var(plan, checkpointed(plan, k, distributed, m), var) == (if plan.saved_vars(
            k,
            distributed,
        ).contains(var) {
            m.locals[var]
        } else {
            held_var(plan, m.memory, var)
        }),
{
    let vars = plan.saved_vars(k, distributed);
    let list = plan.saved_globals(k, distributed);
    let slot = codegen::var_slot(plan, var)->Ok_0;
    let m1 = with_vars(plan, m.locals, vars, m.memory);
    let m2 = with_globals(plan, m.globals, list, m1);
    law_places_apart(plan);
    lemma_with_vars_len(plan, m.locals, vars, m.memory);
    lemma_with_globals_len(plan, m.globals, list, m1);
    if vars.contains(var) {
        lemma_with_vars_holds(plan, m, vars, m.memory, var);
    } else {
        lemma_locals_fit(plan, m, vars);
        assert forall|i: int| 0 <= i < vars.len() implies ((#[trigger] codegen::var_slot(
            plan,
            vars[i],
        )) matches Ok(other) ==> apart(slot, other)) by {
            assert(vars[i] != var);
        }
        lemma_vars_elsewhere(plan, m.locals, vars, m.memory, slot);
    }
    lemma_globals_fit(plan, m, list);
    assert(apart_from_globals(plan, slot, list));
    lemma_globals_elsewhere(plan, m.globals, list, m1, slot);
    lemma_record_elsewhere(m2, plan.regions()[k + 1].index, slot);
}

/// After a checkpoint, the slot of a global variable holds its value if it was
/// stored, and what it held before otherwise.
pub proof fn law_checkpoint_holds_global(
    plan: PlanView,
    k: int,
    distributed: bool,
    m: Machine,
    global: u32,
)
    requires
        0 <= k < plan.regions().len() - 1,
        numbered(plan, k + 1),
        sized(plan),
        typed(plan, m),
        has_room(plan, m.memory.len()),
        codegen::global_slot(plan, global) is Ok,
    ensures
        held_global(plan, checkpointed(plan, k, distributed, m), global) == (
        if plan.saved_globals(k, distributed).contains(global) {
            m.globals[global]
        } else {
            held_global(plan, m.memory, global)
        }),
{
    let vars = plan.saved_vars(k, distributed);
    let list = plan.saved_globals(k, distributed);
    let slot = codegen::global_slot(plan, global)->Ok_0;
    let m1 = with_vars(plan, m.locals, vars, m.memory);
    let m2 = with_globals(plan, m.globals, list, m1);
    law_places_apart(plan);
    lemma_with_vars_len(plan, m.locals, vars, m.memory);
    lemma_with_globals_len(plan, m.globals, list, m1);
    lemma_locals_fit(plan, m, vars);
    assert forall|i: int| 0 <= i < vars.len() implies ((#[trigger] codegen::var_slot(
        plan,
        vars[i],
    )) matches Ok(other) ==> apart(slot, other)) by {
        if let Ok(other) = codegen::var_slot(plan, vars[i]) {
            assert(apart(other, slot));
        }
    }
    lemma_vars_elsewhere(plan, m.locals, vars, m.memory, slot);
    if list.contains(global) {
        lemma_with_globals_holds(plan, m, list, m1, global);
    } else {
        lemma_globals_fit(plan, m, list);
        assert forall|i: int| 0 <= i < list.len() implies ((#[trigger] codegen::global_slot(
            plan,
            list[i],
        )) matches Ok(other) ==> apart(slot, other)) by {
            assert(list[i] != global);
        }
        lemma_globals_elsewhere(plan, m.globals, list, m1, slot);
    }
    lemma_record_elsewhere(m2, plan.regions()[k + 1].index, slot);
}

/// Code without blocks has no effect while it is jumped over.
proof fn lemma_skip_flat(plan: PlanView, m: Machine, code: Seq<Instruction>)
    requires
        m.skip > 0,
        forall|i: int|
            0 <= i < code.len() ==> machine::nesting_of(plan, #[trigger] code[i]) == 0,
    ensures
        machine::run(plan, m, code) == m,
    decreases code.len(),
{
    if code.len() > 0 {
        let init = code.drop_last();
        assert forall|i: int| 0 <= i < init.len() implies machine::nesting_of(
            plan,
            #[trigger] init[i],
        ) == 0 by {
            assert(init[i] == code[i]);
        }
        lemma_skip_flat(plan, m, init);
        assert(code[code.len() - 1] == code.last());
        assert(machine::run(plan, m, code) =~= m);
    }
}

/// The code that restores local variables has no blocks.
proof fn lemma_load_vars_flat(plan: PlanView, vars: Seq<u32>)
    ensures
        codegen::load_vars(plan, vars) matches Ok(code) ==> forall|i: int|
            0 <= i < code.len() ==> machine::nesting_of(plan, #[trigger] code[i]) == 0,
    decreases vars.len(),
{
    if vars.len() > 0 {
        lemma_load_vars_flat(plan, vars.drop_last());
    }
}

/// The code that restores global variables has no blocks.
proof fn lemma_load_globals_flat(plan: PlanView, list: Seq<u32>)
    ensures
        codegen::load_globals(plan, list) matches Ok(code) ==> forall|i: int|
            0 <= i < code.len() ==> machine::nesting_of(plan, #[trigger] code[i]) == 0,
    decreases list.len(),
{
    if list.len() > 0 {
        lemma_load_globals_flat(plan, list.drop_last());
    }
}

/// A comparison of the resuming variable with a constant leaves the block if it
/// comes out as asked.
proof fn lemma_test(plan: PlanView, m: Machine, value: i32, equal: bool)
    requires
        m.running(),
        m.locals.dom().contains(plan.resuming_var()),
        m.locals[plan.resuming_var()].ty == NumType::I32,
    ensures
        machine::run(
            plan,
            m,
            seq![
                Instruction::LocalGet(plan.resuming_var()),
                Instruction::I32Const(value),
                if equal {
                    Instruction::I32Eq
                } else {
                    Instruction::I32Ne
                },
                Instruction::BrIf(0),
            ],
        ) == (if (m.locals[plan.resuming_var()].bits == machine::i32_bits(value)) == equal {
            Machine { skip: 1, ..m }
        } else {
            m
        }),
{
    let a = Instruction::LocalGet(plan.resuming_var());
    let b = Instruction::I32Const(value);
    let c = if equal {
        Instruction::I32Eq
    } else {
        Instruction::I32Ne
    };
    let d = Instruction::BrIf(0);
    assert(seq![a, b, c, d] =~= seq![a, b, c] + seq![d]);
    machine::lemma_run_concat(plan, m, seq![a, b, c], seq![d]);
    lemma_run_three(plan, m, a, b, c);
    let m2 = machine::step(plan, machine::step(plan, m, a), b);
    let x = m.locals[plan.resuming_var()];
    assert(m2.pop().stack =~= m.stack.push(x));
    assert(m2.pop().pop().stack =~= m.stack);
    let m3 = machine::step(plan, m2, c);
    machine::lemma_run_one(plan, m3, d);
    assert(m3.pop().stack =~= m.stack);
    assert(machine::step(plan, m3, d) =~= (if (x.bits == machine::i32_bits(value)) == equal {
        Machine { skip: 1, ..m }
    } else {
        m
    }));
}

/// The code for a local variable loads what its slot holds.
proof fn lemma_load_var(plan: PlanView, m: Machine, var: u32)
    requires
        m.running(),
        has_room(plan, m.memory.len()),
        codegen::load_var(plan, var) is Ok,
    ensures
        codegen::var_slot(plan, var) matches Ok((address, ty)) && machine::run(
            plan,
            m,
            codegen::load_var(plan, var)->Ok_0,
        ) == (Machine {
            locals: m.locals.insert(
                var,
                Value { ty, bits: machine::read(m.memory, address as int, ty.width()) },
            ),
            ..m
        }),
{
    let (address, ty) = codegen::var_slot(plan, var)->Ok_0;
    let a = Instruction::I32Const(address as i32);
    let b = Instruction::Load(ty, codegen::mem_arg(plan));
    let c = Instruction::LocalSet(var);
    lemma_run_three(plan, m, a, b, c);
    let value = Value { ty, bits: machine::read(m.memory, address as int, ty.width()) };
    let m1 = machine::step(plan, m, a);
    assert(m1.pop().stack =~= m.stack);
    let m2 = machine::step(plan, m1, b);
    assert(m2.stack =~= m.stack.push(value));
    assert(m2.pop().stack =~= m.stack);
    assert(machine::step(plan, m2, c) =~= Machine { locals: m.locals.insert(var, value), ..m });
}

/// The code for a global variable loads what its slot holds.
proof fn lemma_load_global(plan: PlanView, m: Machine, global: u32)
    requires
        m.running(),
        has_room(plan, m.memory.len()),
        codegen::load_global(plan, global) is Ok,
    ensures
        codegen::global_slot(plan, global) matches Ok((address, ty)) && machine::run(
            plan,
            m,
            codegen::load_global(plan, global)->Ok_0,
        ) == (Machine {
            globals: m.globals.insert(
                global,
                Value { ty, bits: machine::read(m.memory, address as int, ty.width()) },
            ),
            ..m
        }),
{
    let (address, ty) = codegen::global_slot(plan, global)->Ok_0;
    let a = Instruction::I32Const(address as i32);
    let b = Instruction::Load(ty, codegen::mem_arg(plan));
    let c = Instruction::GlobalSet(global);
    lemma_run_three(plan, m, a, b, c);
    let value = Value { ty, bits: machine::read(m.memory, address as int, ty.width()) };
    let m1 = machine::step(plan, m, a);
    assert(m1.pop().stack =~= m.stack);
    let m2 = machine::step(plan, m1, b);
    assert(m2.stack =~= m.stack.push(value));
    assert(m2.pop().stack =~= m.stack);
    assert(machine::step(plan, m2, c) =~= Machine { globals: m.globals.insert(global, value), ..m });
}

/// The value that the slot of a local variable holds.
pub open spec fn held_var(plan: PlanView, memory: Seq<u8>, var: u32) -> Value {
    let (address, ty) = codegen::var_slot(plan, var)->Ok_0;
    Value { ty, bits: machine::read(memory, address as int, ty.width()) }
}

/// The value that the slot of a global variable holds.
pub open spec fn held_global(plan: PlanView, memory: Seq<u8>, global: u32) -> Value {
    let (address, ty) = codegen::global_slot(plan, global)->Ok_0;
    Value { ty, bits: machine::read(memory, address as int, ty.width()) }
}

/// The code for a list of local variables sets them, and only them, to what
/// their slots hold.
proof fn lemma_load_vars(plan: PlanView, m: Machine, vars: Seq<u32>)
    requires
        m.running(),
        has_room(plan, m.memory.len()),
        codegen::load_vars(plan, vars) is Ok,
    ensures
        ({
            let after = machine::run(plan, m, codegen::load_vars(plan, vars)->Ok_0);
            &&& after == Machine { locals: after.locals, ..m }
            &&& forall|v: u32|
                #![trigger after.locals[v]]
                #![trigger after.locals.dom().contains(v)]
                vars.contains(v) ==> after.locals.dom().contains(v) && after.locals[v] == held_var(
                    plan,
                    m.memory,
                    v,
                )
            &&& forall|v: u32|
                #![trigger after.locals[v]]
                #![trigger after.locals.dom().contains(v)]
                !vars.contains(v) ==> after.locals.dom().contains(v) == m.locals.dom().contains(v)
                    && (m.locals.dom().contains(v) ==> after.locals[v] == m.locals[v])
        }),
    decreases vars.len(),
{
    if vars.len() > 0 {
        let init = vars.drop_last();
        let last = vars.last();
        let first = codegen::load_var(plan, last)->Ok_0;
        let rest = codegen::load_vars(plan, init)->Ok_0;
        machine::lemma_run_concat(plan, m, first, rest);
        lemma_load_var(plan, m, last);
        let m1 = machine::run(plan, m, first);
        lemma_load_vars(plan, m1, init);
        let after = machine::run(plan, m1, rest);
        assert(vars =~= init.push(last));
        assert(codegen::load_vars(plan, vars)->Ok_0 == first + rest);
        assert(after == Machine { locals: after.locals, ..m });
        assert forall|v: u32| #![trigger after.locals[v]] #![trigger after.locals.dom().contains(v)] vars.contains(v) implies after.locals.dom().contains(
            v,
        ) && after.locals[v] == held_var(plan, m.memory, v) by {
            if !init.contains(v) {
                assert(v == last) by {
                    let i = choose|i: int| 0 <= i < vars.len() && vars[i] == v;
                    if i < init.len() {
                        assert(init[i] == v);
                    }
                }
            }
        }
        assert forall|v: u32| #![trigger after.locals[v]] #![trigger after.locals.dom().contains(v)] !vars.contains(v) implies after.locals.dom().contains(
            v,
        ) == m.locals.dom().contains(v) && (m.locals.dom().contains(v) ==> after.locals[v] == m.locals[v]) by {
            assert(vars[vars.len() - 1] == last);
            if init.contains(v) {
                let i = choose|i: int| 0 <= i < init.len() && init[i] == v;
                assert(vars[i] == v);
            }
        }
    } else {
        assert(machine::run(plan, m, Seq::empty()) == m);
    }
}

/// The code for a list of global variables sets them, and only them, to what
/// their slots hold.
proof fn lemma_load_globals(plan: PlanView, m: Machine, list: Seq<u32>)
    requires
        m.running(),
        has_room(plan, m.memory.len()),
        codegen::load_globals(plan, list) is Ok,
    ensures
        ({
            let after = machine::run(plan, m, codegen::load_globals(plan, list)->Ok_0);
            &&& after == Machine { globals: after.globals, ..m }
            &&& forall|g: u32|
                #![trigger after.globals[g]]
                #![trigger after.globals.dom().contains(g)]
                list.contains(g) ==> after.globals.dom().contains(g) && after.globals[g]
                    == held_global(plan, m.memory, g)
            &&& forall|g: u32|
                #![trigger after.globals[g]]
                #![trigger after.globals.dom().contains(g)]
                !list.contains(g) ==> after.globals.dom().contains(g) == m.globals.dom().contains(g)
                    && (m.globals.dom().contains(g) ==> after.globals[g] == m.globals[g])
        }),
    decreases list.len(),
{
    if list.len() > 0 {
        let init = list.drop_last();
        let last = list.last();
        let first = codegen::load_global(plan, last)->Ok_0;
        let rest = codegen::load_globals(plan, init)->Ok_0;
        machine::lemma_run_concat(plan, m, first, rest);
        lemma_load_global(plan, m, last);
        let m1 = machine::run(plan, m, first);
        lemma_load_globals(plan, m1, init);
        let after = machine::run(plan, m1, rest);
        assert(list =~= init.push(last));
        assert(codegen::load_globals(plan, list)->Ok_0 == first + rest);
        assert(after == Machine { globals: after.globals, ..m });
        assert forall|g: u32| #![trigger after.globals[g]] #![trigger after.globals.dom().contains(g)] list.contains(g) implies after.globals.dom().contains(
            g,
        ) && after.globals[g] == held_global(plan, m.memory, g) by {
            if !init.contains(g) {
                assert(g == last) by {
                    let i = choose|i: int| 0 <= i < list.len() && list[i] == g;
                    if i < init.len() {
                        assert(init[i] == g);
                    }
                }
            }
        }
        assert forall|g: u32| #![trigger after.globals[g]] #![trigger after.globals.dom().contains(g)] !list.contains(g) implies after.globals.dom().contains(
            g,
        ) == m.globals.dom().contains(g) && (m.globals.dom().contains(g) ==> after.globals[g] == m.globals[g]) by {
            assert(list[list.len() - 1] == last);
            if init.contains(g) {
                let i = choose|i: int| 0 <= i < init.len() && init[i] == g;
                assert(list[i] == g);
            }
        }
    } else {
        assert(machine::run(plan, m, Seq::empty()) == m);
    }
}

/// The number of the region that is started from, as the function knows it.
pub open spec fn resuming(plan: PlanView, m: Machine) -> nat {
    m.locals[plan.resuming_var()].bits
}

/// The variables that were checkpointed at the end of region number `k` are
/// restored when the region behind it is started from. With distributed checkpoints
/// they are restored whichever region is started from.
pub open spec fn restores(plan: PlanView, k: int, distributed: bool, m: Machine) -> bool {
    if distributed {
        resuming(plan, m) != 0
    } else {
        resuming(plan, m) == plan.regions()[k + 1].index
    }
}

/// The test in front of the restoration leaves the block exactly if nothing is
/// to be restored.
proof fn lemma_resume_test(plan: PlanView, k: int, distributed: bool, m: Machine)
    requires
        numbered(plan, k + 1),
        m.running(),
        m.locals.dom().contains(plan.resuming_var()),
        m.locals[plan.resuming_var()].ty == NumType::I32,
    ensures
        machine::run(
            plan,
            m,
            codegen::resume_test(plan, plan.regions()[k + 1].index, distributed),
        ) == (if restores(plan, k, distributed, m) {
            m
        } else {
            Machine { skip: 1, ..m }
        }),
{
    let rv = plan.resuming_var();
    let index = plan.regions()[k + 1].index;
    let open = seq![Instruction::Block];
    let zero = seq![
        Instruction::LocalGet(rv),
        Instruction::I32Const(0),
        Instruction::I32Eq,
        Instruction::BrIf(0),
    ];
    let other = seq![
        Instruction::LocalGet(rv),
        Instruction::I32Const(index as i32),
        Instruction::I32Ne,
        Instruction::BrIf(0),
    ];
    machine::lemma_run_concat(plan, m, open, zero);
    machine::lemma_run_one(plan, m, Instruction::Block);
    lemma_test(plan, m, 0, true);
    assert(machine::run(plan, m, open + zero) == if resuming(plan, m) == 0 {
        Machine { skip: 1, ..m }
    } else {
        m
    });
    if distributed {
        assert(codegen::resume_test(plan, index, distributed) =~= open + zero);
    } else {
        assert(codegen::resume_test(plan, index, distributed) =~= open + zero + other);
        machine::lemma_run_concat(plan, m, open + zero, other);
        if resuming(plan, m) == 0 {
            lemma_skip_flat(plan, (Machine { skip: 1, ..m }), other);
        } else {
            lemma_test(plan, m, index as i32, false);
        }
    }
}

/// The restoration of a checkpoint that is not to be restored changes nothing. In
/// particular, a function that is not resumed runs as if the code were not
/// there.
pub proof fn law_resume_without_effect(plan: PlanView, k: int, distributed: bool, m: Machine)
    requires
        0 <= k < plan.regions().len() - 1,
        numbered(plan, k + 1),
        m.running(),
        m.locals.dom().contains(plan.resuming_var()),
        m.locals[plan.resuming_var()].ty == NumType::I32,
        !restores(plan, k, distributed, m),
        codegen::resume_code(plan, k, distributed) is Ok,
    ensures
        machine::run(plan, m, codegen::resume_code(plan, k, distributed)->Ok_0) == m,
{
    let test = codegen::resume_test(plan, plan.regions()[k + 1].index, distributed);
    let vars = plan.saved_vars(k, distributed);
    let list = plan.saved_globals(k, distributed);
    let first = codegen::load_vars(plan, vars)->Ok_0;
    let second = codegen::load_globals(plan, list)->Ok_0;
    let end = seq![Instruction::End];
    let code = codegen::resume_code(plan, k, distributed)->Ok_0;
    assert(code == test + first + second + end);
    machine::lemma_run_concat(plan, m, test + first + second, end);
    machine::lemma_run_concat(plan, m, test + first, second);
    machine::lemma_run_concat(plan, m, test, first);
    lemma_resume_test(plan, k, distributed, m);
    let skipping = Machine { skip: 1, ..m };
    lemma_load_vars_flat(plan, vars);
    lemma_skip_flat(plan, skipping, first);
    lemma_load_globals_flat(plan, list);
    lemma_skip_flat(plan, skipping, second);
    machine::lemma_run_one(plan, skipping, Instruction::End);
    assert(machine::step(plan, skipping, Instruction::End) =~= m);
}

/// The restoration of a checkpoint sets exactly the variables that it stored, each
/// to what its slot holds.
#[verifier::rlimit(30)]
pub proof fn law_resume_restores(plan: PlanView, k: int, distributed: bool, m: Machine)
    requires
        0 <= k < plan.regions().len() - 1,
        numbered(plan, k + 1),
        m.running(),
        m.locals.dom().contains(plan.resuming_var()),
        m.locals[plan.resuming_var()].ty == NumType::I32,
        has_room(plan, m.memory.len()),
        restores(plan, k, distributed, m),
        codegen::resume_code(plan, k, distributed) is Ok,
    ensures
        ({
            let after = machine::run(plan, m, codegen::resume_code(plan, k, distributed)->Ok_0);
            &&& after == Machine { locals: after.locals, globals: after.globals, ..m }
            &&& forall|v: u32|
                #![trigger after.locals[v]]
                plan.saved_vars(k, distributed).contains(v) ==> after.locals[v] == held_var(
                    plan,
                    m.memory,
                    v,
                )
            &&& forall|v: u32|
                #![trigger after.locals[v]]
                !plan.saved_vars(k, distributed).contains(v) && m.locals.dom().contains(v)
                    ==> after.locals[v] == m.locals[v]
            &&& forall|g: u32|
                #![trigger after.globals[g]]
                plan.saved_globals(k, distributed).contains(g) ==> after.globals[g] == held_global(
                    plan,
                    m.memory,
                    g,
                )
            &&& forall|g: u32|
                #![trigger after.globals[g]]
                !plan.saved_globals(k, distributed).contains(g) && m.globals.dom().contains(g)
                    ==> after.globals[g] == m.globals[g]
        }),
{
    let test = codegen::resume_test(plan, plan.regions()[k + 1].index, distributed);
    let vars = plan.saved_vars(k, distributed);
    let list = plan.saved_globals(k, distributed);
    let first = codegen::load_vars(plan, vars)->Ok_0;
    let second = codegen::load_globals(plan, list)->Ok_0;
    let end = seq![Instruction::End];
    let code = codegen::resume_code(plan, k, distributed)->Ok_0;
    assert(code == test + first + second + end);
    machine::lemma_run_concat(plan, m, test + first + second, end);
    machine::lemma_run_concat(plan, m, test + first, second);
    machine::lemma_run_concat(plan, m, test, first);
    lemma_resume_test(plan, k, distributed, m);
    lemma_load_vars(plan, m, vars);
    let m1 = machine::run(plan, m, first);
    lemma_load_globals(plan, m1, list);
    let m2 = machine::run(plan, m1, second);
    machine::lemma_run_one(plan, m2, Instruction::End);
}

/// A local variable that was checkpointed at the end of a region has its value
/// again after the restoration of that checkpoint, whatever happened in between to
/// anything but the checkpoint memory.
pub proof fn law_restored_as_checkpointed(
    plan: PlanView,
    k: int,
    distributed: bool,
    before: Machine,
    later: Machine,
    var: u32,
)
    requires
        0 <= k < plan.regions().len() - 1,
        numbered(plan, k + 1),
        sized(plan),
        before.running(),
        typed(plan, before),
        has_room(plan, before.memory.len()),
        codegen::save_code(plan, k, distributed) is Ok,
        codegen::resume_code(plan, k, distributed) is Ok,
        later.running(),
        later.locals.dom().contains(plan.resuming_var()),
        later.locals[plan.resuming_var()].ty == NumType::I32,
        later.memory == machine::run(
            plan,
            before,
            codegen::save_code(plan, k, distributed)->Ok_0,
        ).memory,
        restores(plan, k, distributed, later),
        plan.saved_vars(k, distributed).contains(var),
    ensures
        machine::run(
            plan,
            later,
            codegen::resume_code(plan, k, distributed)->Ok_0,
        ).locals[var] == before.locals[var],
{
    law_checkpoint_changes_only_memory(plan, k, distributed, before);
    law_resume_restores(plan, k, distributed, later);
    lemma_loaded_vars_known(plan, plan.saved_vars(k, distributed));
    law_checkpoint_holds_var(plan, k, distributed, before, var);
    let after = machine::run(plan, later, codegen::resume_code(plan, k, distributed)->Ok_0);
    assert(after.locals[var] == held_var(plan, later.memory, var));
}

/// A global variable that was checkpointed at the end of a region has its value
/// again after the restoration of that checkpoint, whatever happened in between to
/// anything but the checkpoint memory.
pub proof fn law_restored_as_checkpointed_global(
    plan: PlanView,
    k: int,
    distributed: bool,
    before: Machine,
    later: Machine,
    global: u32,
)
    requires
        0 <= k < plan.regions().len() - 1,
        numbered(plan, k + 1),
        sized(plan),
        before.running(),
        typed(plan, before),
        has_room(plan, before.memory.len()),
        codegen::save_code(plan, k, distributed) is Ok,
        codegen::resume_code(plan, k, distributed) is Ok,
        later.running(),
        later.locals.dom().contains(plan.resuming_var()),
        later.locals[plan.resuming_var()].ty == NumType::I32,
        later.memory == machine::run(
            plan,
            before,
            codegen::save_code(plan, k, distributed)->Ok_0,
        ).memory,
        restores(plan, k, distributed, later),
        plan.saved_globals(k, distributed).contains(global),
    ensures
        machine::run(
            plan,
            later,
            codegen::resume_code(plan, k, distributed)->Ok_0,
        ).globals[global] == before.globals[global],
{
    law_checkpoint_changes_only_memory(plan, k, distributed, before);
    law_resume_restores(plan, k, distributed, later);
    lemma_loaded_globals_known(plan, plan.saved_globals(k, distributed));
    law_checkpoint_holds_global(plan, k, distributed, before, global);
    let after = machine::run(plan, later, codegen::resume_code(plan, k, distributed)->Ok_0);
    assert(after.globals[global] == held_global(plan, later.memory, global));
}

/// The code in front of a region goes on with the region if it or nothing is
/// resumed. Otherwise everything up to the end of the enclosing block is jumped
/// over.
pub proof fn law_jump(plan: PlanView, k: int, m: Machine)
    requires
        0 <= k < plan.regions().len(),
        numbered(plan, k),
        m.running(),
        m.locals.dom().contains(plan.resuming_var()),
        m.locals[plan.resuming_var()].ty == NumType::I32,
    ensures
        machine::run(plan, m, codegen::jump_code(plan, plan.regions()[k].index)) == (if resuming(
            plan,
            m,
        ) == 0 || resuming(plan, m) == plan.regions()[k].index {
            m
        } else {
            Machine { skip: 1, ..m }
        }),
{
    let rv = plan.resuming_var();
    let index = plan.regions()[k].index;
    let open = seq![Instruction::Block];
    let this = seq![
        Instruction::LocalGet(rv),
        Instruction::I32Const(index as i32),
        Instruction::I32Eq,
        Instruction::BrIf(0),
    ];
    let none = seq![
        Instruction::LocalGet(rv),
        Instruction::I32Const(0),
        Instruction::I32Eq,
        Instruction::BrIf(0),
    ];
    let out = seq![Instruction::Br(1)];
    let end = seq![Instruction::End];
    let skipping = Machine { skip: 1, ..m };
    assert(codegen::jump_code(plan, index) =~= open + this + none + out + end);
    machine::lemma_run_concat(plan, m, open + this + none + out, end);
    machine::lemma_run_concat(plan, m, open + this + none, out);
    machine::lemma_run_concat(plan, m, open + this, none);
    machine::lemma_run_concat(plan, m, open, this);
    machine::lemma_run_one(plan, m, Instruction::Block);
    lemma_test(plan, m, index as i32, true);
    if resuming(plan, m) == index {
        lemma_skip_flat(plan, skipping, none);
        lemma_skip_flat(plan, skipping, out);
        machine::lemma_run_one(plan, skipping, Instruction::End);
        assert(machine::step(plan, skipping, Instruction::End) =~= m);
    } else {
        lemma_test(plan, m, 0, true);
        if resuming(plan, m) == 0 {
            lemma_skip_flat(plan, skipping, out);
            machine::lemma_run_one(plan, skipping, Instruction::End);
            assert(machine::step(plan, skipping, Instruction::End) =~= m);
        } else {
            machine::lemma_run_one(plan, m, Instruction::Br(1));
            let twice = machine::step(plan, m, Instruction::Br(1));
            assert(twice =~= Machine { skip: 2, ..m });
            machine::lemma_run_one(plan, twice, Instruction::End);
            assert(machine::step(plan, twice, Instruction::End) =~= skipping);
        }
    }
}

/// Behind a checkpoint the execution stops if the host asks for a migration, and
/// goes on unchanged otherwise.
pub proof fn law_migration(plan: PlanView, m: Machine)
    requires
        m.running(),
    ensures
        machine::run(plan, m, codegen::migration_code(plan.num_imports)) == (if m.migrate {
            Machine { stopped: true, ..m }
        } else {
            m
        }),
{
    let open = Instruction::Block;
    let a = Instruction::Call(plan.num_imports);
    let b = Instruction::I32Const(0);
    let c = Instruction::I32Eq;
    let d = Instruction::BrIf(0);
    let e = Instruction::Unreachable;
    let f = Instruction::End;
    let rest = seq![d, e, f];
    assert(codegen::migration_code(plan.num_imports) =~= seq![open] + (seq![a, b, c] + rest));
    machine::lemma_run_first(plan, m, open, seq![a, b, c] + rest);
    machine::lemma_run_concat(plan, m, seq![a, b, c], rest);
    lemma_run_three(plan, m, a, b, c);
    let m1 = machine::step(plan, m, a);
    let m2 = machine::step(plan, m1, b);
    assert(m2.pop().stack =~= m1.stack);
    assert(m2.pop().pop().stack =~= m.stack);
    let m3 = machine::step(plan, m2, c);
    assert(m3.pop().stack =~= m.stack);
    lemma_run_three(plan, m3, d, e, f);
    let m4 = machine::step(plan, m3, d);
    if m.migrate {
        assert(m4 =~= m);
        assert(machine::step(plan, machine::step(plan, m4, e), f) =~= Machine {
            stopped: true,
            ..m
        });
    } else {
        assert(m4 =~= Machine { skip: 1, ..m });
        assert(machine::step(plan, machine::step(plan, m4, e), f) =~= m);
    }
}

/// When the function starts, the host restores the checkpoint memory, and the
/// resuming variable gets the number that is recorded there.
pub proof fn law_init(plan: PlanView, m: Machine)
    requires
        m.running(),
        plan.num_imports < u32::MAX,
        4 <= m.memory.len(),
        m.restored matches Some(memory) ==> memory.len() >= 4,
    ensures
        ({
            let memory = match m.restored {
                Some(found) => found,
                None => m.memory,
            };
            machine::run(plan, m, codegen::init_code(plan, (plan.num_imports + 1) as u32)) == (
            Machine {
                memory,
                locals: m.locals.insert(
                    plan.resuming_var(),
                    machine::i32_value(
                        machine::read(memory, layout::RESUMING_BLOCK_ADDR as int, 4),
                    ),
                ),
                ..m
            })
        }),
{
    let open = Instruction::Block;
    let a = Instruction::Call((plan.num_imports + 1) as u32);
    let b = Instruction::I32Const(layout::RESUMING_BLOCK_ADDR as i32);
    let c = Instruction::Load(NumType::I32, codegen::mem_arg(plan));
    let d = Instruction::LocalSet(plan.resuming_var());
    let e = Instruction::End;
    let rest = seq![d] + seq![e];
    assert(codegen::init_code(plan, (plan.num_imports + 1) as u32) =~= seq![open] + (seq![a, b, c]
        + rest));
    machine::lemma_run_first(plan, m, open, seq![a, b, c] + rest);
    machine::lemma_run_concat(plan, m, seq![a, b, c], rest);
    lemma_run_three(plan, m, a, b, c);
    let memory = match m.restored {
        Some(found) => found,
        None => m.memory,
    };
    let m1 = machine::step(plan, m, a);
    assert(m1 =~= Machine { memory, ..m });
    let m2 = machine::step(plan, m1, b);
    assert(m2.pop().stack =~= m.stack);
    let m3 = machine::step(plan, m2, c);
    let value = machine::i32_value(machine::read(memory, 0, 4));
    assert(m3.stack =~= m.stack.push(value));
    assert(m3.pop().stack =~= m.stack);
    machine::lemma_run_first(plan, m3, d, seq![e]);
    let m4 = machine::step(plan, m3, d);
    machine::lemma_run_one(plan, m4, e);
    assert(m4 =~= Machine { memory, locals: m.locals.insert(plan.resuming_var(), value), ..m });
}

/// The code behind a region checkpoints it, and then stops the execution if the
/// host asks for a migration.
pub proof fn law_region_end(plan: PlanView, k: int, distributed: bool, m: Machine)
    requires
        0 <= k < plan.regions().len() - 1,
        numbered(plan, k + 1),
        m.running(),
        typed(plan, m),
        has_room(plan, m.memory.len()),
        codegen::region_tail(plan, k, distributed) is Ok,
    ensures
        machine::run(plan, m, codegen::region_tail(plan, k, distributed)->Ok_0) == (Machine {
            memory: checkpointed(plan, k, distributed, m),
            stopped: m.migrate,
            ..m
        }),
{
    let save = codegen::save_code(plan, k, distributed)->Ok_0;
    let ask = codegen::migration_code(plan.num_imports);
    let end = seq![Instruction::End];
    assert(codegen::region_tail(plan, k, distributed)->Ok_0 == save + (ask + end));
    machine::lemma_run_concat(plan, m, save, ask + end);
    law_checkpoint_changes_only_memory(plan, k, distributed, m);
    let m1 = machine::run(plan, m, save);
    machine::lemma_run_concat(plan, m1, ask, end);
    law_migration(plan, m1);
    let m2 = machine::run(plan, m1, ask);
    machine::lemma_run_one(plan, m2, Instruction::End);
    assert(machine::step(plan, m2, Instruction::End) =~= Machine {
        memory: checkpointed(plan, k, distributed, m),
        stopped: m.migrate,
        ..m
    });
}

/// A function that was stopped for a migration at the end of a region and is
/// started anew with the checkpoint memory restored knows that it is to start from
/// the region behind, and has the checkpoint at hand.
pub proof fn law_resumes_where_stopped(
    plan: PlanView,
    k: int,
    distributed: bool,
    before: Machine,
    start: Machine,
)
    requires
        0 <= k < plan.regions().len() - 1,
        numbered(plan, k + 1),
        plan.num_imports < u32::MAX,
        before.running(),
        before.migrate,
        typed(plan, before),
        has_room(plan, before.memory.len()),
        codegen::region_tail(plan, k, distributed) is Ok,
        start.running(),
        4 <= start.memory.len(),
        start.restored == Some(
            machine::run(plan, before, codegen::region_tail(plan, k, distributed)->Ok_0).memory,
        ),
    ensures
        ({
            let stopped = machine::run(
                plan,
                before,
                codegen::region_tail(plan, k, distributed)->Ok_0,
            );
            let resumed = machine::run(
                plan,
                start,
                codegen::init_code(plan, (plan.num_imports + 1) as u32),
            );
            &&& stopped.stopped
            &&& resumed.running()
            &&& resuming(plan, resumed) == plan.regions()[k + 1].index
            &&& resumed.memory == stopped.memory
            &&& restores(plan, k, distributed, resumed)
        }),
{
    law_region_end(plan, k, distributed, before);
    law_checkpoint_records_region(plan, k, distributed, before);
    law_checkpoint_changes_only_memory(plan, k, distributed, before);
    law_init(plan, start);
}

/// The code in front of a region has no effect in a function that does not
/// resume.
pub proof fn law_no_effect_unless_resuming(
    plan: PlanView,
    k: int,
    distributed: bool,
    m: Machine,
)
    requires
        0 <= k < plan.regions().len(),
        forall|j: int| 0 <= j < plan.regions().len() ==> #[trigger] numbered(plan, j),
        m.running(),
        m.locals.dom().contains(plan.resuming_var()),
        m.locals[plan.resuming_var()].ty == NumType::I32,
        resuming(plan, m) == 0,
        codegen::region_head(plan, k, distributed) is Ok,
    ensures
        machine::run(plan, m, codegen::region_head(plan, k, distributed)->Ok_0) == m,
{
    let last = k == plan.regions().len() - 1;
    let open: Seq<Instruction> = if last {
        Seq::empty()
    } else {
        seq![Instruction::Block]
    };
    let resume: Seq<Instruction> = if k == 0 {
        Seq::empty()
    } else {
        codegen::resume_code(plan, k - 1, distributed)->Ok_0
    };
    let jump: Seq<Instruction> = if last {
        Seq::empty()
    } else {
        codegen::jump_code(plan, plan.regions()[k].index) + codegen::clear_code(plan)
    };
    assert(codegen::region_head(plan, k, distributed)->Ok_0 == open + resume + jump);
    machine::lemma_run_concat(plan, m, open + resume, jump);
    machine::lemma_run_concat(plan, m, open, resume);
    machine::lemma_run_one(plan, m, Instruction::Block);
    assert(machine::run(plan, m, open) == m);
    assert(numbered(plan, k));
    if k > 0 {
        law_resume_without_effect(plan, k - 1, distributed, m);
    }
    assert(machine::run(plan, m, resume) == m);
    if !last {
        law_jump(plan, k, m);
        machine::lemma_run_concat(
            plan,
            m,
            codegen::jump_code(plan, plan.regions()[k].index),
            codegen::clear_code(plan),
        );
        lemma_clear(plan, m);
        assert(cleared(plan, m).locals =~= m.locals);
    }
}

/// The machine when nothing is resumed any more.
pub open spec fn cleared(plan: PlanView, m: Machine) -> Machine {
    Machine { locals: m.locals.insert(plan.resuming_var(), machine::i32_value(0)), ..m }
}

/// The code that ends a resumption sets the resuming variable to zero.
pub(crate) proof fn lemma_clear(plan: PlanView, m: Machine)
    requires
        m.running(),
    ensures
        machine::run(plan, m, codegen::clear_code(plan)) == cleared(plan, m),
{
    let a = Instruction::I32Const(0);
    let b = Instruction::LocalSet(plan.resuming_var());
    assert(codegen::clear_code(plan) =~= seq![a] + seq![b]);
    machine::lemma_run_first(plan, m, a, seq![b]);
    let m1 = machine::step(plan, m, a);
    machine::lemma_run_one(plan, m1, b);
    assert(m1.pop().stack =~= m.stack);
    assert(machine::step(plan, m1, b) =~= cleared(plan, m));
}

/// The copied instructions are those between the two positions in their order,
/// each with the function that it calls at its new index.
pub proof fn law_copied_in_order(insts: Seq<Inst>, start: usize, end: usize, num_imports: u32)
    ensures
        codegen::copied_between(insts, start, end, num_imports) matches Ok(code) ==> ({
            let chosen = insts.filter(|inst: Inst| start <= inst.pos <= end);
            &&& code.len() == chosen.len()
            &&& forall|j: int|
                0 <= j < code.len() ==> codegen::copied(chosen[j], num_imports) == Ok::<
                    Instruction,
                    MigrateError,
                >(#[trigger] code[j])
        }),
    decreases insts.len(),
{
    reveal(Seq::filter);
    if insts.len() > 0 {
        law_copied_in_order(insts.drop_last(), start, end, num_imports);
    }
}

/// An instruction that is copied nests like the original one.
proof fn lemma_copied_nesting(plan: PlanView, n: int)
    requires
        tree::ordered(plan.insts),
        0 <= n < plan.insts.len(),
    ensures
        codegen::copied(plan.insts[n], plan.num_imports) matches Ok(instruction)
            ==> machine::nesting_of(plan, instruction) == machine::nesting(plan.insts[n].op),
{
    let pos = plan.insts[n].pos;
    let i = choose|i: int| 0 <= i < plan.insts.len() && (#[trigger] plan.insts[i]).pos == pos;
    assert(0 <= i < plan.insts.len() && plan.insts[i].pos == pos);
    assert(i == n);
}

/// Jumping over code whose blocks rise takes it to the end of the open blocks.
proof fn lemma_skip_rising(plan: PlanView, m: Machine, code: Seq<Instruction>, insts: Seq<Inst>)
    requires
        m.skip > 0,
        !m.stopped,
        code.len() == insts.len(),
        forall|j: int|
            0 <= j < code.len() ==> machine::nesting_of(plan, #[trigger] code[j])
                == machine::nesting(insts[j].op),
        balance::rising(insts),
    ensures
        balance::height(insts) >= 0,
        machine::run(plan, m, code) == (Machine {
            skip: (m.skip + balance::height(insts)) as nat,
            ..m
        }),
    decreases code.len(),
{
    assert(insts.take(insts.len() as int) =~= insts);
    assert(balance::height(insts.take(insts.len() as int)) >= 0);
    if code.len() > 0 {
        let init = insts.drop_last();
        let before = code.drop_last();
        assert forall|j: int| 0 <= j < before.len() implies machine::nesting_of(
            plan,
            #[trigger] before[j],
        ) == machine::nesting(init[j].op) by {
            assert(before[j] == code[j]);
            assert(init[j] == insts[j]);
        }
        assert forall|j: int| 0 <= j <= init.len() implies balance::height(#[trigger] init.take(j))
            >= 0 by {
            assert(init.take(j) =~= insts.take(j));
        }
        lemma_skip_rising(plan, m, before, init);
        assert(code[code.len() - 1] == code.last());
        assert(insts[insts.len() - 1] == insts.last());
    }
    assert(machine::run(plan, m, code) =~= Machine {
        skip: (m.skip + balance::height(insts)) as nat,
        ..m
    });
}

/// The plan is that of a function: its instructions are ordered, its blocks are
/// those of their tree, and its variables have indices and addresses.
pub open spec fn of_function(plan: PlanView) -> bool {
    &&& sized(plan)
    &&& tree::ordered(plan.insts)
    &&& plan.insts.len() <= usize::MAX
    &&& tree::block_tree(plan.insts) is Ok
    &&& plan.blocks == tree::tree_of(plan.insts).blocks
}

/// Jumping over the contents of a region takes it to their end.
proof fn lemma_skip_content(plan: PlanView, k: int, m: Machine)
    requires
        of_function(plan),
        balance::else_in_if(plan.insts),
        0 <= k < plan.regions().len(),
        m.skip > 0,
        !m.stopped,
    ensures
        codegen::copied_between(
            plan.insts,
            plan.regions()[k].start_inst,
            plan.regions()[k].end_inst,
            plan.num_imports,
        ) matches Ok(code) ==> machine::run(plan, m, code) == m,
{
    let node = plan.regions()[k];
    let content = codegen::copied_between(
        plan.insts,
        node.start_inst,
        node.end_inst,
        plan.num_imports,
    );
    if let Ok(code) = content {
        law_copied_in_order(plan.insts, node.start_inst, node.end_inst, plan.num_imports);
        balance::law_regions_balanced(plan.insts);
        let chosen = partition::region_insts(plan.insts, node);
        assert(chosen =~= plan.insts.filter(
            |inst: Inst| node.start_inst <= inst.pos <= node.end_inst,
        )) by {
            balance::lemma_same_filter(
                plan.insts,
                |inst: Inst| partition::in_region(node, inst),
                |inst: Inst| node.start_inst <= inst.pos <= node.end_inst,
            );
        }
        assert forall|j: int| 0 <= j < code.len() implies machine::nesting_of(
            plan,
            #[trigger] code[j],
        ) == machine::nesting(chosen[j].op) by {
            lemma_filter_member(plan.insts, |inst: Inst| partition::in_region(node, inst), j);
            let n = choose|n: int| 0 <= n < plan.insts.len() && plan.insts[n] == chosen[j];
            lemma_copied_nesting(plan, n);
        }
        lemma_skip_rising(plan, m, code, chosen);
        assert(machine::run(plan, m, code) =~= m);
    }
}

/// What a filter keeps was there.
proof fn lemma_filter_member(insts: Seq<Inst>, f: spec_fn(Inst) -> bool, j: int)
    requires
        0 <= j < insts.filter(f).len(),
    ensures
        exists|n: int| 0 <= n < insts.len() && insts[n] == insts.filter(f)[j],
    decreases insts.len(),
{
    reveal(Seq::filter);
    if insts.len() > 0 {
        let init = insts.drop_last();
        if j < init.filter(f).len() {
            lemma_filter_member(init, f, j);
            let n = choose|n: int| 0 <= n < init.len() && init[n] == init.filter(f)[j];
            assert(insts[n] == insts.filter(f)[j]);
        } else {
            assert(insts[insts.len() - 1] == insts.filter(f)[j]);
        }
    }
}

/// The code that stores local variables has no blocks.
proof fn lemma_store_vars_flat(plan: PlanView, vars: Seq<u32>)
    ensures
        codegen::store_vars(plan, vars) matches Ok(code) ==> forall|i: int|
            0 <= i < code.len() ==> machine::nesting_of(plan, #[trigger] code[i]) == 0,
    decreases vars.len(),
{
    if vars.len() > 0 {
        lemma_store_vars_flat(plan, vars.drop_last());
    }
}

/// The code that stores global variables has no blocks.
proof fn lemma_store_globals_flat(plan: PlanView, list: Seq<u32>)
    ensures
        codegen::store_globals(plan, list) matches Ok(code) ==> forall|i: int|
            0 <= i < code.len() ==> machine::nesting_of(plan, #[trigger] code[i]) == 0,
    decreases list.len(),
{
    if list.len() > 0 {
        lemma_store_globals_flat(plan, list.drop_last());
    }
}

/// Jumping over a checkpoint takes it to its end.
proof fn lemma_skip_save(plan: PlanView, k: int, distributed: bool, m: Machine)
    requires
        m.skip > 0,
        !m.stopped,
        codegen::save_code(plan, k, distributed) is Ok,
    ensures
        machine::run(plan, m, codegen::save_code(plan, k, distributed)->Ok_0) == m,
{
    let vars = plan.saved_vars(k, distributed);
    let list = plan.saved_globals(k, distributed);
    let open = seq![Instruction::Block];
    let first = codegen::store_vars(plan, vars)->Ok_0;
    let second = codegen::store_globals(plan, list)->Ok_0;
    let number = seq![
        Instruction::I32Const(layout::RESUMING_BLOCK_ADDR as i32),
        Instruction::I32Const(plan.regions()[k + 1].index as i32),
        Instruction::Store(NumType::I32, codegen::mem_arg(plan)),
    ];
    let end = seq![Instruction::End];
    let code = codegen::save_code(plan, k, distributed)->Ok_0;
    assert(code =~= open + first + second + number + end);
    machine::lemma_run_concat(plan, m, open + first + second + number, end);
    machine::lemma_run_concat(plan, m, open + first + second, number);
    machine::lemma_run_concat(plan, m, open + first, second);
    machine::lemma_run_concat(plan, m, open, first);
    machine::lemma_run_one(plan, m, Instruction::Block);
    let inside = Machine { skip: (m.skip + 1) as nat, ..m };
    assert(machine::step(plan, m, Instruction::Block) =~= inside);
    lemma_store_vars_flat(plan, vars);
    lemma_skip_flat(plan, inside, first);
    lemma_store_globals_flat(plan, list);
    lemma_skip_flat(plan, inside, second);
    lemma_skip_flat(plan, inside, number);
    machine::lemma_run_one(plan, inside, Instruction::End);
    assert(machine::step(plan, inside, Instruction::End) =~= m);
}

/// Jumping over the question whether to migrate takes it to its end.
proof fn lemma_skip_migration(plan: PlanView, m: Machine)
    requires
        m.skip > 0,
        !m.stopped,
    ensures
        machine::run(plan, m, codegen::migration_code(plan.num_imports)) == m,
{
    let open = seq![Instruction::Block];
    let flat = seq![
        Instruction::Call(plan.num_imports),
        Instruction::I32Const(0),
        Instruction::I32Eq,
        Instruction::BrIf(0),
        Instruction::Unreachable,
    ];
    let end = seq![Instruction::End];
    assert(codegen::migration_code(plan.num_imports) =~= open + flat + end);
    machine::lemma_run_concat(plan, m, open + flat, end);
    machine::lemma_run_concat(plan, m, open, flat);
    machine::lemma_run_one(plan, m, Instruction::Block);
    let inside = Machine { skip: (m.skip + 1) as nat, ..m };
    assert(machine::step(plan, m, Instruction::Block) =~= inside);
    lemma_skip_flat(plan, inside, flat);
    machine::lemma_run_one(plan, inside, Instruction::End);
    assert(machine::step(plan, inside, Instruction::End) =~= m);
}
/// The plan for instructions that come in the order of their positions belongs to
/// these instructions.
pub proof fn law_planned_of_function(insts: Seq<Inst>, context: FunctionContext)
    requires
        tree::ordered(insts),
        insts.len() <= usize::MAX,
    ensures
        plan::planned_for(insts, context) matches Ok(plan) ==> of_function(plan) && plan.insts
            == insts,
{
}


/// The code that restores the variables of the region before, if there is one.
pub open spec fn resume_before(plan: PlanView, k: int, distributed: bool) -> Seq<Instruction> {
    if k == 0 {
        Seq::empty()
    } else {
        codegen::resume_code(plan, k - 1, distributed)->Ok_0
    }
}
/// The code in front of a region that is not resumed from restores the variables of
/// the one before, and jumps.
#[verifier::rlimit(30)]
proof fn lemma_head_jumped(plan: PlanView, k: int, distributed: bool, m: Machine)
    requires
        0 <= k < plan.regions().len() - 1,
        numbered(plan, k),
        plan.types.len() < u32::MAX,
        m.running(),
        m.locals.dom().contains(plan.resuming_var()),
        m.locals[plan.resuming_var()].ty == NumType::I32,
        has_room(plan, m.memory.len()),
        resuming(plan, m) != 0,
        resuming(plan, m) != plan.regions()[k].index,
        codegen::region_head(plan, k, distributed) is Ok,
    ensures
        ({
            let m1 = machine::run(plan, m, resume_before(plan, k, distributed));
            &&& m1.running()
            &&& machine::run(plan, m, codegen::region_head(plan, k, distributed)->Ok_0) == Machine {
                skip: 1,
                ..m1
            }
        }),
{
    let open = seq![Instruction::Block];
    let resume = resume_before(plan, k, distributed);
    let jump = codegen::jump_code(plan, plan.regions()[k].index);
    let clear = codegen::clear_code(plan);
    let head = codegen::region_head(plan, k, distributed)->Ok_0;
    assert(head == open + resume + (jump + clear));
    machine::lemma_run_concat(plan, m, open + resume, jump + clear);
    machine::lemma_run_concat(plan, m, open, resume);
    machine::lemma_run_one(plan, m, Instruction::Block);
    let m1 = machine::run(plan, m, resume);
    machine::lemma_run_concat(plan, m1, jump, clear);
    if k > 0 {
        if restores(plan, k - 1, distributed, m) {
            law_resume_restores(plan, k - 1, distributed, m);
            lemma_resuming_var_not_saved(plan, k - 1, distributed);
            lemma_resume_keeps_resuming(plan, k - 1, distributed, m);
        } else {
            law_resume_without_effect(plan, k - 1, distributed, m);
        }
    }
    law_jump(plan, k, m1);
    lemma_skip_flat(plan, (Machine { skip: 1, ..m1 }), clear);
}


/// Of a region that is neither the last nor the one that is resumed from,
/// nothing is executed in a function that resumes but the restoration of the
/// variables of the region before.
#[verifier::rlimit(30)]
pub proof fn law_other_regions_skipped(plan: PlanView, k: int, distributed: bool, m: Machine)
    requires
        of_function(plan),
        balance::else_in_if(plan.insts),
        0 <= k < plan.regions().len() - 1,
        forall|j: int| 0 <= j < plan.regions().len() ==> #[trigger] numbered(plan, j),
        plan.types.len() < u32::MAX,
        m.running(),
        m.locals.dom().contains(plan.resuming_var()),
        m.locals[plan.resuming_var()].ty == NumType::I32,
        has_room(plan, m.memory.len()),
        resuming(plan, m) != 0,
        resuming(plan, m) != plan.regions()[k].index,
        codegen::region_code(plan, k, distributed) is Ok,
    ensures
        machine::run(plan, m, codegen::region_code(plan, k, distributed)->Ok_0) == machine::run(
            plan,
            m,
            resume_before(plan, k, distributed),
        ),
        machine::run(plan, m, codegen::region_head(plan, k, distributed)->Ok_0).skip == 1,
{
    let node = plan.regions()[k];
    let head = codegen::region_head(plan, k, distributed)->Ok_0;
    let content = codegen::copied_between(
        plan.insts,
        node.start_inst,
        node.end_inst,
        plan.num_imports,
    )->Ok_0;
    let tail = codegen::region_tail(plan, k, distributed)->Ok_0;
    assert(codegen::region_code(plan, k, distributed)->Ok_0 == head + content + tail);
    machine::lemma_run_concat(plan, m, head + content, tail);
    machine::lemma_run_concat(plan, m, head, content);
    assert(numbered(plan, k));
    lemma_head_jumped(plan, k, distributed, m);
    let m1 = machine::run(plan, m, resume_before(plan, k, distributed));
    let skipping = Machine { skip: 1, ..m1 };
    lemma_skip_content(plan, k, skipping);
    let save = codegen::save_code(plan, k, distributed)->Ok_0;
    let ask = codegen::migration_code(plan.num_imports);
    let end = seq![Instruction::End];
    assert(tail == save + (ask + end));
    machine::lemma_run_concat(plan, skipping, save, ask + end);
    machine::lemma_run_concat(plan, skipping, ask, end);
    lemma_skip_save(plan, k, distributed, skipping);
    lemma_skip_migration(plan, skipping);
    machine::lemma_run_one(plan, skipping, Instruction::End);
    assert(machine::step(plan, skipping, Instruction::End) =~= m1);
}

/// The resuming variable is not among those that are restored.
proof fn lemma_resuming_var_not_saved(plan: PlanView, k: int, distributed: bool)
    requires
        plan.types.len() < u32::MAX,
        codegen::resume_code(plan, k, distributed) is Ok,
    ensures
        !plan.saved_vars(k, distributed).contains(plan.resuming_var()),
{
    lemma_loaded_vars_known(plan, plan.saved_vars(k, distributed));
}

/// Variables that can be restored have a slot.
proof fn lemma_loaded_vars_known(plan: PlanView, vars: Seq<u32>)
    ensures
        codegen::load_vars(plan, vars) is Ok ==> forall|v: u32| #[trigger]
            vars.contains(v) ==> codegen::var_slot(plan, v) is Ok && v < plan.types.len(),
    decreases vars.len(),
{
    if vars.len() > 0 {
        let init = vars.drop_last();
        lemma_loaded_vars_known(plan, init);
        if codegen::load_vars(plan, vars) is Ok {
            assert forall|v: u32| #[trigger] vars.contains(v) implies codegen::var_slot(plan, v) is Ok
                && v < plan.types.len() by {
                let i = choose|i: int| 0 <= i < vars.len() && vars[i] == v;
                if i < init.len() {
                    assert(init[i] == v);
                    assert(init.contains(v));
                }
            }
        }
    }
}

/// Global variables that can be restored have a slot.
proof fn lemma_loaded_globals_known(plan: PlanView, list: Seq<u32>)
    ensures
        codegen::load_globals(plan, list) is Ok ==> forall|g: u32| #[trigger]
            list.contains(g) ==> codegen::global_slot(plan, g) is Ok,
    decreases list.len(),
{
    if list.len() > 0 {
        let init = list.drop_last();
        lemma_loaded_globals_known(plan, init);
        if codegen::load_globals(plan, list) is Ok {
            assert forall|g: u32| #[trigger] list.contains(g) implies codegen::global_slot(
                plan,
                g,
            ) is Ok by {
                let i = choose|i: int| 0 <= i < list.len() && list[i] == g;
                if i < init.len() {
                    assert(init[i] == g);
                    assert(init.contains(g));
                }
            }
        }
    }
}

/// A restoration keeps the resuming variable.
proof fn lemma_resume_keeps_resuming(plan: PlanView, k: int, distributed: bool, m: Machine)
    requires
        0 <= k < plan.regions().len() - 1,
        numbered(plan, k + 1),
        plan.types.len() < u32::MAX,
        m.running(),
        m.locals.dom().contains(plan.resuming_var()),
        m.locals[plan.resuming_var()].ty == NumType::I32,
        has_room(plan, m.memory.len()),
        restores(plan, k, distributed, m),
        codegen::resume_code(plan, k, distributed) is Ok,
    ensures
        ({
            let after = machine::run(plan, m, codegen::resume_code(plan, k, distributed)->Ok_0);
            &&& after.locals.dom().contains(plan.resuming_var())
            &&& after.locals[plan.resuming_var()] == m.locals[plan.resuming_var()]
        }),
{
    lemma_resuming_var_not_saved(plan, k, distributed);
    let test = codegen::resume_test(plan, plan.regions()[k + 1].index, distributed);
    let vars = plan.saved_vars(k, distributed);
    let list = plan.saved_globals(k, distributed);
    let first = codegen::load_vars(plan, vars)->Ok_0;
    let second = codegen::load_globals(plan, list)->Ok_0;
    let end = seq![Instruction::End];
    let code = codegen::resume_code(plan, k, distributed)->Ok_0;
    assert(code == test + first + second + end);
    machine::lemma_run_concat(plan, m, test + first + second, end);
    machine::lemma_run_concat(plan, m, test + first, second);
    machine::lemma_run_concat(plan, m, test, first);
    lemma_resume_test(plan, k, distributed, m);
    lemma_load_vars(plan, m, vars);
    let m1 = machine::run(plan, m, first);
    lemma_load_globals(plan, m1, list);
    let m2 = machine::run(plan, m1, second);
    machine::lemma_run_one(plan, m2, Instruction::End);
    assert(m1.locals.dom().contains(plan.resuming_var()));
}

/// A restoration keeps the types of all variables, and all that is not restored.
#[verifier::rlimit(30)]
pub(crate) proof fn lemma_resume_keeps_types(plan: PlanView, k: int, distributed: bool, m: Machine)
    requires
        0 <= k < plan.regions().len() - 1,
        numbered(plan, k + 1),
        plan.types.len() < u32::MAX,
        m.running(),
        typed(plan, m),
        has_room(plan, m.memory.len()),
        codegen::resume_code(plan, k, distributed) is Ok,
    ensures
        ({
            let after = machine::run(plan, m, codegen::resume_code(plan, k, distributed)->Ok_0);
            &&& after == Machine { locals: after.locals, globals: after.globals, ..m }
            &&& typed(plan, after)
            &&& after.locals[plan.resuming_var()] == m.locals[plan.resuming_var()]
            &&& after.locals.dom() == m.locals.dom()
            &&& after.globals.dom() == m.globals.dom()
        }),
{
    if !restores(plan, k, distributed, m) {
        law_resume_without_effect(plan, k, distributed, m);
    } else {
        lemma_resuming_var_not_saved(plan, k, distributed);
        let test = codegen::resume_test(plan, plan.regions()[k + 1].index, distributed);
        let vars = plan.saved_vars(k, distributed);
        let list = plan.saved_globals(k, distributed);
        let first = codegen::load_vars(plan, vars)->Ok_0;
        let second = codegen::load_globals(plan, list)->Ok_0;
        let end = seq![Instruction::End];
        let code = codegen::resume_code(plan, k, distributed)->Ok_0;
        assert(code == test + first + second + end);
        machine::lemma_run_concat(plan, m, test + first + second, end);
        machine::lemma_run_concat(plan, m, test + first, second);
        machine::lemma_run_concat(plan, m, test, first);
        lemma_resume_test(plan, k, distributed, m);
        lemma_load_vars(plan, m, vars);
        let m1 = machine::run(plan, m, first);
        lemma_load_globals(plan, m1, list);
        let m2 = machine::run(plan, m1, second);
        machine::lemma_run_one(plan, m2, Instruction::End);
        lemma_loaded_vars_known(plan, vars);
        lemma_loaded_globals_known(plan, list);
        assert forall|v: u32| m2.locals.dom().contains(v) == m.locals.dom().contains(v) by {
            if vars.contains(v) {
                assert(Some(m.locals[v].ty) == NumType::of(plan.types[v as int]));
            }
        }
        assert(m2.locals.dom() =~= m.locals.dom());
        assert forall|g: u32| m2.globals.dom().contains(g) == m.globals.dom().contains(g) by {
            if list.contains(g) {
                assert(Some(m.globals[g].ty) == NumType::of(plan.globals[g as int].0));
            }
        }
        assert(m2.globals.dom() =~= m.globals.dom());
        assert forall|v: u32|
            #![trigger m2.locals[v]]
            v < plan.types.len() && NumType::of(
                plan.types[v as int],
            ) is Some implies m2.locals.dom().contains(v) && Some(m2.locals[v].ty) == NumType::of(
            plan.types[v as int],
        ) && machine::fits(m2.locals[v]) by {
            let slot = codegen::var_slot(plan, v)->Ok_0;
            assert(Some(m.locals[v].ty) == NumType::of(plan.types[v as int]));
            assert(m1.locals.dom().contains(v));
            if vars.contains(v) {
                lemma_held_fits(m.memory, slot);
                assert(m1.locals[v] == held_var(plan, m.memory, v));
            } else {
                assert(m1.locals[v] == m.locals[v]);
            }
        }
        assert forall|g: u32|
            #![trigger m2.globals[g]]
            g < plan.globals.len() && NumType::of(
                plan.globals[g as int].0,
            ) is Some implies m2.globals.dom().contains(g) && Some(m2.globals[g].ty)
            == NumType::of(plan.globals[g as int].0) && machine::fits(m2.globals[g]) by {
            let slot = codegen::global_slot(plan, g)->Ok_0;
            assert(Some(m.globals[g].ty) == NumType::of(plan.globals[g as int].0));
            assert(m2.globals.dom().contains(g));
            if list.contains(g) {
                lemma_held_fits(m.memory, slot);
                assert(m2.globals[g] == held_global(plan, m.memory, g));
            } else {
                assert(m2.globals[g] == m.globals[g]);
            }
        }
    }
}

/// The variables of a checkpoint have slots, and the resuming variable is none of
/// them.
pub(crate) proof fn lemma_saved_known(plan: PlanView, k: int, distributed: bool)
    requires
        plan.types.len() < u32::MAX,
        codegen::resume_code(plan, k, distributed) is Ok,
    ensures
        forall|v: u32| #[trigger]
            plan.saved_vars(k, distributed).contains(v) ==> codegen::var_slot(plan, v) is Ok && v
                != plan.resuming_var(),
        forall|g: u32| #[trigger]
            plan.saved_globals(k, distributed).contains(g) ==> codegen::global_slot(
                plan,
                g,
            ) is Ok,
{
    lemma_loaded_vars_known(plan, plan.saved_vars(k, distributed));
    lemma_loaded_globals_known(plan, plan.saved_globals(k, distributed));
}

/// The regions of a function can be told apart by integers of 32 bits, if it has no
/// more instructions than there are such integers.
pub proof fn law_regions_numbered(plan: PlanView, k: int)
    requires
        of_function(plan),
        plan.insts.len() <= i32::MAX,
        0 <= k < plan.regions().len(),
    ensures
        numbered(plan, k),
{
    tree::lemma_tree_well_formed(plan.insts);
    partition::lemma_tree_laid_out(plan.insts);
    partition::lemma_top_level_order(plan.blocks);
}

/// The numbers of the regions rise.
pub(crate) proof fn lemma_numbers_rise(plan: PlanView, j: int, k: int)
    requires
        of_function(plan),
        0 <= j < k < plan.regions().len(),
    ensures
        plan.regions()[j].index < plan.regions()[k].index,
{
    tree::lemma_tree_well_formed(plan.insts);
    partition::lemma_tree_laid_out(plan.insts);
    partition::lemma_top_level_order(plan.blocks);
}

/// The code in front of the region that is resumed from restores the variables of
/// the region before, and sets the resuming variable to zero unless the region is
/// the last one.
#[verifier::rlimit(30)]
pub(crate) proof fn lemma_head_entered(plan: PlanView, k: int, distributed: bool, m: Machine)
    requires
        0 < k < plan.regions().len(),
        numbered(plan, k),
        plan.types.len() < u32::MAX,
        m.running(),
        typed(plan, m),
        has_room(plan, m.memory.len()),
        resuming(plan, m) == plan.regions()[k].index,
        codegen::region_head(plan, k, distributed) is Ok,
    ensures
        ({
            let restored = machine::run(plan, m, resume_before(plan, k, distributed));
            machine::run(plan, m, codegen::region_head(plan, k, distributed)->Ok_0) == (if k
                == plan.regions().len() - 1 {
                restored
            } else {
                cleared(plan, restored)
            })
        }),
{
    let last = k == plan.regions().len() - 1;
    let open: Seq<Instruction> = if last {
        Seq::empty()
    } else {
        seq![Instruction::Block]
    };
    let resume = resume_before(plan, k, distributed);
    let jump = codegen::jump_code(plan, plan.regions()[k].index);
    let clear = codegen::clear_code(plan);
    let rest: Seq<Instruction> = if last {
        Seq::empty()
    } else {
        jump + clear
    };
    assert(codegen::region_head(plan, k, distributed)->Ok_0 == open + resume + rest);
    machine::lemma_run_concat(plan, m, open + resume, rest);
    machine::lemma_run_concat(plan, m, open, resume);
    machine::lemma_run_one(plan, m, Instruction::Block);
    assert(machine::run(plan, m, open) == m);
    lemma_resume_keeps_types(plan, k - 1, distributed, m);
    let restored = machine::run(plan, m, resume);
    if !last {
        machine::lemma_run_concat(plan, restored, jump, clear);
        law_jump(plan, k, restored);
        lemma_clear(plan, restored);
    }
}

/// What a slot holds fits its type.
proof fn lemma_held_fits(memory: Seq<u8>, slot: (u64, NumType))
    requires
        slot.0 + slot.1.width() <= memory.len(),
    ensures
        machine::fits(
            (Value { ty: slot.1, bits: machine::read(memory, slot.0 as int, slot.1.width()) }),
        ),
{
    machine::lemma_from_bytes_bound(
        memory.subrange(slot.0 as int, slot.0 + slot.1.width()),
    );
}

} // verus!
