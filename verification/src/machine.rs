//! What the inserted code does when it runs.
//!
//! The machine knows the instructions that are inserted into a function. Of the
//! instructions of the function itself it knows only how they nest, which is
//! all that matters while they are jumped over.

use vstd::prelude::*;
use crate::instruction::{Instruction, MemArg, NumType};
use crate::plan::PlanView;
use crate::tree::Inst;
use crate::types::Operator;

verus! {

/// A value, by its type and its bit pattern read as a number.
pub struct Value {
    pub ty: NumType,
    pub bits: nat,
}

/// How many values this number of bytes can hold.
pub open spec fn limit(width: nat) -> nat
    decreases width,
{
    if width == 0 {
        1
    } else {
        256 * limit((width - 1) as nat)
    }
}

/// The value fits its type.
pub open spec fn fits(value: Value) -> bool {
    value.bits < limit(value.ty.width())
}

/// The `width` bytes of a number, least significant first.
pub open spec fn to_bytes(bits: nat, width: nat) -> Seq<u8>
    decreases width,
{
    if width == 0 {
        Seq::empty()
    } else {
        seq![(bits % 256) as u8] + to_bytes(bits / 256, (width - 1) as nat)
    }
}

/// The number with these bytes, least significant first.
pub open spec fn from_bytes(bytes: Seq<u8>) -> nat
    decreases bytes.len(),
{
    if bytes.len() == 0 {
        0
    } else {
        bytes[0] as nat + 256 * from_bytes(bytes.drop_first())
    }
}

/// The bytes of a number give the number back.
pub proof fn lemma_bytes_roundtrip(bits: nat, width: nat)
    requires
        bits < limit(width),
    ensures
        to_bytes(bits, width).len() == width,
        from_bytes(to_bytes(bits, width)) == bits,
    decreases width,
{
    if width > 0 {
        let rest = (width - 1) as nat;
        assert(bits / 256 < limit(rest)) by (nonlinear_arith)
            requires
                bits < 256 * limit(rest),
        ;
        lemma_bytes_roundtrip(bits / 256, rest);
        assert(to_bytes(bits, width).drop_first() =~= to_bytes(bits / 256, rest));
    }
}

/// A number fits in as many bytes as it was made of.
pub proof fn lemma_from_bytes_bound(bytes: Seq<u8>)
    ensures
        from_bytes(bytes) < limit(bytes.len()),
    decreases bytes.len(),
{
    if bytes.len() > 0 {
        lemma_from_bytes_bound(bytes.drop_first());
    }
}

/// The bit pattern of an integer of 32 bits.
pub open spec fn i32_bits(value: i32) -> nat {
    if value >= 0 {
        value as nat
    } else {
        (value + 0x1_0000_0000) as nat
    }
}

/// An integer of 32 bits.
pub open spec fn i32_value(bits: nat) -> Value {
    Value { ty: NumType::I32, bits }
}

/// A state of the machine.
#[verifier::ext_equal]
pub struct Machine {
    /// The operands, the topmost last.
    pub stack: Seq<Value>,
    pub locals: Map<u32, Value>,
    pub globals: Map<u32, Value>,
    /// The checkpoint memory.
    pub memory: Seq<u8>,
    /// The other memories.
    pub others: Seq<Seq<u8>>,
    /// How many ends of blocks have to be passed before instructions have an
    /// effect again.
    pub skip: nat,
    /// The execution is over.
    pub stopped: bool,
    /// What the host answers when it is asked whether to migrate.
    pub migrate: bool,
    /// The contents that the host gives the checkpoint memory when it is asked
    /// to restore it.
    pub restored: Option<Seq<u8>>,
}

impl Machine {
    /// Instructions have an effect.
    pub open spec fn running(self) -> bool {
        self.skip == 0 && !self.stopped
    }

    /// The machine after the execution went wrong.
    pub open spec fn stop(self) -> Machine {
        Machine { stopped: true, ..self }
    }

    /// The machine with one more operand.
    pub open spec fn push(self, value: Value) -> Machine {
        Machine { stack: self.stack.push(value), ..self }
    }

    /// The topmost operand.
    pub open spec fn top(self) -> Value {
        self.stack.last()
    }

    /// The machine without the topmost operand.
    pub open spec fn pop(self) -> Machine {
        Machine { stack: self.stack.drop_last(), ..self }
    }
}

/// The `width` bytes at an address, as a number.
pub open spec fn read(memory: Seq<u8>, address: int, width: nat) -> nat {
    from_bytes(memory.subrange(address, address + width))
}

/// The memory with bytes stored at an address.
pub open spec fn write(memory: Seq<u8>, address: int, bytes: Seq<u8>) -> Seq<u8> {
    Seq::new(
        memory.len(),
        |i: int|
            if address <= i < address + bytes.len() {
                bytes[i - address]
            } else {
                memory[i]
            },
    )
}

/// How an instruction of the function changes the nesting of blocks.
pub open spec fn nesting(op: Operator) -> int {
    match op {
        Operator::Block | Operator::Loop | Operator::If => 1,
        Operator::End => -1,
        _ => 0,
    }
}

/// The operator at a position among the instructions of a function.
pub open spec fn operator_of(insts: Seq<Inst>, pos: usize) -> Operator {
    let i = choose|i: int| 0 <= i < insts.len() && (#[trigger] insts[i]).pos == pos;
    if exists|i: int| 0 <= i < insts.len() && (#[trigger] insts[i]).pos == pos {
        insts[i].op
    } else {
        Operator::Other
    }
}

/// How an instruction changes the nesting of blocks.
pub open spec fn nesting_of(plan: PlanView, instruction: Instruction) -> int {
    match instruction {
        Instruction::Block => 1,
        Instruction::End => -1,
        Instruction::Original(pos) => nesting(operator_of(plan.insts, pos)),
        _ => 0,
    }
}

/// The machine after a load.
pub open spec fn after_load(plan: PlanView, m: Machine, ty: NumType, arg: MemArg) -> Machine {
    let address = m.top().bits + arg.offset;
    if m.stack.len() == 0 || m.top().ty != NumType::I32 || arg.memory_index != plan.memory_index
        || address + ty.width() > m.memory.len() {
        m.stop()
    } else {
        m.pop().push(Value { ty, bits: read(m.memory, address as int, ty.width()) })
    }
}

/// The machine after a store.
pub open spec fn after_store(plan: PlanView, m: Machine, ty: NumType, arg: MemArg) -> Machine {
    let address = m.pop().top().bits + arg.offset;
    if m.stack.len() < 2 || m.top().ty != ty || m.pop().top().ty != NumType::I32
        || arg.memory_index != plan.memory_index || address + ty.width() > m.memory.len() {
        m.stop()
    } else {
        Machine {
            memory: write(m.memory, address as int, to_bytes(m.top().bits, ty.width())),
            ..m.pop().pop()
        }
    }
}

/// The machine after two integers of 32 bits have been compared.
pub open spec fn after_test(m: Machine, equal: bool) -> Machine {
    if m.stack.len() < 2 || m.top().ty != NumType::I32 || m.pop().top().ty != NumType::I32 {
        m.stop()
    } else {
        let holds = (m.top().bits == m.pop().top().bits) == equal;
        m.pop().pop().push(
            i32_value(
                if holds {
                    1
                } else {
                    0
                },
            ),
        )
    }
}

/// The machine after a call of a function that the host provides.
pub open spec fn after_call(plan: PlanView, m: Machine, index: u32) -> Machine {
    if index == plan.num_imports {
        m.push(
            i32_value(
                if m.migrate {
                    1
                } else {
                    0
                },
            ),
        )
    } else if index == plan.num_imports + 1 {
        match m.restored {
            Some(memory) => Machine { memory, ..m },
            None => m,
        }
    } else {
        m.stop()
    }
}

/// The machine after an instruction that has an effect.
pub open spec fn effect(plan: PlanView, m: Machine, instruction: Instruction) -> Machine {
    match instruction {
        Instruction::Block => m,
        Instruction::End => m,
        Instruction::Br(depth) => Machine { skip: (depth + 1) as nat, ..m },
        Instruction::BrIf(depth) => if m.stack.len() == 0 || m.top().ty != NumType::I32 {
            m.stop()
        } else if m.top().bits != 0 {
            Machine { skip: (depth + 1) as nat, ..m.pop() }
        } else {
            m.pop()
        },
        Instruction::Call(index) => after_call(plan, m, index),
        Instruction::LocalGet(var) => if m.locals.dom().contains(var) {
            m.push(m.locals[var])
        } else {
            m.stop()
        },
        Instruction::LocalSet(var) => if m.stack.len() == 0 {
            m.stop()
        } else {
            Machine { locals: m.locals.insert(var, m.top()), ..m.pop() }
        },
        Instruction::GlobalGet(var) => if m.globals.dom().contains(var) {
            m.push(m.globals[var])
        } else {
            m.stop()
        },
        Instruction::GlobalSet(var) => if m.stack.len() == 0 {
            m.stop()
        } else {
            Machine { globals: m.globals.insert(var, m.top()), ..m.pop() }
        },
        Instruction::I32Const(value) => m.push(i32_value(i32_bits(value))),
        Instruction::I32Eq => after_test(m, true),
        Instruction::I32Ne => after_test(m, false),
        Instruction::Load(ty, arg) => after_load(plan, m, ty, arg),
        Instruction::Store(ty, arg) => after_store(plan, m, ty, arg),
        Instruction::Unreachable => m.stop(),
        Instruction::ReturnCall(_) => m.stop(),
        Instruction::RefFunc(_) => m.stop(),
        Instruction::Original(_) => m.stop(),
    }
}

/// The machine after an instruction.
pub open spec fn step(plan: PlanView, m: Machine, instruction: Instruction) -> Machine {
    if m.stopped {
        m
    } else if m.skip > 0 {
        Machine { skip: (m.skip + nesting_of(plan, instruction)) as nat, ..m }
    } else {
        effect(plan, m, instruction)
    }
}

/// The machine after a piece of code.
pub open spec fn run(plan: PlanView, m: Machine, code: Seq<Instruction>) -> Machine
    decreases code.len(),
{
    if code.len() == 0 {
        m
    } else {
        step(plan, run(plan, m, code.drop_last()), code.last())
    }
}

/// A piece of code runs after the one before it.
pub proof fn lemma_run_concat(
    plan: PlanView,
    m: Machine,
    first: Seq<Instruction>,
    second: Seq<Instruction>,
)
    ensures
        run(plan, m, first + second) == run(plan, run(plan, m, first), second),
    decreases second.len(),
{
    if second.len() == 0 {
        assert(first + second =~= first);
    } else {
        assert((first + second).drop_last() =~= first + second.drop_last());
        lemma_run_concat(plan, m, first, second.drop_last());
    }
}

/// A single instruction.
pub proof fn lemma_run_one(plan: PlanView, m: Machine, instruction: Instruction)
    ensures
        run(plan, m, seq![instruction]) == step(plan, m, instruction),
{
    let code = seq![instruction];
    assert(code.drop_last() =~= Seq::empty());
    assert(run(plan, m, code.drop_last()) == m);
}

/// A piece of code that starts with a given instruction.
pub proof fn lemma_run_first(
    plan: PlanView,
    m: Machine,
    instruction: Instruction,
    rest: Seq<Instruction>,
)
    ensures
        run(plan, m, seq![instruction] + rest) == run(plan, step(plan, m, instruction), rest),
{
    lemma_run_concat(plan, m, seq![instruction], rest);
    lemma_run_one(plan, m, instruction);
}

/// Nothing has an effect when the execution is over.
pub proof fn lemma_run_stopped(plan: PlanView, m: Machine, code: Seq<Instruction>)
    requires
        m.stopped,
    ensures
        run(plan, m, code) == m,
    decreases code.len(),
{
    if code.len() > 0 {
        lemma_run_stopped(plan, m, code.drop_last());
    }
}

} // verus!
