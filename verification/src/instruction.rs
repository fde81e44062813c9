//! The instructions of a rewritten function.

use vstd::prelude::*;
use crate::types::ValType;

verus! {

/// The types whose values are loaded from and stored to a memory.
#[derive(Clone, Copy, Debug, PartialEq, Eq, Structural)]
pub enum NumType {
    I32,
    I64,
    F32,
    F64,
    V128,
}

impl NumType {
    /// The type as one that can be loaded and stored, `None` for references.
    pub open spec fn of(ty: ValType) -> Option<NumType> {
        match ty {
            ValType::I32 => Some(NumType::I32),
            ValType::I64 => Some(NumType::I64),
            ValType::F32 => Some(NumType::F32),
            ValType::F64 => Some(NumType::F64),
            ValType::V128 => Some(NumType::V128),
            ValType::Ref => None,
        }
    }

    /// Gives the type as one that can be loaded and stored.
    pub fn from_val_type(ty: ValType) -> (num: Option<NumType>)
        ensures
            num == NumType::of(ty),
    {
        match ty {
            ValType::I32 => Some(NumType::I32),
            ValType::I64 => Some(NumType::I64),
            ValType::F32 => Some(NumType::F32),
            ValType::F64 => Some(NumType::F64),
            ValType::V128 => Some(NumType::V128),
            ValType::Ref => None,
        }
    }

    /// How many bytes a value takes in a memory.
    pub open spec fn width(self) -> nat {
        match self {
            NumType::I32 => 4,
            NumType::I64 => 8,
            NumType::F32 => 4,
            NumType::F64 => 8,
            NumType::V128 => 16,
        }
    }
}

/// Where a load or store takes place, relative to the address operand.
#[derive(Clone, Copy, Debug, PartialEq, Eq, Structural)]
pub struct MemArg {
    pub offset: u64,
    pub align: u32,
    pub memory_index: u32,
}

/// An instruction of a rewritten function.
#[derive(Clone, Copy, Debug, PartialEq, Eq, Structural)]
pub enum Instruction {
    /// Opens a block without parameters and results.
    Block,
    End,
    Br(u32),
    BrIf(u32),
    Call(u32),
    ReturnCall(u32),
    RefFunc(u32),
    Unreachable,
    LocalGet(u32),
    LocalSet(u32),
    GlobalGet(u32),
    GlobalSet(u32),
    I32Const(i32),
    I32Eq,
    I32Ne,
    Load(NumType, MemArg),
    Store(NumType, MemArg),
    /// The instruction at this position of the function body, unchanged.
    Original(usize),
}

} // verus!
