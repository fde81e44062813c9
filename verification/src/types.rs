//! Plain values that stand for the parts of a WebAssembly binary.

use vstd::prelude::*;

verus! {

/// Why a binary could not be instrumented.
#[derive(Clone, Copy, Debug, PartialEq, Eq, Structural)]
pub enum MigrateError {
    /// The bytes are not a WebAssembly binary that can be parsed.
    Parse,
    /// A section could not be encoded again.
    Reencode,
    /// A range lies outside the bytes that it refers to.
    OutOfBounds,
    /// The binary, or a section of it, exceeds the size that is handled.
    TooLarge,
    /// An index does not fit in 32 bits any more.
    IndexOverflow,
    /// The module has no type section.
    MissingTypes,
    /// The module defines no function with the requested index.
    MissingFunction,
    /// The type of the requested function is not declared.
    MissingType,
    /// A block of the function body is not closed.
    UnbalancedBlocks,
    /// The function body has no region to checkpoint.
    NoRegions,
    /// The code reads or writes a local variable that is not declared.
    UnknownVariable,
    /// The code reads or writes a global variable that the module does not define.
    UnknownGlobal,
    /// A variable holds a reference, which cannot be checkpointed.
    ReferenceType,
}

/// The type of a WebAssembly value. All reference types are alike here.
#[derive(Clone, Copy, Debug, PartialEq, Eq, Structural)]
pub enum ValType {
    I32,
    I64,
    F32,
    F64,
    V128,
    Ref,
}

impl ValType {
    /// The type whose binary encoding starts with `code`.
    pub open spec fn of_code(code: u8) -> ValType {
        if code == 0x7f {
            ValType::I32
        } else if code == 0x7e {
            ValType::I64
        } else if code == 0x7d {
            ValType::F32
        } else if code == 0x7c {
            ValType::F64
        } else if code == 0x7b {
            ValType::V128
        } else {
            ValType::Ref
        }
    }

    /// The type with this binary encoding.
    pub open spec fn of_encoding(bytes: Seq<u8>) -> ValType {
        if bytes.len() == 0 {
            ValType::Ref
        } else {
            ValType::of_code(bytes[0])
        }
    }

    /// Gives the type with this binary encoding.
    pub fn from_encoding(bytes: &Vec<u8>) -> (ty: ValType)
        ensures
            ty == ValType::of_encoding(bytes@),
    {
        if bytes.len() == 0 {
            ValType::Ref
        } else {
            ValType::from_code(bytes[0])
        }
    }

    /// Gives the type whose binary encoding starts with `code`.
    pub fn from_code(code: u8) -> (ty: ValType)
        ensures
            ty == ValType::of_code(code),
    {
        if code == 0x7f {
            ValType::I32
        } else if code == 0x7e {
            ValType::I64
        } else if code == 0x7d {
            ValType::F32
        } else if code == 0x7c {
            ValType::F64
        } else if code == 0x7b {
            ValType::V128
        } else {
            ValType::Ref
        }
    }
}

/// What an export gives access to.
#[derive(Clone, Copy, Debug, PartialEq, Eq, Structural)]
pub enum ExternKind {
    Func,
    Table,
    Memory,
    Global,
    Tag,
}

/// An instruction of a function body, as far as the analysis tells them apart.
#[derive(Clone, Copy, Debug, PartialEq, Eq, Structural)]
pub enum Operator {
    Block,
    Loop,
    If,
    Else,
    End,
    LocalGet(u32),
    LocalSet(u32),
    LocalTee(u32),
    GlobalGet(u32),
    GlobalSet(u32),
    Call(u32),
    ReturnCall(u32),
    RefFunc(u32),
    Other,
}

/// A piece of a binary, in the order in which the parser reports them.
/// Positions count bytes from the start of the binary.
#[derive(Clone, Copy, Debug, PartialEq, Eq, Structural)]
pub enum RawPayload {
    /// The header of a module, or of a component.
    Version(bool),
    /// A section with its identifier and the range of its contents.
    Section(u8, usize, usize),
    /// The range of a function body inside a code section.
    Body(usize, usize),
    /// The end of a module or component.
    End,
}

/// The items of an element segment.
pub enum ElementItems {
    /// Indices of functions.
    Functions(Vec<u32>),
    /// Constant expressions, each with its bytes.
    Expressions(Vec<Vec<u8>>),
}

/// What the items of an element segment are.
pub enum ItemsView {
    Functions(Seq<u32>),
    Expressions(Seq<Seq<u8>>),
}

impl View for ElementItems {
    type V = ItemsView;

    open spec fn view(&self) -> ItemsView {
        match *self {
            ElementItems::Functions(indices) => ItemsView::Functions(indices@),
            ElementItems::Expressions(exprs) => ItemsView::Expressions(views(exprs@)),
        }
    }
}

/// What an export says, with its name as characters.
pub struct ExportView {
    pub name: Seq<char>,
    pub kind: ExternKind,
    pub index: u32,
}

/// An export of a module.
pub struct Export {
    pub name: String,
    pub kind: ExternKind,
    pub index: u32,
}

impl View for Export {
    type V = ExportView;

    open spec fn view(&self) -> ExportView {
        ExportView { name: self.name@, kind: self.kind, index: self.index }
    }
}

/// The views of the elements of a sequence.
pub open spec fn views<T: View>(items: Seq<T>) -> Seq<T::V> {
    Seq::new(items.len(), |i: int| items[i]@)
}

/// The views of two sequences one after the other.
pub proof fn lemma_views_concat<T: View>(first: Seq<T>, second: Seq<T>)
    ensures
        views(first + second) == views(first) + views(second),
{
    assert(views(first + second) =~= views(first) + views(second));
}

/// What an import brings into a module.
#[derive(Clone, Copy, Debug, PartialEq, Eq, Structural)]
pub enum Import {
    /// A function with the index of its type.
    Function(u32),
    Memory,
    /// A global with its type, and whether it is mutable.
    Global(ValType, bool),
    /// A table or a tag.
    Other,
}

/// The largest number of bytes of a binary that is handled: as many as a vector can
/// hold where addresses have 32 bits. `wasm_encoder` panics on a section of more than
/// twice as many. The sections of a module get no longer when they are encoded again.
pub const MAX_BINARY_SIZE: usize = 0x7fff_ffff;

/// The largest number of bytes of a section of a component that may name value types
/// of components. Such a type can be an index in one byte, and takes up to five when
/// it is encoded again.
pub const MAX_TYPED_SIZE: usize = 858_993_454;

/// The largest number of bytes of a function body, so that it fits in a section.
pub const MAX_BODY_SIZE: usize = 0xffff_ff00;

} // verus!
