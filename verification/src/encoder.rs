//! What is encoded by `wasm_encoder`.
//!
//! A section comes out of `wasm_encoder` as the number of its entries and its
//! encoding, which is the size of its contents, the number of entries and the
//! entries one after the other.

use std::borrow::Cow;
use vstd::prelude::*;
use crate::instruction::{Instruction, MemArg, NumType};
use crate::leb;
use crate::payload;
use crate::payload::{Payload, SectionKind};
use crate::reader;
use crate::section::SectionView;
use crate::types::{views, ExternKind, MAX_BINARY_SIZE, MAX_BODY_SIZE, MAX_TYPED_SIZE};
use wasm_encoder::reencode::{Error, Reencode, ReencodeComponent, RoundtripReencoder};
use wasm_encoder::{
    BlockType, CodeSection, ConstExpr, DataSection, ElementSection, Elements, Encode, EntityType, ExportKind,
    ExportSection, FunctionSection, GlobalSection, ImportSection, Instruction as Inst,
    MemorySection, MemoryType, ModuleSection, NestedComponentSection, RawSection, TableSection,
    TagSection, TypeSection,
};
use wasmparser::{
    BinaryReader, ElementItems, ElementKind, ElementSectionReader, Parser, SectionLimited,
};

verus! {

/// The number of entries and the encoding are those of a section that holds
/// `view`.
pub open spec fn encodes(encoded: (u32, Vec<u8>), view: SectionView) -> bool {
    encoded.0 == view.count && encoded.1@ == view.encoding()
}

/// A section was encoded exactly if there is one to encode.
pub open spec fn answers(
    encoded: Result<(u32, Vec<u8>), wasm_encoder::reencode::Error>,
    view: Option<SectionView>,
) -> bool {
    match (encoded, view) {
        (Ok(section), Some(view)) => encodes(section, view),
        (Err(_), None) => true,
        _ => false,
    }
}

/// The type section in `section`, encoded again.
pub uninterp spec fn reencoded_types(section: Seq<u8>) -> Option<SectionView>;

/// Calls `Reencode::parse_type_section` of the roundtrip reencoder.
#[verifier::external_body]
pub(crate) fn reencode_types(section: &[u8]) -> (encoded: Result<(u32, Vec<u8>), Error>)
    requires
        section@.len() <= MAX_BINARY_SIZE,
    ensures
        answers(encoded, reencoded_types(section@)),
{
    let mut types = TypeSection::new();
    let reader = SectionLimited::new(BinaryReader::new(section, 0))?;
    RoundtripReencoder.parse_type_section(&mut types, reader)?;
    let mut bytes = Vec::new();
    types.encode(&mut bytes);
    Ok((types.len(), bytes))
}

/// The import section in `section`, encoded again.
pub uninterp spec fn reencoded_imports(section: Seq<u8>) -> Option<SectionView>;

/// Calls `Reencode::parse_import_section` of the roundtrip reencoder.
#[verifier::external_body]
pub(crate) fn reencode_imports(section: &[u8]) -> (encoded: Result<(u32, Vec<u8>), Error>)
    requires
        section@.len() <= MAX_BINARY_SIZE,
    ensures
        answers(encoded, reencoded_imports(section@)),
{
    let mut imports = ImportSection::new();
    let reader = SectionLimited::new(BinaryReader::new(section, 0))?;
    RoundtripReencoder.parse_import_section(&mut imports, reader)?;
    let mut bytes = Vec::new();
    imports.encode(&mut bytes);
    Ok((imports.len(), bytes))
}

/// The function section in `section`, encoded again.
pub uninterp spec fn reencoded_functions(section: Seq<u8>) -> Option<SectionView>;

/// Calls `Reencode::parse_function_section` of the roundtrip reencoder.
#[verifier::external_body]
pub(crate) fn reencode_functions(section: &[u8]) -> (encoded: Result<(u32, Vec<u8>), Error>)
    requires
        section@.len() <= MAX_BINARY_SIZE,
    ensures
        answers(encoded, reencoded_functions(section@)),
{
    let mut functions = FunctionSection::new();
    let reader = SectionLimited::new(BinaryReader::new(section, 0))?;
    RoundtripReencoder.parse_function_section(&mut functions, reader)?;
    let mut bytes = Vec::new();
    functions.encode(&mut bytes);
    Ok((functions.len(), bytes))
}

/// The table section in `section`, encoded again.
pub uninterp spec fn reencoded_tables(section: Seq<u8>) -> Option<SectionView>;

/// Calls `Reencode::parse_table_section` of the roundtrip reencoder.
#[verifier::external_body]
pub(crate) fn reencode_tables(section: &[u8]) -> (encoded: Result<(u32, Vec<u8>), Error>)
    requires
        section@.len() <= MAX_BINARY_SIZE,
    ensures
        answers(encoded, reencoded_tables(section@)),
{
    let mut tables = TableSection::new();
    let reader = SectionLimited::new(BinaryReader::new(section, 0))?;
    RoundtripReencoder.parse_table_section(&mut tables, reader)?;
    let mut bytes = Vec::new();
    tables.encode(&mut bytes);
    Ok((tables.len(), bytes))
}

/// The memory section in `section`, encoded again.
pub uninterp spec fn reencoded_memories(section: Seq<u8>) -> Option<SectionView>;

/// Calls `Reencode::parse_memory_section` of the roundtrip reencoder.
#[verifier::external_body]
pub(crate) fn reencode_memories(section: &[u8]) -> (encoded: Result<(u32, Vec<u8>), Error>)
    requires
        section@.len() <= MAX_BINARY_SIZE,
    ensures
        answers(encoded, reencoded_memories(section@)),
{
    let mut memories = MemorySection::new();
    let reader = SectionLimited::new(BinaryReader::new(section, 0))?;
    RoundtripReencoder.parse_memory_section(&mut memories, reader)?;
    let mut bytes = Vec::new();
    memories.encode(&mut bytes);
    Ok((memories.len(), bytes))
}

/// The tag section in `section`, encoded again.
pub uninterp spec fn reencoded_tags(section: Seq<u8>) -> Option<SectionView>;

/// Calls `Reencode::parse_tag_section` of the roundtrip reencoder.
#[verifier::external_body]
pub(crate) fn reencode_tags(section: &[u8]) -> (encoded: Result<(u32, Vec<u8>), Error>)
    requires
        section@.len() <= MAX_BINARY_SIZE,
    ensures
        answers(encoded, reencoded_tags(section@)),
{
    let mut tags = TagSection::new();
    let reader = SectionLimited::new(BinaryReader::new(section, 0))?;
    RoundtripReencoder.parse_tag_section(&mut tags, reader)?;
    let mut bytes = Vec::new();
    tags.encode(&mut bytes);
    Ok((tags.len(), bytes))
}

/// The global section in `section`, encoded again.
pub uninterp spec fn reencoded_globals(section: Seq<u8>) -> Option<SectionView>;

/// Calls `Reencode::parse_global_section` of the roundtrip reencoder.
#[verifier::external_body]
pub(crate) fn reencode_globals(section: &[u8]) -> (encoded: Result<(u32, Vec<u8>), Error>)
    requires
        section@.len() <= MAX_BINARY_SIZE,
    ensures
        answers(encoded, reencoded_globals(section@)),
{
    let mut globals = GlobalSection::new();
    let reader = SectionLimited::new(BinaryReader::new(section, 0))?;
    RoundtripReencoder.parse_global_section(&mut globals, reader)?;
    let mut bytes = Vec::new();
    globals.encode(&mut bytes);
    Ok((globals.len(), bytes))
}

/// The export section in `section`, encoded again.
pub uninterp spec fn reencoded_exports(section: Seq<u8>) -> Option<SectionView>;

/// Calls `Reencode::parse_export_section` of the roundtrip reencoder.
#[verifier::external_body]
pub(crate) fn reencode_exports(section: &[u8]) -> (encoded: Result<(u32, Vec<u8>), Error>)
    requires
        section@.len() <= MAX_BINARY_SIZE,
    ensures
        answers(encoded, reencoded_exports(section@)),
{
    let mut exports = ExportSection::new();
    let reader = SectionLimited::new(BinaryReader::new(section, 0))?;
    RoundtripReencoder.parse_export_section(&mut exports, reader)?;
    let mut bytes = Vec::new();
    exports.encode(&mut bytes);
    Ok((exports.len(), bytes))
}

/// The element section in `section`, encoded again.
pub uninterp spec fn reencoded_elements(section: Seq<u8>) -> Option<SectionView>;

/// Calls `Reencode::parse_element_section` of the roundtrip reencoder.
#[verifier::external_body]
pub(crate) fn reencode_elements(section: &[u8]) -> (encoded: Result<(u32, Vec<u8>), Error>)
    requires
        section@.len() <= MAX_BINARY_SIZE,
    ensures
        answers(encoded, reencoded_elements(section@)),
{
    let mut elements = ElementSection::new();
    let reader = SectionLimited::new(BinaryReader::new(section, 0))?;
    RoundtripReencoder.parse_element_section(&mut elements, reader)?;
    let mut bytes = Vec::new();
    elements.encode(&mut bytes);
    Ok((elements.len(), bytes))
}

/// The code section in `section`, encoded again.
pub uninterp spec fn reencoded_code(section: Seq<u8>) -> Option<SectionView>;

/// Calls `Reencode::parse_code_section` of the roundtrip reencoder.
#[verifier::external_body]
pub(crate) fn reencode_code(section: &[u8]) -> (encoded: Result<(u32, Vec<u8>), Error>)
    requires
        section@.len() <= MAX_BINARY_SIZE,
    ensures
        answers(encoded, reencoded_code(section@)),
{
    let mut code = CodeSection::new();
    let reader = SectionLimited::new(BinaryReader::new(section, 0))?;
    RoundtripReencoder.parse_code_section(&mut code, reader)?;
    let mut bytes = Vec::new();
    code.encode(&mut bytes);
    Ok((code.len(), bytes))
}

/// The data section in `section`, encoded again.
pub uninterp spec fn reencoded_data(section: Seq<u8>) -> Option<SectionView>;

/// Calls `Reencode::parse_data_section` of the roundtrip reencoder.
#[verifier::external_body]
pub(crate) fn reencode_data(section: &[u8]) -> (encoded: Result<(u32, Vec<u8>), Error>)
    requires
        section@.len() <= MAX_BINARY_SIZE,
    ensures
        answers(encoded, reencoded_data(section@)),
{
    let mut data = DataSection::new();
    let reader = SectionLimited::new(BinaryReader::new(section, 0))?;
    RoundtripReencoder.parse_data_section(&mut data, reader)?;
    let mut bytes = Vec::new();
    data.encode(&mut bytes);
    Ok((data.len(), bytes))
}

/// How many bytes these lists have in all.
pub open spec fn total(lists: Seq<Seq<u8>>) -> nat
    decreases lists.len(),
{
    if lists.len() == 0 {
        0
    } else {
        total(lists.drop_last()) + lists.last().len()
    }
}

/// The section with only the element segment number `index` of `section`, its
/// items replaced by these constant expressions.
pub uninterp spec fn element_with_expressions(
    section: Seq<u8>,
    index: int,
    exprs: Seq<Seq<u8>>,
) -> Option<SectionView>;

/// Calls `ElementSection::passive`, `declared` or `active`, whichever adds the
/// kind of segment that segment number `index` is, with these expressions as its
/// items, each without its final `end` (`ConstExpr::raw`). The type of the items
/// is that of the segment.
#[verifier::external_body]
pub(crate) fn encode_element_expressions(section: &[u8], index: usize, exprs: Vec<Vec<u8>>) -> (encoded:
    Result<(u32, Vec<u8>), Error>)
    requires
        section@.len() <= MAX_BINARY_SIZE,
        exprs@.len() <= MAX_BINARY_SIZE / 4,
        total(views(exprs@)) <= MAX_BINARY_SIZE / 2,
        reader::element_items(section@) matches Some(items) && index < items.len()
            && items[index as int] is Expressions,
    ensures
        answers(encoded, element_with_expressions(section@, index as int, views(exprs@))),
{
    let element = ElementSectionReader::new(BinaryReader::new(section, 0))?.into_iter().nth(index).unwrap()?;
    let exprs = exprs.into_iter().map(ConstExpr::raw).collect();
    let items = match element.items {
        ElementItems::Expressions(ty, _) => Elements::Expressions(RoundtripReencoder.ref_type(ty)?, exprs),
        other => RoundtripReencoder.element_items(other)?,
    };
    let (mut elements, mut bytes) = (ElementSection::new(), Vec::new());
    match element.kind {
        ElementKind::Passive => elements.passive(items),
        ElementKind::Declared => elements.declared(items),
        ElementKind::Active { table_index, offset_expr } =>
            elements.active(table_index, &RoundtripReencoder.const_expr(offset_expr)?, items),
    }.encode(&mut bytes);
    Ok((elements.len(), bytes))
}

/// The section with only the element segment number `index` of `section`, its
/// items replaced by the function indices `functions`.
pub uninterp spec fn element_with_functions(
    section: Seq<u8>,
    index: int,
    functions: Seq<u32>,
) -> Option<SectionView>;

/// Calls `ElementSection::passive`, `declared` or `active`, whichever adds the
/// kind of segment that segment number `index` is, with `functions` as its items.
#[verifier::external_body]
pub(crate) fn encode_element_functions(section: &[u8], index: usize, functions: Vec<u32>) -> (encoded:
    Result<(u32, Vec<u8>), Error>)
    requires
        section@.len() <= MAX_BINARY_SIZE,
        functions@.len() <= MAX_BINARY_SIZE / 8,
        reader::element_items(section@) matches Some(items) && index < items.len(),
    ensures
        answers(encoded, element_with_functions(section@, index as int, functions@)),
{
    let element = ElementSectionReader::new(BinaryReader::new(section, 0))?.into_iter().nth(index).unwrap()?;
    let items = Elements::Functions(Cow::from(functions));
    let (mut elements, mut bytes) = (ElementSection::new(), Vec::new());
    match element.kind {
        ElementKind::Passive => elements.passive(items),
        ElementKind::Declared => elements.declared(items),
        ElementKind::Active { table_index, offset_expr } => {
            elements.active(table_index, &RoundtripReencoder.const_expr(offset_expr)?, items)
        },
    }.encode(&mut bytes);
    Ok((elements.len(), bytes))
}

/// A string in a binary: its length in bytes, then its UTF-8 encoding.
pub open spec fn string_encoding(s: Seq<char>) -> Seq<u8> {
    let bytes = vstd::utf8::encode_utf8(s);
    leb::uleb128(bytes.len()) + bytes
}

/// The entry for the type of a function without parameters that returns
/// `results` integers of 32 bits.
pub open spec fn function_type_entry(results: nat) -> Seq<u8> {
    seq![0x60u8, 0x00u8] + leb::uleb128(results) + Seq::new(results, |i: int| 0x7fu8)
}

/// Calls `wasm_encoder::CoreTypeEncoder::function`.
#[verifier::external_body]
pub(crate) fn encode_function_type(results: usize) -> (encoded: (u32, Vec<u8>))
    requires
        results <= MAX_BINARY_SIZE,
    ensures
        encodes(encoded, (SectionView { count: 1, entries: function_type_entry(results as nat) })),
{
    let mut types = TypeSection::new();
    types.ty().function([], vec![wasm_encoder::ValType::I32; results]);
    let mut bytes = Vec::new();
    types.encode(&mut bytes);
    (types.len(), bytes)
}

/// The entry for an imported function of the type number `ty`.
pub open spec fn function_import_entry(module: Seq<char>, name: Seq<char>, ty: u32) -> Seq<u8> {
    string_encoding(module) + string_encoding(name) + seq![0x00u8] + leb::uleb128(ty as nat)
}

/// Calls `wasm_encoder::ImportSection::import` with a function type.
#[verifier::external_body]
pub(crate) fn encode_function_import(module: &str, name: &str, ty: u32) -> (encoded: (u32, Vec<u8>))
    requires
        vstd::utf8::encode_utf8(module@).len() <= MAX_BINARY_SIZE / 4,
        vstd::utf8::encode_utf8(name@).len() <= MAX_BINARY_SIZE / 4,
    ensures
        encodes(
            encoded,
            (SectionView { count: 1, entries: function_import_entry(module@, name@, ty) }),
        ),
{
    let mut imports = ImportSection::new();
    imports.import(module, name, EntityType::Function(ty));
    let mut bytes = Vec::new();
    imports.encode(&mut bytes);
    (imports.len(), bytes)
}

/// The entry for a memory of at least `minimum` pages.
pub open spec fn memory_entry(minimum: u64) -> Seq<u8> {
    seq![0x00u8] + leb::uleb128(minimum as nat)
}

/// Calls `wasm_encoder::MemorySection::memory` for an unshared memory with
/// 32-bit addresses, no maximum and pages of the default size.
#[verifier::external_body]
pub(crate) fn encode_memory(minimum: u64) -> (encoded: (u32, Vec<u8>))
    ensures
        encodes(encoded, (SectionView { count: 1, entries: memory_entry(minimum) })),
{
    let mut memories = MemorySection::new();
    memories.memory(MemoryType { minimum, maximum: None, memory64: false, shared: false, page_size_log2: None });
    let mut bytes = Vec::new();
    memories.encode(&mut bytes);
    (memories.len(), bytes)
}

/// The byte that stands for the kind of an export.
pub open spec fn extern_kind_code(kind: ExternKind) -> u8 {
    match kind {
        ExternKind::Func => 0x00,
        ExternKind::Table => 0x01,
        ExternKind::Memory => 0x02,
        ExternKind::Global => 0x03,
        ExternKind::Tag => 0x04,
    }
}

/// The entry for an export.
pub open spec fn export_entry(name: Seq<char>, kind: ExternKind, index: u32) -> Seq<u8> {
    string_encoding(name) + seq![extern_kind_code(kind)] + leb::uleb128(index as nat)
}

/// Calls `wasm_encoder::ExportSection::export`.
#[verifier::external_body]
pub(crate) fn encode_export(name: &str, kind: ExternKind, index: u32) -> (encoded: (u32, Vec<u8>))
    requires
        vstd::utf8::encode_utf8(name@).len() <= MAX_BINARY_SIZE,
    ensures
        encodes(encoded, (SectionView { count: 1, entries: export_entry(name@, kind, index) })),
{
    let kind = match kind {
        ExternKind::Func => ExportKind::Func,
        ExternKind::Table => ExportKind::Table,
        ExternKind::Memory => ExportKind::Memory,
        ExternKind::Global => ExportKind::Global,
        ExternKind::Tag => ExportKind::Tag,
    };
    let mut exports = ExportSection::new();
    exports.export(name, kind, index);
    let mut bytes = Vec::new();
    exports.encode(&mut bytes);
    (exports.len(), bytes)
}

/// The entry for a function body: its size, then the body.
pub open spec fn code_entry(body: Seq<u8>) -> Seq<u8> {
    leb::uleb128(body.len()) + body
}

/// Calls `wasm_encoder::CodeSection::raw`.
#[verifier::external_body]
pub(crate) fn encode_code(body: &Vec<u8>) -> (encoded: (u32, Vec<u8>))
    requires
        body@.len() <= MAX_BODY_SIZE,
    ensures
        encodes(encoded, (SectionView { count: 1, entries: code_entry(body@) })),
{
    let mut code = CodeSection::new();
    code.raw(body);
    let mut bytes = Vec::new();
    code.encode(&mut bytes);
    (code.len(), bytes)
}

/// The encoding of where a load or store takes place: the alignment, the memory
/// unless it is the first one, the offset.
pub open spec fn mem_arg_bytes(arg: MemArg) -> Seq<u8> {
    if arg.memory_index == 0 {
        leb::uleb128(arg.align as nat) + leb::uleb128(arg.offset as nat)
    } else {
        leb::uleb128((arg.align | 64) as nat) + leb::uleb128(arg.memory_index as nat)
            + leb::uleb128(arg.offset as nat)
    }
}

/// The opcode of a load.
pub open spec fn load_opcode(ty: NumType) -> Seq<u8> {
    match ty {
        NumType::I32 => seq![0x28u8],
        NumType::I64 => seq![0x29u8],
        NumType::F32 => seq![0x2au8],
        NumType::F64 => seq![0x2bu8],
        NumType::V128 => seq![0xfdu8, 0x00u8],
    }
}

/// The opcode of a store.
pub open spec fn store_opcode(ty: NumType) -> Seq<u8> {
    match ty {
        NumType::I32 => seq![0x36u8],
        NumType::I64 => seq![0x37u8],
        NumType::F32 => seq![0x38u8],
        NumType::F64 => seq![0x39u8],
        NumType::V128 => seq![0xfdu8, 0x0bu8],
    }
}

/// The binary encoding of an instruction: its opcode, then its operands. An
/// original instruction is not encoded this way.
#[verifier::opaque]
pub open spec fn instruction_bytes(instruction: Instruction) -> Seq<u8> {
    match instruction {
        Instruction::Block => seq![0x02u8, 0x40u8],
        Instruction::End => seq![0x0bu8],
        Instruction::Br(depth) => seq![0x0cu8] + leb::uleb128(depth as nat),
        Instruction::BrIf(depth) => seq![0x0du8] + leb::uleb128(depth as nat),
        Instruction::Call(index) => seq![0x10u8] + leb::uleb128(index as nat),
        Instruction::ReturnCall(index) => seq![0x12u8] + leb::uleb128(index as nat),
        Instruction::RefFunc(index) => seq![0xd2u8] + leb::uleb128(index as nat),
        Instruction::Unreachable => seq![0x00u8],
        Instruction::LocalGet(index) => seq![0x20u8] + leb::uleb128(index as nat),
        Instruction::LocalSet(index) => seq![0x21u8] + leb::uleb128(index as nat),
        Instruction::GlobalGet(index) => seq![0x23u8] + leb::uleb128(index as nat),
        Instruction::GlobalSet(index) => seq![0x24u8] + leb::uleb128(index as nat),
        Instruction::I32Const(value) => seq![0x41u8] + leb::sleb128(value as int),
        Instruction::I32Eq => seq![0x46u8],
        Instruction::I32Ne => seq![0x47u8],
        Instruction::Load(ty, arg) => load_opcode(ty) + mem_arg_bytes(arg),
        Instruction::Store(ty, arg) => store_opcode(ty) + mem_arg_bytes(arg),
        Instruction::Original(_) => Seq::empty(),
    }
}

/// Tells whether the instruction directs the flow of control.
pub open spec fn is_control(instruction: Instruction) -> bool {
    match instruction {
        Instruction::Block | Instruction::End | Instruction::Br(_) | Instruction::BrIf(_) => true,
        Instruction::Call(_) | Instruction::ReturnCall(_) | Instruction::Unreachable => true,
        _ => false,
    }
}

/// Calls `wasm_encoder::Instruction::encode` for an instruction that directs
/// the flow of control.
#[verifier::external_body]
pub(crate) fn encode_control(instruction: Instruction) -> (bytes: Vec<u8>)
    requires
        is_control(instruction),
    ensures
        bytes@ == instruction_bytes(instruction),
{
    let mut bytes = Vec::new();
    match instruction {
        Instruction::Block => Inst::Block(BlockType::Empty),
        Instruction::End => Inst::End,
        Instruction::Br(depth) => Inst::Br(depth),
        Instruction::BrIf(depth) => Inst::BrIf(depth),
        Instruction::Call(index) => Inst::Call(index),
        Instruction::ReturnCall(index) => Inst::ReturnCall(index),
        _ => Inst::Unreachable,
    }.encode(&mut bytes);
    bytes
}

/// Tells whether the instruction works on the operand stack and on variables.
pub open spec fn is_operand(instruction: Instruction) -> bool {
    match instruction {
        Instruction::LocalGet(_) | Instruction::LocalSet(_) | Instruction::GlobalGet(_) => true,
        Instruction::GlobalSet(_) | Instruction::I32Const(_) => true,
        Instruction::I32Eq | Instruction::I32Ne | Instruction::RefFunc(_) => true,
        _ => false,
    }
}

/// Calls `wasm_encoder::Instruction::encode` for an instruction that works on
/// the operand stack and on variables.
#[verifier::external_body]
pub(crate) fn encode_operand(instruction: Instruction) -> (bytes: Vec<u8>)
    requires
        is_operand(instruction),
    ensures
        bytes@ == instruction_bytes(instruction),
{
    let mut bytes = Vec::new();
    match instruction {
        Instruction::LocalGet(index) => Inst::LocalGet(index),
        Instruction::LocalSet(index) => Inst::LocalSet(index),
        Instruction::GlobalGet(index) => Inst::GlobalGet(index),
        Instruction::GlobalSet(index) => Inst::GlobalSet(index),
        Instruction::I32Const(value) => Inst::I32Const(value),
        Instruction::I32Eq => Inst::I32Eq,
        Instruction::RefFunc(index) => Inst::RefFunc(index),
        _ => Inst::I32Ne,
    }.encode(&mut bytes);
    bytes
}

/// Calls `wasm_encoder::Instruction::encode` for a load.
#[verifier::external_body]
pub(crate) fn encode_load(ty: NumType, arg: MemArg) -> (bytes: Vec<u8>)
    ensures
        bytes@ == instruction_bytes(Instruction::Load(ty, arg)),
{
    let mut bytes = Vec::new();
    let arg = wasm_encoder::MemArg { offset: arg.offset, align: arg.align, memory_index: arg.memory_index };
    match ty {
        NumType::I32 => Inst::I32Load(arg),
        NumType::I64 => Inst::I64Load(arg),
        NumType::F32 => Inst::F32Load(arg),
        NumType::F64 => Inst::F64Load(arg),
        NumType::V128 => Inst::V128Load(arg),
    }.encode(&mut bytes);
    bytes
}

/// Calls `wasm_encoder::Instruction::encode` for a store.
#[verifier::external_body]
pub(crate) fn encode_store(ty: NumType, arg: MemArg) -> (bytes: Vec<u8>)
    ensures
        bytes@ == instruction_bytes(Instruction::Store(ty, arg)),
{
    let mut bytes = Vec::new();
    let arg = wasm_encoder::MemArg { offset: arg.offset, align: arg.align, memory_index: arg.memory_index };
    match ty {
        NumType::I32 => Inst::I32Store(arg),
        NumType::I64 => Inst::I64Store(arg),
        NumType::F32 => Inst::F32Store(arg),
        NumType::F64 => Inst::F64Store(arg),
        NumType::V128 => Inst::V128Store(arg),
    }.encode(&mut bytes);
    bytes
}

/// The operator at a position of a function body, encoded again.
pub uninterp spec fn reencoded_operator(body: Seq<u8>, pos: int) -> Option<Seq<u8>>;

/// Calls `Reencode::instruction` of the roundtrip reencoder on the operator at
/// `pos`, and `wasm_encoder::Instruction::encode` on what it returns.
#[verifier::external_body]
pub(crate) fn reencode_operator(body: &[u8], pos: usize) -> (encoded: Result<Vec<u8>, Error>)
    requires
        pos <= body@.len(),
    ensures
        encoded is Ok == (reencoded_operator(body@, pos as int) is Some),
        encoded matches Ok(bytes) ==> reencoded_operator(body@, pos as int) == Some(bytes@),
{
    let operator = BinaryReader::new(&body[pos..], 0).read_operator()?;
    let mut bytes = Vec::new();
    RoundtripReencoder.instruction(operator)?.encode(&mut bytes);
    Ok(bytes)
}

/// A module under construction.
#[verifier::external_type_specification]
#[verifier::external_body]
pub struct ExModule(wasm_encoder::Module);

/// The bytes of a module under construction.
pub uninterp spec fn module_bytes(module: wasm_encoder::Module) -> Seq<u8>;

/// The header of a module: the magic number, then the version.
pub open spec fn module_header() -> Seq<u8> {
    seq![0x00u8, 0x61u8, 0x73u8, 0x6du8, 0x01u8, 0x00u8, 0x00u8, 0x00u8]
}

/// A section in a binary: its identifier, the size of its contents, its
/// contents.
pub open spec fn section_bytes(id: u8, contents: Seq<u8>) -> Seq<u8> {
    seq![id] + leb::uleb128(contents.len()) + contents
}

/// Calls `wasm_encoder::Module::new`, which starts with the header.
#[verifier::external_body]
pub(crate) fn new_module() -> (module: wasm_encoder::Module)
    ensures
        module_bytes(module) == module_header(),
{
    wasm_encoder::Module::new()
}

/// Calls `wasm_encoder::Module::section` with a `wasm_encoder::RawSection`,
/// which adds the identifier and the contents preceded by their size.
#[verifier::external_body]
pub(crate) fn add_section(module: &mut wasm_encoder::Module, id: u8, contents: &Vec<u8>)
    requires
        contents@.len() <= u32::MAX,
    ensures
        module_bytes(*final(module)) == module_bytes(*old(module)) + section_bytes(id, contents@),
{
    module.section(&RawSection { id, data: contents });
}

/// Calls `wasm_encoder::Module::len`, which counts the bytes.
#[verifier::external_body]
pub(crate) fn module_len(module: &wasm_encoder::Module) -> (len: usize)
    ensures
        len == module_bytes(*module).len(),
{
    module.len()
}

/// Calls `wasm_encoder::Module::finish`, which hands out the bytes.
#[verifier::external_body]
pub(crate) fn finish_module(module: wasm_encoder::Module) -> (bytes: Vec<u8>)
    ensures
        bytes@ == module_bytes(module),
{
    module.finish()
}

/// A component under construction.
#[verifier::external_type_specification]
#[verifier::external_body]
pub struct ExComponent(wasm_encoder::Component);

/// The bytes of a component under construction.
pub uninterp spec fn component_bytes(component: wasm_encoder::Component) -> Seq<u8>;

/// Calls `wasm_encoder::Component::new`, which starts with the header.
#[verifier::external_body]
pub(crate) fn new_component() -> (component: wasm_encoder::Component)
    ensures
        component_bytes(component) == reader::component_header(),
{
    wasm_encoder::Component::new()
}

/// Tells whether a piece of a component is copied into the encoded one: custom
/// sections and all sections of a component but those that hold a module or a
/// component.
pub open spec fn is_copied(piece: Payload) -> bool {
    match piece {
        Payload::Section(kind, _, _) => match kind {
            SectionKind::CoreInstance
            | SectionKind::CoreType
            | SectionKind::ComponentInstance
            | SectionKind::ComponentAlias
            | SectionKind::ComponentType
            | SectionKind::ComponentCanonical
            | SectionKind::ComponentStart
            | SectionKind::ComponentImport
            | SectionKind::ComponentExport
            | SectionKind::Custom => true,
            _ => false,
        },
        _ => false,
    }
}

/// A section that may name value types of components is short enough to be encoded
/// again.
pub open spec fn fits_again(piece: Payload) -> bool {
    match piece {
        Payload::Section(kind, start, end) => match kind {
            SectionKind::ComponentType
            | SectionKind::ComponentCanonical
            | SectionKind::ComponentImport
            | SectionKind::ComponentExport => end - start <= MAX_TYPED_SIZE,
            _ => true,
        },
        _ => true,
    }
}

/// The section that is piece number `index` of a binary, encoded again.
pub uninterp spec fn reencoded_piece(bytes: Seq<u8>, index: int) -> Option<Seq<u8>>;

/// Calls `ReencodeComponent::parse_component_payload` of the roundtrip
/// reencoder on payload number `index`, which adds the section that the payload
/// is to the component. Where that fails, nothing is added. It would panic on a
/// section that takes more bytes than 32 bits can count: an index of a value type
/// that is read from one byte is written in five, and everything else in no more
/// bytes than it was read from.
#[verifier::external_body]
pub(crate) fn copy_piece(component: &mut wasm_encoder::Component, bytes: &[u8], index: usize) -> (copied:
    Result<(), Error>)
    requires
        bytes@.len() <= MAX_BINARY_SIZE,
        payload::parsed(bytes@) matches Ok(pieces) && index < pieces.len() && is_copied(
            pieces[index as int],
        ) && fits_again(pieces[index as int]),
    ensures
        copied is Ok == (reencoded_piece(bytes@, index as int) is Some),
        copied is Ok ==> component_bytes(*final(component)) == component_bytes(*old(component))
            + reencoded_piece(bytes@, index as int)->Some_0,
        copied is Err ==> component_bytes(*final(component)) == component_bytes(*old(component)),
{
    let payload = Parser::new(0).parse_all(bytes).nth(index).unwrap()?;
    RoundtripReencoder.parse_component_payload(component, payload, bytes)
}

/// Calls `wasm_encoder::Component::section` with a
/// `wasm_encoder::ModuleSection`, which adds the module as a section.
#[verifier::external_body]
pub(crate) fn add_module(component: &mut wasm_encoder::Component, module: &wasm_encoder::Module)
    requires
        module_bytes(*module).len() <= u32::MAX,
    ensures
        component_bytes(*final(component)) == component_bytes(*old(component)) + section_bytes(
            1,
            module_bytes(*module),
        ),
{
    component.section(&ModuleSection(module));
}

/// Calls `wasm_encoder::Component::section` with a
/// `wasm_encoder::NestedComponentSection`, which adds the other component as a
/// section.
#[verifier::external_body]
pub(crate) fn add_component(component: &mut wasm_encoder::Component, nested: &wasm_encoder::Component)
    requires
        component_bytes(*nested).len() <= u32::MAX,
    ensures
        component_bytes(*final(component)) == component_bytes(*old(component)) + section_bytes(
            4,
            component_bytes(*nested),
        ),
{
    component.section(&NestedComponentSection(nested));
}

/// Calls `wasm_encoder::Component::as_slice`, which shows the bytes, and counts
/// them.
#[verifier::external_body]
pub(crate) fn component_len(component: &wasm_encoder::Component) -> (len: usize)
    ensures
        len == component_bytes(*component).len(),
{
    component.as_slice().len()
}

/// Calls `wasm_encoder::Component::finish`, which hands out the bytes.
#[verifier::external_body]
pub(crate) fn finish_component(component: wasm_encoder::Component) -> (bytes: Vec<u8>)
    ensures
        bytes@ == component_bytes(component),
{
    component.finish()
}

} // verus!
