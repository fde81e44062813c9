//! What is read out of a binary by `wasmparser`.
//!
//! Positions are relative to the bytes that are handed in. Of what the parser
//! returns, each function keeps the plain values that the analysis needs.

use vstd::prelude::*;
use crate::leb;
use crate::types;
use crate::types::Operator::{
    Call, GlobalGet, GlobalSet, LocalGet, LocalSet, LocalTee, RefFunc, ReturnCall,
};
use crate::types::{ElementItems, Export, ExternKind, Import, Operator, RawPayload, ValType};
use wasm_encoder::reencode::{Reencode, RoundtripReencoder};
use wasm_encoder::Encode;
use wasmparser::{
    BinaryReader, BinaryReaderError, ElementSectionReader, Encoding, ExportSectionReader, ExternalKind,
    FunctionSectionReader, GlobalSectionReader, ImportSectionReader, Operator as Op, Parser, Payload,
    TypeRef, TypeSectionReader,
};

verus! {

/// The error of `wasmparser`, passed on without looking into it.
#[verifier::external_type_specification]
#[verifier::external_body]
pub struct ExBinaryReaderError(wasmparser::BinaryReaderError);

/// The error of `wasm_encoder::reencode`, passed on without looking into it.
#[verifier::external_type_specification]
#[verifier::external_body]
#[verifier::reject_recursive_types(E)]
pub struct ExReencodeError<E>(wasm_encoder::reencode::Error<E>);

/// The pieces of a binary in the order of `wasmparser::Parser::parse_all`, those
/// of nested modules and components among them.
pub uninterp spec fn payloads(bytes: Seq<u8>) -> Option<Seq<RawPayload>>;

/// Calls `wasmparser::Parser::parse_all` and keeps of each payload whether it is
/// a header, a function body, a section or an end, with the section's
/// identifier and the range of its contents (`Payload::as_section`). Fails
/// where a payload is an error.
#[verifier::external_body]
pub(crate) fn read_payloads(bytes: &[u8]) -> (read: Result<Vec<RawPayload>, BinaryReaderError>)
    ensures
        read is Ok == (payloads(bytes@) is Some),
        read matches Ok(found) ==> payloads(bytes@) == Some(found@),
{
    Parser::new(0).parse_all(bytes).map(|payload| payload.map(|payload| match &payload {
        Payload::Version { encoding, .. } => RawPayload::Version(*encoding == Encoding::Component),
        Payload::CodeSectionEntry(body) => RawPayload::Body(body.range().start, body.range().end),
        other => match other.as_section() {
            Some((id, range)) => RawPayload::Section(id, range.start, range.end),
            None => RawPayload::End,
        },
    })).collect()
}

/// The header of a component: the magic number, then the version and the layer.
pub open spec fn component_header() -> Seq<u8> {
    seq![0x00u8, 0x61u8, 0x73u8, 0x6du8, 0x0du8, 0x00u8, 0x01u8, 0x00u8]
}

/// Calls `wasmparser::Parser::is_component`, which compares the first eight
/// bytes with the header of a component.
#[verifier::external_body]
pub(crate) fn is_component(bytes: &[u8]) -> (component: bool)
    ensures
        component == component_header().is_prefix_of(bytes@),
{
    Parser::is_component(bytes)
}

/// Calls `wasmparser::BinaryReader::read_var_u32` at `pos`, which decodes an
/// integer of at most 32 bits. It fails where the bytes end, and where the fifth
/// byte has other bits set than the last four of such an integer.
#[verifier::external_body]
pub(crate) fn read_var_u32(bytes: &[u8], pos: usize) -> (read: Result<(u32, usize), BinaryReaderError>)
    requires
        pos <= bytes@.len(),
    ensures
        read is Ok == (leb::decoded_u32(bytes@, pos as int) is Some),
        read matches Ok(found) ==> leb::decoded_u32(bytes@, pos as int) == Some(
            (found.0, found.1 as int),
        ),
{
    let mut reader = BinaryReader::new(&bytes[pos..], 0);
    let value = reader.read_var_u32()?;
    Ok((value, pos + reader.current_position()))
}

/// The value type that starts at a position, in its canonical encoding, and the
/// position behind it.
pub uninterp spec fn val_type_at(bytes: Seq<u8>, pos: int) -> Option<(Seq<u8>, int)>;

/// Calls `wasmparser::BinaryReader::read` for a `wasmparser::ValType` at `pos`
/// and encodes the type. A type takes at least one byte and ends inside the
/// bytes.
#[verifier::external_body]
pub(crate) fn read_val_type(bytes: &[u8], pos: usize) -> (read: Result<
    (Vec<u8>, usize),
    wasm_encoder::reencode::Error,
>)
    requires
        pos <= bytes@.len(),
    ensures
        read is Ok == (val_type_at(bytes@, pos as int) is Some),
        read matches Ok(found) ==> val_type_at(bytes@, pos as int) == Some((found.0@, found.1 as int))
            && pos < found.1 <= bytes@.len(),
{
    let mut reader = BinaryReader::new(&bytes[pos..], 0);
    let mut encoded = Vec::new();
    RoundtripReencoder.val_type(reader.read()?)?.encode(&mut encoded);
    Ok((encoded, pos + reader.current_position()))
}

/// The parameter types of the functions of a type section.
pub uninterp spec fn function_params(section: Seq<u8>) -> Option<Seq<Seq<ValType>>>;

/// Calls `wasmparser::TypeSectionReader::into_iter_err_on_gc_types` and takes
/// the parameters of each function type. Fails where a type is malformed or no
/// function type.
#[verifier::external_body]
pub(crate) fn read_function_params(section: &[u8]) -> (read: Result<
    Vec<Vec<ValType>>,
    BinaryReaderError,
>)
    ensures
        read is Ok == (function_params(section@) is Some),
        read matches Ok(found) ==> function_params(section@) == Some(types::views(found@)),
{
    let reader = TypeSectionReader::new(BinaryReader::new(section, 0))?;
    reader.into_iter_err_on_gc_types().map(|ty| ty.map(|ty| ty.params().iter().map(|param| match param {
        wasmparser::ValType::I32 => ValType::I32,
        wasmparser::ValType::I64 => ValType::I64,
        wasmparser::ValType::F32 => ValType::F32,
        wasmparser::ValType::F64 => ValType::F64,
        wasmparser::ValType::V128 => ValType::V128,
        wasmparser::ValType::Ref(_) => ValType::Ref,
    }).collect())).collect()
}

/// The result types of the functions of a type section.
pub uninterp spec fn function_results(section: Seq<u8>) -> Option<Seq<Seq<ValType>>>;

/// Calls `wasmparser::TypeSectionReader::into_iter_err_on_gc_types` and takes
/// the results of each function type. Fails where a type is malformed or no
/// function type.
#[verifier::external_body]
pub(crate) fn read_function_results(section: &[u8]) -> (read: Result<
    Vec<Vec<ValType>>,
    BinaryReaderError,
>)
    ensures
        read is Ok == (function_results(section@) is Some),
        read matches Ok(found) ==> function_results(section@) == Some(types::views(found@)),
{
    let reader = TypeSectionReader::new(BinaryReader::new(section, 0))?;
    reader.into_iter_err_on_gc_types().map(|ty| ty.map(|ty| ty.results().iter().map(|result| match result {
        wasmparser::ValType::I32 => ValType::I32,
        wasmparser::ValType::I64 => ValType::I64,
        wasmparser::ValType::F32 => ValType::F32,
        wasmparser::ValType::F64 => ValType::F64,
        wasmparser::ValType::V128 => ValType::V128,
        wasmparser::ValType::Ref(_) => ValType::Ref,
    }).collect())).collect()
}

/// What each import of an import section brings in.
pub uninterp spec fn imports(section: Seq<u8>) -> Option<Seq<Import>>;

/// Iterates over `wasmparser::ImportSectionReader` and takes the kind of each
/// import, with the type index of a function, and the type and the mutability of a
/// global. Fails where an import is malformed.
#[verifier::external_body]
pub(crate) fn read_imports(section: &[u8]) -> (read: Result<Vec<Import>, BinaryReaderError>)
    ensures
        read is Ok == (imports(section@) is Some),
        read matches Ok(found) ==> imports(section@) == Some(found@),
{
    let reader = ImportSectionReader::new(BinaryReader::new(section, 0))?;
    reader.into_iter().map(|import| import.map(|import| match import.ty {
        TypeRef::Func(index) => Import::Function(index),
        TypeRef::Memory(_) => Import::Memory,
        TypeRef::Global(global) => Import::Global(match global.content_type {
            wasmparser::ValType::I32 => ValType::I32,
            wasmparser::ValType::I64 => ValType::I64,
            wasmparser::ValType::F32 => ValType::F32,
            wasmparser::ValType::F64 => ValType::F64,
            wasmparser::ValType::V128 => ValType::V128,
            wasmparser::ValType::Ref(_) => ValType::Ref,
        }, global.mutable), _ => Import::Other,
    })).collect()
}

/// `count` integers of 32 bits that are encoded one after the other from `pos` on,
/// and the position behind them.
pub open spec fn decoded_list(bytes: Seq<u8>, pos: int, count: nat) -> Option<(Seq<u32>, int)>
    decreases count,
{
    if count == 0 {
        Some((Seq::empty(), pos))
    } else {
        match decoded_list(bytes, pos, (count - 1) as nat) {
            None => None,
            Some((before, at)) => match leb::decoded_u32(bytes, at) {
                None => None,
                Some((value, next)) => Some((before.push(value), next)),
            },
        }
    }
}

/// The type indices of a function section: how many there are, then the indices,
/// which fill the section.
pub open spec fn function_types(section: Seq<u8>) -> Option<Seq<u32>> {
    match leb::decoded_u32(section, 0) {
        None => None,
        Some((count, pos)) => match decoded_list(section, pos, count as nat) {
            None => None,
            Some((indices, end)) => if end == section.len() {
                Some(indices)
            } else {
                None
            },
        },
    }
}

/// Iterates over `wasmparser::FunctionSectionReader`. Fails where the number of
/// indices or an index is malformed, and where bytes are left over.
#[verifier::external_body]
pub(crate) fn read_function_types(section: &[u8]) -> (read: Result<Vec<u32>, BinaryReaderError>)
    ensures
        read is Ok == (function_types(section@) is Some),
        read matches Ok(found) ==> function_types(section@) == Some(found@),
{
    FunctionSectionReader::new(BinaryReader::new(section, 0))?.into_iter().collect()
}

/// The type of each global of a global section, and whether it is mutable.
pub uninterp spec fn global_types(section: Seq<u8>) -> Option<Seq<(ValType, bool)>>;

/// Iterates over `wasmparser::GlobalSectionReader` and takes the type and the
/// mutability of each global. Fails where a global is malformed.
#[verifier::external_body]
pub(crate) fn read_globals(section: &[u8]) -> (read: Result<Vec<(ValType, bool)>, BinaryReaderError>)
    ensures
        read is Ok == (global_types(section@) is Some),
        read matches Ok(found) ==> global_types(section@) == Some(found@),
{
    let reader = GlobalSectionReader::new(BinaryReader::new(section, 0))?;
    reader.into_iter().map(|global| global.map(|global| (match global.ty.content_type {
        wasmparser::ValType::I32 => ValType::I32,
        wasmparser::ValType::I64 => ValType::I64,
        wasmparser::ValType::F32 => ValType::F32,
        wasmparser::ValType::F64 => ValType::F64,
        wasmparser::ValType::V128 => ValType::V128,
        wasmparser::ValType::Ref(_) => ValType::Ref,
    }, global.ty.mutable))).collect()
}

/// The exports of an export section.
pub uninterp spec fn exports(section: Seq<u8>) -> Option<Seq<types::ExportView>>;

/// Iterates over `wasmparser::ExportSectionReader` and takes the name, the kind
/// and the index of each export. Fails where an export is malformed.
#[verifier::external_body]
pub(crate) fn read_exports(section: &[u8]) -> (read: Result<Vec<Export>, BinaryReaderError>)
    ensures
        read is Ok == (exports(section@) is Some),
        read matches Ok(found) ==> exports(section@) == Some(types::views(found@)),
{
    let reader = ExportSectionReader::new(BinaryReader::new(section, 0))?;
    reader.into_iter().map(|export| export.map(|export| Export {
        name: export.name.to_string(),
        kind: match export.kind {
            ExternalKind::Func => ExternKind::Func,
            ExternalKind::Table => ExternKind::Table,
            ExternalKind::Memory => ExternKind::Memory,
            ExternalKind::Global => ExternKind::Global,
            ExternalKind::Tag => ExternKind::Tag,
        },
        index: export.index,
    })).collect()
}

/// The items of each segment of an element section: function indices, or the bytes
/// of constant expressions.
pub uninterp spec fn element_items(section: Seq<u8>) -> Option<Seq<types::ItemsView>>;

/// Iterates over `wasmparser::ElementSectionReader` and takes the items of each
/// segment, of an expression the bytes in which it lies. Fails where a segment is
/// malformed.
#[verifier::external_body]
pub(crate) fn read_element_items(section: &[u8]) -> (read: Result<
    Vec<ElementItems>,
    BinaryReaderError,
>)
    ensures
        read is Ok == (element_items(section@) is Some),
        read matches Ok(found) ==> element_items(section@) == Some(types::views(found@)),
{
    let reader = ElementSectionReader::new(BinaryReader::new(section, 0))?;
    reader.into_iter().map(|element| Ok(match element?.items {
        wasmparser::ElementItems::Functions(indices) => {
            ElementItems::Functions(indices.into_iter().collect::<Result<Vec<u32>, _>>()?)
        },
        wasmparser::ElementItems::Expressions(_, exprs) => {
            let bytes = exprs.into_iter().map(|expr| Ok(section[expr?.get_binary_reader().range()].to_vec()));
            ElementItems::Expressions(bytes.collect::<Result<Vec<Vec<u8>>, BinaryReaderError>>()?)
        },
    })).collect()
}

/// The operator that starts at a position of a function body, and the position
/// behind it.
pub uninterp spec fn operator_at(body: Seq<u8>, pos: int) -> Option<(Operator, int)>;

/// Calls `wasmparser::BinaryReader::read_operator` at `pos`. An operator takes
/// at least one byte and ends inside the body.
#[verifier::external_body]
pub(crate) fn read_operator(body: &[u8], pos: usize) -> (read: Result<
    (Operator, usize),
    BinaryReaderError,
>)
    requires
        pos <= body@.len(),
    ensures
        read is Ok == (operator_at(body@, pos as int) is Some),
        read matches Ok(found) ==> operator_at(body@, pos as int) == Some((found.0, found.1 as int))
            && pos < found.1 <= body@.len(),
{
    let mut reader = BinaryReader::new(&body[pos..], 0);
    Ok((match reader.read_operator()? {
        Op::Block { .. } => Operator::Block, Op::Loop { .. } => Operator::Loop,
        Op::If { .. } => Operator::If, Op::Else => Operator::Else, Op::End => Operator::End,
        Op::LocalGet { local_index } => LocalGet(local_index),
        Op::LocalSet { local_index } => LocalSet(local_index),
        Op::LocalTee { local_index } => LocalTee(local_index),
        Op::GlobalGet { global_index } => GlobalGet(global_index),
        Op::GlobalSet { global_index } => GlobalSet(global_index),
        Op::Call { function_index } => Call(function_index),
        Op::ReturnCall { function_index } => ReturnCall(function_index),
        Op::RefFunc { function_index } => RefFunc(function_index), _ => Operator::Other,
    }, pos + reader.current_position()))
}

} // verus!
