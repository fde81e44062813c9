//! The contents of a module.

use vstd::prelude::*;
use crate::body;
use crate::codegen;
use crate::encoder;
use crate::layout;
use crate::leb;
use crate::payload;
use crate::payload::{Payload, SectionKind};
use crate::reader;
use crate::section::{Section, SectionView};
use crate::types;
use crate::types::{
    views, ElementItems, Export, ExportView, Import, ItemsView, MigrateError, ValType,
    MAX_BINARY_SIZE,
};

verus! {

/// The contents of a module.
#[verifier::ext_equal]
pub struct ModuleView {
    /// The index of the start function, if there is one.
    pub start_func: Option<u32>,
    pub type_section: Option<SectionView>,
    /// The type indices of all functions, the imported ones first.
    pub function_to_type: Seq<u32>,
    pub import_section: Option<SectionView>,
    pub table_section: Option<SectionView>,
    pub tag_section: Option<SectionView>,
    pub global_section: SectionView,
    /// The types of the globals that are imported, and whether they are mutable.
    pub imported_globals: Seq<(ValType, bool)>,
    /// The types of the globals that the module defines, and whether they are
    /// mutable.
    pub globals: Seq<(ValType, bool)>,
    pub export_section: Option<SectionView>,
    pub exports: Seq<ExportView>,
    pub function_section: Option<SectionView>,
    /// The element section with the indices of functions shifted.
    pub element_section_with_cr: Option<SectionView>,
    pub element_section: Option<SectionView>,
    pub code_section: Option<SectionView>,
    pub function_bodies: Seq<Seq<u8>>,
    pub data_section: Option<SectionView>,
    pub data_count_section: Option<u32>,
    pub memory_section: Option<SectionView>,
    /// The contents of each custom section.
    pub custom_section: Seq<Seq<u8>>,
    /// The parameters and the results of each function type.
    pub type_params: Seq<Seq<ValType>>,
    pub type_results: Seq<Seq<ValType>>,
    /// The parameters and the results of each function of the code section.
    pub params: Seq<Seq<ValType>>,
    pub results: Seq<Seq<ValType>>,
    /// The index of the checkpoint memory, which comes behind all others.
    pub checkpoint_memory_index: u32,
    pub num_of_import_memories: u32,
    pub num_of_import_functions: u32,
}

impl ModuleView {
    /// The module without contents.
    pub open spec fn empty() -> ModuleView {
        ModuleView {
            start_func: None,
            type_section: None,
            function_to_type: Seq::empty(),
            import_section: None,
            table_section: None,
            tag_section: None,
            global_section: SectionView::empty(),
            imported_globals: Seq::empty(),
            globals: Seq::empty(),
            export_section: None,
            exports: Seq::empty(),
            function_section: None,
            element_section_with_cr: None,
            element_section: None,
            code_section: None,
            function_bodies: Seq::empty(),
            data_section: None,
            data_count_section: None,
            memory_section: None,
            custom_section: Seq::empty(),
            type_params: Seq::empty(),
            type_results: Seq::empty(),
            params: Seq::empty(),
            results: Seq::empty(),
            checkpoint_memory_index: 0,
            num_of_import_memories: 0,
            num_of_import_functions: 0,
        }
    }
}

/// The contents of a module.
pub struct ModuleData {
    pub start_func: Option<u32>,
    pub type_section: Option<Section>,
    pub function_to_type: Vec<u32>,
    pub import_section: Option<Section>,
    pub table_section: Option<Section>,
    pub tag_section: Option<Section>,
    pub global_section: Section,
    pub imported_globals: Vec<(ValType, bool)>,
    pub globals: Vec<(ValType, bool)>,
    pub export_section: Option<Section>,
    pub exports: Vec<Export>,
    pub function_section: Option<Section>,
    pub element_section_with_cr: Option<Section>,
    pub element_section: Option<Section>,
    pub code_section: Option<Section>,
    pub function_bodies: Vec<Vec<u8>>,
    pub data_section: Option<Section>,
    pub data_count_section: Option<u32>,
    pub memory_section: Option<Section>,
    pub custom_section: Vec<Vec<u8>>,
    pub type_params: Vec<Vec<ValType>>,
    pub type_results: Vec<Vec<ValType>>,
    pub params: Vec<Vec<ValType>>,
    pub results: Vec<Vec<ValType>>,
    pub checkpoint_memory_index: u32,
    pub num_of_import_memories: u32,
    pub num_of_import_functions: u32,
}

/// The view of a section that may be missing.
pub open spec fn section_view(section: Option<Section>) -> Option<SectionView> {
    match section {
        Some(found) => Some(found@),
        None => None,
    }
}

impl View for ModuleData {
    type V = ModuleView;

    open spec fn view(&self) -> ModuleView {
        ModuleView {
            start_func: self.start_func,
            type_section: section_view(self.type_section),
            function_to_type: self.function_to_type@,
            import_section: section_view(self.import_section),
            table_section: section_view(self.table_section),
            tag_section: section_view(self.tag_section),
            global_section: self.global_section@,
            imported_globals: self.imported_globals@,
            globals: self.globals@,
            export_section: section_view(self.export_section),
            exports: views(self.exports@),
            function_section: section_view(self.function_section),
            element_section_with_cr: section_view(self.element_section_with_cr),
            element_section: section_view(self.element_section),
            code_section: section_view(self.code_section),
            function_bodies: views(self.function_bodies@),
            data_section: section_view(self.data_section),
            data_count_section: self.data_count_section,
            memory_section: section_view(self.memory_section),
            custom_section: views(self.custom_section@),
            type_params: views(self.type_params@),
            type_results: views(self.type_results@),
            params: views(self.params@),
            results: views(self.results@),
            checkpoint_memory_index: self.checkpoint_memory_index,
            num_of_import_memories: self.num_of_import_memories,
            num_of_import_functions: self.num_of_import_functions,
        }
    }
}

/// A section replaces the one before it, unless it is empty.
pub open spec fn replaced(old_section: Option<SectionView>, new_section: SectionView) -> Option<
    SectionView,
> {
    if new_section.count == 0 {
        old_section
    } else {
        Some(new_section)
    }
}

/// The module with a type section added that declares functions with these
/// parameters and results.
pub open spec fn added_types(
    module: ModuleView,
    section: SectionView,
    params: Seq<Seq<ValType>>,
    results: Seq<Seq<ValType>>,
) -> ModuleView {
    ModuleView {
        type_section: replaced(module.type_section, section),
        type_params: module.type_params + params,
        type_results: module.type_results + results,
        ..module
    }
}

/// The module after a type section.
pub open spec fn with_types(module: ModuleView, data: Seq<u8>) -> Result<ModuleView, MigrateError> {
    match encoder::reencoded_types(data) {
        None => Err(MigrateError::Reencode),
        Some(section) => match (reader::function_params(data), reader::function_results(data)) {
            (Some(params), Some(results)) => Ok(added_types(module, section, params, results)),
            _ => Err(MigrateError::Parse),
        },
    }
}

/// The type indices of the functions among the imports.
pub open spec fn function_imports(imports: Seq<Import>) -> Seq<u32>
    decreases imports.len(),
{
    if imports.len() == 0 {
        Seq::empty()
    } else {
        match imports.last() {
            Import::Function(index) => function_imports(imports.drop_last()).push(index),
            _ => function_imports(imports.drop_last()),
        }
    }
}

/// How many memories are among the imports.
pub open spec fn memory_imports(imports: Seq<Import>) -> nat
    decreases imports.len(),
{
    if imports.len() == 0 {
        0
    } else {
        memory_imports(imports.drop_last()) + (if imports.last() is Memory {
            1nat
        } else {
            0nat
        })
    }
}

/// The globals among the imports.
pub open spec fn global_imports(imports: Seq<Import>) -> Seq<(ValType, bool)>
    decreases imports.len(),
{
    if imports.len() == 0 {
        Seq::empty()
    } else {
        match imports.last() {
            Import::Global(ty, mutable) => global_imports(imports.drop_last()).push((ty, mutable)),
            _ => global_imports(imports.drop_last()),
        }
    }
}

/// The module with an import section added that brings these in. Imported
/// functions, globals and memories come in front of those that the module
/// defines.
pub open spec fn added_imports(
    module: ModuleView,
    section: SectionView,
    imports: Seq<Import>,
) -> Result<ModuleView, MigrateError> {
    let indices = function_imports(imports);
    let memories = memory_imports(imports);
    if module.num_of_import_functions + indices.len() > u32::MAX
        || module.checkpoint_memory_index + memories > u32::MAX
        || module.num_of_import_memories + memories > u32::MAX {
        Err(MigrateError::IndexOverflow)
    } else {
        Ok(
            ModuleView {
                import_section: replaced(module.import_section, section),
                function_to_type: module.function_to_type + indices,
                num_of_import_functions: (module.num_of_import_functions + indices.len()) as u32,
                imported_globals: module.imported_globals + global_imports(imports),
                checkpoint_memory_index: (module.checkpoint_memory_index + memories) as u32,
                num_of_import_memories: (module.num_of_import_memories + memories) as u32,
                ..module
            },
        )
    }
}

/// The module after an import section.
pub open spec fn with_imports(module: ModuleView, data: Seq<u8>) -> Result<
    ModuleView,
    MigrateError,
> {
    match encoder::reencoded_imports(data) {
        None => Err(MigrateError::Reencode),
        Some(section) => match reader::imports(data) {
            None => Err(MigrateError::Parse),
            Some(imports) => added_imports(module, section, imports),
        },
    }
}

/// The module with a function section added that has these type indices.
pub open spec fn added_functions(
    module: ModuleView,
    section: SectionView,
    indices: Seq<u32>,
) -> ModuleView {
    ModuleView {
        function_section: replaced(module.function_section, section),
        function_to_type: module.function_to_type + indices,
        ..module
    }
}

/// The module after a function section.
pub open spec fn with_functions(module: ModuleView, data: Seq<u8>) -> Result<
    ModuleView,
    MigrateError,
> {
    match encoder::reencoded_functions(data) {
        None => Err(MigrateError::Reencode),
        Some(section) => match reader::function_types(data) {
            None => Err(MigrateError::Parse),
            Some(indices) => Ok(added_functions(module, section, indices)),
        },
    }
}

/// The module after a table section.
pub open spec fn with_tables(module: ModuleView, data: Seq<u8>) -> Result<
    ModuleView,
    MigrateError,
> {
    match encoder::reencoded_tables(data) {
        None => Err(MigrateError::Reencode),
        Some(section) => Ok(
            ModuleView { table_section: replaced(module.table_section, section), ..module },
        ),
    }
}

/// The module with a memory section added. The checkpoint memory comes behind the
/// memories that are declared there.
pub open spec fn added_memories(module: ModuleView, section: SectionView) -> Result<
    ModuleView,
    MigrateError,
> {
    if module.checkpoint_memory_index + section.count > u32::MAX {
        Err(MigrateError::IndexOverflow)
    } else {
        Ok(
            ModuleView {
                memory_section: replaced(module.memory_section, section),
                checkpoint_memory_index: (module.checkpoint_memory_index + section.count) as u32,
                ..module
            },
        )
    }
}

/// The module after a memory section.
pub open spec fn with_memories(module: ModuleView, data: Seq<u8>) -> Result<
    ModuleView,
    MigrateError,
> {
    match encoder::reencoded_memories(data) {
        None => Err(MigrateError::Reencode),
        Some(section) => added_memories(module, section),
    }
}

/// The module after a tag section.
pub open spec fn with_tags(module: ModuleView, data: Seq<u8>) -> Result<ModuleView, MigrateError> {
    match encoder::reencoded_tags(data) {
        None => Err(MigrateError::Reencode),
        Some(section) => Ok(
            ModuleView { tag_section: replaced(module.tag_section, section), ..module },
        ),
    }
}

/// One of the globals holds a reference.
pub open spec fn holds_reference(globals: Seq<(ValType, bool)>) -> bool {
    exists|i: int| 0 <= i < globals.len() && (#[trigger] globals[i]).0 == ValType::Ref
}

/// The module with a global section added that defines globals of these types.
pub open spec fn added_globals(
    module: ModuleView,
    section: SectionView,
    globals: Seq<(ValType, bool)>,
) -> Result<ModuleView, MigrateError> {
    if holds_reference(globals) {
        Err(MigrateError::ReferenceType)
    } else if module.global_section.count + section.count > u32::MAX {
        Err(MigrateError::TooLarge)
    } else {
        Ok(
            ModuleView {
                global_section: module.global_section.concat(section),
                globals: module.globals + globals,
                ..module
            },
        )
    }
}

/// The module after a global section.
pub open spec fn with_globals(module: ModuleView, data: Seq<u8>) -> Result<
    ModuleView,
    MigrateError,
> {
    match encoder::reencoded_globals(data) {
        None => Err(MigrateError::Reencode),
        Some(section) => match reader::global_types(data) {
            None => Err(MigrateError::Parse),
            Some(globals) => added_globals(module, section, globals),
        },
    }
}

/// The module with an export section added that holds these exports.
pub open spec fn added_exports(
    module: ModuleView,
    section: SectionView,
    exports: Seq<ExportView>,
) -> ModuleView {
    ModuleView {
        export_section: replaced(module.export_section, section),
        exports: module.exports + exports,
        ..module
    }
}

/// The module after an export section.
pub open spec fn with_exports(module: ModuleView, data: Seq<u8>) -> Result<
    ModuleView,
    MigrateError,
> {
    match encoder::reencoded_exports(data) {
        None => Err(MigrateError::Reencode),
        Some(section) => match reader::exports(data) {
            None => Err(MigrateError::Parse),
            Some(exports) => Ok(added_exports(module, section, exports)),
        },
    }
}

/// The module after a start section.
pub open spec fn with_start(module: ModuleView, data: Seq<u8>) -> Result<ModuleView, MigrateError> {
    match leb::decoded_u32(data, 0) {
        None => Err(MigrateError::Parse),
        Some((func, _)) => Ok(ModuleView { start_func: Some(func), ..module }),
    }
}

/// The indices of functions after functions have been added behind the
/// imported ones.
pub open spec fn shifted_all(indices: Seq<u32>, num_imports: u32) -> Result<Seq<u32>, MigrateError>
    decreases indices.len(),
{
    if indices.len() == 0 {
        Ok(Seq::empty())
    } else {
        match shifted_all(indices.drop_last(), num_imports) {
            Err(error) => Err(error),
            Ok(before) => match codegen::shifted(indices.last(), num_imports) {
                Err(error) => Err(error),
                Ok(index) => Ok(before.push(index)),
            },
        }
    }
}

/// A constant expression without its final `end`, with the functions that it
/// refers to at their new indices.
pub open spec fn shifted_expression(expr: Seq<u8>, num_imports: u32) -> Result<
    Seq<u8>,
    MigrateError,
> {
    match body::insts_from(expr, 0) {
        Err(error) => Err(error),
        Ok(insts) => if insts.len() == 0 {
            Err(MigrateError::Parse)
        } else {
            match codegen::copied_between(insts.drop_last(), 0, usize::MAX, num_imports) {
                Err(error) => Err(error),
                Ok(code) => codegen::encoded_code(expr, code),
            }
        },
    }
}

/// Constant expressions with the functions that they refer to at their new
/// indices.
pub open spec fn shifted_expressions(exprs: Seq<Seq<u8>>, num_imports: u32) -> Result<
    Seq<Seq<u8>>,
    MigrateError,
>
    decreases exprs.len(),
{
    if exprs.len() == 0 {
        Ok(Seq::empty())
    } else {
        match shifted_expressions(exprs.drop_last(), num_imports) {
            Err(error) => Err(error),
            Ok(before) => match shifted_expression(exprs.last(), num_imports) {
                Err(error) => Err(error),
                Ok(bytes) => if encoder::total(before) + bytes.len() > MAX_BINARY_SIZE / 2 {
                    Err(MigrateError::TooLarge)
                } else {
                    Ok(before.push(bytes))
                },
            },
        }
    }
}

/// The section with the element segment number `i` of a section, the indices
/// of functions in it shifted.
pub open spec fn shifted_element(
    data: Seq<u8>,
    i: int,
    items: ItemsView,
    num_imports: u32,
) -> Result<SectionView, MigrateError> {
    let encoded = match items {
        ItemsView::Expressions(exprs) => if exprs.len() > MAX_BINARY_SIZE / 4 {
            Err(MigrateError::TooLarge)
        } else {
            match shifted_expressions(exprs, num_imports) {
                Err(error) => Err(error),
                Ok(found) => Ok(encoder::element_with_expressions(data, i, found)),
            }
        },
        ItemsView::Functions(indices) => if indices.len() > MAX_BINARY_SIZE / 8 {
            Err(MigrateError::TooLarge)
        } else {
            match shifted_all(indices, num_imports) {
                Err(error) => Err(error),
                Ok(functions) => Ok(encoder::element_with_functions(data, i, functions)),
            }
        },
    };
    match encoded {
        Err(error) => Err(error),
        Ok(None) => Err(MigrateError::Reencode),
        Ok(Some(section)) => Ok(section),
    }
}

/// The first `count` element segments of a section, the indices of functions
/// in them shifted.
pub open spec fn shifted_elements(
    data: Seq<u8>,
    items: Seq<ItemsView>,
    count: int,
    num_imports: u32,
) -> Result<SectionView, MigrateError>
    decreases count,
{
    if count <= 0 {
        Ok(SectionView::empty())
    } else {
        match shifted_elements(data, items, count - 1, num_imports) {
            Err(error) => Err(error),
            Ok(before) => match shifted_element(data, count - 1, items[count - 1], num_imports) {
                Err(error) => Err(error),
                Ok(section) => if before.count + section.count > u32::MAX {
                    Err(MigrateError::TooLarge)
                } else {
                    Ok(before.concat(section))
                },
            },
        }
    }
}

/// The module with an element section added, as it is and with the indices of
/// functions shifted.
pub open spec fn added_elements(
    module: ModuleView,
    section: SectionView,
    with_cr: SectionView,
) -> ModuleView {
    ModuleView {
        element_section: Some(section),
        element_section_with_cr: replaced(module.element_section_with_cr, with_cr),
        ..module
    }
}

/// The module after an element section.
pub open spec fn with_elements(module: ModuleView, data: Seq<u8>) -> Result<
    ModuleView,
    MigrateError,
> {
    match encoder::reencoded_elements(data) {
        None => Err(MigrateError::Reencode),
        Some(section) => match reader::element_items(data) {
            None => Err(MigrateError::Parse),
            Some(items) => match shifted_elements(
                data,
                items,
                items.len() as int,
                module.num_of_import_functions,
            ) {
                Err(error) => Err(error),
                Ok(with_cr) => Ok(added_elements(module, section, with_cr)),
            },
        },
    }
}

/// The module after a data count section.
pub open spec fn with_data_count(module: ModuleView, data: Seq<u8>) -> Result<
    ModuleView,
    MigrateError,
> {
    match leb::decoded_u32(data, 0) {
        None => Err(MigrateError::Parse),
        Some((count, _)) => Ok(ModuleView { data_count_section: Some(count), ..module }),
    }
}

/// The module after a data section.
pub open spec fn with_data(module: ModuleView, data: Seq<u8>) -> Result<ModuleView, MigrateError> {
    match encoder::reencoded_data(data) {
        None => Err(MigrateError::Reencode),
        Some(section) => Ok(
            ModuleView { data_section: replaced(module.data_section, section), ..module },
        ),
    }
}

/// The module after a code section.
pub open spec fn with_code(module: ModuleView, data: Seq<u8>) -> Result<ModuleView, MigrateError> {
    match encoder::reencoded_code(data) {
        None => Err(MigrateError::Reencode),
        Some(section) => Ok(ModuleView { code_section: Some(section), ..module }),
    }
}

/// The module after a section with these contents. Sections that belong to
/// components leave it as it is.
pub open spec fn with_section(module: ModuleView, kind: SectionKind, data: Seq<u8>) -> Result<
    ModuleView,
    MigrateError,
> {
    match kind {
        SectionKind::Type => with_types(module, data),
        SectionKind::Import => with_imports(module, data),
        SectionKind::Function => with_functions(module, data),
        SectionKind::Table => with_tables(module, data),
        SectionKind::Memory => with_memories(module, data),
        SectionKind::Tag => with_tags(module, data),
        SectionKind::Global => with_globals(module, data),
        SectionKind::Export => with_exports(module, data),
        SectionKind::Start => with_start(module, data),
        SectionKind::Element => with_elements(module, data),
        SectionKind::DataCount => with_data_count(module, data),
        SectionKind::Data => with_data(module, data),
        SectionKind::Code => with_code(module, data),
        SectionKind::Custom => Ok(
            ModuleView { custom_section: module.custom_section.push(data), ..module },
        ),
        _ => Ok(module),
    }
}

/// Tells whether a section of this kind belongs to a module.
pub open spec fn in_module(kind: SectionKind) -> bool {
    match kind {
        SectionKind::Type
        | SectionKind::Import
        | SectionKind::Function
        | SectionKind::Table
        | SectionKind::Memory
        | SectionKind::Tag
        | SectionKind::Global
        | SectionKind::Export
        | SectionKind::Start
        | SectionKind::Element
        | SectionKind::DataCount
        | SectionKind::Data
        | SectionKind::Code
        | SectionKind::Custom => true,
        _ => false,
    }
}

/// The module after one more piece of its binary.
pub open spec fn with_piece(module: ModuleView, bytes: Seq<u8>, piece: Payload) -> Result<
    ModuleView,
    MigrateError,
> {
    match piece {
        Payload::Section(kind, start, end) => if in_module(kind) {
            match payload::span_of(bytes, start as int, end as int) {
                Err(error) => Err(error),
                Ok(data) => with_section(module, kind, data),
            }
        } else {
            Ok(module)
        },
        Payload::Body(start, end) => match payload::span_of(bytes, start as int, end as int) {
            Err(error) => Err(error),
            Ok(data) => Ok(
                ModuleView { function_bodies: module.function_bodies.push(data), ..module },
            ),
        },
        Payload::Mark => Ok(module),
    }
}

/// The module after these pieces of its binary.
pub open spec fn with_pieces(bytes: Seq<u8>, pieces: Seq<Payload>) -> Result<
    ModuleView,
    MigrateError,
>
    decreases pieces.len(),
{
    if pieces.len() == 0 {
        Ok(ModuleView::empty())
    } else {
        match with_pieces(bytes, pieces.drop_last()) {
            Err(error) => Err(error),
            Ok(module) => with_piece(module, bytes, pieces.last()),
        }
    }
}

/// What a list by function types says of function number `func_index` of the code
/// section; nothing if the type of the function is not declared.
pub open spec fn of_function(
    function_to_type: Seq<u32>,
    num_imports: u32,
    by_type: Seq<Seq<ValType>>,
    func_index: int,
) -> Seq<ValType> {
    let index = num_imports + func_index;
    if index < function_to_type.len() && function_to_type[index] < by_type.len() {
        by_type[function_to_type[index] as int]
    } else {
        Seq::empty()
    }
}

/// What a list by function types says of each function of the code section.
pub open spec fn of_functions(module: ModuleView, by_type: Seq<Seq<ValType>>) -> Seq<Seq<ValType>> {
    Seq::new(
        module.function_bodies.len(),
        |i: int|
            of_function(module.function_to_type, module.num_of_import_functions, by_type, i),
    )
}

/// The module with the parameters and results of the functions of its code
/// section.
pub open spec fn with_signatures(module: ModuleView) -> ModuleView {
    ModuleView {
        params: of_functions(module, module.type_params),
        results: of_functions(module, module.type_results),
        ..module
    }
}

/// The module in a binary.
#[verifier::opaque]
pub open spec fn module_of(bytes: Seq<u8>) -> Result<ModuleView, MigrateError> {
    match payload::parsed(bytes) {
        Err(error) => Err(error),
        Ok(pieces) => match with_pieces(bytes, pieces) {
            Err(error) => Err(error),
            Ok(module) => Ok(with_signatures(module)),
        },
    }
}

/// The parameters of a function of the code section are those with which it is
/// planned.
pub proof fn law_params_of_function(bytes: Seq<u8>, func_index: int)
    ensures
        module_of(bytes) matches Ok(module) ==> (0 <= func_index < module.function_bodies.len()
            ==> (layout::params_of(
            module.function_to_type,
            module.type_params,
            module.num_of_import_functions,
            func_index,
        ) matches Ok(params) ==> module.params[func_index] == params)),
{
    reveal(module_of);
}

/// How many memories the module imports and declares.
pub open spec fn all_memories(module: ModuleView) -> nat {
    module.num_of_import_memories as nat + match module.memory_section {
        Some(section) => section.count,
        None => 0,
    }
}

/// Tells whether the piece is a memory section.
pub open spec fn is_memory_section(piece: Payload) -> bool {
    piece matches Payload::Section(SectionKind::Memory, _, _)
}

/// At most one of the pieces is a memory section.
pub open spec fn one_memory_section(pieces: Seq<Payload>) -> bool {
    forall|i: int, j: int|
        0 <= i < j < pieces.len() ==> !(is_memory_section(#[trigger] pieces[i])
            && is_memory_section(#[trigger] pieces[j]))
}

/// Only memory sections and imports bring in memories, and the checkpoint memory
/// moves behind the imported ones.
proof fn lemma_section_memories(module: ModuleView, kind: SectionKind, data: Seq<u8>)
    requires
        kind != SectionKind::Memory,
    ensures
        with_section(module, kind, data) matches Ok(after) ==> {
            &&& after.memory_section == module.memory_section
            &&& after.checkpoint_memory_index - after.num_of_import_memories
                == module.checkpoint_memory_index - module.num_of_import_memories
        },
{
}

/// The same of a piece that is no memory section.
proof fn lemma_piece_memories(module: ModuleView, bytes: Seq<u8>, piece: Payload)
    requires
        !is_memory_section(piece),
    ensures
        with_piece(module, bytes, piece) matches Ok(after) ==> {
            &&& after.memory_section == module.memory_section
            &&& after.checkpoint_memory_index - after.num_of_import_memories
                == module.checkpoint_memory_index - module.num_of_import_memories
        },
{
    if let Payload::Section(kind, start, end) = piece {
        if let Ok(data) = payload::span_of(bytes, start as int, end as int) {
            lemma_section_memories(module, kind, data);
        }
    }
}

/// Without a memory section the checkpoint memory comes behind the imported
/// memories, and with one behind the memories that are declared there.
#[verifier::rlimit(30)]
proof fn lemma_checkpoint_memory(bytes: Seq<u8>, pieces: Seq<Payload>)
    requires
        one_memory_section(pieces),
    ensures
        with_pieces(bytes, pieces) matches Ok(module) ==> {
            &&& module.checkpoint_memory_index == all_memories(module)
            &&& (forall|i: int| 0 <= i < pieces.len() ==> !is_memory_section(#[trigger] pieces[i]))
                ==> module.memory_section is None
        },
    decreases pieces.len(),
{
    if pieces.len() > 0 {
        let before = pieces.drop_last();
        assert(one_memory_section(before));
        lemma_checkpoint_memory(bytes, before);
        if let Ok(module) = with_pieces(bytes, before) {
            if is_memory_section(pieces.last()) {
                assert forall|i: int| 0 <= i < before.len() implies !is_memory_section(
                    #[trigger] before[i],
                ) by {
                    assert(!(is_memory_section(pieces[i]) && is_memory_section(
                        pieces[pieces.len() - 1],
                    )));
                }
            } else {
                lemma_piece_memories(module, bytes, pieces.last());
                assert(forall|i: int| 0 <= i < before.len() ==> before[i] == pieces[i]);
            }
        }
    }
}

/// The checkpoint memory comes directly behind the memories that the module
/// imports and declares, if it declares them in one section.
pub proof fn law_checkpoint_memory_last(bytes: Seq<u8>)
    requires
        payload::parsed(bytes) matches Ok(pieces) ==> one_memory_section(pieces),
    ensures
        module_of(bytes) matches Ok(module) ==> module.checkpoint_memory_index == all_memories(
            module,
        ),
{
    reveal(module_of);
    if let Ok(pieces) = payload::parsed(bytes) {
        lemma_checkpoint_memory(bytes, pieces);
    }
}

/// Takes the entries out of a section that was encoded.
fn decode(
    encoded: Result<(u32, Vec<u8>), wasm_encoder::reencode::Error>,
    Ghost(view): Ghost<Option<SectionView>>,
) -> (section: Result<Section, MigrateError>)
    requires
        encoder::answers(encoded, view),
    ensures
        match (section, view) {
            (Ok(found), Some(expected)) => found@ == expected,
            (Err(error), None) => error == MigrateError::Reencode,
            _ => false,
        },
{
    match encoded {
        Ok((count, bytes)) => Ok(Section::from_encoding(count, bytes, Ghost(view->Some_0))),
        Err(_) => Err(MigrateError::Reencode),
    }
}

/// Replaces a section by a new one, unless that is empty.
fn replace(section: &mut Option<Section>, new_section: Section)
    ensures
        section_view(*final(section)) == replaced(section_view(*old(section)), new_section@),
{
    if !new_section.is_empty() {
        *section = Some(new_section);
    }
}

/// What a list of imports brings in.
struct Imported {
    functions: Vec<u32>,
    memories: usize,
    globals: Vec<(ValType, bool)>,
}

/// Sorts out what the imports bring in.
fn sort_imports(imports: &Vec<Import>) -> (imported: Imported)
    ensures
        imported.functions@ == function_imports(imports@),
        imported.memories == memory_imports(imports@),
        imported.globals@ == global_imports(imports@),
{
    let mut functions: Vec<u32> = Vec::new();
    let mut memories: usize = 0;
    let mut globals: Vec<(ValType, bool)> = Vec::new();
    let mut i: usize = 0;
    assert(imports@.take(0) =~= Seq::empty());
    while i < imports.len()
        invariant
            i <= imports@.len(),
            memories <= i,
            functions@ == function_imports(imports@.take(i as int)),
            memories == memory_imports(imports@.take(i as int)),
            globals@ == global_imports(imports@.take(i as int)),
        decreases imports@.len() - i,
    {
        assert(imports@.take(i + 1).drop_last() =~= imports@.take(i as int));
        match imports[i] {
            Import::Function(index) => functions.push(index),
            Import::Memory => {
                memories = memories + 1;
            },
            Import::Global(ty, mutable) => globals.push((ty, mutable)),
            Import::Other => {},
        }
        i = i + 1;
    }
    assert(imports@.take(imports@.len() as int) =~= imports@);
    Imported { functions, memories, globals }
}

/// Collects what a list by function types says of each function of the code
/// section.
fn collect_signatures(module: &ModuleData, by_type: &Vec<Vec<ValType>>) -> (found: Vec<Vec<ValType>>)
    ensures
        views(found@) == of_functions(module@, views(by_type@)),
{
    let mut found: Vec<Vec<ValType>> = Vec::new();
    let ghost expected = of_functions(module@, views(by_type@));
    let imports: usize = module.num_of_import_functions as usize;
    let mut i: usize = 0;
    while i < module.function_bodies.len()
        invariant
            i <= module.function_bodies@.len(),
            found@.len() == i,
            imports == module.num_of_import_functions,
            expected == of_functions(module@, views(by_type@)),
            forall|j: int| 0 <= j < i ==> (#[trigger] found@[j])@ == expected[j],
        decreases module.function_bodies@.len() - i,
    {
        let mut types: Vec<ValType> = Vec::new();
        if imports < module.function_to_type.len() && i < module.function_to_type.len() - imports {
            let ty: usize = module.function_to_type[imports + i] as usize;
            if ty < by_type.len() {
                types = vstd::slice::slice_to_vec(by_type[ty].as_slice());
                assert(views(by_type@)[ty as int] == by_type@[ty as int]@);
            }
        }
        assert(types@ =~= expected[i as int]);
        found.push(types);
        i = i + 1;
    }
    assert(views(found@) =~= expected);
    found
}

/// Tells whether one of the globals holds a reference.
fn has_reference(globals: &Vec<(ValType, bool)>) -> (found: bool)
    ensures
        found == holds_reference(globals@),
{
    let mut i: usize = 0;
    while i < globals.len()
        invariant
            i <= globals@.len(),
            forall|j: int| 0 <= j < i ==> (#[trigger] globals@[j]).0 != ValType::Ref,
        decreases globals@.len() - i,
    {
        let (ty, _) = globals[i];
        if ty == ValType::Ref {
            assert(globals@[i as int].0 == ValType::Ref);
            return true;
        }
        i = i + 1;
    }
    false
}

/// The first index that cannot be shifted decides on the error.
proof fn lemma_shifted_all_error(indices: Seq<u32>, num_imports: u32, count: int)
    requires
        0 <= count <= indices.len(),
        shifted_all(indices.take(count), num_imports) is Err,
    ensures
        shifted_all(indices, num_imports) == shifted_all(indices.take(count), num_imports),
    decreases indices.len() - count,
{
    if count < indices.len() {
        assert(indices.take(count + 1).drop_last() =~= indices.take(count));
        lemma_shifted_all_error(indices, num_imports, count + 1);
    } else {
        assert(indices.take(count) =~= indices);
    }
}

/// Shifting keeps the number of indices.
proof fn lemma_shifted_all_len(indices: Seq<u32>, num_imports: u32)
    ensures
        shifted_all(indices, num_imports) matches Ok(found) ==> found.len() == indices.len(),
    decreases indices.len(),
{
    if indices.len() > 0 {
        lemma_shifted_all_len(indices.drop_last(), num_imports);
    }
}

/// Shifts the indices of functions.
pub fn shift_all(indices: &Vec<u32>, num_imports: u32) -> (new_indices: Result<
    Vec<u32>,
    MigrateError,
>)
    ensures
        match (new_indices, shifted_all(indices@, num_imports)) {
            (Ok(found), Ok(view)) => found@ == view,
            (Err(error), Err(expected)) => error == expected,
            _ => false,
        },
{
    let mut new_indices: Vec<u32> = Vec::new();
    let mut i: usize = 0;
    assert(indices@.take(0) =~= Seq::empty());
    while i < indices.len()
        invariant
            i <= indices@.len(),
            shifted_all(indices@.take(i as int), num_imports) == Ok::<Seq<u32>, MigrateError>(
                new_indices@,
            ),
        decreases indices@.len() - i,
    {
        assert(indices@.take(i + 1).drop_last() =~= indices@.take(i as int));
        match codegen::shift_index(indices[i], num_imports) {
            Ok(index) => new_indices.push(index),
            Err(error) => {
                proof {
                    lemma_shifted_all_error(indices@, num_imports, i + 1);
                }
                return Err(error);
            },
        }
        i = i + 1;
    }
    assert(indices@.take(indices@.len() as int) =~= indices@);
    Ok(new_indices)
}

/// Encodes a constant expression without its final `end`, with the functions that
/// it refers to at their new indices.
fn shift_expression(expr: &[u8], num_imports: u32) -> (bytes: Result<Vec<u8>, MigrateError>)
    ensures
        match (bytes, shifted_expression(expr@, num_imports)) {
            (Ok(found), Ok(view)) => found@ == view,
            (Err(error), Err(expected)) => error == expected,
            _ => false,
        },
{
    let mut insts = match body::read_insts_from(expr, 0) {
        Ok(insts) => insts,
        Err(error) => return Err(error),
    };
    let ghost all = insts@;
    if let None = insts.pop() {
        return Err(MigrateError::Parse);
    }
    assert(insts@ =~= all.drop_last());
    match codegen::copy_between(&insts, 0, usize::MAX, num_imports) {
        Ok(code) => codegen::encode_instructions(expr, &code),
        Err(error) => Err(error),
    }
}

/// The first expression that cannot be encoded decides on the error.
proof fn lemma_shifted_expressions_error(exprs: Seq<Seq<u8>>, num_imports: u32, count: int)
    requires
        0 <= count <= exprs.len(),
        shifted_expressions(exprs.take(count), num_imports) is Err,
    ensures
        shifted_expressions(exprs, num_imports) == shifted_expressions(
            exprs.take(count),
            num_imports,
        ),
    decreases exprs.len() - count,
{
    if count < exprs.len() {
        assert(exprs.take(count + 1).drop_last() =~= exprs.take(count));
        lemma_shifted_expressions_error(exprs, num_imports, count + 1);
    } else {
        assert(exprs.take(count) =~= exprs);
    }
}

/// Encodes constant expressions with the functions that they refer to at their new
/// indices.
fn shift_expressions(exprs: &Vec<Vec<u8>>, num_imports: u32) -> (found: Result<
    Vec<Vec<u8>>,
    MigrateError,
>)
    ensures
        match (found, shifted_expressions(views(exprs@), num_imports)) {
            (Ok(list), Ok(view)) => views(list@) == view && list@.len() == exprs@.len()
                && encoder::total(view) <= MAX_BINARY_SIZE / 2,
            (Err(error), Err(expected)) => error == expected,
            _ => false,
        },
{
    let ghost all = views(exprs@);
    let mut list: Vec<Vec<u8>> = Vec::new();
    let mut size: usize = 0;
    let mut i: usize = 0;
    assert(all.take(0) =~= Seq::empty());
    assert(views(list@) =~= Seq::empty());
    while i < exprs.len()
        invariant
            i <= exprs@.len(),
            all == views(exprs@),
            list@.len() == i,
            size <= MAX_BINARY_SIZE / 2,
            size == encoder::total(views(list@)),
            shifted_expressions(all.take(i as int), num_imports) == Ok::<
                Seq<Seq<u8>>,
                MigrateError,
            >(views(list@)),
        decreases exprs@.len() - i,
    {
        let ghost before = views(list@);
        proof {
            assert(all.take(i + 1).drop_last() =~= all.take(i as int));
            assert(all.take(i + 1).last() == exprs@[i as int]@);
        }
        let bytes = match shift_expression(exprs[i].as_slice(), num_imports) {
            Ok(bytes) => bytes,
            Err(error) => {
                proof {
                    lemma_shifted_expressions_error(all, num_imports, i + 1);
                }
                return Err(error);
            },
        };
        if bytes.len() > MAX_BINARY_SIZE / 2 - size {
            proof {
                lemma_shifted_expressions_error(all, num_imports, i + 1);
            }
            return Err(MigrateError::TooLarge);
        }
        let ghost view = bytes@;
        size = size + bytes.len();
        list.push(bytes);
        proof {
            assert(views(list@) =~= before.push(view));
            assert(before.push(view).drop_last() =~= before);
        }
        i = i + 1;
    }
    assert(all.take(all.len() as int) =~= all);
    Ok(list)
}

/// Encodes the element segment number `i` of a section with the indices of
/// functions in it shifted.
fn shift_element(data: &[u8], i: usize, items: &ElementItems, num_imports: u32) -> (section: Result<
    Section,
    MigrateError,
>)
    requires
        data@.len() <= MAX_BINARY_SIZE,
        reader::element_items(data@) matches Some(all) && i < all.len() && all[i as int] == items@,
    ensures
        match (section, shifted_element(data@, i as int, items@, num_imports)) {
            (Ok(found), Ok(view)) => found@ == view,
            (Err(error), Err(expected)) => error == expected,
            _ => false,
        },
{
    match items {
        ElementItems::Expressions(exprs) => {
            if exprs.len() > MAX_BINARY_SIZE / 4 {
                return Err(MigrateError::TooLarge);
            }
            let new_exprs = match shift_expressions(exprs, num_imports) {
                Ok(found) => found,
                Err(error) => return Err(error),
            };
            let ghost view = views(new_exprs@);
            decode(
                encoder::encode_element_expressions(data, i, new_exprs),
                Ghost(encoder::element_with_expressions(data@, i as int, view)),
            )
        },
        ElementItems::Functions(indices) => {
            if indices.len() > MAX_BINARY_SIZE / 8 {
                return Err(MigrateError::TooLarge);
            }
            let new_indices = match shift_all(indices, num_imports) {
                Ok(found) => found,
                Err(error) => return Err(error),
            };
            proof {
                lemma_shifted_all_len(indices@, num_imports);
            }
            let ghost view = new_indices@;
            decode(
                encoder::encode_element_functions(data, i, new_indices),
                Ghost(encoder::element_with_functions(data@, i as int, view)),
            )
        },
    }
}

/// The first segment that cannot be encoded decides on the error.
proof fn lemma_shifted_elements_error(
    data: Seq<u8>,
    items: Seq<ItemsView>,
    count: int,
    total: int,
    num_imports: u32,
)
    requires
        0 <= count <= total,
        shifted_elements(data, items, count, num_imports) is Err,
    ensures
        shifted_elements(data, items, total, num_imports) == shifted_elements(
            data,
            items,
            count,
            num_imports,
        ),
    decreases total - count,
{
    if count < total {
        lemma_shifted_elements_error(data, items, count + 1, total, num_imports);
    }
}

/// Encodes the element segments of a section with the indices of functions in
/// them shifted.
fn shift_elements(data: &[u8], items: &Vec<ElementItems>, num_imports: u32) -> (section: Result<
    Section,
    MigrateError,
>)
    requires
        data@.len() <= MAX_BINARY_SIZE,
        reader::element_items(data@) == Some(views(items@)),
    ensures
        match (section, shifted_elements(
            data@,
            views(items@),
            items@.len() as int,
            num_imports,
        )) {
            (Ok(found), Ok(view)) => found@ == view,
            (Err(error), Err(expected)) => error == expected,
            _ => false,
        },
{
    let mut section = Section::new();
    let ghost all = views(items@);
    let mut i: usize = 0;
    while i < items.len()
        invariant
            i <= items@.len(),
            all == views(items@),
            data@.len() <= MAX_BINARY_SIZE,
            reader::element_items(data@) == Some(all),
            shifted_elements(data@, all, i as int, num_imports) == Ok::<SectionView, MigrateError>(
                section@,
            ),
        decreases items@.len() - i,
    {
        assert(all[i as int] == items@[i as int]@);
        assert(all.len() == items@.len());
        let found = match shift_element(data, i, &items[i], num_imports) {
            Ok(found) => found,
            Err(error) => {
                proof {
                    lemma_shifted_elements_error(
                        data@,
                        all,
                        i + 1,
                        items@.len() as int,
                        num_imports,
                    );
                }
                return Err(error);
            },
        };
        if !section.append(&found) {
            proof {
                lemma_shifted_elements_error(data@, all, i + 1, items@.len() as int, num_imports);
            }
            return Err(MigrateError::TooLarge);
        }
        i = i + 1;
    }
    Ok(section)
}

/// The outcome of a change to a module is that of the specification.
pub open spec fn changed(
    outcome: Result<(), MigrateError>,
    module: ModuleData,
    expected: Result<ModuleView, MigrateError>,
) -> bool {
    match (outcome, expected) {
        (Ok(_), Ok(view)) => module@ == view,
        (Err(error), Err(expected_error)) => error == expected_error,
        _ => false,
    }
}

impl ModuleData {
    /// Creates a module without contents.
    pub fn new() -> (module: ModuleData)
        ensures
            module@ == ModuleView::empty(),
    {
        let module = ModuleData {
            start_func: None,
            type_section: None,
            function_to_type: Vec::new(),
            import_section: None,
            table_section: None,
            tag_section: None,
            global_section: Section::new(),
            imported_globals: Vec::new(),
            globals: Vec::new(),
            export_section: None,
            exports: Vec::new(),
            function_section: None,
            element_section_with_cr: None,
            element_section: None,
            code_section: None,
            function_bodies: Vec::new(),
            data_section: None,
            data_count_section: None,
            memory_section: None,
            custom_section: Vec::new(),
            type_params: Vec::new(),
            type_results: Vec::new(),
            params: Vec::new(),
            results: Vec::new(),
            checkpoint_memory_index: 0,
            num_of_import_memories: 0,
            num_of_import_functions: 0,
        };
        assert(module@ =~= ModuleView::empty());
        module
    }

    /// Adds a type section that declares functions with these parameters and
    /// results.
    pub fn add_types(
        &mut self,
        section: Section,
        params: Vec<Vec<ValType>>,
        results: Vec<Vec<ValType>>,
    )
        ensures
            final(self)@ == added_types(old(self)@, section@, views(params@), views(results@)),
    {
        let mut more = params;
        let mut more_results = results;
        proof {
            types::lemma_views_concat(self.type_params@, more@);
            types::lemma_views_concat(self.type_results@, more_results@);
        }
        replace(&mut self.type_section, section);
        self.type_params.append(&mut more);
        self.type_results.append(&mut more_results);
    }

    /// Adds an import section that brings these in.
    pub fn add_imports(&mut self, section: Section, imports: &Vec<Import>) -> (outcome: Result<
        (),
        MigrateError,
    >)
        ensures
            changed(outcome, *final(self), added_imports(old(self)@, section@, imports@)),
    {
        let mut imported = sort_imports(imports);
        if imported.functions.len() > (u32::MAX - self.num_of_import_functions) as usize
            || imported.memories > (u32::MAX - self.checkpoint_memory_index) as usize
            || imported.memories > (u32::MAX - self.num_of_import_memories) as usize {
            return Err(MigrateError::IndexOverflow);
        }
        replace(&mut self.import_section, section);
        self.num_of_import_functions = self.num_of_import_functions + imported.functions.len() as u32;
        self.checkpoint_memory_index = self.checkpoint_memory_index + imported.memories as u32;
        self.num_of_import_memories = self.num_of_import_memories + imported.memories as u32;
        self.function_to_type.append(&mut imported.functions);
        self.imported_globals.append(&mut imported.globals);
        Ok(())
    }

    /// Gives the types of all globals, the imported ones first.
    pub fn all_globals(&self) -> (globals: Vec<(ValType, bool)>)
        ensures
            globals@ == self@.imported_globals + self@.globals,
    {
        let mut globals = vstd::slice::slice_to_vec(self.imported_globals.as_slice());
        let mut more = vstd::slice::slice_to_vec(self.globals.as_slice());
        globals.append(&mut more);
        globals
    }

    /// Adds a function section that has these type indices.
    pub fn add_functions(&mut self, section: Section, indices: Vec<u32>)
        ensures
            final(self)@ == added_functions(old(self)@, section@, indices@),
    {
        let mut more = indices;
        replace(&mut self.function_section, section);
        self.function_to_type.append(&mut more);
    }

    /// Adds a memory section.
    pub fn add_memories(&mut self, section: Section) -> (outcome: Result<(), MigrateError>)
        ensures
            changed(outcome, *final(self), added_memories(old(self)@, section@)),
    {
        if section.count > u32::MAX - self.checkpoint_memory_index {
            return Err(MigrateError::IndexOverflow);
        }
        self.checkpoint_memory_index = self.checkpoint_memory_index + section.count;
        replace(&mut self.memory_section, section);
        Ok(())
    }

    /// Adds a global section that defines globals of these types.
    pub fn add_globals(&mut self, section: &Section, globals: Vec<(ValType, bool)>) -> (outcome: Result<
        (),
        MigrateError,
    >)
        ensures
            changed(outcome, *final(self), added_globals(old(self)@, section@, globals@)),
    {
        if has_reference(&globals) {
            return Err(MigrateError::ReferenceType);
        }
        if !self.global_section.append(section) {
            return Err(MigrateError::TooLarge);
        }
        let mut more = globals;
        self.globals.append(&mut more);
        Ok(())
    }

    /// Adds an export section that holds these exports.
    pub fn add_exports(&mut self, section: Section, exports: Vec<Export>)
        ensures
            final(self)@ == added_exports(old(self)@, section@, views(exports@)),
    {
        let mut more = exports;
        proof {
            types::lemma_views_concat(self.exports@, more@);
        }
        replace(&mut self.export_section, section);
        self.exports.append(&mut more);
    }

    /// Adds an element section, as it is and with the indices of functions
    /// shifted.
    pub fn add_elements(&mut self, section: Section, with_cr: Section)
        ensures
            final(self)@ == added_elements(old(self)@, section@, with_cr@),
    {
        self.element_section = Some(section);
        replace(&mut self.element_section_with_cr, with_cr);
    }

    /// Reads a type section.
    fn read_types(&mut self, data: &[u8]) -> (outcome: Result<(), MigrateError>)
        requires
            data@.len() <= MAX_BINARY_SIZE,
        ensures
            changed(outcome, *final(self), with_types(old(self)@, data@)),
    {
        let section = match decode(
            encoder::reencode_types(data),
            Ghost(encoder::reencoded_types(data@)),
        ) {
            Ok(section) => section,
            Err(error) => return Err(error),
        };
        let params = match reader::read_function_params(data) {
            Ok(params) => params,
            Err(_) => return Err(MigrateError::Parse),
        };
        match reader::read_function_results(data) {
            Ok(results) => {
                self.add_types(section, params, results);
                Ok(())
            },
            Err(_) => Err(MigrateError::Parse),
        }
    }

    /// Reads an import section.
    fn read_imports(&mut self, data: &[u8]) -> (outcome: Result<(), MigrateError>)
        requires
            data@.len() <= MAX_BINARY_SIZE,
        ensures
            changed(outcome, *final(self), with_imports(old(self)@, data@)),
    {
        let section = match decode(
            encoder::reencode_imports(data),
            Ghost(encoder::reencoded_imports(data@)),
        ) {
            Ok(section) => section,
            Err(error) => return Err(error),
        };
        match reader::read_imports(data) {
            Ok(imports) => self.add_imports(section, &imports),
            Err(_) => Err(MigrateError::Parse),
        }
    }

    /// Reads a function section.
    fn read_functions(&mut self, data: &[u8]) -> (outcome: Result<(), MigrateError>)
        requires
            data@.len() <= MAX_BINARY_SIZE,
        ensures
            changed(outcome, *final(self), with_functions(old(self)@, data@)),
    {
        let section = match decode(
            encoder::reencode_functions(data),
            Ghost(encoder::reencoded_functions(data@)),
        ) {
            Ok(section) => section,
            Err(error) => return Err(error),
        };
        match reader::read_function_types(data) {
            Ok(indices) => {
                self.add_functions(section, indices);
                Ok(())
            },
            Err(_) => Err(MigrateError::Parse),
        }
    }

    /// Reads a table section.
    fn read_tables(&mut self, data: &[u8]) -> (outcome: Result<(), MigrateError>)
        requires
            data@.len() <= MAX_BINARY_SIZE,
        ensures
            changed(outcome, *final(self), with_tables(old(self)@, data@)),
    {
        match decode(encoder::reencode_tables(data), Ghost(encoder::reencoded_tables(data@))) {
            Ok(section) => {
                replace(&mut self.table_section, section);
                Ok(())
            },
            Err(error) => Err(error),
        }
    }

    /// Reads a memory section.
    fn read_memories(&mut self, data: &[u8]) -> (outcome: Result<(), MigrateError>)
        requires
            data@.len() <= MAX_BINARY_SIZE,
        ensures
            changed(outcome, *final(self), with_memories(old(self)@, data@)),
    {
        match decode(encoder::reencode_memories(data), Ghost(encoder::reencoded_memories(data@))) {
            Ok(section) => self.add_memories(section),
            Err(error) => Err(error),
        }
    }

    /// Reads a tag section.
    fn read_tags(&mut self, data: &[u8]) -> (outcome: Result<(), MigrateError>)
        requires
            data@.len() <= MAX_BINARY_SIZE,
        ensures
            changed(outcome, *final(self), with_tags(old(self)@, data@)),
    {
        match decode(encoder::reencode_tags(data), Ghost(encoder::reencoded_tags(data@))) {
            Ok(section) => {
                replace(&mut self.tag_section, section);
                Ok(())
            },
            Err(error) => Err(error),
        }
    }

    /// Reads a global section.
    fn read_globals(&mut self, data: &[u8]) -> (outcome: Result<(), MigrateError>)
        requires
            data@.len() <= MAX_BINARY_SIZE,
        ensures
            changed(outcome, *final(self), with_globals(old(self)@, data@)),
    {
        let section = match decode(
            encoder::reencode_globals(data),
            Ghost(encoder::reencoded_globals(data@)),
        ) {
            Ok(section) => section,
            Err(error) => return Err(error),
        };
        match reader::read_globals(data) {
            Ok(globals) => self.add_globals(&section, globals),
            Err(_) => Err(MigrateError::Parse),
        }
    }

    /// Reads an export section.
    fn read_exports(&mut self, data: &[u8]) -> (outcome: Result<(), MigrateError>)
        requires
            data@.len() <= MAX_BINARY_SIZE,
        ensures
            changed(outcome, *final(self), with_exports(old(self)@, data@)),
    {
        let section = match decode(
            encoder::reencode_exports(data),
            Ghost(encoder::reencoded_exports(data@)),
        ) {
            Ok(section) => section,
            Err(error) => return Err(error),
        };
        match reader::read_exports(data) {
            Ok(exports) => {
                self.add_exports(section, exports);
                Ok(())
            },
            Err(_) => Err(MigrateError::Parse),
        }
    }

    /// Reads a start section.
    fn read_start(&mut self, data: &[u8]) -> (outcome: Result<(), MigrateError>)
        ensures
            changed(outcome, *final(self), with_start(old(self)@, data@)),
    {
        match reader::read_var_u32(data, 0) {
            Ok((func, _)) => {
                self.start_func = Some(func);
                Ok(())
            },
            Err(_) => Err(MigrateError::Parse),
        }
    }

    /// Reads an element section.
    fn read_elements(&mut self, data: &[u8]) -> (outcome: Result<(), MigrateError>)
        requires
            data@.len() <= MAX_BINARY_SIZE,
        ensures
            changed(outcome, *final(self), with_elements(old(self)@, data@)),
    {
        let section = match decode(
            encoder::reencode_elements(data),
            Ghost(encoder::reencoded_elements(data@)),
        ) {
            Ok(section) => section,
            Err(error) => return Err(error),
        };
        let items = match reader::read_element_items(data) {
            Ok(items) => items,
            Err(_) => return Err(MigrateError::Parse),
        };
        match shift_elements(data, &items, self.num_of_import_functions) {
            Ok(with_cr) => {
                self.add_elements(section, with_cr);
                Ok(())
            },
            Err(error) => Err(error),
        }
    }

    /// Reads a data count section.
    fn read_data_count(&mut self, data: &[u8]) -> (outcome: Result<(), MigrateError>)
        ensures
            changed(outcome, *final(self), with_data_count(old(self)@, data@)),
    {
        match reader::read_var_u32(data, 0) {
            Ok((count, _)) => {
                self.data_count_section = Some(count);
                Ok(())
            },
            Err(_) => Err(MigrateError::Parse),
        }
    }

    /// Reads a data section.
    fn read_data(&mut self, data: &[u8]) -> (outcome: Result<(), MigrateError>)
        requires
            data@.len() <= MAX_BINARY_SIZE,
        ensures
            changed(outcome, *final(self), with_data(old(self)@, data@)),
    {
        match decode(encoder::reencode_data(data), Ghost(encoder::reencoded_data(data@))) {
            Ok(section) => {
                replace(&mut self.data_section, section);
                Ok(())
            },
            Err(error) => Err(error),
        }
    }

    /// Reads a code section.
    fn read_code(&mut self, data: &[u8]) -> (outcome: Result<(), MigrateError>)
        requires
            data@.len() <= MAX_BINARY_SIZE,
        ensures
            changed(outcome, *final(self), with_code(old(self)@, data@)),
    {
        match decode(encoder::reencode_code(data), Ghost(encoder::reencoded_code(data@))) {
            Ok(section) => {
                self.code_section = Some(section);
                Ok(())
            },
            Err(error) => Err(error),
        }
    }

    /// Reads a section with these contents.
    fn read_section(&mut self, kind: SectionKind, data: &[u8]) -> (outcome: Result<
        (),
        MigrateError,
    >)
        requires
            data@.len() <= MAX_BINARY_SIZE,
        ensures
            changed(outcome, *final(self), with_section(old(self)@, kind, data@)),
    {
        match kind {
            SectionKind::Type => self.read_types(data),
            SectionKind::Import => self.read_imports(data),
            SectionKind::Function => self.read_functions(data),
            SectionKind::Table => self.read_tables(data),
            SectionKind::Memory => self.read_memories(data),
            SectionKind::Tag => self.read_tags(data),
            SectionKind::Global => self.read_globals(data),
            SectionKind::Export => self.read_exports(data),
            SectionKind::Start => self.read_start(data),
            SectionKind::Element => self.read_elements(data),
            SectionKind::DataCount => self.read_data_count(data),
            SectionKind::Data => self.read_data(data),
            SectionKind::Code => self.read_code(data),
            SectionKind::Custom => {
                let ghost before = self.custom_section@;
                self.custom_section.push(vstd::slice::slice_to_vec(data));
                assert(views(self.custom_section@) =~= views(before).push(data@));
                Ok(())
            },
            _ => Ok(()),
        }
    }

    /// Reads one piece of the binary of the module.
    fn read_piece(&mut self, bytes: &[u8], piece: Payload) -> (outcome: Result<(), MigrateError>)
        requires
            bytes@.len() <= MAX_BINARY_SIZE,
        ensures
            changed(outcome, *final(self), with_piece(old(self)@, bytes@, piece)),
    {
        match piece {
            Payload::Section(kind, start, end) => {
                let known = match kind {
                    SectionKind::Type
                    | SectionKind::Import
                    | SectionKind::Function
                    | SectionKind::Table
                    | SectionKind::Memory
                    | SectionKind::Tag
                    | SectionKind::Global
                    | SectionKind::Export
                    | SectionKind::Start
                    | SectionKind::Element
                    | SectionKind::DataCount
                    | SectionKind::Data
                    | SectionKind::Code
                    | SectionKind::Custom => true,
                    _ => false,
                };
                if !known {
                    return Ok(());
                }
                match payload::span(bytes, start, end) {
                    Ok(data) => self.read_section(kind, data),
                    Err(error) => Err(error),
                }
            },
            Payload::Body(start, end) => match payload::span(bytes, start, end) {
                Ok(data) => {
                    let ghost before = self.function_bodies@;
                    self.function_bodies.push(vstd::slice::slice_to_vec(data));
                    assert(views(self.function_bodies@) =~= views(before).push(data@));
                    Ok(())
                },
                Err(error) => Err(error),
            },
            Payload::Mark => Ok(()),
        }
    }
}

/// The first piece that cannot be read decides on the error.
proof fn lemma_with_pieces_error(bytes: Seq<u8>, pieces: Seq<Payload>, count: int)
    requires
        0 <= count <= pieces.len(),
        with_pieces(bytes, pieces.take(count)) is Err,
    ensures
        with_pieces(bytes, pieces) == with_pieces(bytes, pieces.take(count)),
    decreases pieces.len() - count,
{
    if count < pieces.len() {
        assert(pieces.take(count + 1).drop_last() =~= pieces.take(count));
        lemma_with_pieces_error(bytes, pieces, count + 1);
    } else {
        assert(pieces.take(count) =~= pieces);
    }
}

/// Reads the module in a binary.
pub fn read_module_bytecode(bytes: &[u8]) -> (module: Result<ModuleData, MigrateError>)
    requires
        bytes@.len() <= MAX_BINARY_SIZE,
    ensures
        match (module, module_of(bytes@)) {
            (Ok(found), Ok(view)) => found@ == view,
            (Err(error), Err(expected)) => error == expected,
            _ => false,
        },
{
    proof {
        reveal(module_of);
    }
    let pieces = match payload::parse_payloads(bytes) {
        Ok(pieces) => pieces,
        Err(error) => return Err(error),
    };
    let mut module = ModuleData::new();
    let mut i: usize = 0;
    assert(pieces@.take(0) =~= Seq::empty());
    while i < pieces.len()
        invariant
            i <= pieces@.len(),
            bytes@.len() <= MAX_BINARY_SIZE,
            payload::parsed(bytes@) == Ok::<Seq<Payload>, MigrateError>(pieces@),
            with_pieces(bytes@, pieces@.take(i as int)) == Ok::<ModuleView, MigrateError>(module@),
        decreases pieces@.len() - i,
    {
        assert(pieces@.take(i + 1).drop_last() =~= pieces@.take(i as int));
        match module.read_piece(bytes, pieces[i]) {
            Ok(_) => {},
            Err(error) => {
                proof {
                    reveal(module_of);
                    lemma_with_pieces_error(bytes@, pieces@, i + 1);
                }
                return Err(error);
            },
        }
        i = i + 1;
    }
    assert(pieces@.take(pieces@.len() as int) =~= pieces@);
    let ghost read = module@;
    let params = collect_signatures(&module, &module.type_params);
    let results = collect_signatures(&module, &module.type_results);
    module.params = params;
    module.results = results;
    assert(module@ =~= with_signatures(read));
    Ok(module)
}

} // verus!
