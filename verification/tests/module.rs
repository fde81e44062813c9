use wasm_encoder::{
    CodeSection, ConstExpr, ElementSection, Elements, EntityType, ExportKind, ExportSection, Function,
    FunctionSection, GlobalSection, GlobalType, ImportSection, Instruction, MemorySection, MemoryType,
    Module, RefType, StartSection, TableSection, TableType, TypeSection, ValType as Ty,
};
use wasm_migrate::inject::{encode_module, extract_locals, pre_module_encoding, update_function_indexes};
use wasm_migrate::module::{read_module_bytecode, shift_all};
use wasm_migrate::payload::{parse_payloads, span, Payload, SectionKind};
use wasm_migrate::types::{ExternKind, MigrateError, ValType};

fn sample() -> Vec<u8> {
    let mut module = Module::new();
    let mut types = TypeSection::new();
    types.ty().function([Ty::I32, Ty::FUNCREF], []);
    types.ty().function([Ty::V128, Ty::F32, Ty::F64, Ty::I64], [Ty::I32]);
    module.section(&types);
    let mut imports = ImportSection::new();
    imports.import("env", "f", EntityType::Function(1));
    let memory = MemoryType { minimum: 1, maximum: None, memory64: false, shared: false, page_size_log2: None };
    imports.import("env", "m", EntityType::Memory(memory));
    imports.import("env", "g", EntityType::Function(0));
    module.section(&imports);
    let mut functions = FunctionSection::new();
    functions.function(1);
    functions.function(0);
    module.section(&functions);
    let mut tables = TableSection::new();
    let table = TableType { element_type: RefType::FUNCREF, table64: false, minimum: 2, maximum: None, shared: false };
    tables.table(table);
    module.section(&tables);
    let mut memories = MemorySection::new();
    memories.memory(memory);
    memories.memory(memory);
    module.section(&memories);
    let mut globals = GlobalSection::new();
    globals.global(GlobalType { val_type: Ty::F32, mutable: true, shared: false }, &ConstExpr::f32_const(0.0f32.into()));
    globals.global(GlobalType { val_type: Ty::V128, mutable: false, shared: false }, &ConstExpr::v128_const(1));
    module.section(&globals);
    let mut exports = ExportSection::new();
    exports.export("näme", ExportKind::Func, 3);
    exports.export("t", ExportKind::Table, 0);
    exports.export("m", ExportKind::Memory, 1);
    exports.export("g", ExportKind::Global, 1);
    module.section(&exports);
    module.section(&StartSection { function_index: 3 });
    let mut elements = ElementSection::new();
    elements.active(Some(0), &ConstExpr::i32_const(1), Elements::Functions([1u32, 2][..].into()));
    module.section(&elements);
    let mut code = CodeSection::new();
    let mut f = Function::new([(3, Ty::I32), (1, Ty::EXTERNREF)]);
    f.instruction(&Instruction::Call(1));
    f.instruction(&Instruction::Call(3));
    f.instruction(&Instruction::End);
    code.function(&f);
    let mut f = Function::new([]);
    f.instruction(&Instruction::Nop);
    f.instruction(&Instruction::End);
    code.function(&f);
    module.section(&code);
    module.finish()
}

#[test]
fn a_module_is_read_section_by_section() {
    let module = read_module_bytecode(&sample()).ok().unwrap();
    let by_type = vec![
        vec![ValType::I32, ValType::Ref],
        vec![ValType::V128, ValType::F32, ValType::F64, ValType::I64],
    ];
    assert_eq!(module.type_params, by_type);
    assert_eq!(module.type_results, vec![vec![], vec![ValType::I32]]);
    // The functions of the code section have the second type and the first.
    assert_eq!(module.params, vec![by_type[1].clone(), by_type[0].clone()]);
    assert_eq!(module.results, vec![vec![ValType::I32], vec![]]);
    assert_eq!(module.function_to_type, vec![1, 0, 1, 0]);
    assert_eq!(module.num_of_import_functions, 2);
    assert_eq!(module.checkpoint_memory_index, 3);
    assert_eq!(module.num_of_import_memories, 1);
    assert_eq!(module.globals, vec![(ValType::F32, true), (ValType::V128, false)]);
    assert_eq!(module.global_section.count, 2);
    assert_eq!(module.start_func, Some(3));
    let exports: Vec<(String, ExternKind, u32)> =
        module.exports.iter().map(|e| (e.name.clone(), e.kind, e.index)).collect();
    assert_eq!(
        exports,
        vec![
            ("näme".to_string(), ExternKind::Func, 3),
            ("t".to_string(), ExternKind::Table, 0),
            ("m".to_string(), ExternKind::Memory, 1),
            ("g".to_string(), ExternKind::Global, 1),
        ]
    );
    assert_eq!(module.function_bodies, vec![vec![2, 3, 0x7f, 1, 0x6f, 0x10, 1, 0x10, 3, 0x0b], vec![0, 1, 0x0b]]);
    assert_eq!(module.type_section.unwrap().count, 2);
    assert_eq!(module.import_section.unwrap().count, 3);
    assert_eq!(module.function_section.unwrap().entries, vec![1, 0]);
    assert_eq!(module.table_section.unwrap().entries, vec![0x70, 0x00, 0x02]);
    assert_eq!(module.memory_section.unwrap().entries, vec![0x00, 0x01, 0x00, 0x01]);
    assert_eq!(module.export_section.unwrap().count, 4);
    assert_eq!(module.code_section.unwrap().count, 2);
    let plain = module.element_section.unwrap();
    let shifted = module.element_section_with_cr.unwrap();
    assert_eq!(plain.count, 1);
    assert_eq!(plain.entries, vec![0x02, 0x00, 0x41, 0x01, 0x0b, 0x00, 0x02, 0x01, 0x02]);
    assert_eq!(shifted.entries, vec![0x02, 0x00, 0x41, 0x01, 0x0b, 0x00, 0x02, 0x01, 0x04]);
    assert!(module.data_section.is_none());
    assert!(module.data_count_section.is_none());
    assert!(module.tag_section.is_none());
}

#[test]
fn a_module_without_target_keeps_its_sections() {
    let wasm = sample();
    let module = read_module_bytecode(&wasm).ok().unwrap();
    let result = encode_module(&module, &None).ok().unwrap().finish();
    let kinds = |bytes: &[u8]| -> Vec<SectionKind> {
        let mut list: Vec<SectionKind> = Vec::new();
        for piece in parse_payloads(bytes).unwrap() {
            if let Payload::Section(kind, _, _) = piece {
                list.push(kind);
            }
        }
        list
    };
    assert_eq!(
        kinds(&result),
        vec![
            SectionKind::Type,
            SectionKind::Import,
            SectionKind::Function,
            SectionKind::Table,
            SectionKind::Memory,
            SectionKind::Global,
            SectionKind::Export,
            SectionKind::Start,
            SectionKind::Element,
            SectionKind::Code,
        ]
    );
    let contents = |bytes: &[u8], wanted: SectionKind| -> Vec<u8> {
        for piece in parse_payloads(bytes).unwrap() {
            if let Payload::Section(kind, start, end) = piece {
                if kind == wanted {
                    return span(bytes, start, end).unwrap().to_vec();
                }
            }
        }
        panic!("missing section")
    };
    for kind in kinds(&result) {
        assert_eq!(contents(&result, kind), contents(&wasm, kind));
    }
}

#[test]
fn locals_of_all_functions_are_extracted() {
    let module = read_module_bytecode(&sample()).ok().unwrap();
    let locals = extract_locals(&module).ok().unwrap();
    let plain: Vec<Vec<(u32, Vec<u8>)>> =
        locals.iter().map(|groups| groups.iter().map(|g| (g.count, g.ty.clone())).collect()).collect();
    assert_eq!(plain, vec![vec![(3, vec![0x7f]), (1, vec![0x6f])], vec![]]);
}

#[test]
fn calls_of_functions_behind_the_imports_are_shifted() {
    let module = read_module_bytecode(&sample()).ok().unwrap();
    let locals = extract_locals(&module).ok().unwrap();
    let body = update_function_indexes(&module.function_bodies[0], &locals[0], 2);
    assert_eq!(body, Ok(vec![2, 3, 0x7f, 1, 0x6f, 0x10, 1, 0x10, 5, 0x0b]));
    let body = update_function_indexes(&module.function_bodies[0], &locals[0], 1);
    assert_eq!(body, Ok(vec![2, 3, 0x7f, 1, 0x6f, 0x10, 3, 0x10, 5, 0x0b]));
    assert_eq!(shift_all(&vec![0, 1, 2, 9], 2), Ok(vec![0, 1, 4, 11]));
    assert_eq!(shift_all(&vec![0, u32::MAX], 2), Err(MigrateError::IndexOverflow));
}

#[test]
fn a_target_is_prepared_for_a_function_of_the_module() {
    let module = read_module_bytecode(&sample()).ok().unwrap();
    let target = pre_module_encoding(&module, 1, true).ok().unwrap();
    assert_eq!(target.plan.params_and_locals, vec![ValType::I32, ValType::Ref]);
    assert_eq!(target.plan.checkpoint_memory_index, 3);
    assert_eq!(target.plan.checkpoint_list, vec![1]);
    assert!(target.distributed);
    assert_eq!(pre_module_encoding(&module, 2, true).err(), Some(MigrateError::MissingFunction));
}

#[test]
fn pieces_of_a_module_have_their_ranges() {
    let mut module = Module::new();
    let mut types = TypeSection::new();
    types.ty().function([], []);
    module.section(&types);
    let mut functions = FunctionSection::new();
    functions.function(0);
    module.section(&functions);
    let mut code = CodeSection::new();
    let mut f = Function::new([]);
    f.instruction(&Instruction::End);
    code.function(&f);
    module.section(&code);
    let bytes = module.finish();
    assert_eq!(
        parse_payloads(&bytes),
        Ok(vec![
            Payload::Mark,
            Payload::Section(SectionKind::Type, 10, 14),
            Payload::Section(SectionKind::Function, 16, 18),
            Payload::Section(SectionKind::Code, 20, 24),
            Payload::Body(22, 24),
            Payload::Mark,
        ])
    );
    assert_eq!(parse_payloads(b"nonsense"), Err(MigrateError::Parse));
    assert_eq!(span(&bytes, 22, 24).unwrap(), &[0x00, 0x0b]);
    assert_eq!(span(&bytes, 24, 25), Err(MigrateError::OutOfBounds));
    assert_eq!(span(&bytes, 3, 2), Err(MigrateError::OutOfBounds));
}
