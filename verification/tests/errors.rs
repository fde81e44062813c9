use wasm_encoder::{
    BlockType, CodeSection, Component, ConstExpr, EntityType, Function, FunctionSection, GlobalSection,
    GlobalType, HeapType, ImportSection, Instruction, Module, ModuleSection, NestedComponentSection,
    RawSection, TypeSection, ValType,
};
use wasm_migrate::types::MigrateError;
use wasm_migrate::WasmMigrate;

fn module_with(body: Vec<Instruction>) -> Vec<u8> {
    let mut module = Module::new();
    let mut types = TypeSection::new();
    types.ty().function([], []);
    module.section(&types);
    let mut functions = FunctionSection::new();
    functions.function(0);
    module.section(&functions);
    let mut code = CodeSection::new();
    let mut f = Function::new([(1, ValType::FUNCREF)]);
    for instruction in &body {
        f.instruction(instruction);
    }
    code.function(&f);
    module.section(&code);
    module.finish()
}

fn outcome(wasm: &[u8]) -> Result<Vec<u8>, MigrateError> {
    WasmMigrate::new().try_compute(wasm, false)
}

#[test]
fn bytes_that_are_no_binary() {
    assert_eq!(outcome(b""), Err(MigrateError::Parse));
    assert_eq!(outcome(b"\0bsm\x01\0\0\0"), Err(MigrateError::Parse));
    assert_eq!(outcome(b"\0asm\x01\0\0\0\x01\x05"), Err(MigrateError::Parse));
}

#[test]
fn an_operator_that_is_none() {
    let mut module = Module::new();
    let mut types = TypeSection::new();
    types.ty().function([], []);
    module.section(&types);
    let mut functions = FunctionSection::new();
    functions.function(0);
    module.section(&functions);
    // One body with an opcode that does not exist.
    module.section(&RawSection { id: 10, data: &[1, 3, 0, 0xff, 0x0b] });
    let wasm = module.finish();
    assert_eq!(outcome(&wasm), Err(MigrateError::Reencode));
}

#[test]
fn a_section_that_cannot_be_read() {
    let mut module = Module::new();
    // One type of a form that does not exist.
    module.section(&RawSection { id: 1, data: &[1, 0x11] });
    assert_eq!(outcome(&module.finish()), Err(MigrateError::Reencode));
}

#[test]
fn types_that_are_no_functions() {
    let mut module = Module::new();
    // One structure type without fields.
    module.section(&RawSection { id: 1, data: &[1, 0x5f, 0] });
    assert_eq!(outcome(&module.finish()), Err(MigrateError::Parse));
}

#[test]
fn a_binary_that_is_too_large() {
    let huge = vec![0u8; 0x8000_0000];
    assert_eq!(outcome(&huge), Err(MigrateError::TooLarge));
}

#[test]
fn a_function_index_that_cannot_be_shifted() {
    let wasm = module_with(vec![Instruction::Call(u32::MAX), Instruction::End]);
    assert_eq!(outcome(&wasm), Err(MigrateError::IndexOverflow));
}

#[test]
fn a_function_that_does_not_exist() {
    let wasm = module_with(vec![Instruction::Nop, Instruction::End]);
    let mut migrate = WasmMigrate::new();
    migrate.func_index = 1;
    assert_eq!(migrate.try_compute(&wasm, false), Err(MigrateError::MissingFunction));
    migrate.func_index = -1;
    assert_eq!(migrate.try_compute(&wasm, false), Err(MigrateError::MissingFunction));
    assert_eq!(outcome(&Module::new().finish()), Err(MigrateError::MissingFunction));
}

#[test]
fn a_function_without_a_type() {
    let mut module = Module::new();
    let mut code = CodeSection::new();
    let mut f = Function::new([]);
    f.instruction(&Instruction::Nop);
    f.instruction(&Instruction::End);
    code.function(&f);
    module.section(&code);
    assert_eq!(outcome(&module.finish()), Err(MigrateError::MissingType));
}

#[test]
fn blocks_that_are_not_closed() {
    let wasm = module_with(vec![Instruction::Block(BlockType::Empty), Instruction::Nop]);
    assert_eq!(outcome(&wasm), Err(MigrateError::UnbalancedBlocks));
}

#[test]
fn a_function_without_instructions() {
    let wasm = module_with(vec![Instruction::End]);
    assert_eq!(outcome(&wasm), Err(MigrateError::NoRegions));
}

#[test]
fn variables_that_are_not_declared() {
    let wasm = module_with(vec![
        Instruction::LocalSet(5),
        Instruction::Block(BlockType::Empty),
        Instruction::LocalGet(5),
        Instruction::End,
        Instruction::End,
    ]);
    assert_eq!(outcome(&wasm), Err(MigrateError::UnknownVariable));
}

#[test]
fn globals_that_are_not_defined() {
    let wasm = module_with(vec![
        Instruction::GlobalSet(5),
        Instruction::Block(BlockType::Empty),
        Instruction::GlobalGet(5),
        Instruction::End,
        Instruction::End,
    ]);
    assert_eq!(outcome(&wasm), Err(MigrateError::UnknownGlobal));
}

#[test]
fn references_that_would_be_checkpointed() {
    let wasm = module_with(vec![
        Instruction::LocalSet(0),
        Instruction::Block(BlockType::Empty),
        Instruction::LocalGet(0),
        Instruction::End,
        Instruction::End,
    ]);
    assert_eq!(outcome(&wasm), Err(MigrateError::ReferenceType));
    let mut module = Module::new();
    let mut globals = GlobalSection::new();
    let ty = GlobalType { val_type: ValType::FUNCREF, mutable: false, shared: false };
    globals.global(ty, &ConstExpr::ref_null(HeapType::FUNC));
    module.section(&globals);
    assert_eq!(outcome(&module.finish()), Err(MigrateError::ReferenceType));
}

#[test]
fn a_module_of_a_component_without_types() {
    let mut component = Component::new();
    component.section(&ModuleSection(&Module::new()));
    assert_eq!(outcome(&component.finish()), Err(MigrateError::MissingTypes));
}

#[test]
fn a_module_of_a_nested_component_without_types() {
    let mut inner = Component::new();
    inner.section(&ModuleSection(&Module::new()));
    let mut outer = Component::new();
    outer.section(&NestedComponentSection(&inner));
    assert_eq!(outcome(&outer.finish()), Err(MigrateError::MissingTypes));
}

#[test]
fn imports_do_not_count_as_defined_functions() {
    let mut module = Module::new();
    let mut types = TypeSection::new();
    types.ty().function([], []);
    module.section(&types);
    let mut imports = ImportSection::new();
    imports.import("env", "f", EntityType::Function(0));
    module.section(&imports);
    assert_eq!(outcome(&module.finish()), Err(MigrateError::MissingFunction));
}
