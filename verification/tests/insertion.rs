use wasm_encoder::{
    BlockType, CodeSection, ConstExpr, CustomSection, DataCountSection, DataSection, ElementSection,
    Elements, EntityType, ExportKind, ExportSection, Function, FunctionSection, GlobalSection,
    GlobalType, HeapType, ImportSection, Instruction, MemorySection, MemoryType, Module, RefType,
    StartSection, TableSection, TableType, TagKind, TagSection, TagType, TypeSection, ValType,
};
use wasm_migrate::WasmMigrate;

fn small_module() -> Vec<u8> {
    let mut module = Module::new();
    let mut types = TypeSection::new();
    types.ty().function([ValType::I32], [ValType::I32]);
    module.section(&types);
    let mut functions = FunctionSection::new();
    functions.function(0);
    module.section(&functions);
    let mut exports = ExportSection::new();
    exports.export("run", ExportKind::Func, 0);
    module.section(&exports);
    let mut code = CodeSection::new();
    let mut f = Function::new([(1, ValType::I64), (1, ValType::I32)]);
    f.instruction(&Instruction::LocalGet(0));
    f.instruction(&Instruction::LocalSet(2));
    f.instruction(&Instruction::Block(BlockType::Empty));
    f.instruction(&Instruction::LocalGet(2));
    f.instruction(&Instruction::I32Const(1));
    f.instruction(&Instruction::I32Add);
    f.instruction(&Instruction::LocalSet(2));
    f.instruction(&Instruction::End);
    f.instruction(&Instruction::LocalGet(2));
    f.instruction(&Instruction::End);
    code.function(&f);
    module.section(&code);
    module.finish()
}

fn rich_module() -> Vec<u8> {
    let mut module = Module::new();
    let mut types = TypeSection::new();
    types.ty().function([], []);
    types.ty().function([ValType::I32, ValType::I32], [ValType::I32]);
    module.section(&types);
    let mut imports = ImportSection::new();
    imports.import("env", "tick", EntityType::Function(0));
    module.section(&imports);
    let mut functions = FunctionSection::new();
    functions.function(0);
    functions.function(1);
    functions.function(0);
    module.section(&functions);
    let mut tables = TableSection::new();
    let table = TableType { element_type: RefType::FUNCREF, table64: false, minimum: 4, maximum: None, shared: false };
    tables.table(table);
    module.section(&tables);
    let mut memories = MemorySection::new();
    let memory = MemoryType { minimum: 3, maximum: Some(5), memory64: false, shared: false, page_size_log2: None };
    memories.memory(memory);
    module.section(&memories);
    let mut tags = TagSection::new();
    tags.tag(TagType { kind: TagKind::Exception, func_type_idx: 0 });
    module.section(&tags);
    let mut globals = GlobalSection::new();
    let ty = GlobalType { val_type: ValType::I32, mutable: true, shared: false };
    globals.global(ty, &ConstExpr::i32_const(7));
    let ty = GlobalType { val_type: ValType::I64, mutable: false, shared: false };
    globals.global(ty, &ConstExpr::i64_const(9));
    module.section(&globals);
    let mut exports = ExportSection::new();
    exports.export("run", ExportKind::Func, 2);
    exports.export("memory", ExportKind::Memory, 0);
    exports.export("count", ExportKind::Global, 0);
    exports.export("table", ExportKind::Table, 0);
    module.section(&exports);
    module.section(&StartSection { function_index: 1 });
    let mut elements = ElementSection::new();
    elements.active(None, &ConstExpr::i32_const(0), Elements::Functions([0u32, 1, 2, 3][..].into()));
    elements.passive(Elements::Functions([3u32][..].into()));
    elements.declared(Elements::Functions([0u32][..].into()));
    let refs = [ConstExpr::ref_func(2), ConstExpr::ref_null(HeapType::FUNC)];
    elements.passive(Elements::Expressions(RefType::FUNCREF, refs[..].into()));
    module.section(&elements);
    module.section(&DataCountSection { count: 1 });
    let mut code = CodeSection::new();
    let mut f = Function::new([]);
    f.instruction(&Instruction::Call(0));
    f.instruction(&Instruction::Call(3));
    f.instruction(&Instruction::End);
    code.function(&f);
    let mut f = Function::new([(2, ValType::I32), (1, ValType::F64)]);
    f.instruction(&Instruction::LocalGet(0));
    f.instruction(&Instruction::LocalSet(2));
    f.instruction(&Instruction::GlobalGet(0));
    f.instruction(&Instruction::LocalSet(3));
    f.instruction(&Instruction::Loop(BlockType::Empty));
    f.instruction(&Instruction::Call(1));
    f.instruction(&Instruction::LocalGet(2));
    f.instruction(&Instruction::LocalTee(1));
    f.instruction(&Instruction::GlobalSet(0));
    f.instruction(&Instruction::End);
    f.instruction(&Instruction::Call(0));
    f.instruction(&Instruction::LocalGet(3));
    f.instruction(&Instruction::LocalGet(1));
    f.instruction(&Instruction::I32Add);
    f.instruction(&Instruction::GlobalGet(0));
    f.instruction(&Instruction::I32Add);
    f.instruction(&Instruction::End);
    code.function(&f);
    let mut f = Function::new([]);
    f.instruction(&Instruction::ReturnCall(1));
    f.instruction(&Instruction::End);
    code.function(&f);
    module.section(&code);
    let mut data = DataSection::new();
    data.active(0, &ConstExpr::i32_const(8), [1u8, 2, 3]);
    module.section(&data);
    module.section(&CustomSection { name: "note".into(), data: (&[1u8, 2][..]).into() });
    module.finish()
}

fn text(wasm: &[u8]) -> Vec<String> {
    let printed = wasmprinter::print_bytes(wasm).unwrap();
    printed.lines().map(|line| line.trim().to_string()).collect()
}

fn valid(wasm: &[u8]) -> bool {
    wasmparser::Validator::new_with_features(wasmparser::WasmFeatures::all()).validate_all(wasm).is_ok()
}

const CENTRALIZED: &str = "(module
(type (;0;) (func (param i32) (result i32)))
(type (;1;) (func (result i32)))
(type (;2;) (func))
(import \"host\" \"should_migrate\" (func (;0;) (type 1)))
(import \"host\" \"restore_memory\" (func (;1;) (type 2)))
(memory (;0;) 1)
(memory (;1;) 2)
(export \"run\" (func 2))
(export \"checkpoint_memory\" (memory 0))
(func (;2;) (type 0) (param i32) (result i32)
(local i64 i32 i32)
block ;; label = @1
call 1
i32.const 0
i32.load
local.set 3
end
block ;; label = @1
block ;; label = @2
local.get 3
i32.const 1
i32.eq
br_if 0 (;@2;)
local.get 3
i32.const 0
i32.eq
br_if 0 (;@2;)
br 1 (;@1;)
end
i32.const 0
local.set 3
local.get 0
local.set 2
block ;; label = @2
i32.const 16
local.get 2
i32.store
i32.const 0
i32.const 2
i32.store
end
block ;; label = @2
call 0
i32.const 0
i32.eq
br_if 0 (;@2;)
unreachable
end
end
block ;; label = @1
block ;; label = @2
local.get 3
i32.const 0
i32.eq
br_if 0 (;@2;)
local.get 3
i32.const 2
i32.ne
br_if 0 (;@2;)
i32.const 16
i32.load
local.set 2
end
block ;; label = @2
local.get 3
i32.const 2
i32.eq
br_if 0 (;@2;)
local.get 3
i32.const 0
i32.eq
br_if 0 (;@2;)
br 1 (;@1;)
end
i32.const 0
local.set 3
block ;; label = @2
local.get 2
i32.const 1
i32.add
local.set 2
end
block ;; label = @2
i32.const 16
local.get 2
i32.store
i32.const 0
i32.const 4
i32.store
end
block ;; label = @2
call 0
i32.const 0
i32.eq
br_if 0 (;@2;)
unreachable
end
end
block ;; label = @1
local.get 3
i32.const 0
i32.eq
br_if 0 (;@1;)
local.get 3
i32.const 4
i32.ne
br_if 0 (;@1;)
i32.const 16
i32.load
local.set 2
end
local.get 2
)
)";

#[test]
fn centralized_checkpoints_in_a_small_module() {
    let wasm = small_module();
    let mut migrate = WasmMigrate::new();
    let result = migrate.compute(&wasm, false);
    let expected: Vec<&str> = CENTRALIZED.lines().collect();
    assert_eq!(text(&result), expected);
    assert!(valid(&result));
    assert_eq!(migrate.try_compute(&wasm, false), Ok(result));
}

#[test]
fn distributed_checkpoints_leave_out_the_second_test() {
    let wasm = small_module();
    let result = WasmMigrate::new().compute(&wasm, true);
    // Two restorations, each without the comparison with the region.
    let comparisons = ["local.get 3", "i32.const 2", "i32.ne", "br_if 0 (;@2;)"];
    let mut expected: Vec<&str> = CENTRALIZED.lines().collect();
    let at = expected.windows(4).position(|w| w == comparisons).unwrap();
    expected.drain(at..at + 4);
    let comparisons = ["local.get 3", "i32.const 4", "i32.ne", "br_if 0 (;@1;)"];
    let at = expected.windows(4).position(|w| w == comparisons).unwrap();
    expected.drain(at..at + 4);
    assert_eq!(text(&result), expected);
    assert!(valid(&result));
}

#[test]
fn everything_else_of_a_module_is_kept_or_shifted() {
    let wasm = rich_module();
    let mut migrate = WasmMigrate::new();
    migrate.func_index = 1;
    let result = migrate.compute(&wasm, false);
    assert!(valid(&result));
    let lines = text(&result);
    for line in [
        "(type (;0;) (func))",
        "(type (;1;) (func (param i32 i32) (result i32)))",
        "(type (;2;) (func (result i32)))",
        "(type (;3;) (func))",
        "(import \"env\" \"tick\" (func (;0;) (type 0)))",
        "(import \"host\" \"should_migrate\" (func (;1;) (type 2)))",
        "(import \"host\" \"restore_memory\" (func (;2;) (type 3)))",
        "(table (;0;) 4 funcref)",
        "(memory (;0;) 3 5)",
        "(memory (;1;) 1)",
        "(memory (;2;) 2)",
        "(global (;0;) (mut i32) i32.const 7)",
        "(global (;1;) i64 i64.const 9)",
        "(export \"run\" (func 4))",
        "(export \"memory\" (memory 0))",
        "(export \"count\" (global 0))",
        "(export \"table\" (table 0))",
        "(export \"checkpoint_memory\" (memory 1))",
        "(elem (;0;) (i32.const 0) func 0 3 4 5)",
        "(elem (;1;) func 5)",
        "(elem (;2;) declare func 0)",
        "(elem (;3;) funcref (ref.func 4) (ref.null func))",
        "(func (;3;) (type 0)",
        "call 5",
        "return_call 3",
        "(local i32 i32 f64 i32)",
        "(data (;0;) (i32.const 8) \"\\01\\02\\03\")",
        "(tag (;0;) (type 0))",
        "(start 3)",
    ] {
        assert!(lines.contains(&line.to_string()), "{}", line);
    }
    assert!(!lines.iter().any(|line| line.contains("note")));
}

#[test]
fn the_checkpoint_uses_the_memory_behind_all_others() {
    let mut migrate = WasmMigrate::new();
    migrate.func_index = 1;
    let lines = text(&migrate.compute(&rich_module(), false));
    let save = [
        "block ;; label = @2",
        "i32.const 16",
        "local.get 3",
        "i32.store 1",
        "i32.const 8",
        "local.get 1",
        "i32.store 1",
        "i32.const 28",
        "global.get 0",
        "i32.store 1",
        "i32.const 0",
        "i32.const 4",
        "i32.store 1",
        "end",
    ];
    assert!(lines.windows(save.len()).any(|w| w == save));
}

#[test]
fn the_data_count_is_kept() {
    let mut migrate = WasmMigrate::new();
    migrate.func_index = 1;
    let result = migrate.compute(&rich_module(), true);
    let mut counts: Vec<u32> = Vec::new();
    for payload in wasmparser::Parser::new(0).parse_all(&result) {
        if let wasmparser::Payload::DataCountSection { count, .. } = payload.unwrap() {
            counts.push(count);
        }
    }
    assert_eq!(counts, vec![1]);
}

#[test]
fn the_result_is_a_module_with_all_its_functions() {
    let mut migrate = WasmMigrate::new();
    migrate.func_index = 2;
    let result = migrate.compute(&rich_module(), false);
    assert_eq!(&result[..8], b"\0asm\x01\0\0\0");
    let mut bodies: usize = 0;
    for payload in wasmparser::Parser::new(0).parse_all(&result) {
        if let wasmparser::Payload::CodeSectionEntry(_) = payload.unwrap() {
            bodies += 1;
        }
    }
    assert_eq!(bodies, 3);
}

/// A module that imports a function, a memory and two globals, and refers to functions in
/// all the ways there are.
fn importing_module() -> Vec<u8> {
    let mut module = Module::new();
    let mut types = TypeSection::new();
    types.ty().function([], []);
    module.section(&types);
    let mut imports = ImportSection::new();
    imports.import("env", "tick", EntityType::Function(0));
    let memory = MemoryType { minimum: 1, maximum: None, memory64: false, shared: false, page_size_log2: None };
    imports.import("env", "memory", EntityType::Memory(memory));
    let ty = GlobalType { val_type: ValType::I64, mutable: true, shared: false };
    imports.import("env", "wide", EntityType::Global(ty));
    let ty = GlobalType { val_type: ValType::I32, mutable: false, shared: false };
    imports.import("env", "fixed", EntityType::Global(ty));
    module.section(&imports);
    let mut functions = FunctionSection::new();
    functions.function(0);
    functions.function(0);
    module.section(&functions);
    let mut globals = GlobalSection::new();
    let ty = GlobalType { val_type: ValType::I32, mutable: true, shared: false };
    globals.global(ty, &ConstExpr::i32_const(5));
    module.section(&globals);
    let mut exports = ExportSection::new();
    exports.export("tick", ExportKind::Func, 0);
    exports.export("run", ExportKind::Func, 1);
    module.section(&exports);
    let mut elements = ElementSection::new();
    let refs = [ConstExpr::ref_func(0), ConstExpr::ref_func(1)];
    elements.declared(Elements::Expressions(RefType::FUNCREF, refs[..].into()));
    module.section(&elements);
    let mut code = CodeSection::new();
    let mut f = Function::new([]);
    f.instruction(&Instruction::RefFunc(1));
    f.instruction(&Instruction::Drop);
    f.instruction(&Instruction::Block(BlockType::Empty));
    f.instruction(&Instruction::GlobalGet(0));
    f.instruction(&Instruction::GlobalSet(0));
    f.instruction(&Instruction::GlobalGet(2));
    f.instruction(&Instruction::GlobalSet(2));
    f.instruction(&Instruction::End);
    f.instruction(&Instruction::Nop);
    f.instruction(&Instruction::End);
    code.function(&f);
    let mut f = Function::new([]);
    f.instruction(&Instruction::RefFunc(0));
    f.instruction(&Instruction::Drop);
    f.instruction(&Instruction::End);
    code.function(&f);
    module.section(&code);
    module.finish()
}

#[test]
fn imports_come_in_front_of_what_a_module_defines() {
    let wasm = importing_module();
    assert!(valid(&wasm));
    let result = WasmMigrate::new().compute(&wasm, true);
    assert!(valid(&result));
    let lines = text(&result);
    for line in [
        "(export \"tick\" (func 0))",
        "(export \"run\" (func 3))",
        "(export \"checkpoint_memory\" (memory 1))",
        "(elem (;0;) declare funcref (ref.func 0) (ref.func 3))",
        "ref.func 3",
        "ref.func 0",
    ] {
        assert!(lines.contains(&line.to_string()), "{}", line);
    }
    // The mutable globals, with the types that they have: the imported one of 64 bits lies
    // behind the number of the region, the one that the module defines behind both imports.
    for save in [
        ["i32.const 4", "global.get 0", "i64.store 1 align=4"],
        ["i32.const 16", "global.get 2", "i32.store 1"],
    ] {
        assert!(lines.windows(3).any(|w| w == save), "{:?}", save);
    }
}
