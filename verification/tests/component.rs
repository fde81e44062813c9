use wasm_encoder::{
    CodeSection, Component, ComponentExportKind, ComponentExportSection, CustomSection, Function, FunctionSection,
    Instruction, InstanceSection, MemorySection, MemoryType, Module, ModuleSection,
    NestedComponentSection, TypeSection,
};
use wasm_migrate::component::can_copy;
use wasm_migrate::payload::{parse_payloads, span, Payload, SectionKind};
use wasm_migrate::types::MAX_TYPED_SIZE;
use wasm_migrate::WasmMigrate;

fn module() -> Module {
    let mut module = Module::new();
    let mut types = TypeSection::new();
    types.ty().function([], []);
    module.section(&types);
    let mut functions = FunctionSection::new();
    functions.function(0);
    module.section(&functions);
    let mut memories = MemorySection::new();
    memories.memory(MemoryType { minimum: 1, maximum: None, memory64: false, shared: false, page_size_log2: None });
    module.section(&memories);
    let mut code = CodeSection::new();
    let mut f = Function::new([]);
    f.instruction(&Instruction::Nop);
    f.instruction(&Instruction::End);
    code.function(&f);
    module.section(&code);
    module
}

fn component() -> Vec<u8> {
    let mut component = Component::new();
    component.section(&ModuleSection(&module()));
    component.section(&ModuleSection(&module()));
    let mut instances = InstanceSection::new();
    let none: [(&str, wasm_encoder::ModuleArg); 0] = [];
    instances.instantiate(0, none);
    component.section(&instances);
    let mut exports = ComponentExportSection::new();
    exports.export("m", ComponentExportKind::Module, 1, None);
    component.section(&exports);
    component.section(&CustomSection { name: "note".into(), data: (&[7u8][..]).into() });
    component.finish()
}

fn sections(bytes: &[u8]) -> Vec<(SectionKind, Vec<u8>)> {
    let mut list: Vec<(SectionKind, Vec<u8>)> = Vec::new();
    for piece in parse_payloads(bytes).unwrap() {
        if let Payload::Section(kind, start, end) = piece {
            list.push((kind, span(bytes, start, end).unwrap().to_vec()));
        }
    }
    list
}

fn modules(bytes: &[u8]) -> Vec<String> {
    let mut list: Vec<String> = Vec::new();
    for (kind, contents) in sections(bytes) {
        if kind == SectionKind::CoreModule {
            list.push(wasmprinter::print_bytes(&contents).unwrap());
        }
    }
    list
}

#[test]
fn only_the_target_module_gets_checkpoints() {
    let mut migrate = WasmMigrate::new();
    migrate.core_module_index = 2;
    let result = migrate.compute(&component(), false);
    assert_eq!(&result[..8], b"\0asm\x0d\0\x01\0");
    let found = modules(&result);
    assert_eq!(found.len(), 2);
    assert!(!found[0].contains("should_migrate"));
    assert!(found[0].contains("(memory (;0;) 1)"));
    assert!(!found[0].contains("(memory (;1;)"));
    assert!(found[1].contains("(import \"host\" \"should_migrate\" (func (;0;) (type 1)))"));
    assert!(found[1].contains("(export \"checkpoint_memory\" (memory 1))"));
}

#[test]
fn modules_are_numbered_from_one() {
    let mut migrate = WasmMigrate::new();
    let found = modules(&migrate.compute(&component(), false));
    assert_eq!(found.iter().filter(|text| text.contains("host")).count(), 0);
    let mut migrate = WasmMigrate::new();
    migrate.core_module_index = 1;
    let found = modules(&migrate.compute(&component(), false));
    assert!(found[0].contains("host"));
    assert!(!found[1].contains("host"));
    migrate.component_index = 1;
    let found = modules(&migrate.compute(&component(), false));
    assert_eq!(found.iter().filter(|text| text.contains("host")).count(), 0);
}

#[test]
fn other_sections_are_copied() {
    let wasm = component();
    let result = WasmMigrate::new().compute(&wasm, true);
    let before = sections(&wasm);
    let after = sections(&result);
    for kind in [SectionKind::CoreInstance, SectionKind::ComponentExport, SectionKind::Custom] {
        let old: Vec<&Vec<u8>> = before.iter().filter(|s| s.0 == kind).map(|s| &s.1).collect();
        let new: Vec<&Vec<u8>> = after.iter().filter(|s| s.0 == kind).map(|s| &s.1).collect();
        assert_eq!(old.len(), 1);
        assert_eq!(old, new);
    }
}

#[test]
fn nested_components_stay_nested() {
    let mut inner = Component::new();
    inner.section(&CustomSection { name: "inner".into(), data: (&[1u8, 2][..]).into() });
    inner.section(&ModuleSection(&module()));
    let mut outer = Component::new();
    outer.section(&CustomSection { name: "first".into(), data: (&[3u8][..]).into() });
    outer.section(&NestedComponentSection(&inner));
    outer.section(&CustomSection { name: "last".into(), data: (&[4u8][..]).into() });
    let wasm = outer.finish();
    let result = WasmMigrate::new().compute(&wasm, false);
    let kinds = |bytes: &[u8]| -> Vec<(SectionKind, usize)> {
        sections(bytes).iter().filter(|s| s.0 == SectionKind::Custom || s.0 == SectionKind::CoreModule)
            .map(|s| (s.0, if s.0 == SectionKind::Custom { s.1.len() } else { 0 })).collect()
    };
    assert_eq!(kinds(&result), kinds(&wasm));
    assert_eq!(kinds(&result).len(), 4);
    let top = sections(&result);
    assert_eq!(top[0].0, SectionKind::Custom);
    assert_eq!(top[1].0, SectionKind::Component);
    let nested = modules(&top[1].1);
    assert_eq!(nested.len(), 1);
    assert!(!nested[0].contains("host"));
}

#[test]
fn a_module_of_a_nested_component_can_be_the_target() {
    let mut inner = Component::new();
    inner.section(&ModuleSection(&module()));
    let mut outer = Component::new();
    outer.section(&ModuleSection(&module()));
    outer.section(&NestedComponentSection(&inner));
    let mut migrate = WasmMigrate::new();
    migrate.component_index = 1;
    migrate.core_module_index = 1;
    let result = migrate.compute(&outer.finish(), false);
    let found = modules(&result);
    assert_eq!(found.len(), 2);
    assert!(!found[0].contains("host"));
    assert!(found[1].contains("(import \"host\" \"should_migrate\" (func (;0;) (type 1)))"));
}

#[test]
fn the_custom_sections_of_a_module_stay_with_it() {
    let mut with_note = module();
    with_note.section(&CustomSection { name: "note".into(), data: (&[9u8][..]).into() });
    let mut component = Component::new();
    component.section(&ModuleSection(&with_note));
    let wasm = component.finish();
    let list = sections(&WasmMigrate::new().compute(&wasm, false));
    assert_eq!(list[0].0, SectionKind::CoreModule);
    let note = (SectionKind::Custom, vec![4, b'n', b'o', b't', b'e', 9]);
    assert_eq!(sections(&list[0].1).last(), Some(&note));
    assert_eq!(list.iter().filter(|section| **section == note).count(), 1);
    // Functions have other indices in a module with checkpoints, so it has no such section.
    let mut migrate = WasmMigrate::new();
    migrate.core_module_index = 1;
    let list = sections(&migrate.compute(&wasm, false));
    assert_eq!(list[0].0, SectionKind::CoreModule);
    assert!(list.iter().all(|section| section.0 != SectionKind::Custom));
}

#[test]
fn components_are_recorded_in_the_order_of_the_binary() {
    let mut leaf = Component::new();
    leaf.section(&ModuleSection(&module()));
    let mut first = Component::new();
    first.section(&NestedComponentSection(&leaf));
    first.section(&ModuleSection(&module()));
    first.section(&ModuleSection(&module()));
    let mut outer = Component::new();
    outer.section(&NestedComponentSection(&first));
    outer.section(&ModuleSection(&module()));
    outer.section(&NestedComponentSection(&leaf));
    let mut migrate = WasmMigrate::new();
    migrate.component_index = 1;
    migrate.core_module_index = 2;
    migrate.compute(&outer.finish(), false);
    let parents: Vec<i32> = migrate.components.iter().map(|entry| entry.1).collect();
    assert_eq!(parents, vec![-1, 0, 1, 0]);
    let numbers: Vec<i32> = migrate.components.iter().map(|entry| entry.0.component_index).collect();
    assert_eq!(numbers, vec![0, 1, 2, 3]);
    let counts: Vec<usize> = migrate.components.iter().map(|entry| entry.0.core_modules.len()).collect();
    assert_eq!(counts, vec![1, 2, 1, 1]);
    assert!(migrate.components.iter().all(|entry| !entry.0.is_it_a_module));
    // Only the second module of the first nested component has checkpoints.
    for (i, entry) in migrate.components.iter().enumerate() {
        for (j, found) in entry.0.core_modules.iter().enumerate() {
            assert_eq!(found.data.function_to_type, vec![0]);
            assert_eq!(found.checkpoint_list.is_empty(), (i, j) != (1, 1));
            assert_eq!(found.blocks.is_empty(), (i, j) != (1, 1));
        }
    }
    migrate.core_module_index = 1;
    let info = migrate.print_module_info(0, "target".to_string());
    assert_eq!(info.checkpoints, vec![1]);
}

#[test]
fn what_is_recorded_replaces_what_was_recorded_before() {
    let mut migrate = WasmMigrate::new();
    migrate.compute(&module().finish(), false);
    assert_eq!(migrate.components.len(), 1);
    assert!(migrate.components[0].0.is_it_a_module);
    assert_eq!(migrate.components[0].1, -1);
    migrate.compute(&component(), false);
    assert_eq!(migrate.components.len(), 1);
    assert!(!migrate.components[0].0.is_it_a_module);
    assert_eq!(migrate.components[0].0.core_modules.len(), 2);
}

#[test]
fn long_sections_with_value_types_are_not_copied() {
    let limit = MAX_TYPED_SIZE;
    for kind in [
        SectionKind::ComponentType,
        SectionKind::ComponentCanonical,
        SectionKind::ComponentImport,
        SectionKind::ComponentExport,
    ] {
        assert!(can_copy(Payload::Section(kind, 8, 8 + limit)));
        assert!(!can_copy(Payload::Section(kind, 8, 9 + limit)));
    }
    assert!(can_copy(Payload::Section(SectionKind::ComponentAlias, 8, 9 + limit)));
    // Five bytes for each, and five for the number of entries, still have a length of 32 bits.
    assert!(5 * (limit as u64 + 5) <= 0xffff_ffff);
    assert!(5 * (limit as u64 + 6) > 0xffff_ffff);
}

#[test]
fn an_index_of_a_value_type_gets_longer() {
    let mut wasm = Component::new().finish();
    // A section with one type, a tuple of two, each of them the one byte index 0x40.
    wasm.extend_from_slice(&[7, 5, 1, 0x6f, 2, 0x40, 0x40]);
    let list = sections(&WasmMigrate::new().compute(&wasm, false));
    assert_eq!(list[0].0, SectionKind::ComponentType);
    assert_eq!(list[0].1.len(), 3 + 2 * 5);
}
