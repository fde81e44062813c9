use std::collections::HashMap;
use wasm_migrate::module::ModuleData;
use wasm_migrate::payload::{classify, Payload, SectionKind};
use wasm_migrate::plan::{plan_instructions, Signatures};
use wasm_migrate::section::Section;
use wasm_migrate::tree::Inst;
use wasm_migrate::types::{Export, ExternKind, Import, MigrateError, Operator, RawPayload, ValType};

fn section(count: u32) -> Section {
    Section { count, entries: vec![7; count as usize] }
}

#[test]
fn sections_are_told_apart_by_what_they_are_in() {
    let raw = vec![
        RawPayload::Version(true),
        RawPayload::Section(1, 10, 40),
        RawPayload::Version(false),
        RawPayload::Section(1, 20, 22),
        RawPayload::Section(10, 24, 30),
        RawPayload::Body(26, 30),
        RawPayload::End,
        RawPayload::Section(4, 42, 60),
        RawPayload::Version(true),
        RawPayload::Section(10, 52, 54),
        RawPayload::End,
        RawPayload::Section(0, 62, 64),
        RawPayload::Section(11, 66, 68),
        RawPayload::End,
        RawPayload::End,
    ];
    assert_eq!(
        classify(&raw),
        vec![
            Payload::Mark,
            Payload::Section(SectionKind::CoreModule, 10, 40),
            Payload::Mark,
            Payload::Section(SectionKind::Type, 20, 22),
            Payload::Section(SectionKind::Code, 24, 30),
            Payload::Body(26, 30),
            Payload::Mark,
            Payload::Section(SectionKind::Component, 42, 60),
            Payload::Mark,
            Payload::Section(SectionKind::ComponentImport, 52, 54),
            Payload::Mark,
            Payload::Section(SectionKind::Custom, 62, 64),
            Payload::Section(SectionKind::ComponentExport, 66, 68),
            Payload::Mark,
            Payload::Mark,
        ]
    );
}

#[test]
fn sections_are_added_to_a_module() {
    let mut module = ModuleData::new();
    module.add_types(section(2), vec![vec![ValType::I32], vec![]], vec![vec![], vec![ValType::F32]]);
    let imports = vec![Import::Function(1), Import::Other, Import::Function(0)];
    assert_eq!(module.add_imports(section(3), &imports), Ok(()));
    module.add_functions(section(1), vec![1]);
    assert_eq!(module.add_memories(section(2)), Ok(()));
    assert_eq!(module.add_globals(&section(1), vec![(ValType::F64, true)]), Ok(()));
    module.add_exports(
        section(1),
        vec![Export { name: "run".to_string(), kind: ExternKind::Func, index: 2 }],
    );
    module.add_elements(section(0), section(0));
    assert_eq!(module.type_params, vec![vec![ValType::I32], vec![]]);
    assert_eq!(module.type_results, vec![vec![], vec![ValType::F32]]);
    assert_eq!(module.num_of_import_functions, 2);
    assert_eq!(module.function_to_type, vec![1, 0, 1]);
    assert_eq!(module.checkpoint_memory_index, 2);
    assert_eq!(module.globals, vec![(ValType::F64, true)]);
    assert_eq!(module.global_section.count, 1);
    assert_eq!(module.exports.len(), 1);
    assert_eq!(module.element_section.as_ref().unwrap().count, 0);
    assert!(module.element_section_with_cr.is_none());

    // Another section replaces the one before it, unless it is empty.
    assert_eq!(module.add_memories(section(0)), Ok(()));
    assert_eq!(module.memory_section.as_ref().unwrap().count, 2);
    assert_eq!(module.add_memories(section(1)), Ok(()));
    assert_eq!(module.memory_section.as_ref().unwrap().count, 1);
    assert_eq!(module.checkpoint_memory_index, 3);
    // Globals are collected.
    assert_eq!(module.add_globals(&section(2), vec![(ValType::I32, false), (ValType::I64, true)]), Ok(()));
    assert_eq!(module.global_section.count, 3);
    assert_eq!(module.globals.len(), 3);
    // Imported memories and globals come in front.
    let imports = vec![Import::Memory, Import::Global(ValType::V128, false)];
    assert_eq!(module.add_imports(section(2), &imports), Ok(()));
    assert_eq!(module.checkpoint_memory_index, 4);
    assert_eq!(module.num_of_import_memories, 1);
    assert_eq!(module.all_globals()[0], (ValType::V128, false));
    assert_eq!(module.all_globals().len(), 4);
}

#[test]
fn sections_that_do_not_fit_are_refused() {
    let mut module = ModuleData::new();
    module.checkpoint_memory_index = u32::MAX;
    assert_eq!(module.add_memories(section(1)), Err(MigrateError::IndexOverflow));
    module.num_of_import_functions = u32::MAX;
    assert_eq!(module.add_imports(section(1), &vec![Import::Other]), Ok(()));
    assert_eq!(module.add_imports(section(1), &vec![Import::Function(0)]), Err(MigrateError::IndexOverflow));
    assert_eq!(module.add_imports(section(1), &vec![Import::Memory]), Err(MigrateError::IndexOverflow));
    assert_eq!(
        module.add_globals(&section(1), vec![(ValType::Ref, false)]),
        Err(MigrateError::ReferenceType)
    );
    module.global_section.count = u32::MAX;
    assert_eq!(
        module.add_globals(&section(1), vec![(ValType::I32, false)]),
        Err(MigrateError::TooLarge)
    );
}

#[test]
fn a_plan_is_made_from_instructions() {
    let insts = vec![
        Inst { pos: 1, op: Operator::LocalSet(0) },
        Inst { pos: 3, op: Operator::Loop },
        Inst { pos: 5, op: Operator::LocalGet(0) },
        Inst { pos: 7, op: Operator::End },
        Inst { pos: 8, op: Operator::End },
    ];
    let function_to_type = vec![0, 1];
    let params = vec![vec![], vec![ValType::V128, ValType::I32]];
    let signatures =
        Signatures { function_to_type: &function_to_type, params: &params, num_of_import_functions: 1 };
    let globals = vec![(ValType::I32, true)];
    let plan = plan_instructions(insts, &vec![], signatures, 0, &globals, 4).ok().unwrap();
    assert_eq!(plan.checkpoint_list, vec![1, 2]);
    assert_eq!(plan.modified_vars_set, vec![vec![0], vec![]]);
    assert_eq!(plan.set_global_vars, vec![vec![0], vec![0]]);
    assert_eq!(plan.live_in_set_vars, vec![vec![], vec![0]]);
    assert_eq!(plan.live_out_set_vars, vec![vec![0], vec![]]);
    assert_eq!(plan.resuming_block_var, 2);
    assert_eq!(plan.checkpoint_var_memory_mapping, HashMap::from([(0, 4), (1, 20)]));
    assert_eq!(plan.checkpoint_global_memory_mapping, HashMap::from([(0, 24)]));
    assert_eq!(plan.checkpoint_memory_index, 4);
}
