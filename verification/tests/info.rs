use std::collections::HashSet;
use wasm_encoder::{
    BlockType, CodeSection, Function, FunctionSection, Instruction, Module, TypeSection, ValType as Ty,
};
use wasm_migrate::body::LocalGroup;
use wasm_migrate::module::ModuleData;
use wasm_migrate::record::{ComponentData, CoreModule};
use wasm_migrate::tree::{NodeType, TreeNode};
use wasm_migrate::types::ValType;
use wasm_migrate::WasmMigrate;

#[test]
fn starts_with_nothing_selected() {
    let migrate = WasmMigrate::new();
    assert_eq!(migrate.component_index, 0);
    assert_eq!(migrate.core_module_index, 0);
    assert_eq!(migrate.func_index, 0);
    assert!(migrate.components.is_empty());
    let data = ComponentData::new();
    assert!(!data.is_it_a_module);
    assert_eq!(data.component_index, 0);
    assert!(data.core_modules.is_empty());
}

#[test]
fn reports_blocks_sizes_and_checkpoints() {
    let mut data = ModuleData::new();
    data.function_to_type = vec![0, 1];
    data.type_params = vec![vec![], vec![ValType::I64, ValType::F32]];
    data.num_of_import_functions = 1;
    let groups = vec![LocalGroup { count: 2, ty: vec![0x7b] }, LocalGroup { count: 1, ty: vec![0x7f] }];
    let mut component = ComponentData::new();
    component.core_modules.push(CoreModule {
        data,
        locals: vec![groups],
        blocks: vec![TreeNode::new(1, NodeType::CODE, 3), TreeNode::new(2, NodeType::BLOCK, 8)],
        checkpoint_list: vec![1, 2],
        modified_vars_set: vec![vec![4], vec![]],
    });
    let mut migrate = WasmMigrate::new();
    migrate.components.push((component, -1));
    let info = migrate.print_module_info(0, "kernel".to_string());
    assert_eq!(info.name, "kernel");
    assert_eq!(info.blocks, vec![1, 2]);
    assert_eq!(info.params_and_locals, vec![8, 4, 16, 16, 4]);
    assert_eq!(info.checkpoints, vec![1, 2]);
    assert_eq!(info.live_out_vars, vec![HashSet::from([4]), HashSet::new()]);
}

#[test]
fn a_module_is_reported_after_the_insertion() {
    let mut module = Module::new();
    let mut types = TypeSection::new();
    types.ty().function([Ty::I32], []);
    module.section(&types);
    let mut functions = FunctionSection::new();
    functions.function(0);
    module.section(&functions);
    let mut code = CodeSection::new();
    let mut f = Function::new([(1, Ty::I64)]);
    f.instruction(&Instruction::LocalGet(0));
    f.instruction(&Instruction::LocalSet(0));
    f.instruction(&Instruction::Block(BlockType::Empty));
    f.instruction(&Instruction::LocalGet(1));
    f.instruction(&Instruction::LocalSet(1));
    f.instruction(&Instruction::End);
    f.instruction(&Instruction::LocalGet(0));
    f.instruction(&Instruction::Drop);
    f.instruction(&Instruction::End);
    code.function(&f);
    module.section(&code);
    let wasm = module.finish();
    let mut migrate = WasmMigrate::new();
    assert!(!migrate.compute(&wasm, false).is_empty());
    assert_eq!(migrate.components.len(), 1);
    assert!(migrate.components[0].0.is_it_a_module);
    assert_eq!(migrate.components[0].0.core_modules.len(), 1);
    let info = migrate.print_module_info(0, "small".to_string());
    assert_eq!(info.name, "small");
    assert_eq!(info.blocks, vec![1, 2, 3, 4]);
    assert_eq!(info.checkpoints, vec![1, 2, 4]);
    assert_eq!(info.params_and_locals, vec![4, 8]);
    assert_eq!(info.live_out_vars, vec![HashSet::from([0]), HashSet::from([1]), HashSet::new()]);
    // A refused binary leaves what was found out before.
    assert!(migrate.try_compute(b"nonsense", false).is_err());
    assert_eq!(migrate.components.len(), 1);
}
