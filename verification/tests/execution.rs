use wasm_encoder::{
    BlockType, CodeSection, ConstExpr, ExportKind, ExportSection, Function, FunctionSection, GlobalSection,
    GlobalType, Instruction, Module as Encoder, TypeSection, ValType,
};
use wasm_migrate::host::{restore_memory, should_migrate};
use wasm_migrate::WasmMigrate;
use wasmtime::{Caller, Config, Engine, Extern, Instance, Linker, Module, Store};

/// Adds one twice, in two regions, and returns the sum.
fn adder() -> Vec<u8> {
    let mut module = Encoder::new();
    let mut types = TypeSection::new();
    types.ty().function([ValType::I32], [ValType::I32]);
    module.section(&types);
    let mut functions = FunctionSection::new();
    functions.function(0);
    module.section(&functions);
    let mut exports = ExportSection::new();
    exports.export("run", ExportKind::Func, 0);
    module.section(&exports);
    let mut code = CodeSection::new();
    let mut f = Function::new([(1, ValType::I64), (1, ValType::I32)]);
    f.instruction(&Instruction::LocalGet(0));
    f.instruction(&Instruction::I32Const(1));
    f.instruction(&Instruction::I32Add);
    f.instruction(&Instruction::LocalSet(2));
    f.instruction(&Instruction::Block(BlockType::Empty));
    f.instruction(&Instruction::LocalGet(2));
    f.instruction(&Instruction::I32Const(1));
    f.instruction(&Instruction::I32Add);
    f.instruction(&Instruction::LocalSet(2));
    f.instruction(&Instruction::End);
    f.instruction(&Instruction::LocalGet(2));
    f.instruction(&Instruction::End);
    code.function(&f);
    module.section(&code);
    module.finish()
}

struct State {
    checkpoint_num: i32,
    limit: i32,
    saved: Option<Vec<u8>>,
}

fn start(wasm: &[u8], limit: i32, saved: Option<Vec<u8>>) -> (Store<State>, Instance) {
    let mut config = Config::new();
    config.wasm_multi_memory(true);
    config.memory_reservation(1 << 20);
    config.memory_guard_size(1 << 16);
    config.memory_reservation_for_growth(1 << 16);
    let engine = Engine::new(&config).unwrap();
    let module = Module::new(&engine, wasm).unwrap();
    let mut linker: Linker<State> = Linker::new(&engine);
    linker
        .func_wrap("host", "should_migrate", |mut caller: Caller<'_, State>| -> i32 {
            let state = caller.data_mut();
            should_migrate(&mut state.checkpoint_num, state.limit)
        })
        .unwrap();
    linker
        .func_wrap("host", "restore_memory", |mut caller: Caller<'_, State>| {
            if let Some(saved) = caller.data().saved.clone() {
                if let Some(Extern::Memory(memory)) = caller.get_export("checkpoint_memory") {
                    restore_memory(memory.data_mut(&mut caller), &saved, true);
                }
            }
        })
        .unwrap();
    let mut store = Store::new(&engine, State { checkpoint_num: 0, limit, saved });
    let instance = linker.instantiate(&mut store, &module).unwrap();
    (store, instance)
}

fn run(store: &mut Store<State>, instance: &Instance, argument: i32) -> Option<i32> {
    let function = instance.get_typed_func::<i32, i32>(&mut *store, "run").unwrap();
    function.call(&mut *store, argument).ok()
}

fn checkpoint_memory(store: &mut Store<State>, instance: &Instance) -> Vec<u8> {
    instance.get_memory(&mut *store, "checkpoint_memory").unwrap().data(&*store).to_vec()
}

#[test]
fn a_function_that_does_not_migrate_computes_the_same() {
    for distributed in [false, true] {
        let wasm = WasmMigrate::new().try_compute(&adder(), distributed).unwrap();
        let (mut store, instance) = start(&wasm, 1000, None);
        assert_eq!(run(&mut store, &instance, 40), Some(42));
        assert_eq!(store.data().checkpoint_num, 2);
        let memory = checkpoint_memory(&mut store, &instance);
        // The region to start from, and the variable behind a parameter and an integer of 64 bits.
        assert_eq!(&memory[..4], &[4, 0, 0, 0]);
        assert_eq!(&memory[16..20], &[42, 0, 0, 0]);
    }
}

#[test]
fn a_migration_stops_behind_the_checkpoint() {
    let wasm = WasmMigrate::new().try_compute(&adder(), false).unwrap();
    let (mut store, instance) = start(&wasm, -1, None);
    assert_eq!(run(&mut store, &instance, 40), None);
    let memory = checkpoint_memory(&mut store, &instance);
    assert_eq!(&memory[..4], &[2, 0, 0, 0]);
    assert_eq!(&memory[16..20], &[41, 0, 0, 0]);
}

/// The checkpoint memory of a run that stopped behind the second region.
fn stopped_behind_the_second_region(wasm: &[u8]) -> Vec<u8> {
    let (mut store, instance) = start(wasm, 0, None);
    assert_eq!(run(&mut store, &instance, 40), None);
    let saved = checkpoint_memory(&mut store, &instance);
    assert_eq!(&saved[..4], &[4, 0, 0, 0]);
    assert_eq!(&saved[16..20], &[42, 0, 0, 0]);
    saved
}

#[test]
fn a_resumed_function_computes_the_same() {
    for distributed in [false, true] {
        let wasm = WasmMigrate::new().try_compute(&adder(), distributed).unwrap();
        // Stopped behind the first region: the second one is left, with its checkpoint.
        let (mut store, instance) = start(&wasm, -1, None);
        assert_eq!(run(&mut store, &instance, 40), None);
        let saved = checkpoint_memory(&mut store, &instance);
        let (mut store, instance) = start(&wasm, 1000, Some(saved));
        assert_eq!(run(&mut store, &instance, 40), Some(42));
        assert_eq!(store.data().checkpoint_num, 1);
        // Stopped behind the second region: only the last one is left.
        let saved = stopped_behind_the_second_region(&wasm);
        let (mut store, instance) = start(&wasm, 1000, Some(saved));
        assert_eq!(run(&mut store, &instance, 40), Some(42));
        assert_eq!(store.data().checkpoint_num, 0);
    }
}

#[test]
fn a_resumed_function_can_migrate_again() {
    for distributed in [false, true] {
        let wasm = WasmMigrate::new().try_compute(&adder(), distributed).unwrap();
        let (mut store, instance) = start(&wasm, -1, None);
        assert_eq!(run(&mut store, &instance, 40), None);
        let saved = checkpoint_memory(&mut store, &instance);
        let (mut store, instance) = start(&wasm, -1, Some(saved));
        assert_eq!(run(&mut store, &instance, 40), None);
        let saved = checkpoint_memory(&mut store, &instance);
        assert_eq!(&saved[..4], &[4, 0, 0, 0]);
        assert_eq!(&saved[16..20], &[42, 0, 0, 0]);
        let (mut store, instance) = start(&wasm, -1, Some(saved));
        assert_eq!(run(&mut store, &instance, 40), Some(42));
    }
}

/// Doubles a global of 64 bits in one region and tells two arguments apart in the next,
/// then returns the upper half of the global and what was told, added.
fn mixer() -> Vec<u8> {
    let mut module = Encoder::new();
    let mut types = TypeSection::new();
    types.ty().function([ValType::I32], [ValType::I32]);
    module.section(&types);
    let mut functions = FunctionSection::new();
    functions.function(0);
    module.section(&functions);
    let mut globals = GlobalSection::new();
    let ty = GlobalType { val_type: ValType::I64, mutable: true, shared: false };
    globals.global(ty, &ConstExpr::i64_const(0x1_0000_0003));
    module.section(&globals);
    let mut exports = ExportSection::new();
    exports.export("run", ExportKind::Func, 0);
    module.section(&exports);
    let mut code = CodeSection::new();
    let mut f = Function::new([(1, ValType::F64), (1, ValType::I32)]);
    f.instruction(&Instruction::GlobalGet(0));
    f.instruction(&Instruction::GlobalGet(0));
    f.instruction(&Instruction::I64Add);
    f.instruction(&Instruction::GlobalSet(0));
    f.instruction(&Instruction::F64Const(32.0.into()));
    f.instruction(&Instruction::LocalSet(1));
    f.instruction(&Instruction::Block(BlockType::Empty));
    f.instruction(&Instruction::LocalGet(0));
    f.instruction(&Instruction::If(BlockType::Empty));
    f.instruction(&Instruction::I32Const(5));
    f.instruction(&Instruction::LocalSet(2));
    f.instruction(&Instruction::Else);
    f.instruction(&Instruction::I32Const(6));
    f.instruction(&Instruction::LocalSet(2));
    f.instruction(&Instruction::End);
    f.instruction(&Instruction::End);
    f.instruction(&Instruction::GlobalGet(0));
    f.instruction(&Instruction::LocalGet(1));
    f.instruction(&Instruction::I64TruncF64U);
    f.instruction(&Instruction::I64ShrU);
    f.instruction(&Instruction::I32WrapI64);
    f.instruction(&Instruction::LocalGet(2));
    f.instruction(&Instruction::I32Add);
    f.instruction(&Instruction::End);
    code.function(&f);
    module.section(&code);
    module.finish()
}

#[test]
fn variables_of_all_sizes_come_back() {
    for distributed in [false, true] {
        for (argument, expected) in [(1, 7), (0, 8)] {
            let wasm = WasmMigrate::new().try_compute(&mixer(), distributed).unwrap();
            let (mut store, instance) = start(&wasm, 1000, None);
            assert_eq!(run(&mut store, &instance, argument), Some(expected));
            let (mut store, instance) = start(&wasm, -1, None);
            assert_eq!(run(&mut store, &instance, argument), None);
            let saved = checkpoint_memory(&mut store, &instance);
            let (mut store, instance) = start(&wasm, 1000, Some(saved));
            assert_eq!(run(&mut store, &instance, argument), Some(expected));
        }
    }
}

#[test]
fn a_checkpointed_variable_is_restored() {
    let wasm = WasmMigrate::new().try_compute(&adder(), true).unwrap();
    let mut saved = stopped_behind_the_second_region(&wasm);
    saved[0] = 9;
    // No region has number nine: only the last region runs, on the restored variable.
    let (mut store, instance) = start(&wasm, 1000, Some(saved));
    assert_eq!(run(&mut store, &instance, 7), Some(42));
    assert_eq!(store.data().checkpoint_num, 0);
}

#[test]
fn regions_that_are_not_resumed_from_are_jumped_over() {
    let wasm = WasmMigrate::new().try_compute(&adder(), false).unwrap();
    let mut saved = vec![0u8; 16];
    saved[0] = 9;
    // No region has number nine: only the last region runs, on a variable that is zero.
    let (mut store, instance) = start(&wasm, 1000, Some(saved));
    assert_eq!(run(&mut store, &instance, 40), Some(0));
    assert_eq!(store.data().checkpoint_num, 0);
}
