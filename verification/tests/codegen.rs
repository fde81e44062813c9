use std::collections::HashMap;
use wasm_encoder::{BlockType, Function, Instruction as Inst, ValType as Ty};
use wasm_migrate::body::{read_instructions, read_locals};
use wasm_migrate::codegen::{
    checkpoint_live_out_vars, clear_resuming_block_var, copy_between, encode_instruction, encode_locals, encode_target,
    initialize_resuming_block_var, jump_to_end, resume_modified_vars, shift_index,
};
use wasm_migrate::instruction::{Instruction, MemArg, NumType};
use wasm_migrate::plan::{make_plan, Plan, Signatures};
use wasm_migrate::types::{MigrateError, Operator, ValType};

fn body() -> Vec<u8> {
    let mut f = Function::new([(1, Ty::I64), (2, Ty::F32)]);
    f.instruction(&Inst::LocalGet(1));
    f.instruction(&Inst::LocalSet(1));
    f.instruction(&Inst::Call(2));
    f.instruction(&Inst::Loop(BlockType::Empty));
    f.instruction(&Inst::LocalGet(1));
    f.instruction(&Inst::GlobalSet(0));
    f.instruction(&Inst::LocalGet(2));
    f.instruction(&Inst::LocalSet(3));
    f.instruction(&Inst::End);
    f.instruction(&Inst::LocalGet(3));
    f.instruction(&Inst::LocalGet(1));
    f.instruction(&Inst::GlobalGet(0));
    f.instruction(&Inst::End);
    f.into_raw_body()
}

fn plan_of(bytes: &[u8], params: Vec<ValType>, globals: Vec<(ValType, bool)>) -> Result<Plan, MigrateError> {
    let (groups, _) = read_locals(bytes).ok().unwrap();
    let function_to_type: Vec<u32> = vec![0, 0, 1];
    let all_params = vec![vec![], params];
    let signatures = Signatures { function_to_type: &function_to_type, params: &all_params, num_of_import_functions: 1 };
    make_plan(bytes, &groups, signatures, 1, &globals, 4)
}

fn plan() -> Plan {
    plan_of(&body(), vec![ValType::I32], vec![(ValType::I64, true)]).ok().unwrap()
}

const ARG: MemArg = MemArg { offset: 0, align: 2, memory_index: 4 };

#[test]
fn a_plan_knows_regions_variables_and_addresses() {
    let plan = plan();
    assert_eq!(plan.checkpoint_list, vec![1, 2, 4]);
    assert_eq!(plan.params_and_locals, vec![ValType::I32, ValType::I64, ValType::F32, ValType::F32]);
    assert_eq!(plan.resuming_block_var, 4);
    assert_eq!(plan.checkpoint_var_memory_mapping, HashMap::from([(0, 4), (1, 8), (2, 16), (3, 20)]));
    assert_eq!(plan.checkpoint_global_memory_mapping, HashMap::from([(0, 24)]));
    assert_eq!(plan.modified_vars_set, vec![vec![1], vec![3], vec![]]);
    assert_eq!(plan.live_out_set_vars, vec![vec![1], vec![1, 3], vec![]]);
    assert_eq!(plan.live_out_global_vars, vec![vec![0], vec![0], vec![]]);
}

#[test]
fn the_function_starts_with_the_restoration_of_memories() {
    assert_eq!(
        initialize_resuming_block_var(&plan(), 9),
        vec![
            Instruction::Block,
            Instruction::Call(9),
            Instruction::I32Const(0),
            Instruction::Load(NumType::I32, ARG),
            Instruction::LocalSet(4),
            Instruction::End,
        ]
    );
}

#[test]
fn restoration_goes_through_the_list_backwards() {
    let code = resume_modified_vars(&plan(), 1, false).unwrap();
    assert_eq!(
        code,
        vec![
            Instruction::Block,
            Instruction::LocalGet(4),
            Instruction::I32Const(0),
            Instruction::I32Eq,
            Instruction::BrIf(0),
            Instruction::LocalGet(4),
            Instruction::I32Const(4),
            Instruction::I32Ne,
            Instruction::BrIf(0),
            Instruction::I32Const(20),
            Instruction::Load(NumType::F32, ARG),
            Instruction::LocalSet(3),
            Instruction::I32Const(8),
            Instruction::Load(NumType::I64, ARG),
            Instruction::LocalSet(1),
            Instruction::I32Const(24),
            Instruction::Load(NumType::I64, ARG),
            Instruction::GlobalSet(0),
            Instruction::End,
        ]
    );
}

#[test]
fn distributed_restoration_tests_only_for_resuming() {
    let code = resume_modified_vars(&plan(), 1, true).unwrap();
    assert_eq!(
        code,
        vec![
            Instruction::Block,
            Instruction::LocalGet(4),
            Instruction::I32Const(0),
            Instruction::I32Eq,
            Instruction::BrIf(0),
            Instruction::I32Const(20),
            Instruction::Load(NumType::F32, ARG),
            Instruction::LocalSet(3),
            Instruction::I32Const(24),
            Instruction::Load(NumType::I64, ARG),
            Instruction::GlobalSet(0),
            Instruction::End,
        ]
    );
}

#[test]
fn a_checkpoint_stores_variables_and_the_region() {
    let code = checkpoint_live_out_vars(&plan(), 1, false).unwrap();
    assert_eq!(
        code,
        vec![
            Instruction::Block,
            Instruction::I32Const(8),
            Instruction::LocalGet(1),
            Instruction::Store(NumType::I64, ARG),
            Instruction::I32Const(20),
            Instruction::LocalGet(3),
            Instruction::Store(NumType::F32, ARG),
            Instruction::I32Const(24),
            Instruction::GlobalGet(0),
            Instruction::Store(NumType::I64, ARG),
            Instruction::I32Const(0),
            Instruction::I32Const(4),
            Instruction::Store(NumType::I32, ARG),
            Instruction::End,
        ]
    );
}

#[test]
fn the_jump_compares_with_the_region() {
    assert_eq!(
        jump_to_end(&plan(), 2),
        vec![
            Instruction::Block,
            Instruction::LocalGet(4),
            Instruction::I32Const(2),
            Instruction::I32Eq,
            Instruction::BrIf(0),
            Instruction::LocalGet(4),
            Instruction::I32Const(0),
            Instruction::I32Eq,
            Instruction::BrIf(0),
            Instruction::Br(1),
            Instruction::End,
        ]
    );
}

#[test]
fn the_target_holds_its_instructions_in_order() {
    let plan = plan();
    let code = encode_target(&plan, false).unwrap();
    let kept: Vec<Instruction> = code
        .iter()
        .copied()
        .filter(|i| matches!(i, Instruction::Original(_) | Instruction::Call(4)))
        .collect();
    let expected: Vec<Instruction> = plan.insts[..plan.insts.len() - 1]
        .iter()
        .map(|i| if i.op == Operator::Call(2) { Instruction::Call(4) } else { Instruction::Original(i.pos) })
        .collect();
    assert_eq!(kept, expected);
    let opened = code.iter().filter(|i| **i == Instruction::Block).count();
    let ended = code.iter().filter(|i| **i == Instruction::End).count();
    assert_eq!(opened + 1, ended);
}

#[test]
fn called_functions_are_shifted_behind_the_imports() {
    assert_eq!(shift_index(2, 3), Ok(2));
    assert_eq!(shift_index(3, 3), Ok(5));
    assert_eq!(shift_index(u32::MAX - 2, 3), Ok(u32::MAX));
    assert_eq!(shift_index(u32::MAX - 1, 3), Err(MigrateError::IndexOverflow));
}

#[test]
fn copies_take_both_ends() {
    let insts = read_instructions(&body()).ok().unwrap();
    let (start, end) = (insts[1].pos, insts[3].pos);
    assert_eq!(
        copy_between(&insts, start, end, 1),
        Ok(vec![Instruction::Original(start), Instruction::Call(4), Instruction::Original(end)])
    );
}

#[test]
fn instructions_have_their_encodings() {
    let none: [u8; 0] = [];
    let bytes = |i: Instruction| encode_instruction(&none, i).unwrap();
    assert_eq!(bytes(Instruction::Block), vec![0x02, 0x40]);
    assert_eq!(bytes(Instruction::End), vec![0x0b]);
    assert_eq!(bytes(Instruction::Br(1)), vec![0x0c, 0x01]);
    assert_eq!(bytes(Instruction::BrIf(0)), vec![0x0d, 0x00]);
    assert_eq!(bytes(Instruction::Call(300)), vec![0x10, 0xac, 0x02]);
    assert_eq!(bytes(Instruction::ReturnCall(3)), vec![0x12, 0x03]);
    assert_eq!(bytes(Instruction::RefFunc(200)), vec![0xd2, 0xc8, 0x01]);
    assert_eq!(bytes(Instruction::Unreachable), vec![0x00]);
    assert_eq!(bytes(Instruction::LocalGet(5)), vec![0x20, 0x05]);
    assert_eq!(bytes(Instruction::LocalSet(5)), vec![0x21, 0x05]);
    assert_eq!(bytes(Instruction::GlobalGet(6)), vec![0x23, 0x06]);
    assert_eq!(bytes(Instruction::GlobalSet(6)), vec![0x24, 0x06]);
    assert_eq!(bytes(Instruction::I32Const(-1)), vec![0x41, 0x7f]);
    assert_eq!(bytes(Instruction::I32Const(64)), vec![0x41, 0xc0, 0x00]);
    assert_eq!(bytes(Instruction::I32Const(-64)), vec![0x41, 0x40]);
    assert_eq!(bytes(Instruction::I32Const(-65)), vec![0x41, 0xbf, 0x7f]);
    assert_eq!(bytes(Instruction::I32Const(i32::MIN)), vec![0x41, 0x80, 0x80, 0x80, 0x80, 0x78]);
    assert_eq!(bytes(Instruction::I32Eq), vec![0x46]);
    assert_eq!(bytes(Instruction::I32Ne), vec![0x47]);
    let arg = MemArg { offset: 8, align: 2, memory_index: 0 };
    assert_eq!(bytes(Instruction::Load(NumType::I32, arg)), vec![0x28, 0x02, 0x08]);
    assert_eq!(bytes(Instruction::Load(NumType::I64, arg)), vec![0x29, 0x02, 0x08]);
    assert_eq!(bytes(Instruction::Load(NumType::F32, arg)), vec![0x2a, 0x02, 0x08]);
    assert_eq!(bytes(Instruction::Load(NumType::F64, arg)), vec![0x2b, 0x02, 0x08]);
    assert_eq!(bytes(Instruction::Load(NumType::V128, arg)), vec![0xfd, 0x00, 0x02, 0x08]);
    assert_eq!(bytes(Instruction::Store(NumType::I32, arg)), vec![0x36, 0x02, 0x08]);
    assert_eq!(bytes(Instruction::Store(NumType::I64, arg)), vec![0x37, 0x02, 0x08]);
    assert_eq!(bytes(Instruction::Store(NumType::F32, arg)), vec![0x38, 0x02, 0x08]);
    assert_eq!(bytes(Instruction::Store(NumType::F64, arg)), vec![0x39, 0x02, 0x08]);
    assert_eq!(bytes(Instruction::Store(NumType::V128, arg)), vec![0xfd, 0x0b, 0x02, 0x08]);
    let other = MemArg { offset: 0, align: 2, memory_index: 3 };
    assert_eq!(bytes(Instruction::Load(NumType::I32, other)), vec![0x28, 0x42, 0x03, 0x00]);
}

#[test]
fn original_instructions_are_encoded_canonically() {
    // An `i32.const 1` with a needlessly long integer.
    let long: [u8; 4] = [0x00, 0x41, 0x81, 0x00];
    assert_eq!(encode_instruction(&long, Instruction::Original(1)), Ok(vec![0x41, 0x01]));
    assert_eq!(encode_instruction(&long, Instruction::Original(4)), Err(MigrateError::Reencode));
    assert_eq!(encode_instruction(&long, Instruction::Original(5)), Err(MigrateError::OutOfBounds));
}

#[test]
fn locals_are_declared_in_runs() {
    let (groups, start) = read_locals(&body()).ok().unwrap();
    assert_eq!(encode_locals(&groups), Some(vec![2, 1, 0x7e, 2, 0x7d]));
    assert_eq!(start, 5);
}

#[test]
fn unknown_variables_are_refused() {
    let mut f = Function::new([]);
    f.instruction(&Inst::LocalSet(7));
    f.instruction(&Inst::Block(BlockType::Empty));
    f.instruction(&Inst::LocalGet(7));
    f.instruction(&Inst::End);
    f.instruction(&Inst::End);
    let plan = plan_of(&f.into_raw_body(), vec![], vec![]).ok().unwrap();
    assert_eq!(checkpoint_live_out_vars(&plan, 0, false), Err(MigrateError::UnknownVariable));
    assert_eq!(resume_modified_vars(&plan, 0, false), Err(MigrateError::UnknownVariable));
    assert_eq!(encode_target(&plan, true), Err(MigrateError::UnknownVariable));
}

#[test]
fn unknown_globals_are_refused() {
    let mut f = Function::new([]);
    f.instruction(&Inst::GlobalSet(3));
    f.instruction(&Inst::Block(BlockType::Empty));
    f.instruction(&Inst::GlobalGet(3));
    f.instruction(&Inst::End);
    f.instruction(&Inst::End);
    let plan = plan_of(&f.into_raw_body(), vec![], vec![]).ok().unwrap();
    assert_eq!(checkpoint_live_out_vars(&plan, 0, false), Err(MigrateError::UnknownGlobal));
    assert_eq!(resume_modified_vars(&plan, 0, false), Err(MigrateError::UnknownGlobal));
}

#[test]
fn references_are_not_checkpointed() {
    let mut f = Function::new([(1, Ty::FUNCREF)]);
    f.instruction(&Inst::LocalSet(0));
    f.instruction(&Inst::Block(BlockType::Empty));
    f.instruction(&Inst::LocalGet(0));
    f.instruction(&Inst::End);
    f.instruction(&Inst::End);
    let plan = plan_of(&f.into_raw_body(), vec![], vec![]).ok().unwrap();
    assert_eq!(checkpoint_live_out_vars(&plan, 0, false), Err(MigrateError::ReferenceType));
    assert_eq!(resume_modified_vars(&plan, 0, true), Err(MigrateError::ReferenceType));
}

#[test]
fn a_global_is_stored_with_its_own_type() {
    let mut f = Function::new([]);
    f.instruction(&Inst::GlobalSet(0));
    f.instruction(&Inst::Block(BlockType::Empty));
    f.instruction(&Inst::GlobalGet(0));
    f.instruction(&Inst::End);
    f.instruction(&Inst::End);
    let bytes = f.into_raw_body();
    let plan = plan_of(&bytes, vec![], vec![(ValType::F64, true)]).ok().unwrap();
    let code = checkpoint_live_out_vars(&plan, 0, false).unwrap();
    assert_eq!(code[3], Instruction::Store(NumType::F64, ARG));
    let code = resume_modified_vars(&plan, 0, false).unwrap();
    assert_eq!(code[10], Instruction::Load(NumType::F64, ARG));
    // There are fewer locals than globals.
    let two = vec![(ValType::F64, true), (ValType::I32, true)];
    let plan = plan_of(&bytes, vec![], two).ok().unwrap();
    let code = checkpoint_live_out_vars(&plan, 0, true).unwrap();
    assert_eq!(code[6], Instruction::Store(NumType::I32, ARG));
}

#[test]
fn an_entered_region_ends_the_resumption() {
    assert_eq!(
        clear_resuming_block_var(&plan()),
        vec![Instruction::I32Const(0), Instruction::LocalSet(4)]
    );
}

#[test]
fn all_regions_but_the_last_set_the_resuming_variable_back() {
    let plan = plan();
    for distributed in [false, true] {
        let code = encode_target(&plan, distributed).unwrap();
        let clear = [Instruction::I32Const(0), Instruction::LocalSet(4)];
        assert_eq!(code.windows(2).filter(|w| *w == clear).count(), plan.checkpoint_list.len() - 1);
    }
}

/// A variable, the address of its place and its type.
type Entry = (bool, u32, i32, NumType);

fn stores(code: &[Instruction]) -> Vec<Entry> {
    let mut list: Vec<Entry> = Vec::new();
    for three in code.windows(3) {
        match (three[0], three[1], three[2]) {
            (Instruction::I32Const(at), Instruction::LocalGet(v), Instruction::Store(ty, ARG)) => list.push((true, v, at, ty)),
            (Instruction::I32Const(at), Instruction::GlobalGet(v), Instruction::Store(ty, ARG)) => list.push((false, v, at, ty)),
            _ => {}
        }
    }
    list
}

fn loads(code: &[Instruction]) -> Vec<Entry> {
    let mut list: Vec<Entry> = Vec::new();
    for three in code.windows(3) {
        match (three[0], three[1], three[2]) {
            (Instruction::I32Const(at), Instruction::Load(ty, ARG), Instruction::LocalSet(v)) => list.push((true, v, at, ty)),
            (Instruction::I32Const(at), Instruction::Load(ty, ARG), Instruction::GlobalSet(v)) => list.push((false, v, at, ty)),
            _ => {}
        }
    }
    list
}

#[test]
fn what_a_checkpoint_stores_is_loaded_again() {
    for distributed in [false, true] {
        for k in 0..plan().checkpoint_list.len() - 1 {
            let stored = stores(&checkpoint_live_out_vars(&plan(), k, distributed).unwrap());
            let loaded = loads(&resume_modified_vars(&plan(), k, distributed).unwrap());
            assert_eq!(stored.len(), loaded.len());
            for entry in &loaded {
                assert_eq!(stored.iter().filter(|other| *other == entry).count(), 1);
            }
        }
    }
    let stored = stores(&checkpoint_live_out_vars(&plan(), 1, false).unwrap());
    assert_eq!(stored, vec![(true, 1, 8, NumType::I64), (true, 3, 20, NumType::F32), (false, 0, 24, NumType::I64)]);
}
