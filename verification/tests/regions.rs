use wasm_migrate::regions::{
    add_mutable, extend, generate_checkpoint_list, generate_live_out, generate_live_var_list,
    generate_modified_var_list, intersect, list_touched, top_level_nodes, Access,
};
use wasm_migrate::tree::{build_block_tree, Inst, TreeNode};
use wasm_migrate::types::{MigrateError, Operator, ValType};

fn insts(list: &[(usize, Operator)]) -> Vec<Inst> {
    list.iter().map(|&(pos, op)| Inst { pos, op }).collect()
}

fn three_regions() -> (Vec<Inst>, Vec<TreeNode>) {
    let body = insts(&[
        (1, Operator::LocalGet(0)),
        (3, Operator::LocalSet(1)),
        (5, Operator::Block),
        (7, Operator::LocalGet(1)),
        (9, Operator::LocalTee(2)),
        (11, Operator::GlobalSet(4)),
        (13, Operator::End),
        (14, Operator::LocalGet(2)),
        (16, Operator::GlobalGet(4)),
        (18, Operator::LocalSet(1)),
        (20, Operator::LocalSet(3)),
        (22, Operator::End),
    ]);
    let tree = build_block_tree(&body).ok().unwrap();
    let regions = top_level_nodes(&tree.blocks);
    (body, regions)
}

#[test]
fn checkpoints_end_the_outermost_nodes() {
    let (_, regions) = three_regions();
    assert_eq!(generate_checkpoint_list(&regions), vec![1, 2, 4]);
}

#[test]
fn touched_variables_are_listed_once() {
    let body = insts(&[
        (1, Operator::LocalSet(5)),
        (3, Operator::LocalTee(6)),
        (5, Operator::LocalSet(5)),
        (7, Operator::LocalGet(9)),
        (9, Operator::LocalSet(7)),
    ]);
    let mut region = TreeNode::new(1, wasm_migrate::tree::NodeType::CODE, 1);
    region.end_inst = 9;
    assert_eq!(list_touched(&body, region, Access::LocalWrite), vec![5, 6]);
    assert_eq!(list_touched(&body, region, Access::LocalRead), vec![9]);
    assert_eq!(list_touched(&body, region, Access::GlobalRead), Vec::<u32>::new());
}

#[test]
fn mutable_globals_count_as_modified() {
    let mut list: Vec<u32> = vec![2];
    add_mutable(&mut list, &vec![(ValType::I32, true), (ValType::I64, false), (ValType::F32, true)]);
    assert_eq!(list, vec![2, 0]);
}

#[test]
fn lists_are_joined_and_intersected() {
    let mut list: Vec<u32> = vec![3, 1];
    extend(&mut list, &vec![1, 4, 3, 5]);
    assert_eq!(list, vec![3, 1, 4, 5]);
    assert_eq!(intersect(&list, &vec![5, 3, 9]), vec![3, 5]);
}

#[test]
fn modified_and_live_variables_of_each_region() {
    let (body, regions) = three_regions();
    let globals = vec![(ValType::I32, true)];
    let (vars, set_globals) = generate_modified_var_list(&body, &regions, &globals);
    assert_eq!(vars, vec![vec![1], vec![2], vec![1, 3]]);
    assert_eq!(set_globals, vec![vec![0], vec![4, 0], vec![0]]);
    let live = generate_live_var_list(&body, &regions, &vars, &set_globals);
    assert_eq!(live.live_in_set_vars, vec![vec![], vec![1], vec![2]]);
    assert_eq!(live.get_global_vars, vec![vec![], vec![], vec![4]]);
    assert_eq!(live.live_out_set_vars, vec![vec![1], vec![2], vec![]]);
    assert_eq!(live.live_out_global_vars, vec![vec![], vec![4], vec![]]);
}

#[test]
fn live_out_needs_a_write_before_and_a_read_behind() {
    let written = vec![vec![1, 2], vec![3], vec![]];
    let read = vec![vec![7], vec![2], vec![1, 3, 4]];
    assert_eq!(generate_live_out(&written, &read), vec![vec![1, 2], vec![1, 3], vec![]]);
}
