use wasm_migrate::tree::{
    build_block_tree, close_preceeding_code_portion, closig_block, opening_block, Inst, NodeType, TreeNode,
};
use wasm_migrate::types::{MigrateError, Operator};

fn insts(list: &[(usize, Operator)]) -> Vec<Inst> {
    list.iter().map(|&(pos, op)| Inst { pos, op }).collect()
}

#[test]
fn new_node_ends_where_it_starts() {
    let node = TreeNode::new(3, NodeType::LOOP, 17);
    assert_eq!(node.index, 3);
    assert_eq!(node.node_type, NodeType::LOOP);
    assert_eq!(node.start_inst, 17);
    assert_eq!(node.end_inst, 17);
    assert_eq!(node.outer, 17);
}

#[test]
fn nodes_open_inside_the_innermost_one() {
    let mut stack: Vec<usize> = Vec::new();
    let mut blocks: Vec<TreeNode> = Vec::new();
    opening_block(NodeType::BLOCK, 4, &mut stack, &mut blocks);
    opening_block(NodeType::CODE, 6, &mut stack, &mut blocks);
    assert_eq!(stack, vec![1, 2]);
    assert_eq!(blocks[0].outer, 0);
    assert_eq!(blocks[1].outer, 1);
    close_preceeding_code_portion(10, &mut stack, &mut blocks);
    assert_eq!(blocks[1].end_inst, 9);
    closig_block(10, &mut stack, &mut blocks);
    assert_eq!(blocks[0].end_inst, 10);
    assert!(stack.is_empty());
    closig_block(11, &mut stack, &mut blocks);
    assert_eq!(blocks[0].end_inst, 10);
}

#[test]
fn blocks_and_code_portions_alternate() {
    let body = insts(&[
        (1, Operator::LocalGet(0)),
        (3, Operator::LocalSet(1)),
        (5, Operator::Block),
        (7, Operator::LocalGet(1)),
        (9, Operator::Loop),
        (11, Operator::End),
        (12, Operator::End),
        (13, Operator::Other),
        (14, Operator::End),
    ]);
    let tree = build_block_tree(&body).ok().unwrap();
    let shape: Vec<(usize, NodeType, usize, usize, usize)> =
        tree.blocks.iter().map(|b| (b.index, b.node_type, b.start_inst, b.end_inst, b.outer)).collect();
    assert_eq!(
        shape,
        vec![
            (1, NodeType::CODE, 1, 4, 0),
            (2, NodeType::BLOCK, 5, 12, 0),
            (3, NodeType::CODE, 7, 8, 2),
            (4, NodeType::LOOP, 9, 11, 2),
            (5, NodeType::CODE, 13, 13, 0),
        ]
    );
    let code: Vec<(u32, Vec<u32>)> = tree.insts_in_code_node.iter().map(|c| (c.node, c.insts.clone())).collect();
    assert_eq!(code, vec![(1, vec![1, 3]), (3, vec![7]), (5, vec![13])]);
}

#[test]
fn an_else_opens_a_node_of_its_own() {
    let body = insts(&[
        (1, Operator::If),
        (3, Operator::Else),
        (4, Operator::End),
        (5, Operator::End),
    ]);
    let tree = build_block_tree(&body).ok().unwrap();
    let shape: Vec<(NodeType, usize, usize, usize)> =
        tree.blocks.iter().map(|b| (b.node_type, b.start_inst, b.end_inst, b.outer)).collect();
    assert_eq!(shape, vec![(NodeType::IF, 1, 4, 0), (NodeType::ELSE, 3, 4, 1)]);
}

#[test]
fn the_end_of_an_else_ends_its_if() {
    let body = insts(&[
        (1, Operator::If),
        (3, Operator::LocalSet(0)),
        (5, Operator::Else),
        (6, Operator::LocalSet(1)),
        (8, Operator::End),
        (9, Operator::If),
        (11, Operator::Else),
        (12, Operator::End),
        (13, Operator::Other),
        (14, Operator::End),
    ]);
    let tree = build_block_tree(&body).ok().unwrap();
    let shape: Vec<(NodeType, usize, usize, usize)> =
        tree.blocks.iter().map(|b| (b.node_type, b.start_inst, b.end_inst, b.outer)).collect();
    assert_eq!(
        shape,
        vec![
            (NodeType::IF, 1, 8, 0),
            (NodeType::CODE, 3, 4, 1),
            (NodeType::ELSE, 5, 8, 1),
            (NodeType::CODE, 6, 7, 3),
            (NodeType::IF, 9, 12, 0),
            (NodeType::ELSE, 11, 12, 5),
            (NodeType::CODE, 13, 13, 0),
        ]
    );
}

#[test]
fn open_blocks_are_refused() {
    let body = insts(&[(1, Operator::Block), (3, Operator::Other), (4, Operator::Block), (6, Operator::End)]);
    assert_eq!(build_block_tree(&body).err(), Some(MigrateError::UnbalancedBlocks));
    assert_eq!(build_block_tree(&insts(&[(1, Operator::Other)])).err(), Some(MigrateError::UnbalancedBlocks));
}

#[test]
fn nothing_has_no_nodes() {
    let tree = build_block_tree(&insts(&[(1, Operator::End)])).ok().unwrap();
    assert_eq!(tree.blocks.len(), 0);
    assert_eq!(tree.insts_in_code_node.len(), 0);
}
