//! The tree of blocks and code portions of a function body.

use vstd::prelude::*;
use crate::types::{views, MigrateError, Operator};

verus! {

/// An instruction of a function body, with the position of its first byte.
#[derive(Clone, Copy, Debug, PartialEq, Eq, Structural)]
pub struct Inst {
    pub pos: usize,
    pub op: Operator,
}

/// The positions of the instructions increase.
pub open spec fn ordered(insts: Seq<Inst>) -> bool {
    forall|i: int, j: int| 0 <= i < j < insts.len() ==> #[trigger] insts[i].pos < #[trigger] insts[j].pos
}

/// What a node of the tree stands for: a portion of code between blocks, or a
/// block of one of the four kinds.
#[derive(Clone, Copy, Debug, PartialEq, Eq, Structural)]
pub enum NodeType {
    CODE,
    BLOCK,
    LOOP,
    IF,
    ELSE,
}

/// A node of the tree. Checkpoints are placed at the ends of nodes.
#[derive(Clone, Copy, Debug, PartialEq, Eq, Structural)]
pub struct TreeNode {
    /// The number of the node; the first node has number one.
    pub index: usize,
    pub node_type: NodeType,
    /// The position of the first instruction of the node.
    pub start_inst: usize,
    /// The last position that belongs to the node.
    pub end_inst: usize,
    /// The number of the enclosing node, zero outside any block.
    pub outer: usize,
}

impl TreeNode {
    /// Creates a node that ends where it starts.
    pub fn new(index: usize, node_type: NodeType, start_inst: usize) -> (node: TreeNode)
        ensures
            node == (TreeNode {
                index,
                node_type,
                start_inst,
                end_inst: start_inst,
                outer: start_inst,
            }),
    {
        TreeNode { index, node_type, start_inst, end_inst: start_inst, outer: start_inst }
    }
}

/// The number of the innermost open node, zero if none is open.
pub open spec fn innermost(stack: Seq<usize>) -> usize {
    if stack.len() == 0 {
        0
    } else {
        stack.last()
    }
}

/// The node that is opened at `pos` when `count` nodes exist.
pub open spec fn opened_node(
    node_type: NodeType,
    pos: usize,
    stack: Seq<usize>,
    count: nat,
) -> TreeNode {
    TreeNode {
        index: (count + 1) as usize,
        node_type,
        start_inst: pos,
        end_inst: pos,
        outer: innermost(stack),
    }
}

/// The nodes after the innermost open one has been ended at `pos`.
pub open spec fn ended_nodes(pos: usize, stack: Seq<usize>, blocks: Seq<TreeNode>) -> Seq<TreeNode> {
    if stack.len() == 0 {
        blocks
    } else {
        let i = stack.last() - 1;
        blocks.update(i, TreeNode { end_inst: pos, ..blocks[i] })
    }
}

/// The numbers of the open nodes after the innermost one has been closed.
pub open spec fn popped(stack: Seq<usize>) -> Seq<usize> {
    if stack.len() == 0 {
        stack
    } else {
        stack.drop_last()
    }
}

/// The innermost open node exists.
pub open spec fn top_exists(stack: Seq<usize>, blocks: Seq<TreeNode>) -> bool {
    stack.len() > 0 ==> 1 <= stack.last() <= blocks.len()
}

/// Opens a node at `inst_index` inside the innermost open one.
pub fn opening_block(
    node_type: NodeType,
    inst_index: usize,
    stack: &mut Vec<usize>,
    blocks: &mut Vec<TreeNode>,
)
    requires
        old(blocks)@.len() < usize::MAX,
    ensures
        final(stack)@ == old(stack)@.push((old(blocks)@.len() + 1) as usize),
        final(blocks)@ == old(blocks)@.push(
            opened_node(node_type, inst_index, old(stack)@, old(blocks)@.len()),
        ),
{
    let index: usize = blocks.len() + 1;
    let mut node = TreeNode::new(index, node_type, inst_index);
    // Zero means that the node is not within any block but the function body.
    if stack.len() > 0 {
        node.outer = stack[stack.len() - 1];
    } else {
        node.outer = 0;
    }
    stack.push(node.index);
    blocks.push(node);
}

/// Closes the innermost open node, if any; it ends at `inst_index`.
pub fn closig_block(inst_index: usize, stack: &mut Vec<usize>, blocks: &mut Vec<TreeNode>)
    requires
        top_exists(old(stack)@, old(blocks)@),
    ensures
        final(stack)@ == popped(old(stack)@),
        final(blocks)@ == ended_nodes(inst_index, old(stack)@, old(blocks)@),
{
    if let Some(block_index) = stack.pop() {
        let index: usize = block_index - 1;
        let mut block = blocks[index];
        block.end_inst = inst_index;
        blocks.set(index, block);
    }
}

/// Closes the code portion that precedes the instruction at `inst_index`.
pub fn close_preceeding_code_portion(
    inst_index: usize,
    stack: &mut Vec<usize>,
    blocks: &mut Vec<TreeNode>,
)
    requires
        inst_index > 0,
        top_exists(old(stack)@, old(blocks)@),
    ensures
        final(stack)@ == popped(old(stack)@),
        final(blocks)@ == ended_nodes((inst_index - 1) as usize, old(stack)@, old(blocks)@),
{
    let prev_inst: usize = inst_index - 1;
    closig_block(prev_inst, stack, blocks);
}

/// The instructions of a code portion: the number of its node and their
/// positions.
pub struct CodeInsts {
    pub node: u32,
    pub insts: Vec<u32>,
}

impl View for CodeInsts {
    type V = (u32, Seq<u32>);

    open spec fn view(&self) -> (u32, Seq<u32>) {
        (self.node, self.insts@)
    }
}

/// A tree under construction.
#[verifier::ext_equal]
pub struct TreeView {
    pub blocks: Seq<TreeNode>,
    /// The numbers of the open nodes, outermost first.
    pub stack: Seq<usize>,
    /// The innermost open node is a code portion.
    pub code_open: bool,
    /// The instructions of the code portions, in the order of their nodes.
    pub code_insts: Seq<(u32, Seq<u32>)>,
}

impl TreeView {
    /// The tree without nodes.
    pub open spec fn empty() -> TreeView {
        TreeView {
            blocks: Seq::empty(),
            stack: Seq::empty(),
            code_open: false,
            code_insts: Seq::empty(),
        }
    }

    /// The tree after an open code portion has been closed before `pos`.
    pub open spec fn without_code(self, pos: usize) -> TreeView {
        if self.code_open {
            TreeView {
                blocks: ended_nodes((pos - 1) as usize, self.stack, self.blocks),
                stack: popped(self.stack),
                code_open: false,
                code_insts: self.code_insts,
            }
        } else {
            self
        }
    }

    /// The tree after a node has been opened at `pos`.
    pub open spec fn with_open(self, node_type: NodeType, pos: usize) -> TreeView {
        TreeView {
            blocks: self.blocks.push(opened_node(node_type, pos, self.stack, self.blocks.len())),
            stack: self.stack.push((self.blocks.len() + 1) as usize),
            code_open: self.code_open,
            code_insts: self.code_insts,
        }
    }

    /// The tree after the innermost node has been closed at `pos`.
    pub open spec fn with_closed(self, pos: usize) -> TreeView {
        TreeView {
            blocks: ended_nodes(pos, self.stack, self.blocks),
            stack: popped(self.stack),
            code_open: self.code_open,
            code_insts: self.code_insts,
        }
    }

    /// The innermost open node is the `else` part of an `if` block.
    pub open spec fn in_else(self) -> bool {
        self.stack.len() > 0 && self.blocks[self.stack.last() - 1].node_type == NodeType::ELSE
    }

    /// The tree after a block has been ended at `pos`. With an `else` part ends the
    /// block that it belongs to.
    pub open spec fn with_ended(self, pos: usize) -> TreeView {
        if self.in_else() {
            self.with_closed(pos).with_closed(pos)
        } else {
            self.with_closed(pos)
        }
    }

    /// The tree after an instruction at `pos` that belongs to a code portion.
    pub open spec fn with_code(self, pos: usize) -> TreeView {
        if self.code_open {
            let last = self.code_insts.last();
            TreeView {
                code_insts: self.code_insts.drop_last().push((last.0, last.1.push(pos as u32))),
                ..self
            }
        } else {
            let open = self.with_open(NodeType::CODE, pos);
            TreeView {
                code_open: true,
                code_insts: self.code_insts.push((open.stack.last() as u32, seq![pos as u32])),
                ..open
            }
        }
    }

    /// The tree after one more instruction. The instructions that open or end
    /// a block close the code portion before them.
    pub open spec fn step(self, inst: Inst) -> TreeView {
        match inst.op {
            Operator::Block => self.without_code(inst.pos).with_open(NodeType::BLOCK, inst.pos),
            Operator::Loop => self.without_code(inst.pos).with_open(NodeType::LOOP, inst.pos),
            Operator::If => self.without_code(inst.pos).with_open(NodeType::IF, inst.pos),
            Operator::Else => self.without_code(inst.pos).with_open(NodeType::ELSE, inst.pos),
            Operator::End => self.without_code(inst.pos).with_ended(inst.pos),
            _ => self.with_code(inst.pos),
        }
    }
}

/// The tree after all the instructions.
pub open spec fn tree_of(insts: Seq<Inst>) -> TreeView
    decreases insts.len(),
{
    if insts.len() == 0 {
        TreeView::empty()
    } else {
        tree_of(insts.drop_last()).step(insts.last())
    }
}

/// The numbers on the stack are those of nodes, each enclosed by the one
/// before it, and an open code portion is the innermost node.
pub open spec fn well_formed(tree: TreeView) -> bool {
    &&& forall|i: int|
        0 <= i < tree.blocks.len() ==> (#[trigger] tree.blocks[i]).index == i + 1
            && tree.blocks[i].outer <= i && tree.blocks[i].start_inst <= tree.blocks[i].end_inst
    &&& forall|k: int|
        0 <= k < tree.stack.len() ==> 1 <= #[trigger] tree.stack[k] <= tree.blocks.len()
            && tree.blocks[tree.stack[k] - 1].outer == innermost(tree.stack.take(k))
    &&& forall|k: int, l: int|
        0 <= k < l < tree.stack.len() ==> #[trigger] tree.stack[k] < #[trigger] tree.stack[l]
    &&& tree.code_open ==> tree.stack.len() > 0 && tree.code_insts.len() > 0
        && tree.code_insts.last().0 == tree.stack.last() as u32
        && tree.blocks[tree.stack.last() - 1].node_type == NodeType::CODE
}

/// No instruction of the tree lies behind `pos`.
pub open spec fn bounded(tree: TreeView, pos: usize) -> bool {
    forall|i: int|
        0 <= i < tree.blocks.len() ==> (#[trigger] tree.blocks[i]).end_inst <= pos
}

/// A tree stays well-formed when an instruction behind all others is added.
proof fn lemma_step_well_formed(tree: TreeView, inst: Inst, before: usize)
    requires
        well_formed(tree),
        bounded(tree, before),
        tree.blocks.len() < usize::MAX,
        tree.blocks.len() > 0 ==> before < inst.pos,
    ensures
        well_formed(tree.step(inst)),
        bounded(tree.step(inst), inst.pos),
        tree.step(inst).blocks.len() <= tree.blocks.len() + 1,
{
    let mid = tree.without_code(inst.pos);
    lemma_without_code_well_formed(tree, inst.pos, before);
    if inst.op is Block || inst.op is Loop || inst.op is If || inst.op is Else {
        let ty = if inst.op is Block {
            NodeType::BLOCK
        } else if inst.op is Loop {
            NodeType::LOOP
        } else if inst.op is If {
            NodeType::IF
        } else {
            NodeType::ELSE
        };
        lemma_open_well_formed(mid, ty, inst.pos);
    } else if inst.op is End {
        lemma_close_well_formed(mid, inst.pos);
        lemma_close_well_formed(mid.with_closed(inst.pos), inst.pos);
    } else if !tree.code_open {
        lemma_open_well_formed(tree, NodeType::CODE, inst.pos);
    }
}

/// A tree stays well-formed when a node is closed behind all others.
pub(crate) proof fn lemma_close_well_formed(tree: TreeView, pos: usize)
    requires
        well_formed(tree),
        bounded(tree, pos),
        !tree.code_open,
    ensures
        well_formed(tree.with_closed(pos)),
        bounded(tree.with_closed(pos), pos),
{
    let end = tree.with_closed(pos);
    if tree.stack.len() > 0 {
        assert(tree.stack[tree.stack.len() - 1] == tree.stack.last());
        assert forall|k: int| 0 <= k < end.stack.len() implies 1 <= #[trigger] end.stack[k]
            <= end.blocks.len() && end.blocks[end.stack[k] - 1].outer == innermost(
            end.stack.take(k),
        ) by {
            assert(end.stack[k] == tree.stack[k]);
            assert(end.stack.take(k) =~= tree.stack.take(k));
        }
    }
}

/// A tree stays well-formed when a node is opened behind all others.
proof fn lemma_open_well_formed(tree: TreeView, node_type: NodeType, pos: usize)
    requires
        well_formed(tree),
        bounded(tree, pos),
        tree.blocks.len() < usize::MAX,
        !tree.code_open,
    ensures
        well_formed(tree.with_open(node_type, pos)),
        bounded(tree.with_open(node_type, pos), pos),
{
    let open = tree.with_open(node_type, pos);
    assert(tree.stack.len() > 0 ==> tree.stack[tree.stack.len() - 1] == tree.stack.last());
    assert forall|k: int| 0 <= k < open.stack.len() implies 1 <= #[trigger] open.stack[k]
        <= open.blocks.len() && open.blocks[open.stack[k] - 1].outer == innermost(
        open.stack.take(k),
    ) by {
        if k < tree.stack.len() {
            assert(open.stack[k] == tree.stack[k]);
            assert(open.stack.take(k) =~= tree.stack.take(k));
        } else {
            assert(open.stack.take(k) =~= tree.stack);
        }
    }
}

/// The tree of a sequence of instructions is well-formed, has at most as many
/// nodes as there are instructions, and ends with them.
pub proof fn lemma_tree_well_formed(insts: Seq<Inst>)
    requires
        ordered(insts),
        insts.len() <= usize::MAX,
    ensures
        well_formed(tree_of(insts)),
        tree_of(insts).blocks.len() <= insts.len(),
        insts.len() > 0 ==> bounded(tree_of(insts), insts.last().pos),
    decreases insts.len(),
{
    if insts.len() > 0 {
        let init = insts.drop_last();
        assert(ordered(init));
        lemma_tree_well_formed(init);
        if init.len() > 0 {
            assert(insts[init.len() - 1].pos < insts[insts.len() - 1].pos);
            lemma_step_well_formed(tree_of(init), insts.last(), init.last().pos);
        } else {
            lemma_step_well_formed(tree_of(init), insts.last(), insts.last().pos);
        }
    }
}

/// The tree of a function body.
pub struct BlockTree {
    pub blocks: Vec<TreeNode>,
    pub stack: Vec<usize>,
    pub code_section_is_open: bool,
    pub insts_in_code_node: Vec<CodeInsts>,
}

impl View for BlockTree {
    type V = TreeView;

    open spec fn view(&self) -> TreeView {
        TreeView {
            blocks: self.blocks@,
            stack: self.stack@,
            code_open: self.code_section_is_open,
            code_insts: views(self.insts_in_code_node@),
        }
    }
}

impl BlockTree {
    /// Creates a tree without nodes.
    pub fn new() -> (tree: BlockTree)
        ensures
            tree@ == TreeView::empty(),
    {
        let tree = BlockTree {
            blocks: Vec::new(),
            stack: Vec::new(),
            code_section_is_open: false,
            insts_in_code_node: Vec::new(),
        };
        assert(tree@ =~= TreeView::empty());
        tree
    }

    /// Closes an open code portion before the instruction at `pos`.
    fn close_code(&mut self, pos: usize)
        requires
            old(self).code_section_is_open ==> pos > 0,
            top_exists(old(self).stack@, old(self).blocks@),
        ensures
            final(self)@ == old(self)@.without_code(pos),
    {
        if self.code_section_is_open {
            close_preceeding_code_portion(pos, &mut self.stack, &mut self.blocks);
            self.code_section_is_open = false;
        }
    }

    /// Adds an instruction that belongs to a code portion.
    fn add_code(&mut self, pos: usize)
        requires
            old(self)@.blocks.len() < usize::MAX,
            old(self).code_section_is_open ==> old(self)@.code_insts.len() > 0,
        ensures
            final(self)@ == old(self)@.with_code(pos),
    {
        let ghost before = self@;
        if !self.code_section_is_open {
            opening_block(NodeType::CODE, pos, &mut self.stack, &mut self.blocks);
            let node: u32 = self.stack[self.stack.len() - 1] as u32;
            let mut insts: Vec<u32> = Vec::new();
            insts.push(pos as u32);
            assert(insts@ =~= seq![pos as u32]);
            let ghost added = (node, insts@);
            self.insts_in_code_node.push(CodeInsts { node, insts });
            self.code_section_is_open = true;
            assert(views(self.insts_in_code_node@) =~= before.code_insts.push(added));
        } else {
            if let Some(mut last) = self.insts_in_code_node.pop() {
                last.insts.push(pos as u32);
                let ghost added = last@;
                self.insts_in_code_node.push(last);
                assert(views(self.insts_in_code_node@) =~= before.code_insts.drop_last().push(added));
            }
        }
    }

    /// Tells whether the innermost open node is the `else` part of an `if` block.
    fn is_in_else(&self) -> (in_else: bool)
        requires
            top_exists(self.stack@, self.blocks@),
        ensures
            in_else == self@.in_else(),
    {
        if self.stack.len() == 0 {
            return false;
        }
        let top: usize = self.stack[self.stack.len() - 1];
        self.blocks[top - 1].node_type == NodeType::ELSE
    }

    /// Adds an instruction behind all others.
    pub fn add(&mut self, inst: Inst)
        requires
            well_formed(old(self)@),
            old(self)@.blocks.len() < usize::MAX,
            old(self)@.code_open ==> inst.pos > 0,
        ensures
            final(self)@ == old(self)@.step(inst),
    {
        assert(self.stack@.len() > 0 ==> self@.stack[self.stack@.len() - 1] == self.stack@.last());
        assert(self.stack@.len() > 1 ==> 1 <= self@.stack[self.stack@.len() - 2]
            <= self.blocks@.len());
        assert(self.stack@.len() > 2 ==> 1 <= self@.stack[self.stack@.len() - 3]
            <= self.blocks@.len());
        match inst.op {
            Operator::Block => {
                self.close_code(inst.pos);
                opening_block(NodeType::BLOCK, inst.pos, &mut self.stack, &mut self.blocks);
            },
            Operator::Loop => {
                self.close_code(inst.pos);
                opening_block(NodeType::LOOP, inst.pos, &mut self.stack, &mut self.blocks);
            },
            Operator::If => {
                self.close_code(inst.pos);
                opening_block(NodeType::IF, inst.pos, &mut self.stack, &mut self.blocks);
            },
            Operator::Else => {
                self.close_code(inst.pos);
                opening_block(NodeType::ELSE, inst.pos, &mut self.stack, &mut self.blocks);
            },
            Operator::End => {
                self.close_code(inst.pos);
                let in_else = self.is_in_else();
                closig_block(inst.pos, &mut self.stack, &mut self.blocks);
                if in_else {
                    closig_block(inst.pos, &mut self.stack, &mut self.blocks);
                }
            },
            _ => {
                self.add_code(inst.pos);
            },
        }
    }
}

/// The tree, if all blocks are closed.
pub open spec fn block_tree(insts: Seq<Inst>) -> Result<TreeView, MigrateError> {
    if tree_of(insts).stack.len() == 0 {
        Ok(tree_of(insts))
    } else {
        Err(MigrateError::UnbalancedBlocks)
    }
}

/// Builds the tree of a function body from its instructions.
pub fn build_block_tree(insts: &Vec<Inst>) -> (tree: Result<BlockTree, MigrateError>)
    requires
        ordered(insts@),
    ensures
        match (tree, block_tree(insts@)) {
            (Ok(found), Ok(view)) => found@ == view,
            (Err(error), Err(expected)) => error == expected,
            _ => false,
        },
{
    let mut tree = BlockTree::new();
    let mut i: usize = 0;
    assert(insts@.take(0) =~= Seq::empty());
    while i < insts.len()
        invariant
            i <= insts@.len(),
            ordered(insts@),
            tree@ == tree_of(insts@.take(i as int)),
        decreases insts@.len() - i,
    {
        proof {
            let done = insts@.take(i as int);
            assert(ordered(done));
            assert(insts@.take(i + 1).drop_last() =~= done);
            lemma_tree_well_formed(done);
            if i > 0 {
                assert(insts@[i - 1].pos < insts@[i as int].pos);
            }
        }
        tree.add(insts[i]);
        i = i + 1;
    }
    assert(insts@.take(insts@.len() as int) =~= insts@);
    if tree.stack.len() == 0 {
        Ok(tree)
    } else {
        Err(MigrateError::UnbalancedBlocks)
    }
}

/// Opening a node and closing it leaves the open nodes as they were, and adds to the
/// nodes one that lies in the innermost open one and holds both positions.
pub proof fn law_opened_and_closed(
    node_type: NodeType,
    start: usize,
    end: usize,
    stack: Seq<usize>,
    blocks: Seq<TreeNode>,
)
    requires
        blocks.len() < usize::MAX,
    ensures
        ({
            let opened_stack = stack.push((blocks.len() + 1) as usize);
            let opened_blocks = blocks.push(opened_node(node_type, start, stack, blocks.len()));
            &&& top_exists(opened_stack, opened_blocks)
            &&& popped(opened_stack) == stack
            &&& ended_nodes(end, opened_stack, opened_blocks) == blocks.push(
                TreeNode {
                    index: (blocks.len() + 1) as usize,
                    node_type,
                    start_inst: start,
                    end_inst: end,
                    outer: if stack.len() == 0 {
                        0
                    } else {
                        stack.last()
                    },
                },
            )
        }),
{
    let opened_stack = stack.push((blocks.len() + 1) as usize);
    let opened_blocks = blocks.push(opened_node(node_type, start, stack, blocks.len()));
    assert(popped(opened_stack) =~= stack);
    assert(ended_nodes(end, opened_stack, opened_blocks) =~= blocks.push(
        TreeNode { end_inst: end, ..opened_blocks.last() },
    ));
}

/// Node number `i` starts inside the one that encloses it, and ends inside it once
/// that is closed.
pub open spec fn inside(tree: TreeView, i: int) -> bool {
    let node = tree.blocks[i];
    let outer = tree.blocks[node.outer - 1];
    node.outer != 0 ==> outer.start_inst <= node.start_inst && (tree.stack.contains(node.outer)
        || node.end_inst <= outer.end_inst)
}

/// All nodes lie inside those that enclose them.
pub open spec fn nested(tree: TreeView) -> bool {
    forall|i: int| 0 <= i < tree.blocks.len() ==> #[trigger] inside(tree, i)
}

/// Nodes stay nested when a node is closed behind all others.
proof fn lemma_close_nested(tree: TreeView, closed: TreeView, pos: usize)
    requires
        well_formed(tree),
        nested(tree),
        bounded(tree, pos),
        closed.blocks == ended_nodes(pos, tree.stack, tree.blocks),
        closed.stack == popped(tree.stack),
    ensures
        nested(closed),
{
    if tree.stack.len() > 0 {
        let top = tree.stack.last() - 1;
        let count = tree.stack.len() as int;
        assert(tree.stack[count - 1] == tree.stack.last());
        assert forall|i: int| 0 <= i < closed.blocks.len() implies #[trigger] inside(closed, i) by {
            let number = tree.blocks[i].outer;
            assert(inside(tree, i));
            assert(closed.blocks[i].outer == number);
            assert(number <= i);
            if number == 0 {
            } else if i == top {
                assert(innermost(tree.stack.take(count - 1)) == number);
                assert(count > 1);
                assert(tree.stack.take(count - 1).last() == tree.stack[count - 2]);
                assert(closed.stack[count - 2] == number);
            } else if number - 1 == top {
                assert(tree.blocks[i].end_inst <= pos);
            } else if tree.stack.contains(number) {
                let k = choose|k: int| 0 <= k < count && tree.stack[k] == number;
                assert(closed.stack[k] == number);
            }
        }
    } else {
        assert forall|i: int| 0 <= i < closed.blocks.len() implies #[trigger] inside(closed, i) by {
            assert(inside(tree, i));
        }
    }
}

/// Nodes stay nested when a node is opened behind all others.
proof fn lemma_open_nested(tree: TreeView, open: TreeView, node_type: NodeType, pos: usize)
    requires
        well_formed(tree),
        nested(tree),
        bounded(tree, pos),
        tree.blocks.len() < usize::MAX,
        open.blocks == tree.with_open(node_type, pos).blocks,
        open.stack == tree.with_open(node_type, pos).stack,
    ensures
        nested(open),
{
    let n = tree.blocks.len() as int;
    let count = tree.stack.len() as int;
    assert forall|i: int| 0 <= i < open.blocks.len() implies #[trigger] inside(open, i) by {
        if i < n {
            assert(inside(tree, i));
            assert(open.blocks[i] == tree.blocks[i]);
            let number = tree.blocks[i].outer;
            if tree.stack.contains(number) {
                let k = choose|k: int| 0 <= k < count && tree.stack[k] == number;
                assert(open.stack[k] == number);
            }
        } else if count > 0 {
            assert(tree.stack[count - 1] == tree.stack.last());
            assert(open.stack[count - 1] == tree.stack.last());
            let outer = tree.blocks[tree.stack.last() - 1];
            assert(outer.start_inst <= outer.end_inst <= pos);
        }
    }
}

/// The nodes of a function are nested.
proof fn lemma_tree_nested(insts: Seq<Inst>)
    requires
        ordered(insts),
        insts.len() <= usize::MAX,
    ensures
        nested(tree_of(insts)),
    decreases insts.len(),
{
    if insts.len() > 0 {
        let init = insts.drop_last();
        let inst = insts.last();
        assert(ordered(init));
        lemma_tree_nested(init);
        lemma_tree_well_formed(init);
        let tree = tree_of(init);
        let before = if init.len() > 0 {
            init.last().pos
        } else {
            inst.pos
        };
        if init.len() > 0 {
            assert(insts[init.len() - 1].pos < insts[insts.len() - 1].pos);
        }
        let pos = inst.pos;
        let mid = tree.without_code(pos);
        if tree.code_open {
            lemma_close_nested(tree, mid, (pos - 1) as usize);
        }
        lemma_without_code_well_formed(tree, pos, before);
        match inst.op {
            Operator::Block => lemma_open_nested(mid, mid.with_open(NodeType::BLOCK, pos), NodeType::BLOCK, pos),
            Operator::Loop => lemma_open_nested(mid, mid.with_open(NodeType::LOOP, pos), NodeType::LOOP, pos),
            Operator::If => lemma_open_nested(mid, mid.with_open(NodeType::IF, pos), NodeType::IF, pos),
            Operator::Else => lemma_open_nested(mid, mid.with_open(NodeType::ELSE, pos), NodeType::ELSE, pos),
            Operator::End => {
                let once = mid.with_closed(pos);
                lemma_close_nested(mid, once, pos);
                lemma_close_well_formed(mid, pos);
                lemma_close_nested(once, once.with_closed(pos), pos);
            },
            _ => {
                let next = tree.with_code(pos);
                if !tree.code_open {
                    lemma_open_nested(tree, next, NodeType::CODE, pos);
                } else {
                    assert forall|i: int| 0 <= i < next.blocks.len() implies #[trigger] inside(
                        next,
                        i,
                    ) by {
                        assert(inside(tree, i));
                    }
                }
            },
        }
    }
}

/// A tree stays well-formed when an open code portion is closed.
pub(crate) proof fn lemma_without_code_well_formed(tree: TreeView, pos: usize, before: usize)
    requires
        well_formed(tree),
        bounded(tree, before),
        tree.blocks.len() > 0 ==> before < pos,
    ensures
        well_formed(tree.without_code(pos)),
        bounded(tree.without_code(pos), pos),
{
    let mid = tree.without_code(pos);
    if tree.code_open {
        let i = tree.stack.last() - 1;
        assert(tree.stack[tree.stack.len() - 1] == tree.stack.last());
        assert(tree.blocks[i].start_inst <= before);
        assert forall|k: int| 0 <= k < mid.stack.len() implies 1 <= #[trigger] mid.stack[k]
            <= mid.blocks.len() && mid.blocks[mid.stack[k] - 1].outer == innermost(
            mid.stack.take(k),
        ) by {
            assert(mid.stack[k] == tree.stack[k]);
            assert(mid.stack.take(k) =~= tree.stack.take(k));
        }
    }
}

/// The range of each node of a function lies inside the range of the node that
/// encloses it.
pub proof fn law_ranges_nest(insts: Seq<Inst>)
    requires
        ordered(insts),
        insts.len() <= usize::MAX,
        block_tree(insts) is Ok,
    ensures
        ({
            let blocks = tree_of(insts).blocks;
            forall|i: int|
                0 <= i < blocks.len() && (#[trigger] blocks[i]).outer != 0 ==> 1 <= blocks[i].outer
                    <= i && blocks[blocks[i].outer - 1].start_inst <= blocks[i].start_inst
                    && blocks[i].end_inst <= blocks[blocks[i].outer - 1].end_inst
        }),
{
    lemma_tree_nested(insts);
    lemma_tree_well_formed(insts);
    let tree = tree_of(insts);
    assert forall|i: int| 0 <= i < tree.blocks.len() && (#[trigger] tree.blocks[i]).outer
        != 0 implies 1 <= tree.blocks[i].outer <= i && tree.blocks[tree.blocks[i].outer
        - 1].start_inst <= tree.blocks[i].start_inst && tree.blocks[i].end_inst
        <= tree.blocks[tree.blocks[i].outer - 1].end_inst by {
        assert(inside(tree, i));
    }
}

} // verus!
