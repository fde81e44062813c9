//! The regions of a function follow one another and together hold its
//! instructions.

use vstd::prelude::*;
use crate::regions;
use crate::tree;
use crate::tree::{Inst, NodeType, TreeNode, TreeView};
use crate::types::Operator;

verus! {

/// The nodes outside any block follow one another, and if a block is open, the
/// last of them is.
pub open spec fn laid_out(tree: TreeView) -> bool {
    &&& forall|i: int, j: int|
        0 <= i < j < tree.blocks.len() && (#[trigger] tree.blocks[i]).outer == 0 && (
        #[trigger] tree.blocks[j]).outer == 0 ==> tree.blocks[i].end_inst
            < tree.blocks[j].start_inst
    &&& tree.stack.len() > 0 ==> forall|j: int|
        tree.stack[0] <= j < tree.blocks.len() ==> (#[trigger] tree.blocks[j]).outer != 0
}

/// A position lies in a node outside any block. An open node extends to all
/// positions behind its start.
pub open spec fn covers(tree: TreeView, i: int, pos: usize) -> bool {
    &&& 0 <= i < tree.blocks.len()
    &&& tree.blocks[i].outer == 0
    &&& tree.blocks[i].start_inst <= pos
    &&& pos <= tree.blocks[i].end_inst || (tree.stack.len() > 0 && i == tree.stack[0] - 1)
}

/// A position lies in one of the nodes outside any block.
pub open spec fn covered(tree: TreeView, pos: usize) -> bool {
    exists|i: int| #[trigger] covers(tree, i, pos)
}

/// The instruction ends no block of the function, as none is open: it is the end
/// of the function body.
pub open spec fn closes_body(insts: Seq<Inst>, n: int) -> bool {
    insts[n].op is End && tree::tree_of(insts.take(n)).without_code(insts[n].pos).stack.len() == 0
}

/// All nodes end before a position.
pub open spec fn ends_before(tree: TreeView, pos: usize) -> bool {
    forall|i: int| 0 <= i < tree.blocks.len() ==> (#[trigger] tree.blocks[i]).end_inst < pos
}

/// The outermost open node, if there is one, lies outside any block.
pub(crate) proof fn lemma_outermost(tree: TreeView)
    requires
        tree::well_formed(tree),
        tree.stack.len() > 0,
    ensures
        1 <= tree.stack[0] <= tree.blocks.len(),
        tree.blocks[tree.stack[0] - 1].outer == 0,
        tree.blocks[tree.stack[0] - 1].start_inst <= tree.blocks[tree.stack[0] - 1].end_inst,
{
    assert(tree.stack.take(0) =~= Seq::empty());
}

/// Opening a node behind all others keeps the layout, and covers its position.
proof fn lemma_open_laid_out(tree: TreeView, node_type: NodeType, pos: usize)
    requires
        tree::well_formed(tree),
        laid_out(tree),
        tree.blocks.len() < usize::MAX,
        ends_before(tree, pos),
    ensures
        laid_out(tree.with_open(node_type, pos)),
        covered(tree.with_open(node_type, pos), pos),
        forall|p: usize|
            p < pos ==> covered(tree.with_open(node_type, pos), p) == #[trigger] covered(tree, p),
{
    let open = tree.with_open(node_type, pos);
    let n = tree.blocks.len() as int;
    if tree.stack.len() > 0 {
        lemma_outermost(tree);
        assert(tree.stack[tree.stack.len() - 1] == tree.stack.last());
        assert(tree.stack[0] == open.stack[0]);
        assert(open.blocks[n].outer == tree.stack.last());
    }
    assert forall|i: int, j: int|
        0 <= i < j < open.blocks.len() && (#[trigger] open.blocks[i]).outer == 0 && (
        #[trigger] open.blocks[j]).outer == 0 implies open.blocks[i].end_inst
        < open.blocks[j].start_inst by {
        assert(open.blocks[i] == tree.blocks[i]);
        if j < n {
            assert(open.blocks[j] == tree.blocks[j]);
        }
    }
    assert forall|j: int| open.stack[0] <= j < open.blocks.len() implies (
    #[trigger] open.blocks[j]).outer != 0 by {
        if tree.stack.len() > 0 && j < n {
            assert(open.blocks[j] == tree.blocks[j]);
        }
    }
    assert forall|p: usize| p < pos implies covered(open, p) == #[trigger] covered(tree, p) by {
        if covered(tree, p) {
            let i = choose|i: int| #[trigger] covers(tree, i, p);
            assert(open.blocks[i] == tree.blocks[i]);
            assert(covers(open, i, p));
        }
        if covered(open, p) {
            let i = choose|i: int| #[trigger] covers(open, i, p);
            assert(i < n);
            assert(open.blocks[i] == tree.blocks[i]);
            assert(covers(tree, i, p));
        }
    }
    if tree.stack.len() > 0 {
        let i = tree.stack[0] - 1;
        assert(open.blocks[i] == tree.blocks[i]);
        assert(covers(open, i, pos));
    } else {
        assert(open.stack[0] == n + 1);
        assert(covers(open, n, pos));
    }
}

/// Closing a node behind all others keeps the layout and what is covered.
pub(crate) proof fn lemma_close_laid_out(
    tree: TreeView,
    closed: TreeView,
    pos: usize,
)
    requires
        tree::well_formed(tree),
        laid_out(tree),
        tree.stack.len() > 0,
        closed.blocks == tree::ended_nodes(pos, tree.stack, tree.blocks),
        closed.stack == tree::popped(tree.stack),
    ensures
        laid_out(closed),
        forall|p: usize| p <= pos ==> covered(closed, p) == #[trigger] covered(tree, p),
{
    lemma_outermost(tree);
    let last = tree.stack.last() - 1;
    assert(tree.stack[tree.stack.len() - 1] == tree.stack.last());
    assert(closed.blocks.len() == tree.blocks.len());
    if tree.stack.len() > 1 {
        let below = tree.stack.take(tree.stack.len() - 1);
        assert(below.last() == tree.stack[tree.stack.len() - 2]);
        assert(tree.blocks[last].outer == below.last());
        assert(closed.stack[0] == tree.stack[0]);
    }
    assert forall|i: int|
        #![trigger closed.blocks[i]]
        #![trigger tree.blocks[i]]
        0 <= i < tree.blocks.len() implies closed.blocks[i].outer == tree.blocks[i].outer
        && closed.blocks[i].start_inst == tree.blocks[i].start_inst && (i != last
        ==> closed.blocks[i].end_inst == tree.blocks[i].end_inst) && (i == last
        ==> closed.blocks[i].end_inst == pos) by {}
    assert forall|i: int, j: int|
        0 <= i < j < closed.blocks.len() && (#[trigger] closed.blocks[i]).outer == 0 && (
        #[trigger] closed.blocks[j]).outer == 0 implies closed.blocks[i].end_inst
        < closed.blocks[j].start_inst by {
        assert(tree.blocks[i].outer == 0);
        assert(tree.blocks[j].outer == 0);
    }
    if closed.stack.len() > 0 {
        assert forall|j: int| closed.stack[0] <= j < closed.blocks.len() implies (
        #[trigger] closed.blocks[j]).outer != 0 by {
            assert(tree.blocks[j].outer != 0);
        }
    }
    assert forall|p: usize| p <= pos implies covered(closed, p) == #[trigger] covered(tree, p) by {
        if covered(tree, p) {
            let i = choose|i: int| #[trigger] covers(tree, i, p);
            assert(covers(closed, i, p));
        }
        if covered(closed, p) {
            let i = choose|i: int| #[trigger] covers(closed, i, p);
            assert(tree.blocks[i].outer == 0);
            assert(covers(tree, i, p));
        }
    }
}

/// An instruction behind all others keeps the layout. Its position is covered,
/// unless it closes the function body.
proof fn lemma_step_laid_out(tree: TreeView, inst: Inst)
    requires
        tree::well_formed(tree),
        laid_out(tree),
        tree.blocks.len() < usize::MAX,
        ends_before(tree, inst.pos),
    ensures
        laid_out(tree.step(inst)),
        forall|p: usize|
            p < inst.pos ==> covered(tree.step(inst), p) == #[trigger] covered(tree, p),
        covered(tree.step(inst), inst.pos) == !(inst.op is End && tree.without_code(
            inst.pos,
        ).stack.len() == 0),
{
    let pos = inst.pos;
    let mid = tree.without_code(pos);
    if tree.code_open {
        let top = tree.stack.last() - 1;
        assert(tree.stack[tree.stack.len() - 1] == tree.stack.last());
        assert(tree.blocks[top].end_inst < pos);
        lemma_close_laid_out(tree, mid, (pos - 1) as usize);
    }
    assert(ends_before(mid, pos));
    assert(tree::well_formed(mid)) by {
        lemma_without_code_well_formed(tree, pos);
    }
    match inst.op {
        Operator::Block => lemma_open_laid_out(mid, NodeType::BLOCK, pos),
        Operator::Loop => lemma_open_laid_out(mid, NodeType::LOOP, pos),
        Operator::If => lemma_open_laid_out(mid, NodeType::IF, pos),
        Operator::Else => lemma_open_laid_out(mid, NodeType::ELSE, pos),
        Operator::End => {
            if mid.stack.len() > 0 {
                lemma_outermost(mid);
                let i = mid.stack[0] - 1;
                assert(covers(mid, i, pos));
                let once = mid.with_closed(pos);
                lemma_close_laid_out(mid, once, pos);
                assert(covered(once, pos) == covered(mid, pos));
                if once.stack.len() > 0 {
                    assert(tree::bounded(mid, pos));
                    tree::lemma_close_well_formed(mid, pos);
                    lemma_close_laid_out(once, once.with_closed(pos), pos);
                    assert(covered(once.with_closed(pos), pos) == covered(once, pos));
                } else {
                    assert(once.with_closed(pos) =~= once);
                }
            } else {
                assert(mid.with_closed(pos) =~= mid);
            }
        },
        _ => {
            if tree.code_open {
                lemma_outermost(tree);
                let next = tree.with_code(pos);
                let i = tree.stack[0] - 1;
                assert(covers(next, i, pos));
                assert forall|p: usize| p < pos implies covered(next, p) == #[trigger] covered(
                    tree,
                    p,
                ) by {
                    if covered(tree, p) {
                        let j = choose|j: int| #[trigger] covers(tree, j, p);
                        assert(covers(next, j, p));
                    }
                    if covered(next, p) {
                        let j = choose|j: int| #[trigger] covers(next, j, p);
                        assert(covers(tree, j, p));
                    }
                }
            } else {
                lemma_open_laid_out(tree, NodeType::CODE, pos);
                let open = tree.with_open(NodeType::CODE, pos);
                let next = tree.with_code(pos);
                assert forall|p: usize| covered(next, p) == #[trigger] covered(open, p) by {
                    if covered(open, p) {
                        let j = choose|j: int| #[trigger] covers(open, j, p);
                        assert(covers(next, j, p));
                    }
                    if covered(next, p) {
                        let j = choose|j: int| #[trigger] covers(next, j, p);
                        assert(covers(open, j, p));
                    }
                }
                assert(covered(open, pos));
                assert forall|p: usize| p < pos implies covered(next, p) == #[trigger] covered(
                    tree,
                    p,
                ) by {
                    assert(covered(open, p) == covered(tree, p));
                }
            }
        },
    }
}

/// A tree stays well-formed when an open code portion is closed.
pub(crate) proof fn lemma_without_code_well_formed(tree: TreeView, pos: usize)
    requires
        tree::well_formed(tree),
        ends_before(tree, pos),
    ensures
        tree::well_formed(tree.without_code(pos)),
{
    let mid = tree.without_code(pos);
    if tree.code_open {
        let i = tree.stack.last() - 1;
        assert(tree.stack[tree.stack.len() - 1] == tree.stack.last());
        assert(tree.blocks[i].start_inst < pos);
        assert forall|k: int| 0 <= k < mid.stack.len() implies 1 <= #[trigger] mid.stack[k]
            <= mid.blocks.len() && mid.blocks[mid.stack[k] - 1].outer == tree::innermost(
            mid.stack.take(k),
        ) by {
            assert(mid.stack[k] == tree.stack[k]);
            assert(mid.stack.take(k) =~= tree.stack.take(k));
        }
    }
}

/// The nodes of a function outside any block follow one another. A position is
/// covered exactly if its instruction does not close the function body.
pub(crate) proof fn lemma_tree_laid_out(insts: Seq<Inst>)
    requires
        tree::ordered(insts),
        insts.len() <= usize::MAX,
    ensures
        laid_out(tree::tree_of(insts)),
        forall|n: int|
            0 <= n < insts.len() ==> covered(tree::tree_of(insts), (#[trigger] insts[n]).pos)
                == !closes_body(insts, n),
    decreases insts.len(),
{
    if insts.len() > 0 {
        let init = insts.drop_last();
        let last = insts.last();
        assert(tree::ordered(init));
        lemma_tree_laid_out(init);
        tree::lemma_tree_well_formed(init);
        let tree = tree::tree_of(init);
        assert(ends_before(tree, last.pos)) by {
            if init.len() > 0 {
                assert(insts[init.len() - 1].pos < insts[insts.len() - 1].pos);
            }
        }
        lemma_step_laid_out(tree, last);
        assert forall|n: int| 0 <= n < insts.len() implies covered(
            tree::tree_of(insts),
            (#[trigger] insts[n]).pos,
        ) == !closes_body(insts, n) by {
            if n < init.len() {
                assert(insts[n] == init[n]);
                assert(insts[n].pos < insts[insts.len() - 1].pos);
                assert(covered(tree, init[n].pos) == !closes_body(init, n));
                assert(insts.take(n) =~= init.take(n));
            } else {
                assert(insts.take(n) =~= init);
            }
        }
    }
}

/// What holds of nodes in their order holds of those outside any block.
pub(crate) proof fn lemma_top_level_order(blocks: Seq<TreeNode>)
    requires
        forall|i: int, j: int|
            0 <= i < j < blocks.len() && (#[trigger] blocks[i]).outer == 0 && (
            #[trigger] blocks[j]).outer == 0 ==> blocks[i].end_inst < blocks[j].start_inst,
        forall|i: int| 0 <= i < blocks.len() ==> (#[trigger] blocks[i]).index == i + 1,
    ensures
        ({
            let nodes = regions::top_level(blocks);
            &&& forall|k: int|
                0 <= k < nodes.len() ==> (#[trigger] nodes[k]).outer == 0 && 1 <= nodes[k].index
                    <= blocks.len() && blocks[nodes[k].index - 1] == nodes[k]
            &&& forall|k: int, l: int|
                0 <= k < l < nodes.len() ==> (#[trigger] nodes[k]).end_inst < (
                #[trigger] nodes[l]).start_inst && nodes[k].index < nodes[l].index
            &&& forall|i: int|
                0 <= i < blocks.len() && (#[trigger] blocks[i]).outer == 0 ==> nodes.contains(
                    blocks[i],
                )
        }),
    decreases blocks.len(),
{
    reveal(Seq::filter);
    if blocks.len() > 0 {
        let init = blocks.drop_last();
        let last = blocks.last();
        assert forall|i: int, j: int|
            0 <= i < j < init.len() && (#[trigger] init[i]).outer == 0 && (
            #[trigger] init[j]).outer == 0 implies init[i].end_inst < init[j].start_inst by {
            assert(init[i] == blocks[i] && init[j] == blocks[j]);
        }
        assert forall|i: int| 0 <= i < init.len() implies (#[trigger] init[i]).index == i + 1 by {
            assert(init[i] == blocks[i]);
        }
        lemma_top_level_order(init);
        let before = regions::top_level(init);
        let nodes = regions::top_level(blocks);
        assert(last == blocks[blocks.len() - 1]);
        assert forall|k: int| 0 <= k < before.len() implies (#[trigger] before[k]).outer == 0 && 1
            <= before[k].index < blocks.len() && blocks[before[k].index - 1] == before[k] by {
            assert(init[before[k].index - 1] == blocks[before[k].index - 1]);
        }
        if last.outer == 0 {
            assert(nodes == before.push(last));
            assert forall|k: int, l: int| 0 <= k < l < nodes.len() implies (
            #[trigger] nodes[k]).end_inst < (#[trigger] nodes[l]).start_inst && nodes[k].index
                < nodes[l].index by {
                assert(nodes[k] == before[k]);
                if l < before.len() {
                    assert(nodes[l] == before[l]);
                } else {
                    assert(blocks[before[k].index - 1].outer == 0);
                }
            }
            assert forall|i: int| 0 <= i < blocks.len() && (#[trigger] blocks[i]).outer
                == 0 implies nodes.contains(blocks[i]) by {
                if i < init.len() {
                    assert(init[i] == blocks[i]);
                    assert(before.contains(init[i]));
                    let k = choose|k: int| 0 <= k < before.len() && before[k] == init[i];
                    assert(nodes[k] == blocks[i]);
                } else {
                    assert(nodes[before.len() as int] == last);
                }
            }
        } else {
            assert(nodes == before);
            assert forall|i: int| 0 <= i < blocks.len() && (#[trigger] blocks[i]).outer
                == 0 implies nodes.contains(blocks[i]) by {
                assert(init[i] == blocks[i]);
            }
        }
    }
}

/// An instruction lies in a region.
pub open spec fn in_region(region: TreeNode, inst: Inst) -> bool {
    region.start_inst <= inst.pos <= region.end_inst
}

/// The regions of a function follow one another, and the checkpoints are
/// numbered in their order. Every instruction lies in exactly one region, but
/// for those that close the function body, which lie in none.
pub proof fn law_regions_partition(insts: Seq<Inst>)
    requires
        tree::ordered(insts),
        insts.len() <= usize::MAX,
        tree::block_tree(insts) is Ok,
    ensures
        ({
            let nodes = regions::top_level(tree::tree_of(insts).blocks);
            &&& forall|k: int|
                0 <= k < nodes.len() ==> (#[trigger] nodes[k]).start_inst <= nodes[k].end_inst
                    && nodes[k].index >= 1
            &&& forall|k: int, l: int|
                0 <= k < l < nodes.len() ==> (#[trigger] nodes[k]).end_inst < (
                #[trigger] nodes[l]).start_inst && nodes[k].index < nodes[l].index
            &&& forall|n: int|
                0 <= n < insts.len() ==> (exists|k: int|
                    0 <= k < nodes.len() && in_region(#[trigger] nodes[k], insts[n]))
                    == !#[trigger] closes_body(insts, n)
        }),
{
    let tree = tree::tree_of(insts);
    let nodes = regions::top_level(tree.blocks);
    lemma_tree_laid_out(insts);
    tree::lemma_tree_well_formed(insts);
    lemma_top_level_order(tree.blocks);
    assert forall|n: int| 0 <= n < insts.len() implies (exists|k: int|
        0 <= k < nodes.len() && in_region(#[trigger] nodes[k], insts[n])) == !#[trigger] closes_body(
        insts,
        n,
    ) by {
        let pos = insts[n].pos;
        if covered(tree, pos) {
            let i = choose|i: int| #[trigger] covers(tree, i, pos);
            assert(nodes.contains(tree.blocks[i]));
            let k = choose|k: int| 0 <= k < nodes.len() && nodes[k] == tree.blocks[i];
            assert(in_region(nodes[k], insts[n]));
        }
        if exists|k: int| 0 <= k < nodes.len() && in_region(#[trigger] nodes[k], insts[n]) {
            let k = choose|k: int|
                0 <= k < nodes.len() && in_region(#[trigger] nodes[k], insts[n]);
            assert(covers(tree, nodes[k].index - 1, pos));
        }
    }
}

/// The instructions of a region.
pub open spec fn region_insts(insts: Seq<Inst>, region: TreeNode) -> Seq<Inst> {
    insts.filter(|inst: Inst| in_region(region, inst))
}

/// The instructions of the first `count` regions, one region after the other.
pub open spec fn all_region_insts(insts: Seq<Inst>, nodes: Seq<TreeNode>, count: int) -> Seq<Inst>
    decreases count,
{
    if count <= 0 {
        Seq::empty()
    } else {
        all_region_insts(insts, nodes, count - 1) + region_insts(insts, nodes[count - 1])
    }
}

/// The instructions that do not close the function body.
pub open spec fn inner_insts(insts: Seq<Inst>) -> Seq<Inst>
    decreases insts.len(),
{
    if insts.len() == 0 {
        Seq::empty()
    } else {
        let before = inner_insts(insts.drop_last());
        if closes_body(insts, insts.len() - 1) {
            before
        } else {
            before.push(insts.last())
        }
    }
}

/// Regions without the last instruction hold the same instructions with and
/// without it.
proof fn lemma_regions_without_last(insts: Seq<Inst>, nodes: Seq<TreeNode>, count: int)
    requires
        insts.len() > 0,
        0 <= count <= nodes.len(),
        forall|k: int|
            0 <= k < count ==> !in_region(#[trigger] nodes[k], insts.last()),
    ensures
        all_region_insts(insts, nodes, count) == all_region_insts(insts.drop_last(), nodes, count),
    decreases count,
{
    if count > 0 {
        lemma_regions_without_last(insts, nodes, count - 1);
        reveal(Seq::filter);
        assert(!in_region(nodes[count - 1], insts.last()));
    }
}

/// A region that starts behind all instructions is empty.
proof fn lemma_region_behind(insts: Seq<Inst>, node: TreeNode)
    requires
        forall|n: int| 0 <= n < insts.len() ==> (#[trigger] insts[n]).pos < node.start_inst,
    ensures
        region_insts(insts, node) == Seq::<Inst>::empty(),
    decreases insts.len(),
{
    reveal(Seq::filter);
    if insts.len() > 0 {
        let init = insts.drop_last();
        assert forall|n: int| 0 <= n < init.len() implies (#[trigger] init[n]).pos
            < node.start_inst by {
            assert(init[n] == insts[n]);
        }
        lemma_region_behind(init, node);
        assert(insts.last() == insts[insts.len() - 1]);
    }
    assert(region_insts(insts, node) =~= Seq::empty());
}

/// The last instruction, in region number `k`, comes last in all the regions.
proof fn lemma_regions_with_last(insts: Seq<Inst>, nodes: Seq<TreeNode>, k: int, count: int)
    requires
        insts.len() > 0,
        tree::ordered(insts),
        0 <= k < count <= nodes.len(),
        forall|i: int, j: int|
            0 <= i < j < nodes.len() ==> (#[trigger] nodes[i]).end_inst < (
            #[trigger] nodes[j]).start_inst,
        forall|i: int| 0 <= i < nodes.len() ==> (#[trigger] nodes[i]).start_inst <= nodes[i].end_inst,
        in_region(nodes[k], insts.last()),
    ensures
        all_region_insts(insts, nodes, count) == all_region_insts(
            insts.drop_last(),
            nodes,
            count,
        ).push(insts.last()),
    decreases count,
{
    let init = insts.drop_last();
    let last = insts.last();
    assert(last == insts[insts.len() - 1]);
    reveal(Seq::filter);
    if k == count - 1 {
        assert forall|j: int| 0 <= j < count - 1 implies !in_region(#[trigger] nodes[j], last) by {
            assert(nodes[j].end_inst < nodes[k].start_inst);
        }
        lemma_regions_without_last(insts, nodes, count - 1);
        let before = all_region_insts(init, nodes, count - 1);
        let here = region_insts(init, nodes[k]);
        assert(region_insts(insts, nodes[k]) == here.push(last));
        assert(before + here.push(last) =~= (before + here).push(last));
    } else {
        lemma_regions_with_last(insts, nodes, k, count - 1);
        let node = nodes[count - 1];
        assert(nodes[k].end_inst < node.start_inst);
        assert forall|n: int| 0 <= n < insts.len() implies (#[trigger] insts[n]).pos
            < node.start_inst by {
            if n < insts.len() - 1 {
                assert(insts[n].pos < insts[insts.len() - 1].pos);
            }
        }
        assert forall|n: int| 0 <= n < init.len() implies (#[trigger] init[n]).pos
            < node.start_inst by {
            assert(init[n] == insts[n]);
        }
        lemma_region_behind(insts, node);
        lemma_region_behind(init, node);
        let before = all_region_insts(init, nodes, count - 1);
        assert(all_region_insts(init, nodes, count) =~= before);
        assert(all_region_insts(insts, nodes, count) =~= before.push(last));
    }
}

/// The instructions of regions that follow one another, for the first `n`
/// instructions.
proof fn lemma_contents_complete(insts: Seq<Inst>, nodes: Seq<TreeNode>, n: int)
    requires
        tree::ordered(insts),
        0 <= n <= insts.len(),
        forall|i: int, j: int|
            0 <= i < j < nodes.len() ==> (#[trigger] nodes[i]).end_inst < (
            #[trigger] nodes[j]).start_inst,
        forall|i: int| 0 <= i < nodes.len() ==> (#[trigger] nodes[i]).start_inst <= nodes[i].end_inst,
        forall|m: int|
            0 <= m < insts.len() ==> (exists|k: int|
                0 <= k < nodes.len() && in_region(#[trigger] nodes[k], insts[m]))
                == !#[trigger] closes_body(insts, m),
    ensures
        all_region_insts(insts.take(n), nodes, nodes.len() as int) == inner_insts(insts.take(n)),
    decreases n,
{
    let done = insts.take(n);
    if n == 0 {
        lemma_all_empty(done, nodes, nodes.len() as int);
    } else {
        lemma_contents_complete(insts, nodes, n - 1);
        let init = done.drop_last();
        assert(init =~= insts.take(n - 1));
        let last = insts[n - 1];
        assert(done.last() == last);
        assert(tree::ordered(done));
        assert(done.take(n - 1) =~= insts.take(n - 1));
        assert(closes_body(done, n - 1) == closes_body(insts, n - 1));
        if closes_body(insts, n - 1) {
            assert forall|k: int| 0 <= k < nodes.len() implies !in_region(
                #[trigger] nodes[k],
                done.last(),
            ) by {
                if in_region(nodes[k], insts[n - 1]) {
                    assert(exists|l: int|
                        0 <= l < nodes.len() && in_region(#[trigger] nodes[l], insts[n - 1]));
                }
            }
            lemma_regions_without_last(done, nodes, nodes.len() as int);
        } else {
            let k = choose|k: int|
                0 <= k < nodes.len() && in_region(#[trigger] nodes[k], insts[n - 1]);
            lemma_regions_with_last(done, nodes, k, nodes.len() as int);
        }
    }
}

/// Without instructions all regions are empty.
proof fn lemma_all_empty(insts: Seq<Inst>, nodes: Seq<TreeNode>, count: int)
    requires
        insts.len() == 0,
        0 <= count <= nodes.len(),
    ensures
        all_region_insts(insts, nodes, count) == Seq::<Inst>::empty(),
    decreases count,
{
    if count > 0 {
        lemma_all_empty(insts, nodes, count - 1);
        lemma_region_behind(insts, nodes[count - 1]);
        assert(all_region_insts(insts, nodes, count) =~= Seq::<Inst>::empty());
    }
}

/// The regions of a function, one after the other, hold all its instructions in
/// their order, each once, but for those that close the function body.
pub proof fn law_contents_complete(insts: Seq<Inst>)
    requires
        tree::ordered(insts),
        insts.len() <= usize::MAX,
        tree::block_tree(insts) is Ok,
    ensures
        ({
            let nodes = regions::top_level(tree::tree_of(insts).blocks);
            all_region_insts(insts, nodes, nodes.len() as int) == inner_insts(insts)
        }),
{
    let nodes = regions::top_level(tree::tree_of(insts).blocks);
    law_regions_partition(insts);
    lemma_contents_complete(insts, nodes, insts.len() as int);
    assert(insts.take(insts.len() as int) =~= insts);
}

} // verus!
