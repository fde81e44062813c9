//! The blocks of a function are closed in the region in which they are opened.

use vstd::prelude::*;
use crate::machine;
use crate::partition;
use crate::partition::{covers, ends_before, laid_out};
use crate::reading;
use crate::regions;
use crate::tree;
use crate::tree::{Inst, NodeType, TreeNode, TreeView};
use crate::types::Operator;

verus! {

/// How many more blocks the instructions open than they end.
pub open spec fn height(insts: Seq<Inst>) -> int
    decreases insts.len(),
{
    if insts.len() == 0 {
        0
    } else {
        height(insts.drop_last()) + machine::nesting(insts.last().op)
    }
}

/// The instructions end no block before they open it.
pub open spec fn rising(insts: Seq<Inst>) -> bool {
    forall|j: int| 0 <= j <= insts.len() ==> height(#[trigger] insts.take(j)) >= 0
}

/// The instructions that are covered by node number `i` of a tree.
pub open spec fn held(insts: Seq<Inst>, tree: TreeView, i: int) -> Seq<Inst> {
    insts.filter(|inst: Inst| covers(tree, i, inst.pos))
}

/// The kind of an open node.
pub open spec fn kind(tree: TreeView, k: int) -> NodeType {
    tree.blocks[tree.stack[k] - 1].node_type
}

/// How many blocks are among the first `count` open nodes. Code portions and `else`
/// parts are none.
pub open spec fn blocks_among(tree: TreeView, count: int) -> int
    decreases count,
{
    if count <= 0 {
        0
    } else {
        let more: int = if kind(tree, count - 1) == NodeType::CODE || kind(tree, count - 1)
            == NodeType::ELSE {
            0
        } else {
            1
        };
        blocks_among(tree, count - 1) + more
    }
}

/// How many blocks are open.
pub open spec fn depth(tree: TreeView) -> int {
    blocks_among(tree, tree.stack.len() as int)
}

/// Only the innermost open node can be a code portion, and the `else` parts lie in
/// their `if` blocks.
pub open spec fn tidy(tree: TreeView) -> bool {
    forall|k: int| 0 <= k < tree.stack.len() ==> #[trigger] tidy_at(tree, k)
}

/// What `tidy` says of one open node.
pub open spec fn tidy_at(tree: TreeView, k: int) -> bool {
    &&& kind(tree, k) == NodeType::CODE ==> tree.code_open && k == tree.stack.len() - 1
    &&& kind(tree, k) == NodeType::ELSE ==> k > 0 && kind(tree, k - 1) == NodeType::IF
}

/// The number of blocks among open nodes of the same kinds is the same.
proof fn lemma_blocks_among_same(first: TreeView, second: TreeView, count: int)
    requires
        forall|k: int| 0 <= k < count ==> #[trigger] kind(first, k) == kind(second, k),
    ensures
        blocks_among(first, count) == blocks_among(second, count),
        blocks_among(first, count) >= 0,
    decreases count,
{
    if count > 0 {
        assert(kind(first, count - 1) == kind(second, count - 1));
        lemma_blocks_among_same(first, second, count - 1);
    }
}

/// The kinds of open nodes after the innermost one has been closed.
proof fn lemma_kinds_closed(tree: TreeView, closed: TreeView, pos: usize)
    requires
        tree::well_formed(tree),
        tree.stack.len() > 0,
        closed.blocks == tree::ended_nodes(pos, tree.stack, tree.blocks),
        closed.stack == tree::popped(tree.stack),
    ensures
        forall|k: int| 0 <= k < closed.stack.len() ==> #[trigger] kind(closed, k) == kind(tree, k),
        depth(tree) == depth(closed) + (if kind(tree, tree.stack.len() - 1) == NodeType::CODE
            || kind(tree, tree.stack.len() - 1) == NodeType::ELSE {
            0int
        } else {
            1int
        }),
        depth(closed) >= 0,
{
    assert(tree.stack[tree.stack.len() - 1] == tree.stack.last());
    assert forall|k: int| 0 <= k < closed.stack.len() implies #[trigger] kind(closed, k) == kind(
        tree,
        k,
    ) by {
        assert(closed.stack[k] == tree.stack[k]);
        assert(1 <= tree.stack[k] <= tree.blocks.len());
    }
    lemma_blocks_among_same(closed, tree, closed.stack.len() as int);
}

/// The kinds of open nodes after one more has been opened.
proof fn lemma_kinds_opened(tree: TreeView, open: TreeView, node_type: NodeType, pos: usize)
    requires
        tree::well_formed(tree),
        tree.blocks.len() < usize::MAX,
        open.blocks == tree.with_open(node_type, pos).blocks,
        open.stack == tree.with_open(node_type, pos).stack,
    ensures
        forall|k: int| 0 <= k < tree.stack.len() ==> #[trigger] kind(open, k) == kind(tree, k),
        kind(open, tree.stack.len() as int) == node_type,
        depth(open) == depth(tree) + (if node_type == NodeType::CODE || node_type
            == NodeType::ELSE {
            0int
        } else {
            1int
        }),
        depth(tree) >= 0,
{
    assert forall|k: int| 0 <= k < tree.stack.len() implies #[trigger] kind(open, k) == kind(
        tree,
        k,
    ) by {
        assert(open.stack[k] == tree.stack[k]);
        assert(1 <= tree.stack[k] <= tree.blocks.len());
    }
    lemma_blocks_among_same(open, tree, tree.stack.len() as int);
    assert(open.stack[tree.stack.len() as int] == tree.blocks.len() + 1);
}

/// The instruction at `inst` is no `else` outside the first part of an `if` block.
pub open spec fn else_fits(tree: TreeView, inst: Inst) -> bool {
    inst.op is Else ==> {
        let mid = tree.without_code(inst.pos);
        mid.stack.len() > 0 && kind(mid, mid.stack.len() - 1) == NodeType::IF
    }
}

/// Every `else` stands in the first part of an `if` block, as in a valid function.
pub open spec fn else_in_if(insts: Seq<Inst>) -> bool {
    forall|n: int|
        0 <= n < insts.len() ==> else_fits(tree::tree_of(insts.take(n)), #[trigger] insts[n])
}

/// The tree without its open code portion is tidy, and as many blocks are open.
proof fn lemma_without_code_tidy(tree: TreeView, pos: usize)
    requires
        tree::well_formed(tree),
        tidy(tree),
    ensures
        tidy(tree.without_code(pos)),
        depth(tree.without_code(pos)) == depth(tree),
{
    let mid = tree.without_code(pos);
    if tree.code_open {
        lemma_kinds_closed(tree, mid, (pos - 1) as usize);
        assert(tree.stack[tree.stack.len() - 1] == tree.stack.last());
        assert forall|k: int| 0 <= k < mid.stack.len() implies #[trigger] tidy_at(mid, k) by {
            assert(tidy_at(tree, k));
            assert(kind(mid, k) == kind(tree, k));
            if k > 0 {
                assert(kind(mid, k - 1) == kind(tree, k - 1));
            }
        }
    }
}

/// How many blocks are open after the end of one, if there is one.
proof fn lemma_ended_tidy(tree: TreeView, pos: usize)
    requires
        tree::well_formed(tree),
        tree::bounded(tree, pos),
        tidy(tree),
        !tree.code_open,
    ensures
        tidy(tree.with_ended(pos)),
        tree.stack.len() > 0 ==> depth(tree) >= 1 && depth(tree.with_ended(pos)) == depth(tree) - 1,
        tree.stack.len() == 0 ==> tree.with_ended(pos) == tree && depth(tree) == 0,
{
    let ended = tree.with_ended(pos);
    let count = tree.stack.len() as int;
    if count > 0 {
        assert(tree.stack[count - 1] == tree.stack.last());
        let once = tree.with_closed(pos);
        lemma_kinds_closed(tree, once, pos);
        assert(tidy_at(tree, count - 1));
        if tree.in_else() {
            assert(kind(tree, count - 1) == NodeType::ELSE);
            tree::lemma_close_well_formed(tree, pos);
            assert(kind(once, count - 2) == kind(tree, count - 2));
            lemma_kinds_closed(once, ended, pos);
        }
        assert forall|k: int| 0 <= k < ended.stack.len() implies #[trigger] tidy_at(ended, k) by {
            assert(tidy_at(tree, k));
            assert(kind(once, k) == kind(tree, k));
            assert(kind(ended, k) == kind(tree, k));
            if k > 0 {
                assert(kind(once, k - 1) == kind(tree, k - 1));
                assert(kind(ended, k - 1) == kind(tree, k - 1));
            }
        }
    } else {
        assert(ended =~= tree);
    }
}

/// A tree stays tidy when a node is opened, if an `else` part is opened in an `if`
/// block.
proof fn lemma_opened_tidy(tree: TreeView, open: TreeView, node_type: NodeType, pos: usize)
    requires
        tree::well_formed(tree),
        tidy(tree),
        tree.blocks.len() < usize::MAX,
        !tree.code_open,
        open.blocks == tree.with_open(node_type, pos).blocks,
        open.stack == tree.with_open(node_type, pos).stack,
        open.code_open == (node_type == NodeType::CODE),
        node_type == NodeType::ELSE ==> tree.stack.len() > 0 && kind(tree, tree.stack.len() - 1)
            == NodeType::IF,
    ensures
        tidy(open),
{
    lemma_kinds_opened(tree, open, node_type, pos);
    assert forall|k: int| 0 <= k < open.stack.len() implies #[trigger] tidy_at(open, k) by {
        if k < tree.stack.len() {
            assert(tidy_at(tree, k));
            assert(kind(open, k) == kind(tree, k));
        }
        if 0 < k <= tree.stack.len() {
            assert(kind(open, k - 1) == kind(tree, k - 1));
        }
    }
}

/// The kind of node that an instruction opens. All that are not listed belong to a
/// code portion.
pub open spec fn opens(op: Operator) -> NodeType {
    match op {
        Operator::Block => NodeType::BLOCK,
        Operator::Loop => NodeType::LOOP,
        Operator::If => NodeType::IF,
        Operator::Else => NodeType::ELSE,
        _ => NodeType::CODE,
    }
}

/// A tree stays tidy, and the number of open blocks follows the nesting, unless the
/// instruction closes the function body.
proof fn lemma_step_tidy(tree: TreeView, inst: Inst, before: usize)
    requires
        tree::well_formed(tree),
        tree::bounded(tree, before),
        tree.blocks.len() > 0 ==> before < inst.pos,
        tree.blocks.len() < usize::MAX,
        tidy(tree),
        else_fits(tree, inst),
    ensures
        tidy(tree.step(inst)),
        depth(tree) >= 0,
        !(inst.op is End && tree.without_code(inst.pos).stack.len() == 0) ==> depth(tree.step(inst))
            == depth(tree) + machine::nesting(inst.op),
        inst.op is End && tree.without_code(inst.pos).stack.len() > 0 ==> depth(tree) >= 1,
        inst.op is End && tree.without_code(inst.pos).stack.len() == 0 ==> depth(tree) == 0,
{
    let pos = inst.pos;
    let mid = tree.without_code(pos);
    lemma_without_code_tidy(tree, pos);
    tree::lemma_without_code_well_formed(tree, pos, before);
    lemma_blocks_among_same(tree, tree, tree.stack.len() as int);
    if inst.op is End {
        lemma_ended_tidy(mid, pos);
    } else if inst.op is Block || inst.op is Loop || inst.op is If || inst.op is Else {
        let open = mid.with_open(opens(inst.op), pos);
        lemma_kinds_opened(mid, open, opens(inst.op), pos);
        lemma_opened_tidy(mid, open, opens(inst.op), pos);
    } else if !tree.code_open {
        let open = tree.with_code(pos);
        lemma_kinds_opened(tree, open, NodeType::CODE, pos);
        lemma_opened_tidy(tree, open, NodeType::CODE, pos);
    } else {
        let next = tree.with_code(pos);
        assert forall|k: int| 0 <= k < tree.stack.len() implies #[trigger] kind(next, k) == kind(
            tree,
            k,
        ) by {}
        lemma_blocks_among_same(next, tree, tree.stack.len() as int);
        assert(tidy(next)) by {
            assert forall|k: int| 0 <= k < next.stack.len() implies #[trigger] tidy_at(next, k) by {
                assert(tidy_at(tree, k));
                assert(kind(tree, k) == kind(next, k));
                if k > 0 {
                    assert(kind(tree, k - 1) == kind(next, k - 1));
                }
            }
        }
    }
}

/// The tree of a function whose `else` parts lie in their `if` blocks is tidy.
proof fn lemma_tree_tidy(insts: Seq<Inst>)
    requires
        tree::ordered(insts),
        insts.len() <= usize::MAX,
        else_in_if(insts),
    ensures
        tidy(tree::tree_of(insts)),
    decreases insts.len(),
{
    if insts.len() > 0 {
        let init = insts.drop_last();
        lemma_prefix(insts);
        lemma_tree_tidy(init);
        lemma_last_step(insts);
    }
}

/// What holds of a function holds without its last instruction.
proof fn lemma_prefix(insts: Seq<Inst>)
    requires
        tree::ordered(insts),
        insts.len() > 0,
        else_in_if(insts),
    ensures
        tree::ordered(insts.drop_last()),
        else_in_if(insts.drop_last()),
        else_fits(tree::tree_of(insts.drop_last()), insts.last()),
{
    let init = insts.drop_last();
    assert forall|n: int| 0 <= n < init.len() implies else_fits(
        tree::tree_of(init.take(n)),
        #[trigger] init[n],
    ) by {
        assert(init[n] == insts[n]);
        assert(init.take(n) =~= insts.take(n));
    }
    assert(insts[insts.len() - 1] == insts.last());
    assert(insts.take(insts.len() - 1) =~= init);
}

/// The last instruction of a function, added to the tree of those before it.
proof fn lemma_last_step(insts: Seq<Inst>)
    requires
        tree::ordered(insts),
        0 < insts.len() <= usize::MAX,
        else_in_if(insts),
        tidy(tree::tree_of(insts.drop_last())),
    ensures
        ({
            let tree = tree::tree_of(insts.drop_last());
            let inst = insts.last();
            let next = tree::tree_of(insts);
            &&& tidy(next)
            &&& depth(tree) >= 0
            &&& !(inst.op is End && tree.without_code(inst.pos).stack.len() == 0) ==> depth(next)
                == depth(tree) + machine::nesting(inst.op)
            &&& inst.op is End && tree.without_code(inst.pos).stack.len() > 0 ==> depth(tree) >= 1
            &&& inst.op is End && tree.without_code(inst.pos).stack.len() == 0 ==> depth(tree) == 0
        }),
{
    let init = insts.drop_last();
    lemma_prefix(insts);
    tree::lemma_tree_well_formed(init);
    let before = if init.len() > 0 {
        init.last().pos
    } else {
        insts.last().pos
    };
    if init.len() > 0 {
        assert(insts[init.len() - 1].pos < insts[insts.len() - 1].pos);
    }
    lemma_step_tidy(tree::tree_of(init), insts.last(), before);
}

/// The node is the outermost open one.
pub open spec fn is_open(tree: TreeView, i: int) -> bool {
    tree.stack.len() > 0 && i == tree.stack[0] - 1
}

/// The node ends as many blocks as it opens, or, while it is open, leaves open
/// those that are.
pub open spec fn node_balanced(insts: Seq<Inst>, tree: TreeView, i: int) -> bool {
    &&& rising(held(insts, tree, i))
    &&& height(held(insts, tree, i)) == (if is_open(tree, i) {
        depth(tree)
    } else {
        0
    })
}

/// All nodes outside any block are balanced.
pub open spec fn all_balanced(insts: Seq<Inst>, tree: TreeView) -> bool {
    forall|i: int|
        0 <= i < tree.blocks.len() && (#[trigger] tree.blocks[i]).outer == 0 ==> node_balanced(
            insts,
            tree,
            i,
        )
}

/// Filters that agree on all elements keep the same ones.
pub(crate) proof fn lemma_same_filter(insts: Seq<Inst>, f: spec_fn(Inst) -> bool, g: spec_fn(Inst) -> bool)
    requires
        forall|n: int| 0 <= n < insts.len() ==> f(#[trigger] insts[n]) == g(insts[n]),
    ensures
        insts.filter(f) == insts.filter(g),
    decreases insts.len(),
{
    reveal(Seq::filter);
    if insts.len() > 0 {
        let init = insts.drop_last();
        assert forall|n: int| 0 <= n < init.len() implies f(#[trigger] init[n]) == g(init[n]) by {
            assert(init[n] == insts[n]);
        }
        lemma_same_filter(init, f, g);
        assert(f(insts[insts.len() - 1]) == g(insts[insts.len() - 1]));
    }
}

/// One more instruction at the end.
proof fn lemma_rising_push(insts: Seq<Inst>, inst: Inst)
    requires
        rising(insts),
        height(insts) + machine::nesting(inst.op) >= 0,
    ensures
        rising(insts.push(inst)),
        height(insts.push(inst)) == height(insts) + machine::nesting(inst.op),
{
    let more = insts.push(inst);
    assert(more.drop_last() =~= insts);
    assert forall|j: int| 0 <= j <= more.len() implies height(#[trigger] more.take(j)) >= 0 by {
        if j < more.len() {
            assert(more.take(j) =~= insts.take(j));
        } else {
            assert(more.take(j) =~= more);
        }
    }
}

/// An open code portion lies at the depth of the open blocks, and a node that
/// stays covered gets one more instruction.
proof fn lemma_held_step(insts: Seq<Inst>, tree: TreeView, next: TreeView, inst: Inst, i: int)
    requires
        forall|n: int|
            0 <= n < insts.len() ==> covers(next, i, (#[trigger] insts[n]).pos) == covers(
                tree,
                i,
                insts[n].pos,
            ),
    ensures
        held(insts.push(inst), next, i) == (if covers(next, i, inst.pos) {
            held(insts, tree, i).push(inst)
        } else {
            held(insts, tree, i)
        }),
{
    reveal(Seq::filter);
    lemma_same_filter(
        insts,
        |x: Inst| covers(next, i, x.pos),
        |x: Inst| covers(tree, i, x.pos),
    );
    assert(insts.push(inst).drop_last() =~= insts);
}

/// The balance of a node after an instruction that it covers.
proof fn lemma_covered_balance(
    insts: Seq<Inst>,
    tree: TreeView,
    next: TreeView,
    inst: Inst,
    i: int,
)
    requires
        node_balanced(insts, tree, i),
        is_open(tree, i),
        forall|n: int|
            0 <= n < insts.len() ==> covers(next, i, (#[trigger] insts[n]).pos) == covers(
                tree,
                i,
                insts[n].pos,
            ),
        covers(next, i, inst.pos),
        depth(tree) + machine::nesting(inst.op) >= 0,
        depth(tree) + machine::nesting(inst.op) == (if is_open(next, i) {
            depth(next)
        } else {
            0
        }),
    ensures
        node_balanced(insts.push(inst), next, i),
{
    lemma_held_step(insts, tree, next, inst, i);
    lemma_rising_push(held(insts, tree, i), inst);
}

/// The balance of a node after an instruction that it does not cover.
proof fn lemma_uncovered_balance(
    insts: Seq<Inst>,
    tree: TreeView,
    next: TreeView,
    inst: Inst,
    i: int,
)
    requires
        node_balanced(insts, tree, i),
        forall|n: int|
            0 <= n < insts.len() ==> covers(next, i, (#[trigger] insts[n]).pos) == covers(
                tree,
                i,
                insts[n].pos,
            ),
        !covers(next, i, inst.pos),
        !is_open(next, i),
        is_open(tree, i) ==> depth(tree) == 0,
    ensures
        node_balanced(insts.push(inst), next, i),
{
    lemma_held_step(insts, tree, next, inst, i);
}

/// The balance of a node that an instruction opens.
proof fn lemma_new_balance(insts: Seq<Inst>, next: TreeView, inst: Inst, i: int)
    requires
        forall|n: int|
            0 <= n < insts.len() ==> !covers(next, i, (#[trigger] insts[n]).pos),
        covers(next, i, inst.pos),
        is_open(next, i),
        depth(next) == machine::nesting(inst.op),
        depth(next) >= 0,
    ensures
        node_balanced(insts.push(inst), next, i),
{
    reveal(Seq::filter);
    let none = |x: Inst| false;
    lemma_same_filter(insts, |x: Inst| covers(next, i, x.pos), none);
    lemma_filter_none(insts);
    assert(insts.push(inst).drop_last() =~= insts);
    let empty = Seq::<Inst>::empty();
    assert(held(insts.push(inst), next, i) == empty.push(inst));
    assert(rising(empty)) by {
        assert forall|j: int| 0 <= j <= empty.len() implies height(#[trigger] empty.take(j))
            >= 0 by {
            assert(empty.take(j) =~= empty);
        }
    }
    lemma_rising_push(empty, inst);
}

/// A filter that refuses all keeps nothing.
proof fn lemma_filter_none(insts: Seq<Inst>)
    ensures
        insts.filter(|x: Inst| false) == Seq::<Inst>::empty(),
    decreases insts.len(),
{
    reveal(Seq::filter);
    if insts.len() > 0 {
        lemma_filter_none(insts.drop_last());
    }
    assert(insts.filter(|x: Inst| false) =~= Seq::<Inst>::empty());
}

/// The balance of all nodes after a node has been opened by an instruction.
proof fn lemma_open_balance(
    insts: Seq<Inst>,
    tree: TreeView,
    next: TreeView,
    node_type: NodeType,
    inst: Inst,
)
    requires
        tree::well_formed(tree),
        laid_out(tree),
        all_balanced(insts, tree),
        tree.blocks.len() < usize::MAX,
        ends_before(tree, inst.pos),
        forall|n: int| 0 <= n < insts.len() ==> (#[trigger] insts[n]).pos < inst.pos,
        !tree.code_open,
        next.blocks == tree.with_open(node_type, inst.pos).blocks,
        next.stack == tree.with_open(node_type, inst.pos).stack,
        depth(next) == depth(tree) + machine::nesting(inst.op),
        machine::nesting(inst.op) >= 0,
    ensures
        all_balanced(insts.push(inst), next),
{
    let count = tree.blocks.len() as int;
    lemma_blocks_among_same(tree, tree, tree.stack.len() as int);
    if tree.stack.len() > 0 {
        partition::lemma_outermost(tree);
        assert(tree.stack[0] == next.stack[0]);
        assert(tree.stack[tree.stack.len() - 1] == tree.stack.last());
        assert(next.blocks[count].outer == tree.stack.last());
    } else {
        assert(next.stack[0] == count + 1);
    }
    assert forall|i: int| 0 <= i < next.blocks.len() && (#[trigger] next.blocks[i]).outer
        == 0 implies node_balanced(insts.push(inst), next, i) by {
        if i < count {
            assert(next.blocks[i] == tree.blocks[i]);
            assert(is_open(next, i) == is_open(tree, i));
            assert forall|n: int| 0 <= n < insts.len() implies covers(
                next,
                i,
                (#[trigger] insts[n]).pos,
            ) == covers(tree, i, insts[n].pos) by {}
            if is_open(tree, i) {
                lemma_covered_balance(insts, tree, next, inst, i);
            } else {
                lemma_uncovered_balance(insts, tree, next, inst, i);
            }
        } else {
            assert forall|n: int| 0 <= n < insts.len() implies !covers(
                next,
                i,
                (#[trigger] insts[n]).pos,
            ) by {}
            lemma_new_balance(insts, next, inst, i);
        }
    }
}

/// The balance of all nodes after an open code portion has been closed.
proof fn lemma_without_code_balance(insts: Seq<Inst>, tree: TreeView, pos: usize)
    requires
        tree::well_formed(tree),
        laid_out(tree),
        all_balanced(insts, tree),
        tidy(tree),
        tree.code_open,
        ends_before(tree, pos),
        forall|n: int| 0 <= n < insts.len() ==> (#[trigger] insts[n]).pos < pos,
    ensures
        all_balanced(insts, tree.without_code(pos)),
{
    let mid = tree.without_code(pos);
    partition::lemma_outermost(tree);
    assert(tree.stack[tree.stack.len() - 1] == tree.stack.last());
    let last = tree.stack.last() - 1;
    lemma_without_code_tidy(tree, pos);
    if tree.stack.len() > 1 {
        assert(mid.stack[0] == tree.stack[0]);
        let below = tree.stack.take(tree.stack.len() - 1);
        assert(below.last() == tree.stack[tree.stack.len() - 2]);
        assert(tree.blocks[last].outer == below.last());
    }
    assert forall|i: int| 0 <= i < mid.blocks.len() && (#[trigger] mid.blocks[i]).outer
        == 0 implies node_balanced(insts, mid, i) by {
        assert(tree.blocks[i].outer == 0);
        assert(node_balanced(insts, tree, i));
        assert forall|n: int| 0 <= n < insts.len() implies covers(mid, i, (#[trigger] insts[n]).pos)
            == covers(tree, i, insts[n].pos) by {}
        lemma_same_filter(
            insts,
            |x: Inst| covers(mid, i, x.pos),
            |x: Inst| covers(tree, i, x.pos),
        );
        assert(held(insts, mid, i) == held(insts, tree, i));
    }
}

/// A node covers the same instructions after the innermost open one has been closed
/// behind them.
proof fn lemma_covers_closed(insts: Seq<Inst>, tree: TreeView, pos: usize, i: int)
    requires
        tree::well_formed(tree),
        laid_out(tree),
        forall|n: int| 0 <= n < insts.len() ==> (#[trigger] insts[n]).pos < pos,
        0 <= i < tree.blocks.len(),
        tree.blocks[i].outer == 0,
    ensures
        forall|n: int|
            0 <= n < insts.len() ==> covers(tree.with_closed(pos), i, (#[trigger] insts[n]).pos)
                == covers(tree, i, insts[n].pos),
        covers(tree, i, pos) && is_open(tree, i) ==> covers(tree.with_closed(pos), i, pos),
        is_open(tree.with_closed(pos), i) ==> is_open(tree, i),
        is_open(tree, i) && tree.stack.len() > 1 ==> is_open(tree.with_closed(pos), i),
        tree.with_closed(pos).blocks.len() == tree.blocks.len(),
        tree.with_closed(pos).blocks[i].outer == 0,
        tree.with_closed(pos).blocks[i].start_inst == tree.blocks[i].start_inst,
        !is_open(tree, i) ==> tree.with_closed(pos).blocks[i].end_inst == tree.blocks[i].end_inst,
        is_open(tree, i) && tree.stack.len() == 1 ==> tree.with_closed(pos).blocks[i].end_inst == pos,
{
    let next = tree.with_closed(pos);
    if tree.stack.len() > 0 {
        partition::lemma_outermost(tree);
        let count = tree.stack.len() as int;
        assert(tree.stack[count - 1] == tree.stack.last());
        let last = tree.stack.last() - 1;
        if count > 1 {
            assert(next.stack[0] == tree.stack[0]);
            let below = tree.stack.take(count - 1);
            assert(below.last() == tree.stack[count - 2]);
            assert(tree.blocks[last].outer == below.last());
            assert(tree.stack[0] < tree.stack[count - 1]);
        }
    }
}

/// The balance of all nodes after a block has been ended by an instruction.
proof fn lemma_end_balance(insts: Seq<Inst>, tree: TreeView, inst: Inst)
    requires
        tree::well_formed(tree),
        laid_out(tree),
        tidy(tree),
        all_balanced(insts, tree),
        ends_before(tree, inst.pos),
        forall|n: int| 0 <= n < insts.len() ==> (#[trigger] insts[n]).pos < inst.pos,
        !tree.code_open,
        inst.op is End,
    ensures
        all_balanced(insts.push(inst), tree.with_ended(inst.pos)),
{
    let pos = inst.pos;
    let once = tree.with_closed(pos);
    let next = tree.with_ended(pos);
    assert(tree::bounded(tree, pos));
    tree::lemma_close_well_formed(tree, pos);
    lemma_ended_tidy(tree, pos);
    if tree.stack.len() > 0 {
        partition::lemma_outermost(tree);
        partition::lemma_close_laid_out(tree, once, pos);
        assert(tree.stack[tree.stack.len() - 1] == tree.stack.last());
        assert(next.blocks.len() == tree.blocks.len());
        assert forall|i: int| 0 <= i < next.blocks.len() && (#[trigger] next.blocks[i]).outer
            == 0 implies node_balanced(insts.push(inst), next, i) by {
            assert(tree.blocks[i].outer == 0) by {
                assert(once.blocks[i].outer == tree.blocks[i].outer);
                assert(next.blocks[i].outer == once.blocks[i].outer);
            }
            lemma_covers_closed(insts, tree, pos, i);
            lemma_covers_closed(insts, once, pos, i);
            assert(node_balanced(insts, tree, i));
            if is_open(tree, i) {
                assert(covers(tree, i, pos));
                assert(covers(once, i, pos));
                assert(covers(next, i, pos));
                if next.stack.len() == 0 {
                    lemma_blocks_among_same(next, next, 0);
                    assert(depth(next) == 0);
                }
                lemma_covered_balance(insts, tree, next, inst, i);
            } else {
                lemma_uncovered_balance(insts, tree, next, inst, i);
            }
        }
    } else {
        assert forall|i: int| 0 <= i < next.blocks.len() && (#[trigger] next.blocks[i]).outer
            == 0 implies node_balanced(insts.push(inst), next, i) by {
            assert(node_balanced(insts, tree, i));
            lemma_uncovered_balance(insts, tree, next, inst, i);
        }
    }
}

/// The balance of all nodes after an instruction.
proof fn lemma_step_balance(insts: Seq<Inst>, tree: TreeView, inst: Inst)
    requires
        tree::well_formed(tree),
        laid_out(tree),
        tidy(tree),
        else_fits(tree, inst),
        all_balanced(insts, tree),
        tree.blocks.len() < usize::MAX,
        ends_before(tree, inst.pos),
        forall|n: int| 0 <= n < insts.len() ==> (#[trigger] insts[n]).pos < inst.pos,
    ensures
        all_balanced(insts.push(inst), tree.step(inst)),
{
    let pos = inst.pos;
    let mid = tree.without_code(pos);
    let opening = inst.op is Block || inst.op is Loop || inst.op is If || inst.op is Else;
    lemma_without_code_tidy(tree, pos);
    if opening || inst.op is End {
        partition::lemma_without_code_well_formed(tree, pos);
        if tree.code_open {
            assert(tree.stack[tree.stack.len() - 1] == tree.stack.last());
            partition::lemma_close_laid_out(tree, mid, (pos - 1) as usize);
            lemma_without_code_balance(insts, tree, pos);
        }
        assert(ends_before(mid, pos));
        if inst.op is End {
            lemma_end_balance(insts, mid, inst);
        } else {
            let node_type = opens(inst.op);
            let open = mid.with_open(node_type, pos);
            lemma_kinds_opened(mid, open, node_type, pos);
            lemma_open_balance(insts, mid, open, node_type, inst);
        }
    } else if tree.code_open {
        let next = tree.with_code(pos);
        partition::lemma_outermost(tree);
        assert forall|k: int| 0 <= k < tree.stack.len() implies #[trigger] kind(next, k) == kind(
            tree,
            k,
        ) by {}
        lemma_blocks_among_same(next, tree, tree.stack.len() as int);
        assert forall|i: int| 0 <= i < next.blocks.len() && (#[trigger] next.blocks[i]).outer
            == 0 implies node_balanced(insts.push(inst), next, i) by {
            assert(tree.blocks[i].outer == 0);
            assert forall|n: int| 0 <= n < insts.len() implies covers(
                next,
                i,
                (#[trigger] insts[n]).pos,
            ) == covers(tree, i, insts[n].pos) by {}
            if is_open(tree, i) {
                lemma_covered_balance(insts, tree, next, inst, i);
            } else {
                lemma_uncovered_balance(insts, tree, next, inst, i);
            }
        }
    } else {
        lemma_kinds_opened(tree, tree.with_code(pos), NodeType::CODE, pos);
        lemma_open_balance(insts, tree, tree.with_code(pos), NodeType::CODE, inst);
    }
}

/// The balance of all nodes of a function.
proof fn lemma_tree_balanced(insts: Seq<Inst>)
    requires
        tree::ordered(insts),
        insts.len() <= usize::MAX,
        else_in_if(insts),
    ensures
        all_balanced(insts, tree::tree_of(insts)),
    decreases insts.len(),
{
    if insts.len() > 0 {
        let init = insts.drop_last();
        let last = insts.last();
        lemma_prefix(insts);
        lemma_tree_balanced(init);
        lemma_tree_tidy(init);
        partition::lemma_tree_laid_out(init);
        tree::lemma_tree_well_formed(init);
        let tree = tree::tree_of(init);
        assert(ends_before(tree, last.pos)) by {
            if init.len() > 0 {
                assert(insts[init.len() - 1].pos < insts[insts.len() - 1].pos);
            }
        }
        assert forall|n: int| 0 <= n < init.len() implies (#[trigger] init[n]).pos < last.pos by {
            assert(init[n] == insts[n]);
            assert(insts[n].pos < insts[insts.len() - 1].pos);
        }
        lemma_step_balance(init, tree, last);
        assert(init.push(last) =~= insts);
    }
}

/// Each region of a function ends exactly the blocks that it opens, and none before
/// it is opened.
pub proof fn law_regions_balanced(insts: Seq<Inst>)
    requires
        tree::ordered(insts),
        insts.len() <= usize::MAX,
        else_in_if(insts),
        tree::block_tree(insts) is Ok,
    ensures
        ({
            let nodes = regions::top_level(tree::tree_of(insts).blocks);
            forall|k: int|
                0 <= k < nodes.len() ==> rising(
                    partition::region_insts(insts, #[trigger] nodes[k]),
                ) && height(partition::region_insts(insts, nodes[k])) == 0
        }),
{
    let tree = tree::tree_of(insts);
    let nodes = regions::top_level(tree.blocks);
    lemma_tree_balanced(insts);
    partition::lemma_tree_laid_out(insts);
    tree::lemma_tree_well_formed(insts);
    partition::lemma_top_level_order(tree.blocks);
    assert forall|k: int| 0 <= k < nodes.len() implies rising(
        partition::region_insts(insts, #[trigger] nodes[k]),
    ) && height(partition::region_insts(insts, nodes[k])) == 0 by {
        let i = nodes[k].index - 1;
        assert(tree.blocks[i] == nodes[k]);
        assert(node_balanced(insts, tree, i));
        lemma_same_filter(
            insts,
            |x: Inst| covers(tree, i, x.pos),
            |x: Inst| partition::in_region(nodes[k], x),
        );
    }
}

/// The instructions are those of a function body: they end no block before they
/// open it, but for the last one, which ends the body.
pub open spec fn is_body(insts: Seq<Inst>) -> bool {
    &&& insts.len() > 0
    &&& rising(insts.drop_last())
    &&& height(insts.drop_last()) == 0
    &&& insts.last().op is End
}

/// As long as the instructions end no block before they open it, none of them
/// closes the function body, and as many blocks are open as were opened and not
/// ended.
proof fn lemma_rising_depth(insts: Seq<Inst>)
    requires
        tree::ordered(insts),
        insts.len() <= usize::MAX,
        else_in_if(insts),
        rising(insts),
    ensures
        depth(tree::tree_of(insts)) == height(insts),
        forall|n: int| 0 <= n < insts.len() ==> !#[trigger] partition::closes_body(insts, n),
    decreases insts.len(),
{
    if insts.len() > 0 {
        let init = insts.drop_last();
        let inst = insts.last();
        lemma_prefix(insts);
        assert(rising(init)) by {
            assert forall|j: int| 0 <= j <= init.len() implies height(#[trigger] init.take(j))
                >= 0 by {
                assert(init.take(j) =~= insts.take(j));
            }
        }
        lemma_rising_depth(init);
        lemma_tree_tidy(init);
        lemma_last_step(insts);
        assert(height(insts) >= 0) by {
            assert(insts.take(insts.len() as int) =~= insts);
            assert(height(insts.take(insts.len() as int)) >= 0);
        }
        assert forall|n: int| 0 <= n < insts.len() implies !#[trigger] partition::closes_body(
            insts,
            n,
        ) by {
            assert(insts.take(n) =~= init.take(n));
            if n < init.len() {
                assert(init[n] == insts[n]);
                assert(!partition::closes_body(init, n));
            } else {
                assert(insts.take(n) =~= init);
                assert(insts[n] == inst);
            }
        }
    }
}

/// Of a function body only the final `end` closes the body, and all its blocks are
/// closed.
pub proof fn law_final_end_closes(insts: Seq<Inst>)
    requires
        tree::ordered(insts),
        insts.len() <= usize::MAX,
        else_in_if(insts),
        is_body(insts),
    ensures
        tree::block_tree(insts) is Ok,
        forall|n: int|
            0 <= n < insts.len() ==> #[trigger] partition::closes_body(insts, n) == (n
                == insts.len() - 1),
{
    let init = insts.drop_last();
    let inst = insts.last();
    lemma_prefix(insts);
    lemma_rising_depth(init);
    lemma_tree_tidy(init);
    lemma_last_step(insts);
    let tree = tree::tree_of(init);
    let mid = tree.without_code(inst.pos);
    assert(insts.take(insts.len() - 1) =~= init);
    assert(mid.with_ended(inst.pos) =~= mid);
    assert forall|n: int| 0 <= n < insts.len() implies #[trigger] partition::closes_body(insts, n)
        == (n == insts.len() - 1) by {
        if n < init.len() {
            assert(insts.take(n) =~= init.take(n));
            assert(init[n] == insts[n]);
            assert(!partition::closes_body(init, n));
        }
    }
}

/// A region begins with instruction number `n`: no block is open there, and the
/// instruction opens one, or is the first of a portion of code, which stands at the start
/// of the body or behind the end of a block.
pub open spec fn begins_region(insts: Seq<Inst>, n: int) -> bool {
    &&& height(insts.take(n)) == 0
    &&& !(insts[n].op is End)
    &&& insts[n].op is Block || insts[n].op is Loop || insts[n].op is If || n == 0
        || insts[n - 1].op is End
}

/// A node outside any block starts at a position.
pub open spec fn starts_at(tree: TreeView, pos: usize) -> bool {
    exists|i: int| #[trigger] is_start(tree, i, pos)
}

/// Node number `i` lies outside any block and starts at a position.
pub open spec fn is_start(tree: TreeView, i: int, pos: usize) -> bool {
    0 <= i < tree.blocks.len() && tree.blocks[i].outer == 0 && tree.blocks[i].start_inst == pos
}

/// More open nodes hold no fewer blocks.
proof fn lemma_blocks_among_rise(tree: TreeView, from: int, to: int)
    requires
        0 <= from <= to,
    ensures
        blocks_among(tree, from) <= blocks_among(tree, to),
    decreases to - from,
{
    if from < to {
        lemma_blocks_among_rise(tree, from, to - 1);
    }
}

/// Without an open code portion, no node is open exactly if no block is.
proof fn lemma_none_open(tree: TreeView)
    requires
        tidy(tree),
        !tree.code_open,
    ensures
        (tree.stack.len() == 0) == (depth(tree) == 0),
{
    if tree.stack.len() > 0 {
        assert(tidy_at(tree, 0));
        assert(blocks_among(tree, 0) == 0);
        assert(blocks_among(tree, 1) == 1);
        lemma_blocks_among_rise(tree, 1, tree.stack.len() as int);
    }
}

/// One more instruction starts at most one node, and leaves the starts of the others.
proof fn lemma_step_starts(tree: TreeView, inst: Inst, pos: usize)
    requires
        tree::well_formed(tree),
        pos != inst.pos,
    ensures
        starts_at(tree.step(inst), pos) == starts_at(tree, pos),
{
    let next = tree.step(inst);
    assert(tree.stack.len() > 0 ==> tree.stack[tree.stack.len() - 1] == tree.stack.last());
    assert(tree.stack.len() > 1 ==> 1 <= tree.stack[tree.stack.len() - 2] <= tree.blocks.len());
    assert(tree.stack.len() > 2 ==> 1 <= tree.stack[tree.stack.len() - 3] <= tree.blocks.len());
    assert forall|i: int| 0 <= i < tree.blocks.len() implies (#[trigger] next.blocks[i]).outer
        == tree.blocks[i].outer && next.blocks[i].start_inst == tree.blocks[i].start_inst by {}
    assert(next.blocks.len() == tree.blocks.len() || (next.blocks.len() == tree.blocks.len() + 1
        && next.blocks[tree.blocks.len() as int].start_inst == inst.pos));
    if starts_at(tree, pos) {
        let i = choose|i: int| #[trigger] is_start(tree, i, pos);
        assert(is_start(next, i, pos));
    }
    if starts_at(next, pos) {
        let i = choose|i: int| #[trigger] is_start(next, i, pos);
        assert(is_start(tree, i, pos));
    }
}

/// The instruction is none that opens or ends a block.
pub open spec fn is_plain(op: Operator) -> bool {
    !(op is Block || op is Loop || op is If || op is Else || op is End)
}

/// One more instruction starts a node outside any block if no block is open and it opens
/// one, or a portion of code.
#[verifier::rlimit(30)]
proof fn lemma_new_start(tree: TreeView, inst: Inst, before: usize)
    requires
        tree::well_formed(tree),
        tidy(tree),
        else_fits(tree, inst),
        tree::bounded(tree, before),
        tree.blocks.len() > 0 ==> before < inst.pos,
        tree.blocks.len() < usize::MAX,
    ensures
        starts_at(tree.step(inst), inst.pos) == (depth(tree) == 0 && (inst.op is Block
            || inst.op is Loop || inst.op is If || (is_plain(inst.op) && !tree.code_open))),
        inst.op is Else ==> depth(tree) != 0,
{
    let mid = tree.without_code(inst.pos);
    let next = tree.step(inst);
    let count = tree.blocks.len() as int;
    lemma_without_code_tidy(tree, inst.pos);
    tree::lemma_without_code_well_formed(tree, inst.pos, before);
    lemma_none_open(mid);
    assert(mid.stack.len() > 0 ==> mid.stack[mid.stack.len() - 1] == mid.stack.last());
    assert(mid.stack.len() > 1 ==> 1 <= mid.stack[mid.stack.len() - 2] <= mid.blocks.len());
    assert(mid.blocks.len() == count);
    assert forall|i: int| 0 <= i < count implies (#[trigger] next.blocks[i]).start_inst
        < inst.pos by {
        assert(tree.blocks[i].start_inst <= tree.blocks[i].end_inst);
        assert(mid.blocks[i].start_inst == tree.blocks[i].start_inst);
    }
    if next.blocks.len() > count {
        assert(next.blocks.len() == count + 1);
        assert(next.blocks[count].start_inst == inst.pos);
        assert(next.blocks[count].outer == tree::innermost(mid.stack));
        if mid.stack.len() == 0 {
            assert(is_start(next, count, inst.pos));
        }
    }
    if starts_at(next, inst.pos) {
        let i = choose|i: int| #[trigger] is_start(next, i, inst.pos);
        assert(i == count);
    }
}

/// The regions of a piece of a function begin where they should.
proof fn lemma_starts(insts: Seq<Inst>, n: int)
    requires
        tree::ordered(insts),
        insts.len() <= usize::MAX,
        else_in_if(insts),
        rising(insts),
        0 <= n < insts.len(),
    ensures
        starts_at(tree::tree_of(insts), insts[n].pos) == begins_region(insts, n),
    decreases insts.len(),
{
    let init = insts.drop_last();
    let inst = insts.last();
    let tree = tree::tree_of(init);
    lemma_prefix(insts);
    assert forall|j: int| 0 <= j <= init.len() implies height(#[trigger] init.take(j)) >= 0 by {
        assert(init.take(j) =~= insts.take(j));
    }
    tree::lemma_tree_well_formed(init);
    if n < init.len() {
        lemma_starts(init, n);
        assert(init.take(n) =~= insts.take(n));
        assert(insts[n].pos < insts[insts.len() - 1].pos);
        lemma_step_starts(tree, inst, insts[n].pos);
    } else {
        assert(insts.take(n) =~= init);
        lemma_rising_depth(init);
        lemma_tree_tidy(init);
        if init.len() > 0 {
            assert(init.last() == insts[n - 1]);
            assert(insts[n - 1].pos < insts[n].pos);
            lemma_new_start(tree, inst, init.last().pos);
            lemma_after_opening(init);
        } else {
            lemma_new_start(tree, inst, inst.pos);
        }
    }
}

/// A portion of code is open exactly behind an instruction that belongs to one, and
/// behind one that opens a block or an `else` part a block is open.
proof fn lemma_after_opening(insts: Seq<Inst>)
    requires
        tree::ordered(insts),
        0 < insts.len() <= usize::MAX,
        else_in_if(insts),
    ensures
        tree::tree_of(insts).code_open == is_plain(insts.last().op),
        !is_plain(insts.last().op) && !(insts.last().op is End) ==> depth(tree::tree_of(insts))
            != 0,
{
    let tree = tree::tree_of(insts);
    lemma_tree_tidy(insts);
    if !is_plain(insts.last().op) && !(insts.last().op is End) {
        assert(tree.stack.len() > 0);
        lemma_none_open(tree);
    }
}

/// The regions of a function begin exactly where no block is open and a block or a
/// portion of code begins: there is one for each outermost block, and one for each portion
/// of code between these.
pub proof fn law_region_starts(insts: Seq<Inst>, n: int)
    requires
        tree::ordered(insts),
        insts.len() <= usize::MAX,
        else_in_if(insts),
        is_body(insts),
        0 <= n < insts.len() - 1,
    ensures
        (exists|k: int|
            0 <= k < regions::top_level(tree::tree_of(insts).blocks).len() && (
            #[trigger] regions::top_level(tree::tree_of(insts).blocks)[k]).start_inst
                == insts[n].pos) == begins_region(insts, n),
{
    let init = insts.drop_last();
    let tree = tree::tree_of(insts);
    let nodes = regions::top_level(tree.blocks);
    lemma_prefix(insts);
    lemma_starts(init, n);
    assert(init.take(n) =~= insts.take(n));
    assert(insts[n].pos < insts[insts.len() - 1].pos);
    tree::lemma_tree_well_formed(init);
    lemma_step_starts(tree::tree_of(init), insts.last(), insts[n].pos);
    tree::lemma_tree_well_formed(insts);
    law_final_end_closes(insts);
    partition::lemma_tree_laid_out(insts);
    partition::lemma_top_level_order(tree.blocks);
    if starts_at(tree, insts[n].pos) {
        let i = choose|i: int| #[trigger] is_start(tree, i, insts[n].pos);
        assert(nodes.contains(tree.blocks[i]));
        let k = choose|k: int| 0 <= k < nodes.len() && nodes[k] == tree.blocks[i];
        assert(nodes[k].start_inst == insts[n].pos);
    }
    if exists|k: int| 0 <= k < nodes.len() && (#[trigger] nodes[k]).start_inst == insts[n].pos {
        let k = choose|k: int|
            0 <= k < nodes.len() && (#[trigger] nodes[k]).start_inst == insts[n].pos;
        assert(is_start(tree, nodes[k].index - 1, insts[n].pos));
    }
}

/// Each node stands for what the instruction at its start is: a block of one of the four
/// kinds, or a portion of code.
pub open spec fn stands_for(node: TreeNode, inst: Inst) -> bool {
    node.start_inst == inst.pos ==> {
        &&& (node.node_type == NodeType::BLOCK) == (inst.op is Block)
        &&& (node.node_type == NodeType::LOOP) == (inst.op is Loop)
        &&& (node.node_type == NodeType::IF) == (inst.op is If)
        &&& (node.node_type == NodeType::ELSE) == (inst.op is Else)
    }
}

/// The kinds of the nodes of a function are those of the instructions at their starts,
/// and each instruction that opens a block or an `else` part has a node.
#[verifier::rlimit(30)]
pub proof fn law_node_kinds(insts: Seq<Inst>, n: int)
    requires
        tree::ordered(insts),
        insts.len() <= usize::MAX,
        0 <= n < insts.len(),
    ensures
        forall|i: int|
            0 <= i < tree::tree_of(insts).blocks.len() ==> stands_for(
                #[trigger] tree::tree_of(insts).blocks[i],
                insts[n],
            ),
        insts[n].op is Block || insts[n].op is Loop || insts[n].op is If || insts[n].op is Else
            ==> exists|i: int|
            0 <= i < tree::tree_of(insts).blocks.len() && (
            #[trigger] tree::tree_of(insts).blocks[i]).start_inst == insts[n].pos,
    decreases insts.len(),
{
    let init = insts.drop_last();
    let inst = insts.last();
    let tree = tree::tree_of(init);
    let next = tree::tree_of(insts);
    assert(tree::ordered(init));
    tree::lemma_tree_well_formed(init);
    assert(tree.stack.len() > 0 ==> tree.stack[tree.stack.len() - 1] == tree.stack.last());
    assert(tree.stack.len() > 1 ==> 1 <= tree.stack[tree.stack.len() - 2] <= tree.blocks.len());
    assert(tree.stack.len() > 2 ==> 1 <= tree.stack[tree.stack.len() - 3] <= tree.blocks.len());
    let count = tree.blocks.len() as int;
    assert forall|i: int| 0 <= i < count implies (#[trigger] next.blocks[i]).node_type
        == tree.blocks[i].node_type && next.blocks[i].start_inst == tree.blocks[i].start_inst by {}
    if n < init.len() {
        law_node_kinds(init, n);
        assert(insts[n].pos < insts[insts.len() - 1].pos);
        assert forall|i: int| 0 <= i < next.blocks.len() implies stands_for(
            #[trigger] next.blocks[i],
            insts[n],
        ) by {
            if i < count {
                assert(stands_for(tree.blocks[i], init[n]));
            }
        }
        if exists|i: int| 0 <= i < count && (#[trigger] tree.blocks[i]).start_inst == init[n].pos {
            let i = choose|i: int|
                0 <= i < count && (#[trigger] tree.blocks[i]).start_inst == init[n].pos;
            assert(next.blocks[i].start_inst == insts[n].pos);
        }
    } else {
        assert forall|i: int| 0 <= i < count implies (
        #[trigger] tree.blocks[i]).start_inst < inst.pos by {
            assert(init.last() == insts[init.len() - 1]);
            assert(insts[init.len() - 1].pos < insts[insts.len() - 1].pos);
        }
        if next.blocks.len() > count {
            assert(next.blocks[count].start_inst == insts[n].pos);
        }
    }
}

/// A node ends with the end of a block, or directly before an instruction.
pub open spec fn ends_well(insts: Seq<Inst>, end: usize) -> bool {
    exists|m: int| #[trigger] ends_with(insts, end, m)
}

/// A node ends with instruction number `m`, which ends a block, or directly before it.
pub open spec fn ends_with(insts: Seq<Inst>, end: usize, m: int) -> bool {
    &&& 0 <= m < insts.len()
    &&& (insts[m].op is End && insts[m].pos == end) || insts[m].pos == end + 1
}

/// All nodes that are not open end well.
spec fn all_end_well(insts: Seq<Inst>, tree: TreeView) -> bool {
    forall|i: int|
        0 <= i < tree.blocks.len() && !tree.stack.contains((i + 1) as usize) ==> ends_well(
            insts,
            (#[trigger] tree.blocks[i]).end_inst,
        )
}

/// Closing the innermost open node at a position at which nodes may end.
proof fn lemma_closed_ends_well(insts: Seq<Inst>, tree: TreeView, pos: usize)
    requires
        tree::well_formed(tree),
        tree.blocks.len() <= usize::MAX,
        all_end_well(insts, tree),
        ends_well(insts, pos),
    ensures
        all_end_well(
            insts,
            (TreeView {
                blocks: tree::ended_nodes(pos, tree.stack, tree.blocks),
                stack: tree::popped(tree.stack),
                ..tree
            }),
        ),
{
    if tree.stack.len() > 0 {
        let blocks = tree::ended_nodes(pos, tree.stack, tree.blocks);
        let stack = tree.stack.drop_last();
        let top = tree.stack.last();
        assert(tree.stack[tree.stack.len() - 1] == top);
        assert forall|i: int|
            0 <= i < blocks.len() && !stack.contains((i + 1) as usize) implies ends_well(
            insts,
            (#[trigger] blocks[i]).end_inst,
        ) by {
            if i + 1 != top {
                assert(blocks[i] == tree.blocks[i]);
                if tree.stack.contains((i + 1) as usize) {
                    let k = choose|k: int|
                        0 <= k < tree.stack.len() && tree.stack[k] == (i + 1) as usize;
                    assert(stack[k] == (i + 1) as usize);
                }
                assert(!tree.stack.contains((i + 1) as usize));
            }
        }
    }
}

/// Opening a node leaves the ends of the others.
proof fn lemma_opened_ends_well(insts: Seq<Inst>, tree: TreeView, node_type: NodeType, pos: usize)
    requires
        tree.blocks.len() < usize::MAX,
        all_end_well(insts, tree),
    ensures
        all_end_well(insts, tree.with_open(node_type, pos)),
{
    let open = tree.with_open(node_type, pos);
    assert forall|i: int|
        0 <= i < open.blocks.len() && !open.stack.contains((i + 1) as usize) implies ends_well(
        insts,
        (#[trigger] open.blocks[i]).end_inst,
    ) by {
        assert(open.stack[tree.stack.len() as int] == (tree.blocks.len() + 1) as usize);
        if i < tree.blocks.len() {
            assert(open.blocks[i] == tree.blocks[i]);
            if tree.stack.contains((i + 1) as usize) {
                let k = choose|k: int|
                    0 <= k < tree.stack.len() && tree.stack[k] == (i + 1) as usize;
                assert(open.stack[k] == (i + 1) as usize);
            }
        }
    }
}

/// All nodes of a piece of a function that are not open end well.
proof fn lemma_all_end_well(insts: Seq<Inst>)
    requires
        tree::ordered(insts),
        insts.len() <= usize::MAX,
    ensures
        all_end_well(insts, tree::tree_of(insts)),
    decreases insts.len(),
{
    if insts.len() > 0 {
        let init = insts.drop_last();
        let inst = insts.last();
        let tree = tree::tree_of(init);
        assert(tree::ordered(init));
        lemma_all_end_well(init);
        tree::lemma_tree_well_formed(init);
        assert forall|i: int|
            0 <= i < tree.blocks.len() && !tree.stack.contains((i + 1) as usize) implies ends_well(
            insts,
            (#[trigger] tree.blocks[i]).end_inst,
        ) by {
            let m = choose|m: int| #[trigger] ends_with(init, tree.blocks[i].end_inst, m);
            assert(ends_with(insts, tree.blocks[i].end_inst, m));
        }
        let before = if init.len() > 0 {
            assert(init.last() == insts[init.len() - 1]);
            assert(insts[init.len() - 1].pos < insts[insts.len() - 1].pos);
            init.last().pos
        } else {
            inst.pos
        };
        let mid = tree.without_code(inst.pos);
        if tree.code_open && !is_plain(inst.op) {
            assert(init.len() > 0);
            assert(ends_with(insts, (inst.pos - 1) as usize, insts.len() - 1));
            lemma_closed_ends_well(insts, tree, (inst.pos - 1) as usize);
        }
        tree::lemma_without_code_well_formed(tree, inst.pos, before);
        if inst.op is End {
            assert(ends_with(insts, inst.pos, insts.len() - 1));
            lemma_closed_ends_well(insts, mid, inst.pos);
            tree::lemma_close_well_formed(mid, inst.pos);
            lemma_closed_ends_well(insts, mid.with_closed(inst.pos), inst.pos);
        } else if !is_plain(inst.op) {
            lemma_opened_ends_well(insts, mid, opens(inst.op), inst.pos);
        } else if !tree.code_open {
            lemma_opened_ends_well(insts, tree, NodeType::CODE, inst.pos);
        }
    }
}

/// An instruction of a region that takes more than one byte and ends no block lies before
/// the end of the region.
pub proof fn law_before_end(insts: Seq<Inst>, k: int, n: int)
    requires
        tree::ordered(insts),
        insts.len() <= usize::MAX,
        tree::block_tree(insts) is Ok,
        0 <= k < regions::top_level(tree::tree_of(insts).blocks).len(),
        0 <= n < insts.len() - 1,
        insts[n].pos + 1 < insts[n + 1].pos,
        !(insts[n].op is End),
        partition::in_region(regions::top_level(tree::tree_of(insts).blocks)[k], insts[n]),
    ensures
        insts[n].pos < regions::top_level(tree::tree_of(insts).blocks)[k].end_inst,
{
    let tree = tree::tree_of(insts);
    let node = regions::top_level(tree.blocks)[k];
    lemma_all_end_well(insts);
    tree::lemma_tree_well_formed(insts);
    partition::lemma_tree_laid_out(insts);
    partition::lemma_top_level_order(tree.blocks);
    let i = node.index - 1;
    assert(tree.blocks[i] == node);
    assert(!tree.stack.contains((i + 1) as usize));
    let m = choose|m: int| #[trigger] ends_with(insts, node.end_inst, m);
    if m <= n {
        if m < n {
            assert(insts[m].pos < insts[n].pos);
        }
    } else if m > n + 1 {
        assert(insts[n + 1].pos < insts[m].pos);
    }
}

/// The position of an instruction that belongs to a portion of code.
pub open spec fn plain_position() -> spec_fn(Inst) -> Seq<u32> {
    |inst: Inst|
        if is_plain(inst.op) {
            seq![inst.pos as u32]
        } else {
            Seq::empty()
        }
}

/// The positions of a portion of code.
pub open spec fn positions_in() -> spec_fn((u32, Seq<u32>)) -> Seq<u32> {
    |portion: (u32, Seq<u32>)| portion.1
}

/// A portion of code belongs to the node at whose start its first instruction stands.
pub open spec fn portion_fits(tree: TreeView, portion: (u32, Seq<u32>)) -> bool {
    &&& portion.1.len() > 0
    &&& exists|i: int|
        0 <= i < tree.blocks.len() && (#[trigger] tree.blocks[i]).node_type == NodeType::CODE
            && tree.blocks[i].index as u32 == portion.0 && tree.blocks[i].start_inst as u32
            == portion.1[0]
}

/// One more instruction keeps the portions of code.
proof fn lemma_portion_kept(tree: TreeView, next: TreeView, portion: (u32, Seq<u32>))
    requires
        portion_fits(tree, portion),
        next.blocks.len() >= tree.blocks.len(),
        forall|i: int|
            0 <= i < tree.blocks.len() ==> (#[trigger] next.blocks[i]).node_type
                == tree.blocks[i].node_type && next.blocks[i].index == tree.blocks[i].index
                && next.blocks[i].start_inst == tree.blocks[i].start_inst,
    ensures
        portion_fits(next, portion),
{
    let i = choose|i: int|
        0 <= i < tree.blocks.len() && (#[trigger] tree.blocks[i]).node_type == NodeType::CODE
            && tree.blocks[i].index as u32 == portion.0 && tree.blocks[i].start_inst as u32
            == portion.1[0];
    assert(next.blocks[i].node_type == NodeType::CODE);
}

/// The portions of code hold all instructions that open and end no block, each once and in
/// their order, and each portion belongs to its node.
#[verifier::rlimit(30)]
pub proof fn law_portions(insts: Seq<Inst>)
    requires
        tree::ordered(insts),
        insts.len() <= usize::MAX,
    ensures
        reading::gathered(tree::tree_of(insts).code_insts, positions_in()) == reading::gathered(
            insts,
            plain_position(),
        ),
        forall|c: int|
            0 <= c < tree::tree_of(insts).code_insts.len() ==> portion_fits(
                tree::tree_of(insts),
                #[trigger] tree::tree_of(insts).code_insts[c],
            ),
    decreases insts.len(),
{
    if insts.len() > 0 {
        let init = insts.drop_last();
        let inst = insts.last();
        let tree = tree::tree_of(init);
        let next = tree::tree_of(insts);
        assert(tree::ordered(init));
        law_portions(init);
        tree::lemma_tree_well_formed(init);
        assert(tree.stack.len() > 0 ==> tree.stack[tree.stack.len() - 1] == tree.stack.last());
        assert(tree.stack.len() > 1 ==> 1 <= tree.stack[tree.stack.len() - 2]
            <= tree.blocks.len());
        assert(tree.stack.len() > 2 ==> 1 <= tree.stack[tree.stack.len() - 3]
            <= tree.blocks.len());
        assert forall|i: int| 0 <= i < tree.blocks.len() implies (
        #[trigger] next.blocks[i]).node_type == tree.blocks[i].node_type && next.blocks[i].index
            == tree.blocks[i].index && next.blocks[i].start_inst
            == tree.blocks[i].start_inst by {}
        let before = tree.code_insts;
        let after = next.code_insts;
        if is_plain(inst.op) {
            let last = after.len() - 1;
            if tree.code_open {
                assert(before.drop_last() =~= after.drop_last());
                assert(before[before.len() - 1] == before.last());
                assert(reading::gathered(after, positions_in()) =~= reading::gathered(
                    before,
                    positions_in(),
                ) + seq![inst.pos as u32]);
                lemma_portion_kept(tree, next, before.last());
                assert(after.last().1[0] == before.last().1[0]);
                assert(portion_fits(next, after.last()));
            } else {
                assert(after.drop_last() =~= before);
                assert(reading::gathered(after, positions_in()) =~= reading::gathered(
                    before,
                    positions_in(),
                ) + seq![inst.pos as u32]);
                let i = tree.blocks.len() as int;
                assert(next.blocks[i].node_type == NodeType::CODE);
                assert(next.blocks[i].index as u32 == after.last().0);
                assert(portion_fits(next, after.last()));
            }
            assert forall|c: int| 0 <= c < after.len() implies portion_fits(
                next,
                #[trigger] after[c],
            ) by {
                if c < last {
                    assert(after[c] == before[c]);
                    lemma_portion_kept(tree, next, before[c]);
                }
            }
        } else {
            assert(after == before);
            assert(reading::gathered(insts, plain_position()) =~= reading::gathered(
                init,
                plain_position(),
            ));
            assert forall|c: int| 0 <= c < after.len() implies portion_fits(
                next,
                #[trigger] after[c],
            ) by {
                lemma_portion_kept(tree, next, before[c]);
            }
        }
    }
}

} // verus!
