//! The regions of a function and the variables that cross their ends.
//!
//! Sets of variables are lists without repetition, in the order in which the
//! variables are met.

use vstd::prelude::*;
use crate::tree::{Inst, TreeNode};
use crate::types::{views, Operator, ValType};

verus! {

/// The nodes outside any block. A region of the function is such a node, and
/// each region ends with a checkpoint.
pub open spec fn top_level(blocks: Seq<TreeNode>) -> Seq<TreeNode> {
    blocks.filter(|node: TreeNode| node.outer == 0)
}

/// The numbers of the nodes.
pub open spec fn indices(nodes: Seq<TreeNode>) -> Seq<usize> {
    Seq::new(nodes.len(), |i: int| nodes[i].index)
}

/// Takes the nodes outside any block, in their order.
pub fn top_level_nodes(blocks: &Vec<TreeNode>) -> (nodes: Vec<TreeNode>)
    ensures
        nodes@ == top_level(blocks@),
{
    let mut nodes: Vec<TreeNode> = Vec::new();
    let mut i: usize = 0;
    proof {
        reveal(Seq::filter);
        assert(blocks@.take(0) =~= Seq::empty());
    }
    while i < blocks.len()
        invariant
            i <= blocks@.len(),
            nodes@ == top_level(blocks@.take(i as int)),
        decreases blocks@.len() - i,
    {
        proof {
            reveal(Seq::filter);
            assert(blocks@.take(i + 1).drop_last() =~= blocks@.take(i as int));
        }
        if blocks[i].outer == 0 {
            nodes.push(blocks[i]);
        }
        i = i + 1;
    }
    assert(blocks@.take(blocks@.len() as int) =~= blocks@);
    nodes
}

/// Decides where to place checkpoints: each node outside any block ends with
/// one.
pub fn generate_checkpoint_list(regions: &Vec<TreeNode>) -> (list: Vec<usize>)
    ensures
        list@ == indices(regions@),
{
    let mut list: Vec<usize> = Vec::new();
    let mut i: usize = 0;
    while i < regions.len()
        invariant
            i <= regions@.len(),
            list@ == indices(regions@).take(i as int),
        decreases regions@.len() - i,
    {
        list.push(regions[i].index);
        assert(list@ =~= indices(regions@).take(i + 1));
        i = i + 1;
    }
    assert(indices(regions@).take(regions@.len() as int) =~= indices(regions@));
    list
}

/// The ways in which an instruction touches a variable.
#[derive(Clone, Copy, Debug, PartialEq, Eq, Structural)]
pub enum Access {
    LocalRead,
    LocalWrite,
    GlobalRead,
    GlobalWrite,
}

/// The variable that the instruction touches in this way.
pub open spec fn accessed(op: Operator, access: Access) -> Option<u32> {
    match (access, op) {
        (Access::LocalRead, Operator::LocalGet(var)) => Some(var),
        (Access::LocalWrite, Operator::LocalSet(var)) => Some(var),
        (Access::LocalWrite, Operator::LocalTee(var)) => Some(var),
        (Access::GlobalRead, Operator::GlobalGet(var)) => Some(var),
        (Access::GlobalWrite, Operator::GlobalSet(var)) => Some(var),
        _ => None,
    }
}

/// Gives the variable that the instruction touches in this way.
pub fn variable_of(op: Operator, access: Access) -> (var: Option<u32>)
    ensures
        var == accessed(op, access),
{
    match (access, op) {
        (Access::LocalRead, Operator::LocalGet(var)) => Some(var),
        (Access::LocalWrite, Operator::LocalSet(var)) => Some(var),
        (Access::LocalWrite, Operator::LocalTee(var)) => Some(var),
        (Access::GlobalRead, Operator::GlobalGet(var)) => Some(var),
        (Access::GlobalWrite, Operator::GlobalSet(var)) => Some(var),
        _ => None,
    }
}

/// The list with `value` added, unless it is there already.
pub open spec fn inserted(list: Seq<u32>, value: u32) -> Seq<u32> {
    if list.contains(value) {
        list
    } else {
        list.push(value)
    }
}

/// The list with all of `more` added, each unless it is there already.
pub open spec fn union(list: Seq<u32>, more: Seq<u32>) -> Seq<u32>
    decreases more.len(),
{
    if more.len() == 0 {
        list
    } else {
        inserted(union(list, more.drop_last()), more.last())
    }
}

/// The elements of `list` that are in `other` too.
pub open spec fn intersection(list: Seq<u32>, other: Seq<u32>) -> Seq<u32> {
    list.filter(|value: u32| other.contains(value))
}

/// The variables that the instructions of a region touch in this way. The
/// instruction at the last position of the region does not count.
pub open spec fn touched(insts: Seq<Inst>, region: TreeNode, access: Access) -> Seq<u32>
    decreases insts.len(),
{
    if insts.len() == 0 {
        Seq::empty()
    } else {
        let before = touched(insts.drop_last(), region, access);
        let inst = insts.last();
        match accessed(inst.op, access) {
            Some(var) => if region.start_inst <= inst.pos < region.end_inst {
                inserted(before, var)
            } else {
                before
            },
            None => before,
        }
    }
}

/// The list with the index of each mutable global added.
pub open spec fn with_mutable(list: Seq<u32>, globals: Seq<(ValType, bool)>) -> Seq<u32>
    decreases globals.len(),
{
    if globals.len() == 0 {
        list
    } else {
        let before = with_mutable(list, globals.drop_last());
        if globals.last().1 {
            inserted(before, (globals.len() - 1) as u32)
        } else {
            before
        }
    }
}

/// Tells whether `value` is in the list.
pub fn contains(list: &Vec<u32>, value: u32) -> (found: bool)
    ensures
        found == list@.contains(value),
{
    let mut i: usize = 0;
    while i < list.len()
        invariant
            i <= list@.len(),
            forall|j: int| 0 <= j < i ==> list@[j] != value,
        decreases list@.len() - i,
    {
        if list[i] == value {
            assert(list@[i as int] == value);
            return true;
        }
        i = i + 1;
    }
    false
}

/// Adds `value` to the list, unless it is there already.
pub fn insert(list: &mut Vec<u32>, value: u32)
    ensures
        final(list)@ == inserted(old(list)@, value),
{
    if !contains(list, value) {
        list.push(value);
    }
}

/// Adds all of `more` to the list, each unless it is there already.
pub fn extend(list: &mut Vec<u32>, more: &Vec<u32>)
    ensures
        final(list)@ == union(old(list)@, more@),
{
    let ghost start = list@;
    let mut i: usize = 0;
    assert(more@.take(0) =~= Seq::empty());
    while i < more.len()
        invariant
            i <= more@.len(),
            list@ == union(start, more@.take(i as int)),
        decreases more@.len() - i,
    {
        assert(more@.take(i + 1).drop_last() =~= more@.take(i as int));
        insert(list, more[i]);
        i = i + 1;
    }
    assert(more@.take(more@.len() as int) =~= more@);
}

/// Copies a list.
pub fn copy_list(list: &Vec<u32>) -> (copy: Vec<u32>)
    ensures
        copy@ == list@,
{
    vstd::slice::slice_to_vec(list.as_slice())
}

/// Keeps the elements of `list` that are in `other` too.
pub fn intersect(list: &Vec<u32>, other: &Vec<u32>) -> (common: Vec<u32>)
    ensures
        common@ == intersection(list@, other@),
{
    let mut common: Vec<u32> = Vec::new();
    let mut i: usize = 0;
    proof {
        reveal(Seq::filter);
        assert(list@.take(0) =~= Seq::empty());
    }
    while i < list.len()
        invariant
            i <= list@.len(),
            common@ == intersection(list@.take(i as int), other@),
        decreases list@.len() - i,
    {
        proof {
            reveal(Seq::filter);
            assert(list@.take(i + 1).drop_last() =~= list@.take(i as int));
        }
        if contains(other, list[i]) {
            common.push(list[i]);
        }
        i = i + 1;
    }
    assert(list@.take(list@.len() as int) =~= list@);
    common
}

/// Lists the variables that the instructions of a region touch in this way.
pub fn list_touched(insts: &Vec<Inst>, region: TreeNode, access: Access) -> (list: Vec<u32>)
    ensures
        list@ == touched(insts@, region, access),
{
    let mut list: Vec<u32> = Vec::new();
    let mut i: usize = 0;
    assert(insts@.take(0) =~= Seq::empty());
    while i < insts.len()
        invariant
            i <= insts@.len(),
            list@ == touched(insts@.take(i as int), region, access),
        decreases insts@.len() - i,
    {
        assert(insts@.take(i + 1).drop_last() =~= insts@.take(i as int));
        let inst = insts[i];
        if region.start_inst <= inst.pos && inst.pos < region.end_inst {
            if let Some(var) = variable_of(inst.op, access) {
                insert(&mut list, var);
            }
        }
        i = i + 1;
    }
    assert(insts@.take(insts@.len() as int) =~= insts@);
    list
}

/// Adds the index of each mutable global to the list.
pub fn add_mutable(list: &mut Vec<u32>, globals: &Vec<(ValType, bool)>)
    ensures
        final(list)@ == with_mutable(old(list)@, globals@),
{
    let ghost start = list@;
    let mut i: usize = 0;
    assert(globals@.take(0) =~= Seq::empty());
    while i < globals.len()
        invariant
            i <= globals@.len(),
            list@ == with_mutable(start, globals@.take(i as int)),
        decreases globals@.len() - i,
    {
        assert(globals@.take(i + 1).drop_last() =~= globals@.take(i as int));
        let (_, mutable) = globals[i];
        if mutable {
            insert(list, i as u32);
        }
        i = i + 1;
    }
    assert(globals@.take(globals@.len() as int) =~= globals@);
}

/// For each region, the local variables that it writes.
pub open spec fn written_vars(insts: Seq<Inst>, regions: Seq<TreeNode>) -> Seq<Seq<u32>> {
    Seq::new(regions.len(), |k: int| touched(insts, regions[k], Access::LocalWrite))
}

/// For each region, the global variables that it may write: those that it sets
/// itself, and all mutable ones, as a called function may set any of them.
pub open spec fn written_globals(
    insts: Seq<Inst>,
    regions: Seq<TreeNode>,
    globals: Seq<(ValType, bool)>,
) -> Seq<Seq<u32>> {
    Seq::new(
        regions.len(),
        |k: int| with_mutable(touched(insts, regions[k], Access::GlobalWrite), globals),
    )
}

/// For each region, the variables that it reads. The first region counts as
/// reading none.
pub open spec fn read_before(
    insts: Seq<Inst>,
    regions: Seq<TreeNode>,
    access: Access,
) -> Seq<Seq<u32>> {
    Seq::new(
        regions.len(),
        |k: int|
            if k == 0 {
                Seq::empty()
            } else {
                touched(insts, regions[k], access)
            },
    )
}

/// The union of the first `count` sets.
pub open spec fn union_of_first(sets: Seq<Seq<u32>>, count: nat) -> Seq<u32>
    decreases count,
{
    if count == 0 {
        Seq::empty()
    } else {
        union(union_of_first(sets, (count - 1) as nat), sets[count - 1])
    }
}

/// The union of the sets from number `from` on, the last one first.
pub open spec fn union_from(sets: Seq<Seq<u32>>, from: int) -> Seq<u32>
    decreases sets.len() - from,
{
    if from >= sets.len() {
        Seq::empty()
    } else {
        union(union_from(sets, from + 1), sets[from])
    }
}

/// For each region, the variables that are live at its end: written in it or
/// before, and read later. Behind the last region none is live.
pub open spec fn live_out(written: Seq<Seq<u32>>, read: Seq<Seq<u32>>) -> Seq<Seq<u32>> {
    Seq::new(
        written.len(),
        |k: int|
            if k == written.len() - 1 {
                Seq::empty()
            } else {
                intersection(union_of_first(written, (k + 1) as nat), union_from(read, k + 1))
            },
    )
}

/// Generates for each region the lists of local and global variables that are
/// modified since the previous checkpoint.
pub fn generate_modified_var_list(
    insts: &Vec<Inst>,
    regions: &Vec<TreeNode>,
    globals: &Vec<(ValType, bool)>,
) -> (lists: (Vec<Vec<u32>>, Vec<Vec<u32>>))
    ensures
        views(lists.0@) == written_vars(insts@, regions@),
        views(lists.1@) == written_globals(insts@, regions@, globals@),
{
    let mut vars: Vec<Vec<u32>> = Vec::new();
    let mut set_globals: Vec<Vec<u32>> = Vec::new();
    let mut k: usize = 0;
    while k < regions.len()
        invariant
            k <= regions@.len(),
            vars@.len() == k,
            set_globals@.len() == k,
            forall|i: int|
                0 <= i < k ==> (#[trigger] vars@[i])@ == written_vars(insts@, regions@)[i],
            forall|i: int|
                0 <= i < k ==> (#[trigger] set_globals@[i])@ == written_globals(
                    insts@,
                    regions@,
                    globals@,
                )[i],
        decreases regions@.len() - k,
    {
        vars.push(list_touched(insts, regions[k], Access::LocalWrite));
        let mut list = list_touched(insts, regions[k], Access::GlobalWrite);
        add_mutable(&mut list, globals);
        set_globals.push(list);
        k = k + 1;
    }
    assert(views(vars@) =~= written_vars(insts@, regions@));
    assert(views(set_globals@) =~= written_globals(insts@, regions@, globals@));
    (vars, set_globals)
}

/// Lists for each region the variables that it reads; none for the first one.
pub fn list_reads(insts: &Vec<Inst>, regions: &Vec<TreeNode>, access: Access) -> (lists: Vec<
    Vec<u32>,
>)
    ensures
        views(lists@) == read_before(insts@, regions@, access),
{
    let mut lists: Vec<Vec<u32>> = Vec::new();
    let mut k: usize = 0;
    while k < regions.len()
        invariant
            k <= regions@.len(),
            lists@.len() == k,
            forall|i: int|
                0 <= i < k ==> (#[trigger] lists@[i])@ == read_before(insts@, regions@, access)[i],
        decreases regions@.len() - k,
    {
        if k == 0 {
            lists.push(Vec::new());
        } else {
            lists.push(list_touched(insts, regions[k], access));
        }
        k = k + 1;
    }
    assert(views(lists@) =~= read_before(insts@, regions@, access));
    lists
}

/// Generates for each region the list of variables that are live at its end.
pub fn generate_live_out(written: &Vec<Vec<u32>>, read: &Vec<Vec<u32>>) -> (lists: Vec<Vec<u32>>)
    requires
        written@.len() == read@.len(),
    ensures
        views(lists@) == live_out(views(written@), views(read@)),
{
    let ghost all_written = views(written@);
    let ghost all_read = views(read@);
    let n: usize = written.len();
    // For each region, what it and its predecessors write.
    let mut since_init: Vec<Vec<u32>> = Vec::new();
    let mut sum: Vec<u32> = Vec::new();
    let mut k: usize = 0;
    while k < n
        invariant
            k <= n,
            n == written@.len(),
            all_written == views(written@),
            sum@ == union_of_first(all_written, k as nat),
            since_init@.len() == k,
            forall|i: int|
                0 <= i < k ==> (#[trigger] since_init@[i])@ == union_of_first(
                    all_written,
                    (i + 1) as nat,
                ),
        decreases n - k,
    {
        assert(all_written[k as int] == written@[k as int]@);
        extend(&mut sum, &written[k]);
        since_init.push(copy_list(&sum));
        k = k + 1;
    }
    // For each region, what its successors read, computed from bottom to top.
    let mut reversed: Vec<Vec<u32>> = Vec::new();
    let mut reads: Vec<u32> = Vec::new();
    let mut k: usize = 0;
    while k < n
        invariant
            k <= n,
            n == read@.len(),
            all_read == views(read@),
            reads@ == union_from(all_read, n - k),
            reversed@.len() == k,
            forall|i: int|
                0 <= i < k ==> (#[trigger] reversed@[i])@ == union_from(all_read, n - i),
        decreases n - k,
    {
        assert(all_read[n - 1 - k] == read@[n - 1 - k]@);
        reversed.push(copy_list(&reads));
        extend(&mut reads, &read[n - 1 - k]);
        k = k + 1;
    }
    let mut lists: Vec<Vec<u32>> = Vec::new();
    let mut k: usize = 0;
    while k < n
        invariant
            k <= n,
            n == all_written.len(),
            since_init@.len() == n,
            reversed@.len() == n,
            forall|i: int|
                0 <= i < n ==> (#[trigger] since_init@[i])@ == union_of_first(
                    all_written,
                    (i + 1) as nat,
                ),
            forall|i: int|
                0 <= i < n ==> (#[trigger] reversed@[i])@ == union_from(all_read, n - i),
            lists@.len() == k,
            forall|i: int|
                0 <= i < k ==> (#[trigger] lists@[i])@ == live_out(all_written, all_read)[i],
        decreases n - k,
    {
        if k == n - 1 {
            lists.push(Vec::new());
        } else {
            assert(reversed@[n - 1 - k]@ == union_from(all_read, n - (n - 1 - k)));
            lists.push(intersect(&since_init[k], &reversed[n - 1 - k]));
        }
        k = k + 1;
    }
    assert(views(lists@) =~= live_out(all_written, all_read));
    lists
}

/// What is known of the variables of each region.
pub struct LiveSets {
    pub live_in_set_vars: Vec<Vec<u32>>,
    pub get_global_vars: Vec<Vec<u32>>,
    pub live_out_set_vars: Vec<Vec<u32>>,
    pub live_out_global_vars: Vec<Vec<u32>>,
}

/// Generates for each region the lists of variables that are live at its start
/// and at its end.
pub fn generate_live_var_list(
    insts: &Vec<Inst>,
    regions: &Vec<TreeNode>,
    modified_vars: &Vec<Vec<u32>>,
    set_globals: &Vec<Vec<u32>>,
) -> (sets: LiveSets)
    requires
        regions@.len() > 0,
        modified_vars@.len() == regions@.len(),
        set_globals@.len() == regions@.len(),
    ensures
        views(sets.live_in_set_vars@) == read_before(insts@, regions@, Access::LocalRead),
        views(sets.get_global_vars@) == read_before(insts@, regions@, Access::GlobalRead),
        views(sets.live_out_set_vars@) == live_out(
            views(modified_vars@),
            read_before(insts@, regions@, Access::LocalRead),
        ),
        views(sets.live_out_global_vars@) == live_out(
            views(set_globals@),
            read_before(insts@, regions@, Access::GlobalRead),
        ),
{
    let live_in_set_vars = list_reads(insts, regions, Access::LocalRead);
    let get_global_vars = list_reads(insts, regions, Access::GlobalRead);
    proof {
        assert(views(live_in_set_vars@).len() == regions@.len());
        assert(views(get_global_vars@).len() == regions@.len());
    }
    let live_out_set_vars = generate_live_out(modified_vars, &live_in_set_vars);
    let live_out_global_vars = generate_live_out(set_globals, &get_global_vars);
    LiveSets { live_in_set_vars, get_global_vars, live_out_set_vars, live_out_global_vars }
}

/// Adding a value adds just that.
proof fn lemma_inserted(list: Seq<u32>, value: u32, v: u32)
    ensures
        inserted(list, value).contains(v) == (list.contains(v) || v == value),
        list.no_duplicates() ==> inserted(list, value).no_duplicates(),
{
    let more = inserted(list, value);
    if list.contains(v) {
        let i = choose|i: int| 0 <= i < list.len() && list[i] == v;
        assert(more[i] == v);
    }
    if !list.contains(value) {
        assert(more[list.len() as int] == value);
        if more.contains(v) && v != value {
            let i = choose|i: int| 0 <= i < more.len() && more[i] == v;
            assert(list[i] == v);
        }
    }
}

/// A union holds what either list holds.
proof fn lemma_union(list: Seq<u32>, more: Seq<u32>, v: u32)
    ensures
        union(list, more).contains(v) == (list.contains(v) || more.contains(v)),
        list.no_duplicates() ==> union(list, more).no_duplicates(),
    decreases more.len(),
{
    if more.len() > 0 {
        let init = more.drop_last();
        lemma_union(list, init, v);
        lemma_inserted(union(list, init), more.last(), v);
        if more.contains(v) {
            let i = choose|i: int| 0 <= i < more.len() && more[i] == v;
            if i < init.len() {
                assert(init[i] == v);
            }
        }
        if init.contains(v) {
            let i = choose|i: int| 0 <= i < init.len() && init[i] == v;
            assert(more[i] == v);
        }
        assert(more[more.len() - 1] == more.last());
    }
}

/// An instruction of a region touches a variable in this way.
pub open spec fn touches(inst: Inst, region: TreeNode, access: Access, var: u32) -> bool {
    &&& region.start_inst <= inst.pos < region.end_inst
    &&& accessed(inst.op, access) == Some(var)
}

/// The list of the variables that a region touches holds exactly those, each
/// once.
pub proof fn law_touched(insts: Seq<Inst>, region: TreeNode, access: Access, var: u32)
    ensures
        touched(insts, region, access).contains(var) == (exists|n: int|
            0 <= n < insts.len() && touches(#[trigger] insts[n], region, access, var)),
        touched(insts, region, access).no_duplicates(),
    decreases insts.len(),
{
    if insts.len() > 0 {
        let init = insts.drop_last();
        let last = insts.last();
        law_touched(init, region, access, var);
        assert(insts[insts.len() - 1] == last);
        if let Some(found) = accessed(last.op, access) {
            lemma_inserted(touched(init, region, access), found, var);
        }
        if touched(init, region, access).contains(var) {
            let n = choose|n: int|
                0 <= n < init.len() && touches(#[trigger] init[n], region, access, var);
            assert(touches(insts[n], region, access, var));
        }
        if exists|n: int| 0 <= n < insts.len() && touches(
            #[trigger] insts[n],
            region,
            access,
            var,
        ) {
            let n = choose|n: int|
                0 <= n < insts.len() && touches(#[trigger] insts[n], region, access, var);
            if n < init.len() {
                assert(touches(init[n], region, access, var));
            }
        }
    }
}

/// The indices of mutable globals are added, and nothing else.
pub proof fn law_with_mutable(list: Seq<u32>, globals: Seq<(ValType, bool)>, var: u32)
    requires
        globals.len() <= u32::MAX,
    ensures
        with_mutable(list, globals).contains(var) == (list.contains(var) || (var < globals.len()
            && globals[var as int].1)),
        list.no_duplicates() ==> with_mutable(list, globals).no_duplicates(),
    decreases globals.len(),
{
    if globals.len() > 0 {
        law_with_mutable(list, globals.drop_last(), var);
        lemma_inserted(
            with_mutable(list, globals.drop_last()),
            (globals.len() - 1) as u32,
            var,
        );
    }
}

/// The union of the first sets holds what one of them holds.
proof fn lemma_union_of_first(sets: Seq<Seq<u32>>, count: nat, v: u32)
    requires
        count <= sets.len(),
    ensures
        union_of_first(sets, count).contains(v) == (exists|j: int|
            0 <= j < count && (#[trigger] sets[j]).contains(v)),
        union_of_first(sets, count).no_duplicates(),
    decreases count,
{
    if count > 0 {
        let before = (count - 1) as nat;
        lemma_union_of_first(sets, before, v);
        lemma_union(union_of_first(sets, before), sets[before as int], v);
        if exists|j: int| 0 <= j < before && (#[trigger] sets[j]).contains(v) {
            let j = choose|j: int| 0 <= j < before && (#[trigger] sets[j]).contains(v);
            assert(0 <= j < count && sets[j].contains(v));
        }
        if exists|j: int| 0 <= j < count && (#[trigger] sets[j]).contains(v) {
            let j = choose|j: int| 0 <= j < count && (#[trigger] sets[j]).contains(v);
            if j < before {
                assert(sets[j].contains(v));
            }
        }
    }
}

/// The union of the sets from one on holds what one of them holds.
proof fn lemma_union_from(sets: Seq<Seq<u32>>, from: int, v: u32)
    requires
        0 <= from <= sets.len(),
    ensures
        union_from(sets, from).contains(v) == (exists|j: int|
            from <= j < sets.len() && (#[trigger] sets[j]).contains(v)),
    decreases sets.len() - from,
{
    if from < sets.len() {
        lemma_union_from(sets, from + 1, v);
        lemma_union(union_from(sets, from + 1), sets[from], v);
        if exists|j: int| from + 1 <= j < sets.len() && (#[trigger] sets[j]).contains(v) {
            let j = choose|j: int| from + 1 <= j < sets.len() && (#[trigger] sets[j]).contains(v);
            assert(from <= j < sets.len() && sets[j].contains(v));
        }
        if exists|j: int| from <= j < sets.len() && (#[trigger] sets[j]).contains(v) {
            let j = choose|j: int| from <= j < sets.len() && (#[trigger] sets[j]).contains(v);
            if j > from {
                assert(from + 1 <= j < sets.len() && sets[j].contains(v));
            }
        }
    }
}

/// An intersection holds what both lists hold.
proof fn lemma_intersection(list: Seq<u32>, other: Seq<u32>, v: u32)
    ensures
        intersection(list, other).contains(v) == (list.contains(v) && other.contains(v)),
        list.no_duplicates() ==> intersection(list, other).no_duplicates(),
    decreases list.len(),
{
    reveal(Seq::filter);
    if list.len() > 0 {
        let init = list.drop_last();
        let last = list.last();
        let before = intersection(init, other);
        let now = intersection(list, other);
        lemma_intersection(init, other, v);
        lemma_intersection(init, other, last);
        assert(list[list.len() - 1] == last);
        if init.contains(v) {
            let i = choose|i: int| 0 <= i < init.len() && init[i] == v;
            assert(list[i] == v);
        }
        if list.contains(v) && v != last {
            let i = choose|i: int| 0 <= i < list.len() && list[i] == v;
            assert(init[i] == v);
        }
        if other.contains(last) {
            assert(now == before.push(last));
            assert(now[before.len() as int] == last);
            if before.contains(v) {
                let i = choose|i: int| 0 <= i < before.len() && before[i] == v;
                assert(now[i] == v);
            }
            if now.contains(v) && v != last {
                let i = choose|i: int| 0 <= i < now.len() && now[i] == v;
                assert(before[i] == v);
            }
        } else {
            assert(now == before);
        }
        if list.no_duplicates() {
            assert(init.no_duplicates());
            if init.contains(last) {
                let i = choose|i: int| 0 <= i < init.len() && init[i] == last;
                assert(list[i] == list[list.len() - 1]);
            }
        }
    }
}

/// At the end of a region exactly those variables are live that a region up to
/// it writes and a region behind it reads; each is listed once. At the end of
/// the last region none is live.
pub proof fn law_live_out(written: Seq<Seq<u32>>, read: Seq<Seq<u32>>, k: int, var: u32)
    requires
        0 <= k < written.len(),
        read.len() == written.len(),
    ensures
        live_out(written, read)[k].contains(var) == ((exists|i: int|
            0 <= i <= k && (#[trigger] written[i]).contains(var)) && (exists|j: int|
            k < j < read.len() && (#[trigger] read[j]).contains(var))),
        live_out(written, read)[k].no_duplicates(),
{
    if k < written.len() - 1 {
        let until = union_of_first(written, (k + 1) as nat);
        let behind = union_from(read, k + 1);
        lemma_union_of_first(written, (k + 1) as nat, var);
        lemma_union_from(read, k + 1, var);
        lemma_intersection(until, behind, var);
        if exists|i: int| 0 <= i <= k && (#[trigger] written[i]).contains(var) {
            let i = choose|i: int| 0 <= i <= k && (#[trigger] written[i]).contains(var);
            assert(0 <= i < k + 1 && written[i].contains(var));
        }
        if exists|i: int| 0 <= i < k + 1 && (#[trigger] written[i]).contains(var) {
            let i = choose|i: int| 0 <= i < k + 1 && (#[trigger] written[i]).contains(var);
            assert(0 <= i <= k && written[i].contains(var));
        }
        if exists|j: int| k < j < read.len() && (#[trigger] read[j]).contains(var) {
            let j = choose|j: int| k < j < read.len() && (#[trigger] read[j]).contains(var);
            assert(k + 1 <= j < read.len() && read[j].contains(var));
        }
        if exists|j: int| k + 1 <= j < read.len() && (#[trigger] read[j]).contains(var) {
            let j = choose|j: int| k + 1 <= j < read.len() && (#[trigger] read[j]).contains(var);
            assert(k < j < read.len() && read[j].contains(var));
        }
    }
}

} // verus!
