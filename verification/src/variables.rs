//! Which variables a region reads, writes and checkpoints, and how many bytes they
//! take, read off the instructions and the types alone.

use vstd::prelude::*;
use crate::component::Job;
use crate::encoder;
use crate::inject;
use crate::instruction::NumType;
use crate::layout;
use crate::migrate;
use crate::plan::PlanView;
use crate::record::CoreModule;
use crate::regions;
use crate::regions::Access;
use crate::tree::{Inst, TreeNode};
use crate::types::{views, MigrateError, Operator, ValType};

verus! {

/// An instruction lies in a region, before its end.
pub open spec fn lies_in(inst: Inst, region: TreeNode) -> bool {
    region.start_inst <= inst.pos < region.end_inst
}

/// Region number `k` has an instruction `local.get` for this variable.
pub open spec fn gets_local(plan: PlanView, k: int, var: u32) -> bool {
    exists|n: int|
        0 <= n < plan.insts.len() && lies_in(#[trigger] plan.insts[n], plan.regions()[k])
            && plan.insts[n].op == Operator::LocalGet(var)
}

/// Region number `k` has an instruction `local.set` or `local.tee` for this variable.
pub open spec fn sets_local(plan: PlanView, k: int, var: u32) -> bool {
    exists|n: int|
        0 <= n < plan.insts.len() && lies_in(#[trigger] plan.insts[n], plan.regions()[k]) && (
        plan.insts[n].op == Operator::LocalSet(var) || plan.insts[n].op == Operator::LocalTee(var))
}

/// Region number `k` has an instruction `global.get` for this variable.
pub open spec fn gets_global(plan: PlanView, k: int, var: u32) -> bool {
    exists|n: int|
        0 <= n < plan.insts.len() && lies_in(#[trigger] plan.insts[n], plan.regions()[k])
            && plan.insts[n].op == Operator::GlobalGet(var)
}

/// Region number `k` has an instruction `global.set` for this variable, or calls may
/// set it in any region, as it is mutable.
pub open spec fn may_set_global(plan: PlanView, k: int, var: u32) -> bool {
    ||| (var < plan.globals.len() && plan.globals[var as int].1)
    ||| exists|n: int|
        0 <= n < plan.insts.len() && lies_in(#[trigger] plan.insts[n], plan.regions()[k])
            && plan.insts[n].op == Operator::GlobalSet(var)
}

/// A local variable is read by `local.get` alone and written by `local.set` and
/// `local.tee` alone, a global one by `global.get` and `global.set`, whichever
/// variable it is.
pub proof fn law_variables_of_operators(op: Operator, var: u32)
    ensures
        (regions::accessed(op, Access::LocalRead) == Some(var)) == (op == Operator::LocalGet(var)),
        (regions::accessed(op, Access::LocalWrite) == Some(var)) == (op == Operator::LocalSet(var)
            || op == Operator::LocalTee(var)),
        (regions::accessed(op, Access::GlobalRead) == Some(var)) == (op == Operator::GlobalGet(
            var,
        )),
        (regions::accessed(op, Access::GlobalWrite) == Some(var)) == (op == Operator::GlobalSet(
            var,
        )),
{
}

/// Whether a region has an instruction that touches a variable in some way.
proof fn lemma_touched_by(plan: PlanView, k: int, access: Access, var: u32)
    ensures
        regions::touched(plan.insts, plan.regions()[k], access).contains(var) == (match access {
            Access::LocalRead => gets_local(plan, k, var),
            Access::LocalWrite => sets_local(plan, k, var),
            Access::GlobalRead => gets_global(plan, k, var),
            Access::GlobalWrite => exists|n: int|
                0 <= n < plan.insts.len() && lies_in(#[trigger] plan.insts[n], plan.regions()[k])
                    && plan.insts[n].op == Operator::GlobalSet(var),
        }),
{
    let region = plan.regions()[k];
    regions::law_touched(plan.insts, region, access, var);
    assert forall|n: int|
        0 <= n < plan.insts.len() implies regions::touches(
        #[trigger] plan.insts[n],
        region,
        access,
        var,
    ) == (lies_in(plan.insts[n], region) && (match access {
        Access::LocalRead => plan.insts[n].op == Operator::LocalGet(var),
        Access::LocalWrite => plan.insts[n].op == Operator::LocalSet(var) || plan.insts[n].op
            == Operator::LocalTee(var),
        Access::GlobalRead => plan.insts[n].op == Operator::GlobalGet(var),
        Access::GlobalWrite => plan.insts[n].op == Operator::GlobalSet(var),
    })) by {
        law_variables_of_operators(plan.insts[n].op, var);
    }
}

/// The lists of a region hold exactly the variables that its instructions read and
/// write. Of the global variables, those that calls may set count as written. What the
/// first region reads is not listed, as no checkpoint comes before it.
pub proof fn law_region_variables(plan: PlanView, k: int, var: u32)
    requires
        0 <= k < plan.regions().len(),
        plan.globals.len() <= u32::MAX,
    ensures
        plan.written_vars().len() == plan.regions().len(),
        plan.written_globals().len() == plan.regions().len(),
        plan.written_vars()[k].contains(var) == sets_local(plan, k, var),
        plan.written_globals()[k].contains(var) == may_set_global(plan, k, var),
        regions::read_before(plan.insts, plan.regions(), Access::LocalRead)[k].contains(var) == (k
            > 0 && gets_local(plan, k, var)),
        regions::read_before(plan.insts, plan.regions(), Access::GlobalRead)[k].contains(var) == (k
            > 0 && gets_global(plan, k, var)),
{
    lemma_touched_by(plan, k, Access::LocalRead, var);
    lemma_touched_by(plan, k, Access::LocalWrite, var);
    lemma_touched_by(plan, k, Access::GlobalRead, var);
    lemma_touched_by(plan, k, Access::GlobalWrite, var);
    regions::law_with_mutable(
        regions::touched(plan.insts, plan.regions()[k], Access::GlobalWrite),
        plan.globals,
        var,
    );
}

/// A distributed checkpoint behind a region holds exactly the variables that the
/// region writes. Another one holds those that a region up to it writes and a region
/// behind it reads.
pub proof fn law_checkpointed_variables(plan: PlanView, k: int, var: u32)
    requires
        0 <= k < plan.regions().len(),
        plan.globals.len() <= u32::MAX,
    ensures
        plan.saved_vars(k, true).contains(var) == sets_local(plan, k, var),
        plan.saved_globals(k, true).contains(var) == may_set_global(plan, k, var),
        plan.saved_vars(k, false).contains(var) == ((exists|i: int|
            0 <= i <= k && #[trigger] sets_local(plan, i, var)) && (exists|j: int|
            k < j < plan.regions().len() && #[trigger] gets_local(plan, j, var))),
        plan.saved_globals(k, false).contains(var) == ((exists|i: int|
            0 <= i <= k && #[trigger] may_set_global(plan, i, var)) && (exists|j: int|
            k < j < plan.regions().len() && #[trigger] gets_global(plan, j, var))),
        plan.saved_vars(k, true).no_duplicates(),
        plan.saved_vars(k, false).no_duplicates(),
        plan.saved_globals(k, true).no_duplicates(),
        plan.saved_globals(k, false).no_duplicates(),
{
    law_region_variables(plan, k, var);
    let local_reads = regions::read_before(plan.insts, plan.regions(), Access::LocalRead);
    let global_reads = regions::read_before(plan.insts, plan.regions(), Access::GlobalRead);
    regions::law_live_out(plan.written_vars(), local_reads, k, var);
    regions::law_live_out(plan.written_globals(), global_reads, k, var);
    regions::law_touched(plan.insts, plan.regions()[k], Access::LocalWrite, var);
    regions::law_touched(plan.insts, plan.regions()[k], Access::GlobalWrite, var);
    regions::law_with_mutable(
        regions::touched(plan.insts, plan.regions()[k], Access::GlobalWrite),
        plan.globals,
        var,
    );
    if exists|i: int| 0 <= i <= k && (#[trigger] plan.written_vars()[i]).contains(var) {
        let i = choose|i: int| 0 <= i <= k && (#[trigger] plan.written_vars()[i]).contains(var);
        law_region_variables(plan, i, var);
        assert(sets_local(plan, i, var));
    }
    if exists|i: int| 0 <= i <= k && #[trigger] sets_local(plan, i, var) {
        let i = choose|i: int| 0 <= i <= k && #[trigger] sets_local(plan, i, var);
        law_region_variables(plan, i, var);
        assert(plan.written_vars()[i].contains(var));
    }
    if exists|i: int| 0 <= i <= k && (#[trigger] plan.written_globals()[i]).contains(var) {
        let i = choose|i: int| 0 <= i <= k && (#[trigger] plan.written_globals()[i]).contains(var);
        law_region_variables(plan, i, var);
        assert(may_set_global(plan, i, var));
    }
    if exists|i: int| 0 <= i <= k && #[trigger] may_set_global(plan, i, var) {
        let i = choose|i: int| 0 <= i <= k && #[trigger] may_set_global(plan, i, var);
        law_region_variables(plan, i, var);
        assert(plan.written_globals()[i].contains(var));
    }
    let count = plan.regions().len();
    if exists|j: int| k < j < count && (#[trigger] local_reads[j]).contains(var) {
        let j = choose|j: int| k < j < count && (#[trigger] local_reads[j]).contains(var);
        law_region_variables(plan, j, var);
        assert(gets_local(plan, j, var));
    }
    if exists|j: int| k < j < count && #[trigger] gets_local(plan, j, var) {
        let j = choose|j: int| k < j < count && #[trigger] gets_local(plan, j, var);
        law_region_variables(plan, j, var);
        assert(local_reads[j].contains(var));
    }
    if exists|j: int| k < j < count && (#[trigger] global_reads[j]).contains(var) {
        let j = choose|j: int| k < j < count && (#[trigger] global_reads[j]).contains(var);
        law_region_variables(plan, j, var);
        assert(gets_global(plan, j, var));
    }
    if exists|j: int| k < j < count && #[trigger] gets_global(plan, j, var) {
        let j = choose|j: int| k < j < count && #[trigger] gets_global(plan, j, var);
        law_region_variables(plan, j, var);
        assert(global_reads[j].contains(var));
    }
}

/// The types of values are encoded by the bytes from 0x7f downwards, and the loads and
/// stores of numbers follow one another in the same order.
pub proof fn law_types_of_codes(code: u8)
    ensures
        (ValType::of_code(code) == ValType::I32) == (code == 0x7f),
        (ValType::of_code(code) == ValType::I64) == (code == 0x7e),
        (ValType::of_code(code) == ValType::F32) == (code == 0x7d),
        (ValType::of_code(code) == ValType::F64) == (code == 0x7c),
        (ValType::of_code(code) == ValType::V128) == (code == 0x7b),
        (NumType::of(ValType::of_code(code)) is Some) == (0x7b <= code <= 0x7f),
        0x7c <= code <= 0x7f ==> encoder::load_opcode(
            NumType::of(ValType::of_code(code))->Some_0,
        ) == seq![(0x28 + (0x7f - code)) as u8],
        0x7c <= code <= 0x7f ==> encoder::store_opcode(
            NumType::of(ValType::of_code(code))->Some_0,
        ) == seq![(0x36 + (0x7f - code)) as u8],
        code == 0x7b ==> NumType::of(ValType::of_code(code)) == Some(NumType::V128),
        forall|more: Seq<u8>|
            #![trigger ValType::of_encoding(seq![code] + more)]
            ValType::of_encoding(seq![code] + more) == ValType::of_code(code),
{
}

/// A value takes as many bytes in the checkpoint memory as its size is reported to
/// be, and as a load of its type reads: four if it has 32 bits, eight if it has 64,
/// sixteen if it has 128.
pub proof fn law_sizes(ty: ValType)
    requires
        ty != ValType::Ref,
    ensures
        NumType::of(ty) matches Some(num) && {
            &&& migrate::byte_size(ty) == num.width()
            &&& layout::slot_size(ty) == num.width()
            &&& 8 * num.width() == (match ty {
                ValType::I32 | ValType::F32 => 32nat,
                ValType::I64 | ValType::F64 => 64nat,
                _ => 128nat,
            })
        },
{
}

/// How many local variables the first `count` runs declare.
pub open spec fn declared(groups: Seq<(u32, Seq<u8>)>, count: int) -> nat
    decreases count,
{
    if count <= 0 {
        0
    } else {
        declared(groups, count - 1) + groups[count - 1].0 as nat
    }
}

/// The first runs declare no fewer variables than some of them.
proof fn lemma_declared_rises(groups: Seq<(u32, Seq<u8>)>, from: int, to: int)
    requires
        0 <= from <= to,
    ensures
        declared(groups, from) <= declared(groups, to),
    decreases to - from,
{
    if from < to {
        lemma_declared_rises(groups, from, to - 1);
    }
}

/// What the first runs declare does not depend on those behind.
proof fn lemma_declared_front(groups: Seq<(u32, Seq<u8>)>, count: int)
    requires
        0 <= count < groups.len(),
    ensures
        declared(groups.drop_last(), count) == declared(groups, count),
    decreases count,
{
    if count > 0 {
        lemma_declared_front(groups, count - 1);
    }
}

/// Each run declares as many local variables of its type as it says, behind those of
/// the runs before it.
pub proof fn law_runs_of_locals(groups: Seq<(u32, Seq<u8>)>, run: int, i: int)
    requires
        0 <= run < groups.len(),
        0 <= i < groups[run].0,
    ensures
        layout::expanded(groups).len() == declared(groups, groups.len() as int),
        declared(groups, run) + i < layout::expanded(groups).len(),
        layout::expanded(groups)[declared(groups, run) + i] == ValType::of_encoding(
            groups[run].1,
        ),
    decreases groups.len(),
{
    let init = groups.drop_last();
    lemma_expanded_len(groups);
    lemma_expanded_len(init);
    lemma_declared_rises(groups, run + 1, groups.len() as int);
    lemma_declared_front(groups, run);
    lemma_declared_front(groups, groups.len() - 1);
    if run < groups.len() - 1 {
        law_runs_of_locals(init, run, i);
    }
}

/// There is a type for each local variable that is declared.
pub(crate) proof fn lemma_expanded_len(groups: Seq<(u32, Seq<u8>)>)
    ensures
        layout::expanded(groups).len() == declared(groups, groups.len() as int),
    decreases groups.len(),
{
    if groups.len() > 0 {
        lemma_expanded_len(groups.drop_last());
        lemma_declared_front(groups, groups.len() - 1);
    }
}

/// The types that are reported of the function with checkpoints are those with which
/// its variables are checkpointed: those of its parameters, then those of its locals.
pub proof fn law_reported_types(module: CoreModule, bytes: Seq<u8>, job: Job)
    requires
        module.describes(bytes, job, true),
        job.func_index <= u32::MAX,
    ensures
        inject::prepared(module.data@, job.func_index as int, job.distributed) matches Ok(target)
            && migrate::types_of(module, job.func_index as u32) == Ok::<
            Seq<ValType>,
            MigrateError,
        >(target.plan.types),
{
    reveal(inject::prepared);
    inject::lemma_declared_locals_len(module.data@.function_bodies);
    assert(inject::locals_view(module.locals@)[job.func_index as int] == views(
        module.locals@[job.func_index as int]@,
    ));
}

} // verus!
