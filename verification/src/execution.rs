//! The execution of a function with checkpoints as a whole.

use vstd::prelude::*;
use crate::balance;
use crate::codegen;
use crate::instruction::{Instruction, NumType};
use crate::laws;
use crate::layout;
use crate::machine;
use crate::machine::{Machine, Value};
use crate::plan::PlanView;
use crate::regions;
use crate::regions::Access;

verus! {

/// What the instructions of each region do to the machine, by the number of the
/// region.
pub type Work = spec_fn(int, Machine) -> Machine;

/// The machine without what was added to the function: the checkpoint memory is
/// empty, the resuming variable zero, and the host never interferes.
pub open spec fn bare(plan: PlanView, m: Machine) -> Machine {
    Machine {
        memory: Seq::empty(),
        migrate: false,
        restored: None,
        locals: m.locals.insert(plan.resuming_var(), machine::i32_value(0)),
        ..m
    }
}

/// The instructions of region number `k`, executed on this machine, run to the end
/// of the region, keep the types of all variables, write no other variables than
/// those that the region is known to write, and have no access to what was added
/// to the function. Those of a region other than the last leave the operands as
/// they were.
pub open spec fn sound_at(plan: PlanView, work: Work, k: int, m: Machine) -> bool {
    let after = work(k, m);
    &&& after.running()
    &&& laws::typed(plan, after)
    &&& after == Machine { memory: m.memory, migrate: m.migrate, restored: m.restored, ..after }
    &&& after.locals[plan.resuming_var()] == m.locals[plan.resuming_var()]
    &&& bare(plan, after) == bare(plan, work(k, bare(plan, m)))
    &&& k < plan.regions().len() - 1 ==> after.stack == m.stack
    &&& after.locals.dom() == m.locals.dom()
    &&& after.globals.dom() == m.globals.dom()
    &&& forall|v: u32|
        #![trigger after.locals[v]]
        !plan.written_vars()[k].contains(v) && v != plan.resuming_var() ==> same_at(
            after.locals,
            m.locals,
            v,
        )
    &&& forall|g: u32|
        #![trigger after.globals[g]]
        !plan.written_globals()[k].contains(g) ==> same_at(after.globals, m.globals, g)
}

/// The instructions of all regions behave as `sound_at` says, on any machine.
pub open spec fn sound(plan: PlanView, work: Work) -> bool {
    forall|k: int, m: Machine|
        0 <= k < plan.regions().len() && m.running() && laws::typed(plan, m)
            ==> #[trigger] sound_at(plan, work, k, m)
}

/// A variable is there in both cases or in none, with the same value.
pub open spec fn same_at(first: Map<u32, Value>, second: Map<u32, Value>, v: u32) -> bool {
    &&& first.dom().contains(v) == second.dom().contains(v)
    &&& first.dom().contains(v) ==> first[v] == second[v]
}

/// Two machines have the same operands, the same memories besides the checkpoint
/// memory, and these variables in common. Of the resuming variable nothing is
/// said.
pub open spec fn agree(
    plan: PlanView,
    first: Machine,
    second: Machine,
    vars: Set<u32>,
    globals: Set<u32>,
) -> bool {
    &&& first.stack == second.stack
    &&& first.others == second.others
    &&& forall|v: u32| #[trigger]
        vars.contains(v) && v != plan.resuming_var() ==> same_at(first.locals, second.locals, v)
    &&& forall|g: u32| #[trigger]
        globals.contains(g) ==> same_at(first.globals, second.globals, g)
}

/// Region number `k` reads a local variable.
pub open spec fn reads_var(plan: PlanView, k: int, var: u32) -> bool {
    regions::touched(plan.insts, plan.regions()[k], Access::LocalRead).contains(var)
}

/// Region number `k` reads a global variable.
pub open spec fn reads_global(plan: PlanView, k: int, global: u32) -> bool {
    regions::touched(plan.insts, plan.regions()[k], Access::GlobalRead).contains(global)
}

/// What region number `k` reads is among these variables.
pub open spec fn reads_within(plan: PlanView, k: int, vars: Set<u32>, globals: Set<u32>) -> bool {
    &&& forall|v: u32| #[trigger] reads_var(plan, k, v) ==> vars.contains(v)
    &&& forall|g: u32| #[trigger] reads_global(plan, k, g) ==> globals.contains(g)
}

/// What the instructions of a region do depends only on the variables that the
/// region reads, the operands and the other memories: machines that agree on
/// these agree after the region on what they agreed on before.
pub open spec fn confined(plan: PlanView, work: Work) -> bool {
    forall|k: int, first: Machine, second: Machine, vars: Set<u32>, globals: Set<u32>|
        0 <= k < plan.regions().len() && first.running() && second.running() && laws::typed(
            plan,
            first,
        ) && laws::typed(plan, second) && reads_within(plan, k, vars, globals) && agree(
            plan,
            first,
            second,
            vars,
            globals,
        ) ==> #[trigger] agree(plan, work(k, first), work(k, second), vars, globals)
}

/// The machine after the first `count` regions of the function as it was.
pub open spec fn worked(work: Work, m: Machine, count: int) -> Machine
    decreases count,
{
    if count <= 0 {
        m
    } else {
        work(count - 1, worked(work, m, count - 1))
    }
}

/// The instructions of region number `k`, as they are copied.
pub open spec fn content(plan: PlanView, k: int) -> Seq<Instruction> {
    let node = plan.regions()[k];
    codegen::copied_between(plan.insts, node.start_inst, node.end_inst, plan.num_imports)->Ok_0
}

/// The machine after region number `k` of the function with checkpoints. Where
/// the code in front of the region jumps, its instructions are passed over.
pub open spec fn region_run(
    plan: PlanView,
    distributed: bool,
    work: Work,
    m: Machine,
    k: int,
) -> Machine {
    let entered = machine::run(plan, m, codegen::region_head(plan, k, distributed)->Ok_0);
    let through = if entered.skip > 0 {
        machine::run(plan, entered, content(plan, k))
    } else {
        work(k, entered)
    };
    machine::run(plan, through, codegen::region_tail(plan, k, distributed)->Ok_0)
}

/// The machine after the first `count` regions of the function with checkpoints.
pub open spec fn worked_with_checkpoints(
    plan: PlanView,
    distributed: bool,
    work: Work,
    m: Machine,
    count: int,
) -> Machine
    decreases count,
{
    if count <= 0 {
        m
    } else {
        let before = worked_with_checkpoints(plan, distributed, work, m, count - 1);
        region_run(plan, distributed, work, before, count - 1)
    }
}

/// The machine at the start of the function as it was. The variable that the
/// function with checkpoints has in addition is there, and zero.
pub open spec fn started(plan: PlanView, m: Machine) -> Machine {
    Machine { locals: m.locals.insert(plan.resuming_var(), machine::i32_value(0)), ..m }
}

/// The machine after the function as it was.
pub open spec fn original_run(plan: PlanView, work: Work, m: Machine) -> Machine {
    worked(work, started(plan, m), plan.regions().len() as int)
}

/// The machine after the code in front of all regions.
pub open spec fn prepared(plan: PlanView, m: Machine) -> Machine {
    machine::run(plan, m, codegen::init_code(plan, (plan.num_imports + 1) as u32))
}

/// The machine after the function with checkpoints.
pub open spec fn checkpointed_run(
    plan: PlanView,
    distributed: bool,
    work: Work,
    m: Machine,
) -> Machine {
    worked_with_checkpoints(
        plan,
        distributed,
        work,
        prepared(plan, m),
        plan.regions().len() as int,
    )
}

/// The machine after a function with checkpoints that the host asks to migrate
/// behind region number `stopped`, and not before.
pub open spec fn stopped_run(
    plan: PlanView,
    distributed: bool,
    work: Work,
    m: Machine,
    stopped: int,
) -> Machine {
    let before = worked_with_checkpoints(plan, distributed, work, prepared(plan, m), stopped);
    region_run(plan, distributed, work, (Machine { migrate: true, ..before }), stopped)
}

/// The code of a function can be produced, and the numbers of its regions fit in
/// 32 bits.
pub open spec fn checkpointable(plan: PlanView, distributed: bool) -> bool {
    &&& forall|k: int| 0 <= k < plan.regions().len() ==> #[trigger] laws::numbered(plan, k)
    &&& codegen::function_code(plan, distributed) is Ok
}

/// A machine on which a function with checkpoints can start anew.
pub open spec fn ready(plan: PlanView, m: Machine) -> bool {
    &&& m.running()
    &&& !m.migrate
    &&& m.restored is None
    &&& laws::has_room(plan, m.memory.len())
    &&& machine::read(m.memory, layout::RESUMING_BLOCK_ADDR as int, 4) == 0
    &&& laws::typed(plan, started(plan, m))
}

/// The code around each region can be produced if that of the function can.
proof fn lemma_parts_produced(plan: PlanView, distributed: bool, k: int, count: int)
    requires
        0 <= k < count,
        codegen::regions_code(plan, count, distributed) is Ok,
    ensures
        codegen::region_code(plan, k, distributed) is Ok,
        codegen::region_head(plan, k, distributed) is Ok,
        codegen::region_tail(plan, k, distributed) is Ok,
        codegen::region_code(plan, k, distributed)->Ok_0 == codegen::region_head(
            plan,
            k,
            distributed,
        )->Ok_0 + content(plan, k) + codegen::region_tail(plan, k, distributed)->Ok_0,
    decreases count,
{
    if k < count - 1 {
        lemma_parts_produced(plan, distributed, k, count - 1);
    }
}

/// What a region does to a machine follows from what it does to one that differs
/// only in what was added to the function.
proof fn lemma_work_alike(plan: PlanView, work: Work, k: int, first: Machine, second: Machine)
    requires
        sound(plan, work),
        0 <= k < plan.regions().len(),
        first.running(),
        second.running(),
        laws::typed(plan, first),
        laws::typed(plan, second),
        bare(plan, first) == bare(plan, second),
    ensures
        work(k, first) == (Machine {
            memory: first.memory,
            migrate: first.migrate,
            restored: first.restored,
            locals: work(k, second).locals.insert(
                plan.resuming_var(),
                first.locals[plan.resuming_var()],
            ),
            ..work(k, second)
        }),
{
    assert(sound_at(plan, work, k, first));
    assert(sound_at(plan, work, k, second));
    let one = work(k, first);
    let two = work(k, second);
    let var = plan.resuming_var();
    assert(bare(plan, one) == bare(plan, two));
    let expected = two.locals.insert(var, first.locals[var]);
    assert(one.locals =~= expected) by {
        assert(bare(plan, one).locals == bare(plan, two).locals);
        assert forall|v: u32| one.locals.dom().contains(v) == expected.dom().contains(v) by {
            assert(bare(plan, one).locals.dom().contains(v) == bare(
                plan,
                two,
            ).locals.dom().contains(v));
        }
        assert forall|v: u32| #[trigger] one.locals.dom().contains(v) implies one.locals[v]
            == expected[v] by {
            assert(bare(plan, one).locals[v] == bare(plan, two).locals[v]);
        }
    }
}

/// The types are kept where only the resuming variable changes.
proof fn lemma_typed_alike(plan: PlanView, first: Machine, second: Machine)
    requires
        laws::sized(plan),
        laws::typed(plan, first),
        second.globals == first.globals,
        second.locals == first.locals.insert(
            plan.resuming_var(),
            second.locals[plan.resuming_var()],
        ),
        second.locals[plan.resuming_var()].ty == NumType::I32,
    ensures
        laws::typed(plan, second),
{
    assert forall|v: u32|
        #![trigger second.locals[v]]
        v < plan.types.len() && NumType::of(
            plan.types[v as int],
        ) is Some implies second.locals.dom().contains(v) && Some(second.locals[v].ty)
        == NumType::of(plan.types[v as int]) && machine::fits(second.locals[v]) by {
        let value = first.locals[v];
    }
}

/// Without a resumption and a migration, the checkpoints of the first `count`
/// regions have an effect on the checkpoint memory only.
proof fn lemma_regions_undisturbed(
    plan: PlanView,
    distributed: bool,
    work: Work,
    m: Machine,
    count: int,
)
    requires
        0 <= count <= plan.regions().len(),
        checkpointable(plan, distributed),
        sound(plan, work),
        m.running(),
        !m.migrate,
        laws::typed(plan, m),
        laws::has_room(plan, m.memory.len()),
        m.locals[plan.resuming_var()] == machine::i32_value(0),
    ensures
        ({
            let plain = worked(work, m, count);
            let after = worked_with_checkpoints(plan, distributed, work, m, count);
            &&& after == Machine { memory: after.memory, ..plain }
            &&& after.memory.len() == m.memory.len()
            &&& plain.running()
            &&& !plain.migrate
            &&& plain.restored == m.restored
            &&& laws::typed(plan, plain)
            &&& plain.locals[plan.resuming_var()] == machine::i32_value(0)
            &&& plain.locals.dom() == m.locals.dom()
            &&& plain.globals.dom() == m.globals.dom()
            &&& count < plan.regions().len() ==> plain.stack == m.stack
        }),
    decreases count,
{
    if count > 0 {
        let k = count - 1;
        lemma_regions_undisturbed(plan, distributed, work, m, k);
        let plain = worked(work, m, k);
        let before = worked_with_checkpoints(plan, distributed, work, m, k);
        lemma_parts_produced(plan, distributed, k, plan.regions().len() as int);
        assert(laws::typed(plan, before));
        assert(laws::numbered(plan, k));
        laws::law_no_effect_unless_resuming(plan, k, distributed, before);
        let reached = work(k, before);
        assert(bare(plan, before) =~= bare(plan, plain));
        lemma_work_alike(plan, work, k, before, plain);
        assert(sound_at(plan, work, k, plain));
        assert(sound_at(plan, work, k, before));
        assert(reached.locals =~= work(k, plain).locals);
        assert(reached == Machine { memory: before.memory, ..work(k, plain) });
        if k < plan.regions().len() - 1 {
            assert(laws::numbered(plan, k + 1));
            laws::law_region_end(plan, k, distributed, reached);
            laws::law_checkpoint_changes_only_memory(plan, k, distributed, reached);
        }
    }
}

/// A function with checkpoints that neither resumes nor is asked to migrate
/// computes what the function computed without them: when it is through, all but
/// the checkpoint memory is the same.
pub proof fn law_computes_as_before(
    plan: PlanView,
    distributed: bool,
    work: Work,
    m: Machine,
)
    requires
        checkpointable(plan, distributed),
        sound(plan, work),
        ready(plan, m),
    ensures
        ({
            let after = checkpointed_run(plan, distributed, work, m);
            after == Machine { memory: after.memory, ..original_run(plan, work, m) }
        }),
{
    laws::law_init(plan, m);
    assert(prepared(plan, m) == started(plan, m));
    lemma_regions_undisturbed(
        plan,
        distributed,
        work,
        started(plan, m),
        plan.regions().len() as int,
    );
}

/// A region up to number `k` writes a local variable.
pub open spec fn writes_var(plan: PlanView, k: int, var: u32) -> bool {
    exists|i: int| 0 <= i <= k && (#[trigger] plan.written_vars()[i]).contains(var)
}

/// A region up to number `k` may write a global variable.
pub open spec fn writes_global(plan: PlanView, k: int, global: u32) -> bool {
    exists|i: int| 0 <= i <= k && (#[trigger] plan.written_globals()[i]).contains(global)
}

/// The local variables that a resumption behind region number `k` carries over:
/// with distributed checkpoints all, otherwise those that no region up to it
/// writes or a region behind it reads.
pub open spec fn carried_vars(plan: PlanView, k: int, distributed: bool) -> Set<u32> {
    Set::new(
        |v: u32|
            distributed || !writes_var(plan, k, v) || exists|j: int|
                k < j < plan.regions().len() && #[trigger] reads_var(plan, j, v),
    )
}

/// The global variables that a resumption behind region number `k` carries over.
pub open spec fn carried_globals(plan: PlanView, k: int, distributed: bool) -> Set<u32> {
    Set::new(
        |g: u32|
            distributed || !writes_global(plan, k, g) || exists|j: int|
                k < j < plan.regions().len() && #[trigger] reads_global(plan, j, g),
    )
}

/// The checkpoint memory behind region number `k` has a place with the value of
/// this local variable.
pub open spec fn placed_var(plan: PlanView, k: int, distributed: bool, var: u32) -> bool {
    if distributed {
        writes_var(plan, k, var)
    } else {
        plan.live_vars()[k].contains(var)
    }
}

/// The checkpoint memory behind region number `k` has a place with the value of
/// this global variable.
pub open spec fn placed_global(plan: PlanView, k: int, distributed: bool, global: u32) -> bool {
    if distributed {
        writes_global(plan, k, global)
    } else {
        plan.live_globals()[k].contains(global)
    }
}

/// The code that restores the variables of region number `k` can be produced, and
/// their places are known.
proof fn lemma_resume_produced(plan: PlanView, distributed: bool, k: int)
    requires
        laws::sized(plan),
        checkpointable(plan, distributed),
        0 <= k < plan.regions().len() - 1,
    ensures
        codegen::resume_code(plan, k, distributed) is Ok,
        forall|v: u32| #[trigger]
            plan.saved_vars(k, distributed).contains(v) ==> codegen::var_slot(plan, v) is Ok && v
                != plan.resuming_var(),
        forall|g: u32| #[trigger]
            plan.saved_globals(k, distributed).contains(g) ==> codegen::global_slot(
                plan,
                g,
            ) is Ok,
{
    lemma_parts_produced(plan, distributed, k + 1, plan.regions().len() as int);
    laws::lemma_saved_known(plan, k, distributed);
}

/// A variable that has a place behind a region has an address.
proof fn lemma_placed_known(plan: PlanView, distributed: bool, k: int)
    requires
        laws::sized(plan),
        checkpointable(plan, distributed),
        0 <= k < plan.regions().len() - 1,
    ensures
        forall|v: u32| #[trigger]
            placed_var(plan, k, distributed, v) ==> codegen::var_slot(plan, v) is Ok && v
                != plan.resuming_var(),
        forall|g: u32| #[trigger]
            placed_global(plan, k, distributed, g) ==> codegen::global_slot(plan, g) is Ok,
{
    assert forall|v: u32| #[trigger] placed_var(plan, k, distributed, v) implies codegen::var_slot(
        plan,
        v,
    ) is Ok && v != plan.resuming_var() by {
        let i = if distributed {
            choose|i: int| 0 <= i <= k && (#[trigger] plan.written_vars()[i]).contains(v)
        } else {
            k
        };
        lemma_resume_produced(plan, distributed, i);
        assert(plan.saved_vars(i, distributed).contains(v));
    }
    assert forall|g: u32| #[trigger] placed_global(
        plan,
        k,
        distributed,
        g,
    ) implies codegen::global_slot(plan, g) is Ok by {
        let i = if distributed {
            choose|i: int| 0 <= i <= k && (#[trigger] plan.written_globals()[i]).contains(g)
        } else {
            k
        };
        lemma_resume_produced(plan, distributed, i);
        assert(plan.saved_globals(i, distributed).contains(g));
    }
}

/// The checkpoint memory holds the values that the variables have behind region
/// number `k`.
pub open spec fn holds(
    plan: PlanView,
    k: int,
    distributed: bool,
    memory: Seq<u8>,
    m: Machine,
) -> bool {
    &&& forall|v: u32| #[trigger]
        placed_var(plan, k, distributed, v) ==> laws::held_var(plan, memory, v) == m.locals[v]
    &&& forall|g: u32| #[trigger]
        placed_global(plan, k, distributed, g) ==> laws::held_global(plan, memory, g)
            == m.globals[g]
}

/// If the memory held the values of the variables behind the region before, a
/// checkpoint behind region number `k` makes it hold them.
#[verifier::rlimit(30)]
proof fn lemma_checkpoint_holds(
    plan: PlanView,
    distributed: bool,
    before: Machine,
    reached: Machine,
    k: int,
)
    requires
        laws::sized(plan),
        checkpointable(plan, distributed),
        0 <= k < plan.regions().len() - 1,
        laws::typed(plan, reached),
        laws::has_room(plan, reached.memory.len()),
        reached.memory == before.memory,
        forall|v: u32|
            #![trigger reached.locals[v]]
            !plan.written_vars()[k].contains(v) && v != plan.resuming_var() ==> same_at(
                reached.locals,
                before.locals,
                v,
            ),
        forall|g: u32|
            #![trigger reached.globals[g]]
            !plan.written_globals()[k].contains(g) ==> same_at(reached.globals, before.globals, g),
        k > 0 && distributed ==> holds(plan, k - 1, distributed, before.memory, before),
    ensures
        holds(plan, k, distributed, laws::checkpointed(plan, k, distributed, reached), reached),
{
    let memory = laws::checkpointed(plan, k, distributed, reached);
    assert(laws::numbered(plan, k + 1));
    lemma_placed_known(plan, distributed, k);
    assert forall|v: u32| #[trigger] placed_var(plan, k, distributed, v) implies laws::held_var(
        plan,
        memory,
        v,
    ) == reached.locals[v] by {
        laws::law_checkpoint_holds_var(plan, k, distributed, reached, v);
        if distributed && !plan.written_vars()[k].contains(v) {
            let i = choose|i: int| 0 <= i <= k && (#[trigger] plan.written_vars()[i]).contains(v);
            assert(0 <= i <= k - 1 && plan.written_vars()[i].contains(v));
            assert(placed_var(plan, k - 1, distributed, v));
            assert(reached.locals.dom().contains(v));
            assert(same_at(reached.locals, before.locals, v));
        }
    }
    assert forall|g: u32| #[trigger] placed_global(
        plan,
        k,
        distributed,
        g,
    ) implies laws::held_global(plan, memory, g) == reached.globals[g] by {
        laws::law_checkpoint_holds_global(plan, k, distributed, reached, g);
        if distributed && !plan.written_globals()[k].contains(g) {
            let i = choose|i: int|
                0 <= i <= k && (#[trigger] plan.written_globals()[i]).contains(g);
            assert(0 <= i <= k - 1 && plan.written_globals()[i].contains(g));
            assert(placed_global(plan, k - 1, distributed, g));
            assert(reached.globals.dom().contains(g));
            assert(same_at(reached.globals, before.globals, g));
        }
    }
}

/// Behind each region, the checkpoint memory holds the values of the variables
/// that have a place there.
#[verifier::rlimit(30)]
proof fn lemma_memory_holds(
    plan: PlanView,
    distributed: bool,
    work: Work,
    m: Machine,
    count: int,
)
    requires
        0 < count < plan.regions().len(),
        laws::sized(plan),
        checkpointable(plan, distributed),
        sound(plan, work),
        m.running(),
        !m.migrate,
        laws::typed(plan, m),
        laws::has_room(plan, m.memory.len()),
        m.locals[plan.resuming_var()] == machine::i32_value(0),
    ensures
        ({
            let after = worked_with_checkpoints(plan, distributed, work, m, count);
            holds(plan, count - 1, distributed, after.memory, after)
        }),
    decreases count,
{
    let k = count - 1;
    if k > 0 {
        lemma_memory_holds(plan, distributed, work, m, k);
    }
    lemma_regions_undisturbed(plan, distributed, work, m, k);
    let before = worked_with_checkpoints(plan, distributed, work, m, k);
    lemma_parts_produced(plan, distributed, k, plan.regions().len() as int);
    assert(laws::typed(plan, before));
    laws::law_no_effect_unless_resuming(plan, k, distributed, before);
    let reached = work(k, before);
    assert(sound_at(plan, work, k, before));
    assert(laws::numbered(plan, k + 1));
    laws::law_region_end(plan, k, distributed, reached);
    lemma_checkpoint_holds(plan, distributed, before, reached, k);
}

/// A variable that no region up to number `k` writes keeps its value.
proof fn lemma_unwritten(
    plan: PlanView,
    distributed: bool,
    work: Work,
    m: Machine,
    count: int,
)
    requires
        0 <= count <= plan.regions().len(),
        checkpointable(plan, distributed),
        sound(plan, work),
        m.running(),
        !m.migrate,
        laws::typed(plan, m),
        laws::has_room(plan, m.memory.len()),
        m.locals[plan.resuming_var()] == machine::i32_value(0),
    ensures
        forall|v: u32| !#[trigger] writes_var(plan, count - 1, v) && v != plan.resuming_var()
            ==> same_at(worked(work, m, count).locals, m.locals, v),
        forall|g: u32| !#[trigger] writes_global(plan, count - 1, g) ==> same_at(
            worked(work, m, count).globals,
            m.globals,
            g,
        ),
    decreases count,
{
    if count > 0 {
        let k = count - 1;
        lemma_unwritten(plan, distributed, work, m, k);
        lemma_regions_undisturbed(plan, distributed, work, m, k);
        let before = worked(work, m, k);
        let after = worked(work, m, count);
        assert(sound_at(plan, work, k, before));
        assert forall|v: u32| !#[trigger] writes_var(plan, k, v) && v
            != plan.resuming_var() implies same_at(after.locals, m.locals, v) by {
            assert(!plan.written_vars()[k].contains(v));
            assert(!writes_var(plan, k - 1, v)) by {
                if writes_var(plan, k - 1, v) {
                    let i = choose|i: int|
                        0 <= i <= k - 1 && (#[trigger] plan.written_vars()[i]).contains(v);
                    assert(0 <= i <= k && plan.written_vars()[i].contains(v));
                }
            }
            assert(same_at(before.locals, m.locals, v));
            let value = after.locals[v];
            assert(same_at(after.locals, before.locals, v));
        }
        assert forall|g: u32| !#[trigger] writes_global(plan, k, g) implies same_at(
            after.globals,
            m.globals,
            g,
        ) by {
            assert(!plan.written_globals()[k].contains(g));
            assert(!writes_global(plan, k - 1, g)) by {
                if writes_global(plan, k - 1, g) {
                    let i = choose|i: int|
                        0 <= i <= k - 1 && (#[trigger] plan.written_globals()[i]).contains(g);
                    assert(0 <= i <= k && plan.written_globals()[i].contains(g));
                }
            }
            assert(same_at(before.globals, m.globals, g));
            let value = after.globals[g];
            assert(same_at(after.globals, before.globals, g));
        }
    }
}

/// A function that is asked to migrate behind a region stops there with the
/// variables that the function without checkpoints has at that point. The
/// checkpoint memory holds those that have a place, and the number of the region
/// to start from.
#[verifier::rlimit(30)]
proof fn lemma_stopped(
    plan: PlanView,
    distributed: bool,
    work: Work,
    m: Machine,
    later: Machine,
    stopped: int,
)
    requires
        laws::sized(plan),
        plan.num_imports < u32::MAX,
        checkpointable(plan, distributed),
        sound(plan, work),
        ready(plan, m),
        0 <= stopped < plan.regions().len() - 1,
        later.running(),
        4 <= later.memory.len(),
        later.restored == Some(stopped_run(plan, distributed, work, m, stopped).memory),
    ensures
        ({
            let end = stopped_run(plan, distributed, work, m, stopped);
            let plain = worked(work, started(plan, m), stopped + 1);
            &&& end == Machine { memory: end.memory, migrate: true, stopped: true, ..plain }
            &&& end.memory.len() == m.memory.len()
            &&& holds(plan, stopped, distributed, end.memory, plain)
            &&& prepared(plan, later) == Machine {
                memory: end.memory,
                locals: later.locals.insert(
                    plan.resuming_var(),
                    machine::i32_value(plan.regions()[stopped + 1].index as nat),
                ),
                ..later
            }
        }),
{
    let k = stopped;
    let start = started(plan, m);
    laws::law_init(plan, m);
    assert(prepared(plan, m) == start);
    lemma_regions_undisturbed(plan, distributed, work, start, k);
    let plain = worked(work, start, k);
    let before = worked_with_checkpoints(plan, distributed, work, start, k);
    if k > 0 {
        lemma_memory_holds(plan, distributed, work, start, k);
    }
    let asked = Machine { migrate: true, ..before };
    lemma_parts_produced(plan, distributed, k, plan.regions().len() as int);
    assert(laws::typed(plan, asked));
    laws::law_no_effect_unless_resuming(plan, k, distributed, asked);
    let reached = work(k, asked);
    assert(bare(plan, asked) =~= bare(plan, plain));
    lemma_work_alike(plan, work, k, asked, plain);
    assert(sound_at(plan, work, k, plain));
    assert(sound_at(plan, work, k, asked));
    assert(reached.locals =~= work(k, plain).locals);
    assert(laws::numbered(plan, k + 1));
    laws::law_region_end(plan, k, distributed, reached);
    laws::law_checkpoint_changes_only_memory(plan, k, distributed, reached);
    lemma_checkpoint_holds(plan, distributed, asked, reached, k);
    laws::law_resumes_where_stopped(plan, k, distributed, reached, later);
    laws::law_init(plan, later);
}

/// In front of a region other than the one to start from, a function that resumes
/// has restored the variables that have a place behind the region before the one
/// in front of it.
pub open spec fn refilled_var(plan: PlanView, count: int, distributed: bool, var: u32) -> bool {
    distributed && writes_var(plan, count - 2, var)
}

/// The same of the global variables.
pub open spec fn refilled_global(
    plan: PlanView,
    count: int,
    distributed: bool,
    global: u32,
) -> bool {
    distributed && writes_global(plan, count - 2, global)
}

/// A restoration in front of region number `k` brings back the variables that
/// have a place behind region `k - 1`, given that those with a place before that
/// were brought back already.
#[verifier::rlimit(30)]
proof fn lemma_refill(plan: PlanView, distributed: bool, k: int, start: Machine, m: Machine)
    requires
        laws::sized(plan),
        checkpointable(plan, distributed),
        0 < k < plan.regions().len(),
        m.running(),
        laws::typed(plan, m),
        laws::has_room(plan, m.memory.len()),
        m == (Machine { locals: m.locals, globals: m.globals, ..start }),
        m.locals.dom() == start.locals.dom(),
        m.globals.dom() == start.globals.dom(),
        m.locals[plan.resuming_var()] == start.locals[plan.resuming_var()],
        laws::restores(plan, k - 1, distributed, m),
        forall|v: u32| #[trigger]
            m.locals.dom().contains(v) ==> m.locals[v] == (if refilled_var(
                plan,
                k,
                distributed,
                v,
            ) {
                laws::held_var(plan, start.memory, v)
            } else {
                start.locals[v]
            }),
        forall|g: u32| #[trigger]
            m.globals.dom().contains(g) ==> m.globals[g] == (if refilled_global(
                plan,
                k,
                distributed,
                g,
            ) {
                laws::held_global(plan, start.memory, g)
            } else {
                start.globals[g]
            }),
    ensures
        ({
            let after = machine::run(plan, m, laws::resume_before(plan, k, distributed));
            &&& after == Machine { locals: after.locals, globals: after.globals, ..start }
            &&& laws::typed(plan, after)
            &&& after.locals.dom() == start.locals.dom()
            &&& after.globals.dom() == start.globals.dom()
            &&& after.locals[plan.resuming_var()] == start.locals[plan.resuming_var()]
            &&& forall|v: u32| #[trigger]
                after.locals.dom().contains(v) ==> after.locals[v] == (if placed_var(
                    plan,
                    k - 1,
                    distributed,
                    v,
                ) {
                    laws::held_var(plan, start.memory, v)
                } else {
                    start.locals[v]
                })
            &&& forall|g: u32| #[trigger]
                after.globals.dom().contains(g) ==> after.globals[g] == (if placed_global(
                    plan,
                    k - 1,
                    distributed,
                    g,
                ) {
                    laws::held_global(plan, start.memory, g)
                } else {
                    start.globals[g]
                })
        }),
{
    assert(laws::numbered(plan, k));
    lemma_resume_produced(plan, distributed, k - 1);
    laws::lemma_resume_keeps_types(plan, k - 1, distributed, m);
    laws::law_resume_restores(plan, k - 1, distributed, m);
    let after = machine::run(plan, m, laws::resume_before(plan, k, distributed));
    assert forall|v: u32| #[trigger] after.locals.dom().contains(v) implies after.locals[v] == (
    if placed_var(plan, k - 1, distributed, v) {
        laws::held_var(plan, start.memory, v)
    } else {
        start.locals[v]
    }) by {
        assert(m.locals.dom().contains(v));
        let value = after.locals[v];
        if distributed {
            if plan.written_vars()[k - 1].contains(v) {
                assert(placed_var(plan, k - 1, distributed, v));
            } else if placed_var(plan, k - 1, distributed, v) {
                let i = choose|i: int|
                    0 <= i <= k - 1 && (#[trigger] plan.written_vars()[i]).contains(v);
                assert(0 <= i <= k - 2 && plan.written_vars()[i].contains(v));
            } else if refilled_var(plan, k, distributed, v) {
                let i = choose|i: int|
                    0 <= i <= k - 2 && (#[trigger] plan.written_vars()[i]).contains(v);
                assert(0 <= i <= k - 1 && plan.written_vars()[i].contains(v));
            }
        }
    }
    assert forall|g: u32| #[trigger] after.globals.dom().contains(g) implies after.globals[g] == (
    if placed_global(plan, k - 1, distributed, g) {
        laws::held_global(plan, start.memory, g)
    } else {
        start.globals[g]
    }) by {
        assert(m.globals.dom().contains(g));
        let value = after.globals[g];
        if distributed {
            if plan.written_globals()[k - 1].contains(g) {
                assert(placed_global(plan, k - 1, distributed, g));
            } else if placed_global(plan, k - 1, distributed, g) {
                let i = choose|i: int|
                    0 <= i <= k - 1 && (#[trigger] plan.written_globals()[i]).contains(g);
                assert(0 <= i <= k - 2 && plan.written_globals()[i].contains(g));
            } else if refilled_global(plan, k, distributed, g) {
                let i = choose|i: int|
                    0 <= i <= k - 2 && (#[trigger] plan.written_globals()[i]).contains(g);
                assert(0 <= i <= k - 1 && plan.written_globals()[i].contains(g));
            }
        }
    }
}

/// Of the regions in front of the one to start from, only the restorations are
/// executed.
#[verifier::rlimit(30)]
proof fn lemma_regions_passed(
    plan: PlanView,
    distributed: bool,
    work: Work,
    start: Machine,
    target: int,
    count: int,
)
    requires
        laws::of_function(plan),
        balance::else_in_if(plan.insts),
        checkpointable(plan, distributed),
        0 <= count <= target < plan.regions().len(),
        start.running(),
        laws::typed(plan, start),
        laws::has_room(plan, start.memory.len()),
        laws::resuming(plan, start) == plan.regions()[target].index,
    ensures
        ({
            let m = worked_with_checkpoints(plan, distributed, work, start, count);
            &&& m.running()
            &&& laws::typed(plan, m)
            &&& m == Machine { locals: m.locals, globals: m.globals, ..start }
            &&& m.locals.dom() == start.locals.dom()
            &&& m.globals.dom() == start.globals.dom()
            &&& m.locals[plan.resuming_var()] == start.locals[plan.resuming_var()]
            &&& forall|v: u32| #[trigger]
                m.locals.dom().contains(v) ==> m.locals[v] == (if refilled_var(
                    plan,
                    count,
                    distributed,
                    v,
                ) {
                    laws::held_var(plan, start.memory, v)
                } else {
                    start.locals[v]
                })
            &&& forall|g: u32| #[trigger]
                m.globals.dom().contains(g) ==> m.globals[g] == (if refilled_global(
                    plan,
                    count,
                    distributed,
                    g,
                ) {
                    laws::held_global(plan, start.memory, g)
                } else {
                    start.globals[g]
                })
        }),
    decreases count,
{
    if count > 0 {
        let k = count - 1;
        lemma_regions_passed(plan, distributed, work, start, target, k);
        let before = worked_with_checkpoints(plan, distributed, work, start, k);
        lemma_parts_produced(plan, distributed, k, plan.regions().len() as int);
        laws::lemma_numbers_rise(plan, k, target);
        assert(laws::numbered(plan, target));
        laws::law_other_regions_skipped(plan, k, distributed, before);
        let head = codegen::region_head(plan, k, distributed)->Ok_0;
        let tail = codegen::region_tail(plan, k, distributed)->Ok_0;
        machine::lemma_run_concat(plan, before, head + content(plan, k), tail);
        machine::lemma_run_concat(plan, before, head, content(plan, k));
        if k > 0 {
            if distributed {
                lemma_refill(plan, distributed, k, start, before);
            } else {
                laws::law_resume_without_effect(plan, k - 1, distributed, before);
            }
        }
    }
}

/// In front of the region to start from, a function that resumes agrees with the
/// function without checkpoints at that point, whether or not the host asks to
/// migrate behind the region.
#[verifier::rlimit(30)]
proof fn lemma_entered(
    plan: PlanView,
    distributed: bool,
    work: Work,
    start: Machine,
    m: Machine,
    stopped: int,
    asked: bool,
)
    requires
        laws::of_function(plan),
        balance::else_in_if(plan.insts),
        checkpointable(plan, distributed),
        sound(plan, work),
        0 <= stopped < plan.regions().len() - 1,
        start.running(),
        !start.migrate,
        laws::typed(plan, start),
        laws::has_room(plan, start.memory.len()),
        laws::resuming(plan, start) == plan.regions()[stopped + 1].index,
        m.running(),
        !m.migrate,
        laws::typed(plan, m),
        laws::has_room(plan, m.memory.len()),
        m.locals[plan.resuming_var()] == machine::i32_value(0),
        start.stack == m.stack,
        start.globals == m.globals,
        start.locals == m.locals.insert(plan.resuming_var(), start.locals[plan.resuming_var()]),
        start.others == worked(work, m, stopped + 1).others,
        holds(plan, stopped, distributed, start.memory, worked(work, m, stopped + 1)),
    ensures
        ({
            let k = stopped + 1;
            let before = worked_with_checkpoints(plan, distributed, work, start, k);
            let entered = machine::run(
                plan,
                (Machine { migrate: asked, ..before }),
                codegen::region_head(plan, k, distributed)->Ok_0,
            );
            &&& entered.running()
            &&& entered.migrate == asked
            &&& laws::typed(plan, entered)
            &&& entered.memory == start.memory
            &&& k < plan.regions().len() - 1 ==> entered.locals[plan.resuming_var()]
                == machine::i32_value(0)
            &&& agree(
                plan,
                entered,
                worked(work, m, k),
                carried_vars(plan, stopped, distributed),
                carried_globals(plan, stopped, distributed),
            )
        }),
{
    let k = stopped + 1;
    assert(laws::numbered(plan, k));
    lemma_regions_passed(plan, distributed, work, start, k, k);
    let passed = worked_with_checkpoints(plan, distributed, work, start, k);
    let before = Machine { migrate: asked, ..passed };
    let origin = Machine { migrate: asked, ..start };
    lemma_parts_produced(plan, distributed, k, plan.regions().len() as int);
    assert(laws::restores(plan, k - 1, distributed, before));
    lemma_refill(plan, distributed, k, origin, before);
    laws::lemma_head_entered(plan, k, distributed, before);
    let restored = machine::run(plan, before, laws::resume_before(plan, k, distributed));
    let entered = machine::run(plan, before, codegen::region_head(plan, k, distributed)->Ok_0);
    let plain = worked(work, m, k);
    lemma_regions_undisturbed(plan, distributed, work, m, k);
    lemma_unwritten(plan, distributed, work, m, k);
    if k < plan.regions().len() - 1 {
        lemma_typed_alike(plan, restored, entered);
    }
    assert(start.locals.dom() =~= m.locals.dom());
    lemma_carried(plan, distributed, stopped, start, m, plain, restored);
    lemma_agree_but_resuming(plan, distributed, stopped, restored, entered, plain);
}

/// Where only the resuming variable changes, machines agree as before.
proof fn lemma_agree_but_resuming(
    plan: PlanView,
    distributed: bool,
    k: int,
    restored: Machine,
    entered: Machine,
    plain: Machine,
)
    requires
        agree(
            plan,
            restored,
            plain,
            carried_vars(plan, k, distributed),
            carried_globals(plan, k, distributed),
        ),
        entered == restored || entered == laws::cleared(plan, restored),
    ensures
        agree(
            plan,
            entered,
            plain,
            carried_vars(plan, k, distributed),
            carried_globals(plan, k, distributed),
        ),
{
    let vars = carried_vars(plan, k, distributed);
    assert forall|v: u32| #[trigger] vars.contains(v) && v != plan.resuming_var() implies same_at(
        entered.locals,
        plain.locals,
        v,
    ) by {
        assert(same_at(restored.locals, plain.locals, v));
    }
}

/// With the variables that have a place restored, and the others as at the start,
/// a machine agrees with the function without checkpoints behind the region.
proof fn lemma_carried(
    plan: PlanView,
    distributed: bool,
    k: int,
    start: Machine,
    m: Machine,
    plain: Machine,
    restored: Machine,
)
    requires
        0 <= k < plan.regions().len(),
        restored.stack == plain.stack,
        restored.others == plain.others,
        start.locals == m.locals.insert(plan.resuming_var(), start.locals[plan.resuming_var()]),
        start.globals == m.globals,
        restored.locals.dom() == m.locals.dom(),
        plain.locals.dom() == m.locals.dom(),
        restored.globals.dom() == m.globals.dom(),
        plain.globals.dom() == m.globals.dom(),
        holds(plan, k, distributed, start.memory, plain),
        forall|v: u32| #[trigger]
            restored.locals.dom().contains(v) ==> restored.locals[v] == (if placed_var(
                plan,
                k,
                distributed,
                v,
            ) {
                laws::held_var(plan, start.memory, v)
            } else {
                start.locals[v]
            }),
        forall|g: u32| #[trigger]
            restored.globals.dom().contains(g) ==> restored.globals[g] == (if placed_global(
                plan,
                k,
                distributed,
                g,
            ) {
                laws::held_global(plan, start.memory, g)
            } else {
                start.globals[g]
            }),
        forall|v: u32| !#[trigger] writes_var(plan, k, v) && v != plan.resuming_var() ==> same_at(
            plain.locals,
            m.locals,
            v,
        ),
        forall|g: u32| !#[trigger] writes_global(plan, k, g) ==> same_at(
            plain.globals,
            m.globals,
            g,
        ),
    ensures
        agree(
            plan,
            restored,
            plain,
            carried_vars(plan, k, distributed),
            carried_globals(plan, k, distributed),
        ),
{
    let vars = carried_vars(plan, k, distributed);
    let globals = carried_globals(plan, k, distributed);
    assert forall|v: u32| #[trigger] vars.contains(v) && v != plan.resuming_var() implies same_at(
        restored.locals,
        plain.locals,
        v,
    ) by {
        lemma_placed(plan, distributed, k, v);
        assert(restored.locals.dom().contains(v) == plain.locals.dom().contains(v));
        if restored.locals.dom().contains(v) && !placed_var(plan, k, distributed, v) {
            assert(!writes_var(plan, k, v));
            assert(same_at(plain.locals, m.locals, v));
        }
    }
    assert forall|g: u32| #[trigger] globals.contains(g) implies same_at(
        restored.globals,
        plain.globals,
        g,
    ) by {
        lemma_placed(plan, distributed, k, g);
        assert(restored.globals.dom().contains(g) == plain.globals.dom().contains(g));
        if restored.globals.dom().contains(g) && !placed_global(plan, k, distributed, g) {
            assert(!writes_global(plan, k, g));
            assert(same_at(plain.globals, m.globals, g));
        }
    }
}

/// Machines that agree on all variables differ only in what was added to the
/// function.
proof fn lemma_agree_on_all(plan: PlanView, k: int, first: Machine, second: Machine)
    requires
        first.running(),
        second.running(),
        agree(
            plan,
            first,
            second,
            carried_vars(plan, k, true),
            carried_globals(plan, k, true),
        ),
    ensures
        bare(plan, first) == bare(plan, second),
{
    let var = plan.resuming_var();
    let vars = carried_vars(plan, k, true);
    let globals = carried_globals(plan, k, true);
    let one = bare(plan, first);
    let two = bare(plan, second);
    assert forall|v: u32| same_at(one.locals, two.locals, v) by {
        assert(vars.contains(v));
        assert(v != var ==> same_at(first.locals, second.locals, v));
    }
    assert forall|v: u32| one.locals.dom().contains(v) == two.locals.dom().contains(v) by {
        assert(same_at(one.locals, two.locals, v));
    }
    assert forall|v: u32| #[trigger] one.locals.dom().contains(v) implies one.locals[v]
        == two.locals[v] by {
        assert(same_at(one.locals, two.locals, v));
    }
    assert(one.locals =~= two.locals);
    assert forall|g: u32| one.globals.dom().contains(g) == two.globals.dom().contains(g) by {
        assert(globals.contains(g));
        assert(same_at(first.globals, second.globals, g));
    }
    assert forall|g: u32| #[trigger] one.globals.dom().contains(g) implies one.globals[g]
        == two.globals[g] by {
        assert(globals.contains(g));
        assert(same_at(first.globals, second.globals, g));
    }
    assert(one.globals =~= two.globals);
}

/// A variable that is carried over has a place or is not written before.
proof fn lemma_placed(plan: PlanView, distributed: bool, k: int, var: u32)
    requires
        0 <= k < plan.regions().len(),
    ensures
        carried_vars(plan, k, distributed).contains(var) ==> placed_var(plan, k, distributed, var)
            == writes_var(plan, k, var),
        carried_globals(plan, k, distributed).contains(var) ==> placed_global(
            plan,
            k,
            distributed,
            var,
        ) == writes_global(plan, k, var),
{
    let read = regions::read_before(plan.insts, plan.regions(), Access::LocalRead);
    regions::law_live_out(plan.written_vars(), read, k, var);
    if exists|j: int| k < j < plan.regions().len() && #[trigger] reads_var(plan, j, var) {
        let j = choose|j: int| k < j < plan.regions().len() && #[trigger] reads_var(plan, j, var);
        assert(read[j].contains(var));
    }
    let read = regions::read_before(plan.insts, plan.regions(), Access::GlobalRead);
    regions::law_live_out(plan.written_globals(), read, k, var);
    if exists|j: int| k < j < plan.regions().len() && #[trigger] reads_global(plan, j, var) {
        let j = choose|j: int|
            k < j < plan.regions().len() && #[trigger] reads_global(plan, j, var);
        assert(read[j].contains(var));
    }
}

/// A checkpoint memory that holds the values of the variables of one machine holds
/// those of another one that agrees with it on what is carried over.
proof fn lemma_holds_alike(
    plan: PlanView,
    distributed: bool,
    stopped: int,
    k: int,
    memory: Seq<u8>,
    first: Machine,
    second: Machine,
)
    requires
        laws::sized(plan),
        checkpointable(plan, distributed),
        0 <= stopped <= k < plan.regions().len() - 1,
        laws::typed(plan, first),
        agree(
            plan,
            first,
            second,
            carried_vars(plan, stopped, distributed),
            carried_globals(plan, stopped, distributed),
        ),
    ensures
        holds(plan, k, distributed, memory, first) == holds(plan, k, distributed, memory, second),
{
    let vars = carried_vars(plan, stopped, distributed);
    let globals = carried_globals(plan, stopped, distributed);
    lemma_placed_known(plan, distributed, k);
    assert forall|v: u32| #[trigger] placed_var(plan, k, distributed, v) implies first.locals[v]
        == second.locals[v] by {
        let read = regions::read_before(plan.insts, plan.regions(), Access::LocalRead);
        regions::law_live_out(plan.written_vars(), read, k, v);
        if !distributed {
            let j = choose|j: int| k < j < read.len() && (#[trigger] read[j]).contains(v);
            assert(reads_var(plan, j, v));
        }
        assert(vars.contains(v));
        assert(codegen::var_slot(plan, v) is Ok);
        let value = first.locals[v];
        assert(first.locals.dom().contains(v));
        assert(same_at(first.locals, second.locals, v));
    }
    assert forall|g: u32| #[trigger] placed_global(
        plan,
        k,
        distributed,
        g,
    ) implies first.globals[g] == second.globals[g] by {
        let read = regions::read_before(plan.insts, plan.regions(), Access::GlobalRead);
        regions::law_live_out(plan.written_globals(), read, k, g);
        if !distributed {
            let j = choose|j: int| k < j < read.len() && (#[trigger] read[j]).contains(g);
            assert(reads_global(plan, j, g));
        }
        assert(globals.contains(g));
        assert(codegen::global_slot(plan, g) is Ok);
        let value = first.globals[g];
        assert(first.globals.dom().contains(g));
        assert(same_at(first.globals, second.globals, g));
    }
}

/// A machine that agrees with the function without checkpoints in front of the
/// instructions of region number `k` agrees with it behind the region, and the
/// checkpoint memory holds the values of the variables there.
#[verifier::rlimit(30)]
proof fn lemma_region_alike(
    plan: PlanView,
    distributed: bool,
    work: Work,
    entered: Machine,
    plain: Machine,
    stopped: int,
    k: int,
)
    requires
        laws::sized(plan),
        checkpointable(plan, distributed),
        sound(plan, work),
        confined(plan, work),
        0 <= stopped < k < plan.regions().len(),
        entered.running(),
        laws::typed(plan, entered),
        laws::has_room(plan, entered.memory.len()),
        plain.running(),
        laws::typed(plan, plain),
        agree(
            plan,
            entered,
            plain,
            carried_vars(plan, stopped, distributed),
            carried_globals(plan, stopped, distributed),
        ),
        holds(plan, k - 1, distributed, entered.memory, plain),
    ensures
        ({
            let reached = work(k, entered);
            let after = machine::run(
                plan,
                reached,
                codegen::region_tail(plan, k, distributed)->Ok_0,
            );
            let last = k == plan.regions().len() - 1;
            &&& reached.running()
            &&& laws::typed(plan, reached)
            &&& agree(
                plan,
                reached,
                work(k, plain),
                carried_vars(plan, stopped, distributed),
                carried_globals(plan, stopped, distributed),
            )
            &&& reached.migrate == entered.migrate
            &&& reached.memory == entered.memory
            &&& reached.locals[plan.resuming_var()] == entered.locals[plan.resuming_var()]
            &&& last ==> after == reached
            &&& !last ==> {
                &&& after == Machine {
                    memory: laws::checkpointed(plan, k, distributed, reached),
                    stopped: entered.migrate,
                    ..reached
                }
                &&& after.memory.len() == entered.memory.len()
                &&& holds(plan, k, distributed, after.memory, work(k, plain))
            }
        }),
{
    let vars = carried_vars(plan, stopped, distributed);
    let globals = carried_globals(plan, stopped, distributed);
    assert(reads_within(plan, k, vars, globals)) by {
        assert forall|v: u32| #[trigger] reads_var(plan, k, v) implies vars.contains(v) by {}
        assert forall|g: u32| #[trigger] reads_global(plan, k, g) implies globals.contains(g) by {}
    }
    let reached = work(k, entered);
    assert(agree(plan, work(k, entered), work(k, plain), vars, globals));
    assert(sound_at(plan, work, k, entered));
    lemma_parts_produced(plan, distributed, k, plan.regions().len() as int);
    if k < plan.regions().len() - 1 {
        assert(laws::numbered(plan, k + 1));
        laws::law_region_end(plan, k, distributed, reached);
        laws::law_checkpoint_changes_only_memory(plan, k, distributed, reached);
        lemma_holds_alike(plan, distributed, stopped, k - 1, entered.memory, entered, plain);
        lemma_checkpoint_holds(plan, distributed, entered, reached, k);
        lemma_holds_alike(
            plan,
            distributed,
            stopped,
            k,
            laws::checkpointed(plan, k, distributed, reached),
            reached,
            work(k, plain),
        );
    }
}

/// From the region to start from on, a function that resumes agrees with the
/// function without checkpoints, and the checkpoint memory holds the values that the
/// variables have there.
#[verifier::rlimit(30)]
proof fn lemma_goes_on(
    plan: PlanView,
    distributed: bool,
    work: Work,
    start: Machine,
    m: Machine,
    stopped: int,
    count: int,
)
    requires
        laws::of_function(plan),
        balance::else_in_if(plan.insts),
        checkpointable(plan, distributed),
        sound(plan, work),
        confined(plan, work),
        0 <= stopped < plan.regions().len() - 1,
        stopped + 1 < count <= plan.regions().len(),
        start.running(),
        !start.migrate,
        laws::typed(plan, start),
        laws::has_room(plan, start.memory.len()),
        laws::resuming(plan, start) == plan.regions()[stopped + 1].index,
        m.running(),
        !m.migrate,
        laws::typed(plan, m),
        laws::has_room(plan, m.memory.len()),
        m.locals[plan.resuming_var()] == machine::i32_value(0),
        start.stack == m.stack,
        start.globals == m.globals,
        start.locals == m.locals.insert(plan.resuming_var(), start.locals[plan.resuming_var()]),
        start.others == worked(work, m, stopped + 1).others,
        holds(plan, stopped, distributed, start.memory, worked(work, m, stopped + 1)),
    ensures
        ({
            let after = worked_with_checkpoints(plan, distributed, work, start, count);
            &&& after.running()
            &&& !after.migrate
            &&& laws::typed(plan, after)
            &&& after.memory.len() == start.memory.len()
            &&& count < plan.regions().len() ==> after.locals[plan.resuming_var()]
                == machine::i32_value(0)
            &&& agree(
                plan,
                after,
                worked(work, m, count),
                carried_vars(plan, stopped, distributed),
                carried_globals(plan, stopped, distributed),
            )
            &&& count < plan.regions().len() ==> holds(
                plan,
                count - 1,
                distributed,
                after.memory,
                worked(work, m, count),
            )
        }),
    decreases count,
{
    let k = count - 1;
    let before = worked_with_checkpoints(plan, distributed, work, start, k);
    let entered = machine::run(plan, before, codegen::region_head(plan, k, distributed)->Ok_0);
    lemma_parts_produced(plan, distributed, k, plan.regions().len() as int);
    if k == stopped + 1 {
        lemma_regions_passed(plan, distributed, work, start, k, k);
        assert(before == Machine { migrate: false, ..before });
        lemma_entered(plan, distributed, work, start, m, stopped, false);
    } else {
        lemma_goes_on(plan, distributed, work, start, m, stopped, k);
        laws::law_no_effect_unless_resuming(plan, k, distributed, before);
    }
    lemma_regions_undisturbed(plan, distributed, work, m, k);
    lemma_region_alike(plan, distributed, work, entered, worked(work, m, k), stopped, k);
}

/// A function that was asked to migrate behind a region, and is started anew
/// elsewhere with the checkpoint memory and the other memories that it left, ends
/// as the function without checkpoints does when it is not interrupted: with the
/// same operands, the same other memories, and the same variables. With
/// distributed checkpoints these are all variables, so that all but what was added
/// to the function is the same. Otherwise a variable that was written before the
/// migration and is not read after it is left out, as it is not checkpointed.
#[verifier::rlimit(30)]
pub proof fn law_resumed_computes_as_before(
    plan: PlanView,
    distributed: bool,
    work: Work,
    m: Machine,
    stopped: int,
    later: Machine,
)
    requires
        laws::of_function(plan),
        balance::else_in_if(plan.insts),
        plan.num_imports < u32::MAX,
        checkpointable(plan, distributed),
        sound(plan, work),
        confined(plan, work),
        ready(plan, m),
        0 <= stopped < plan.regions().len() - 1,
        ({
            let left = stopped_run(plan, distributed, work, m, stopped);
            later == Machine {
                memory: later.memory,
                restored: Some(left.memory),
                others: left.others,
                ..m
            }
        }),
        4 <= later.memory.len(),
    ensures
        ({
            let after = checkpointed_run(plan, distributed, work, later);
            let original = original_run(plan, work, m);
            &&& after.running()
            &&& agree(
                plan,
                after,
                original,
                carried_vars(plan, stopped, distributed),
                carried_globals(plan, stopped, distributed),
            )
            &&& distributed ==> bare(plan, after) == bare(plan, original)
        }),
{
    let count = plan.regions().len() as int;
    let first = started(plan, m);
    lemma_stopped(plan, distributed, work, m, later, stopped);
    let start = prepared(plan, later);
    let var = plan.resuming_var();
    assert(laws::numbered(plan, stopped + 1));
    assert(start.locals =~= first.locals.insert(var, start.locals[var]));
    lemma_typed_alike(plan, first, start);
    lemma_goes_on(plan, distributed, work, start, first, stopped, count);
    lemma_regions_undisturbed(plan, distributed, work, first, count);
    if distributed {
        lemma_agree_on_all(
            plan,
            stopped,
            checkpointed_run(plan, distributed, work, later),
            original_run(plan, work, m),
        );
    }
}

/// The machine on which a function is started after it was asked to migrate behind
/// each of these regions, one after the other. Each time it is started with the
/// arguments and variables of the first machine, and with the checkpoint memory and
/// the other memories that were left.
pub open spec fn moved(
    plan: PlanView,
    distributed: bool,
    work: Work,
    m: Machine,
    stops: Seq<int>,
) -> Machine
    decreases stops.len(),
{
    if stops.len() == 0 {
        m
    } else {
        let before = moved(plan, distributed, work, m, stops.drop_last());
        let left = stopped_run(plan, distributed, work, before, stops.last());
        Machine { restored: Some(left.memory), others: left.others, ..m }
    }
}

/// A function can be asked to migrate behind these regions: each lies behind the one
/// before, and none is the last.
pub open spec fn in_order(plan: PlanView, stops: Seq<int>) -> bool {
    &&& forall|i: int| 0 <= i < stops.len() ==> 0 <= #[trigger] stops[i] < plan.regions().len() - 1
    &&& forall|i: int, j: int|
        0 <= i < j < stops.len() ==> #[trigger] stops[i] < #[trigger] stops[j]
}

/// A machine that has been started anew behind region number `stopped`, where the
/// function without checkpoints was started on the machine `m`.
spec fn restarted(
    plan: PlanView,
    distributed: bool,
    work: Work,
    start: Machine,
    m: Machine,
    stopped: int,
) -> bool {
    &&& start.running()
    &&& !start.migrate
    &&& laws::typed(plan, start)
    &&& laws::has_room(plan, start.memory.len())
    &&& laws::resuming(plan, start) == plan.regions()[stopped + 1].index
    &&& start.stack == m.stack
    &&& start.globals == m.globals
    &&& start.locals == m.locals.insert(
        plan.resuming_var(),
        start.locals[plan.resuming_var()],
    )
    &&& start.others == worked(work, m, stopped + 1).others
    &&& holds(plan, stopped, distributed, start.memory, worked(work, m, stopped + 1))
}

/// A function that has resumed, and is asked to migrate behind a later region, stops
/// there as one that is asked for the first time.
#[verifier::rlimit(30)]
proof fn lemma_stopped_again(
    plan: PlanView,
    distributed: bool,
    work: Work,
    start: Machine,
    m: Machine,
    stopped: int,
    k: int,
    later: Machine,
)
    requires
        laws::of_function(plan),
        balance::else_in_if(plan.insts),
        plan.num_imports < u32::MAX,
        checkpointable(plan, distributed),
        sound(plan, work),
        confined(plan, work),
        0 <= stopped < k < plan.regions().len() - 1,
        restarted(plan, distributed, work, start, m, stopped),
        m.running(),
        !m.migrate,
        laws::typed(plan, m),
        laws::has_room(plan, m.memory.len()),
        m.locals[plan.resuming_var()] == machine::i32_value(0),
        later.running(),
        4 <= later.memory.len(),
        ({
            let before = worked_with_checkpoints(plan, distributed, work, start, k);
            later.restored == Some(
                region_run(
                    plan,
                    distributed,
                    work,
                    (Machine { migrate: true, ..before }),
                    k,
                ).memory,
            )
        }),
    ensures
        ({
            let before = worked_with_checkpoints(plan, distributed, work, start, k);
            let end = region_run(
                plan,
                distributed,
                work,
                (Machine { migrate: true, ..before }),
                k,
            );
            &&& end.stopped
            &&& end.others == worked(work, m, k + 1).others
            &&& end.memory.len() == start.memory.len()
            &&& holds(plan, k, distributed, end.memory, worked(work, m, k + 1))
            &&& prepared(plan, later) == Machine {
                memory: end.memory,
                locals: later.locals.insert(
                    plan.resuming_var(),
                    machine::i32_value(plan.regions()[k + 1].index as nat),
                ),
                ..later
            }
        }),
{
    let before = worked_with_checkpoints(plan, distributed, work, start, k);
    let asked = Machine { migrate: true, ..before };
    let entered = machine::run(plan, asked, codegen::region_head(plan, k, distributed)->Ok_0);
    lemma_parts_produced(plan, distributed, k, plan.regions().len() as int);
    if k == stopped + 1 {
        lemma_entered(plan, distributed, work, start, m, stopped, true);
    } else {
        lemma_goes_on(plan, distributed, work, start, m, stopped, k);
        assert(laws::typed(plan, asked));
        laws::law_no_effect_unless_resuming(plan, k, distributed, asked);
    }
    lemma_regions_undisturbed(plan, distributed, work, m, k);
    lemma_region_alike(plan, distributed, work, entered, worked(work, m, k), stopped, k);
    assert(laws::numbered(plan, k + 1));
    laws::law_resumes_where_stopped(plan, k, distributed, work(k, entered), later);
    laws::law_init(plan, later);
}

/// The first regions behind which a function is asked to migrate are in order.
proof fn lemma_in_order(plan: PlanView, stops: Seq<int>)
    requires
        stops.len() > 0,
        in_order(plan, stops),
    ensures
        in_order(plan, stops.drop_last()),
        0 <= stops.last() < plan.regions().len() - 1,
        stops.len() > 1 ==> 0 <= stops.drop_last().last() < stops.last(),
{
    let init = stops.drop_last();
    assert(stops.last() == stops[stops.len() - 1]);
    assert forall|i: int| 0 <= i < init.len() implies 0 <= #[trigger] init[i]
        < plan.regions().len() - 1 by {
        assert(init[i] == stops[i]);
    }
    assert forall|i: int, j: int| 0 <= i < j < init.len() implies #[trigger] init[i]
        < #[trigger] init[j] by {
        assert(init[i] == stops[i] && init[j] == stops[j]);
    }
    if stops.len() > 1 {
        assert(init.last() == stops[stops.len() - 2]);
    }
}

/// A machine that was left behind region number `k` is started anew there.
proof fn lemma_start_anew(
    plan: PlanView,
    distributed: bool,
    work: Work,
    m: Machine,
    later: Machine,
    memory: Seq<u8>,
    k: int,
)
    requires
        laws::sized(plan),
        checkpointable(plan, distributed),
        ready(plan, m),
        0 <= k < plan.regions().len() - 1,
        memory.len() == m.memory.len(),
        holds(plan, k, distributed, memory, worked(work, started(plan, m), k + 1)),
        later == (Machine {
            restored: Some(memory),
            others: worked(work, started(plan, m), k + 1).others,
            ..m
        }),
        prepared(plan, later) == (Machine {
            memory,
            locals: later.locals.insert(
                plan.resuming_var(),
                machine::i32_value(plan.regions()[k + 1].index as nat),
            ),
            ..later
        }),
    ensures
        restarted(plan, distributed, work, prepared(plan, later), started(plan, m), k),
        prepared(plan, later).memory.len() == m.memory.len(),
{
    let first = started(plan, m);
    let start = prepared(plan, later);
    let var = plan.resuming_var();
    assert(laws::numbered(plan, k + 1));
    assert(start.locals =~= first.locals.insert(var, start.locals[var]));
    lemma_typed_alike(plan, first, start);
}

/// After any number of migrations, a function is started anew behind the region where
/// it stopped last.
#[verifier::rlimit(30)]
proof fn lemma_restarted(
    plan: PlanView,
    distributed: bool,
    work: Work,
    m: Machine,
    stops: Seq<int>,
)
    requires
        laws::of_function(plan),
        balance::else_in_if(plan.insts),
        plan.num_imports < u32::MAX,
        checkpointable(plan, distributed),
        sound(plan, work),
        confined(plan, work),
        ready(plan, m),
        stops.len() > 0,
        in_order(plan, stops),
    ensures
        restarted(
            plan,
            distributed,
            work,
            prepared(plan, moved(plan, distributed, work, m, stops)),
            started(plan, m),
            stops.last(),
        ),
        prepared(plan, moved(plan, distributed, work, m, stops)).memory.len() == m.memory.len(),
    decreases stops.len(),
{
    let init = stops.drop_last();
    let k = stops.last();
    lemma_in_order(plan, stops);
    let before = moved(plan, distributed, work, m, init);
    let later = moved(plan, distributed, work, m, stops);
    let left = stopped_run(plan, distributed, work, before, k);
    assert(later == Machine { restored: Some(left.memory), others: left.others, ..m });
    if init.len() == 0 {
        lemma_stopped(plan, distributed, work, m, later, k);
    } else {
        lemma_restarted(plan, distributed, work, m, init);
        lemma_stopped_again(
            plan,
            distributed,
            work,
            prepared(plan, before),
            started(plan, m),
            init.last(),
            k,
            later,
        );
    }
    lemma_start_anew(plan, distributed, work, m, later, left.memory, k);
}

/// A function that is asked to migrate any number of times, behind one region after
/// the other, and is started anew each time, ends as the function without checkpoints
/// does when it is not interrupted. What is the same at the end is what a single
/// migration behind the last of these regions keeps.
#[verifier::rlimit(30)]
pub proof fn law_migrations_compute_as_before(
    plan: PlanView,
    distributed: bool,
    work: Work,
    m: Machine,
    stops: Seq<int>,
)
    requires
        laws::of_function(plan),
        balance::else_in_if(plan.insts),
        plan.num_imports < u32::MAX,
        checkpointable(plan, distributed),
        sound(plan, work),
        confined(plan, work),
        ready(plan, m),
        stops.len() > 0,
        in_order(plan, stops),
    ensures
        ({
            let after = checkpointed_run(
                plan,
                distributed,
                work,
                moved(plan, distributed, work, m, stops),
            );
            let original = original_run(plan, work, m);
            &&& after.running()
            &&& agree(
                plan,
                after,
                original,
                carried_vars(plan, stops.last(), distributed),
                carried_globals(plan, stops.last(), distributed),
            )
            &&& distributed ==> bare(plan, after) == bare(plan, original)
        }),
{
    let count = plan.regions().len() as int;
    let first = started(plan, m);
    let later = moved(plan, distributed, work, m, stops);
    assert(stops.last() == stops[stops.len() - 1]);
    lemma_restarted(plan, distributed, work, m, stops);
    lemma_goes_on(plan, distributed, work, prepared(plan, later), first, stops.last(), count);
    lemma_regions_undisturbed(plan, distributed, work, first, count);
    if distributed {
        lemma_agree_on_all(
            plan,
            stops.last(),
            checkpointed_run(plan, distributed, work, later),
            original_run(plan, work, m),
        );
    }
}

} // verus!
