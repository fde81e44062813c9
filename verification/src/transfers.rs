//! What the inserted code stores in the checkpoint memory and loads from it.

use vstd::prelude::*;
use crate::codegen;
use crate::instruction::{Instruction, MemArg, NumType};
use crate::laws;
use crate::plan::PlanView;
use crate::regions;
use crate::regions::Access;

verus! {

/// A variable of a function.
pub enum Variable {
    Local(u32),
    Global(u32),
}

/// A store of a variable, or a load into it: the address, the type and the memory.
pub struct Transfer {
    pub variable: Variable,
    pub address: i32,
    pub ty: NumType,
    pub arg: MemArg,
}

/// The variable that an instruction puts on the operand stack.
pub open spec fn got(instruction: Instruction) -> Option<Variable> {
    match instruction {
        Instruction::LocalGet(var) => Some(Variable::Local(var)),
        Instruction::GlobalGet(global) => Some(Variable::Global(global)),
        _ => None,
    }
}

/// The variable that an instruction sets.
pub open spec fn assigned(instruction: Instruction) -> Option<Variable> {
    match instruction {
        Instruction::LocalSet(var) => Some(Variable::Local(var)),
        Instruction::GlobalSet(global) => Some(Variable::Global(global)),
        _ => None,
    }
}

/// The store of a variable that these three instructions are.
pub open spec fn store_of(first: Instruction, second: Instruction, third: Instruction) -> Option<
    Transfer,
> {
    match (first, got(second), third) {
        (Instruction::I32Const(address), Some(variable), Instruction::Store(ty, arg)) => Some(
            Transfer { variable, address, ty, arg },
        ),
        _ => None,
    }
}

/// The load into a variable that these three instructions are.
pub open spec fn load_of(first: Instruction, second: Instruction, third: Instruction) -> Option<
    Transfer,
> {
    match (first, second, assigned(third)) {
        (Instruction::I32Const(address), Instruction::Load(ty, arg), Some(variable)) => Some(
            Transfer { variable, address, ty, arg },
        ),
        _ => None,
    }
}

/// The stores of variables in a piece of code, in their order.
pub open spec fn stores_in(code: Seq<Instruction>) -> Seq<Transfer>
    decreases code.len(),
{
    if code.len() < 3 {
        Seq::empty()
    } else {
        let n = code.len() as int;
        let before = stores_in(code.drop_last());
        match store_of(code[n - 3], code[n - 2], code[n - 1]) {
            Some(transfer) => before.push(transfer),
            None => before,
        }
    }
}

/// The loads into variables in a piece of code, in their order.
pub open spec fn loads_in(code: Seq<Instruction>) -> Seq<Transfer>
    decreases code.len(),
{
    if code.len() < 3 {
        Seq::empty()
    } else {
        let n = code.len() as int;
        let before = loads_in(code.drop_last());
        match load_of(code[n - 3], code[n - 2], code[n - 1]) {
            Some(transfer) => before.push(transfer),
            None => before,
        }
    }
}

/// How many instructions of a piece of code store something.
pub open spec fn store_count(code: Seq<Instruction>) -> nat
    decreases code.len(),
{
    if code.len() == 0 {
        0
    } else {
        store_count(code.drop_last()) + (if code.last() is Store {
            1nat
        } else {
            0nat
        })
    }
}

/// How many instructions of a piece of code set a variable.
pub open spec fn set_count(code: Seq<Instruction>) -> nat
    decreases code.len(),
{
    if code.len() == 0 {
        0
    } else {
        set_count(code.drop_last()) + (if assigned(code.last()) is Some {
            1nat
        } else {
            0nat
        })
    }
}

/// The transfer of a local variable to or from its place.
pub open spec fn var_transfer(plan: PlanView, var: u32) -> Transfer {
    let (address, ty) = codegen::var_slot(plan, var)->Ok_0;
    Transfer {
        variable: Variable::Local(var),
        address: address as i32,
        ty,
        arg: codegen::mem_arg(plan),
    }
}

/// The transfer of a global variable to or from its place.
pub open spec fn global_transfer(plan: PlanView, global: u32) -> Transfer {
    let (address, ty) = codegen::global_slot(plan, global)->Ok_0;
    Transfer {
        variable: Variable::Global(global),
        address: address as i32,
        ty,
        arg: codegen::mem_arg(plan),
    }
}

/// The transfers of lists of variables, the local ones first.
pub open spec fn transfers(plan: PlanView, vars: Seq<u32>, globals: Seq<u32>) -> Seq<Transfer> {
    Seq::new(vars.len(), |i: int| var_transfer(plan, vars[i])) + Seq::new(
        globals.len(),
        |i: int| global_transfer(plan, globals[i]),
    )
}

/// One more instruction behind a piece of code.
proof fn lemma_push(code: Seq<Instruction>, instruction: Instruction)
    ensures
        !(instruction is Store) ==> stores_in(code.push(instruction)) == stores_in(code),
        assigned(instruction) is None ==> loads_in(code.push(instruction)) == loads_in(code),
        store_count(code.push(instruction)) == store_count(code) + (if instruction is Store {
            1nat
        } else {
            0nat
        }),
        set_count(code.push(instruction)) == set_count(code) + (if assigned(
            instruction,
        ) is Some {
            1nat
        } else {
            0nat
        }),
{
    assert(code.push(instruction).drop_last() =~= code);
    if code.len() < 3 {
        let none = Seq::<Transfer>::empty();
        assert(stores_in(code) == none);
        assert(loads_in(code) == none);
    }
}

/// Three more instructions behind a piece of code.
proof fn lemma_push_three(
    code: Seq<Instruction>,
    first: Instruction,
    second: Instruction,
    third: Instruction,
)
    requires
        !(first is Store) && !(second is Store),
        assigned(first) is None && assigned(second) is None,
    ensures
        ({
            let more = code + seq![first, second, third];
            &&& stores_in(more) == (match store_of(first, second, third) {
                Some(transfer) => stores_in(code).push(transfer),
                None => stores_in(code),
            })
            &&& loads_in(more) == (match load_of(first, second, third) {
                Some(transfer) => loads_in(code).push(transfer),
                None => loads_in(code),
            })
            &&& store_count(more) == store_count(code) + (if third is Store {
                1nat
            } else {
                0nat
            })
            &&& set_count(more) == set_count(code) + (if assigned(third) is Some {
                1nat
            } else {
                0nat
            })
        }),
{
    let two = code.push(first).push(second);
    let more = code + seq![first, second, third];
    assert(more =~= two.push(third));
    assert(two.push(third).drop_last() =~= two);
    lemma_push(code, first);
    lemma_push(code.push(first), second);
    lemma_push(two, third);
}

/// Code that neither stores nor sets anything, behind a piece of code.
proof fn lemma_idle(code: Seq<Instruction>, more: Seq<Instruction>)
    requires
        forall|i: int|
            0 <= i < more.len() ==> !((#[trigger] more[i]) is Store) && assigned(more[i]) is None,
    ensures
        stores_in(code + more) == stores_in(code),
        loads_in(code + more) == loads_in(code),
        store_count(code + more) == store_count(code),
        set_count(code + more) == set_count(code),
    decreases more.len(),
{
    if more.len() > 0 {
        let init = more.drop_last();
        lemma_idle(code, init);
        assert(more[more.len() - 1] == more.last());
        lemma_push(code + init, more.last());
        assert(code + more =~= (code + init).push(more.last()));
    } else {
        assert(code + more =~= code);
    }
}

/// The loads of local variables behind a piece of code.
proof fn lemma_loads_of_vars(plan: PlanView, code: Seq<Instruction>, vars: Seq<u32>)
    requires
        codegen::load_vars(plan, vars) is Ok,
    ensures
        ({
            let more = code + codegen::load_vars(plan, vars)->Ok_0;
            &&& loads_in(more) == loads_in(code) + transfers(plan, vars.reverse(), Seq::empty())
            &&& set_count(more) == set_count(code) + vars.len()
        }),
    decreases vars.len(),
{
    let list = transfers(plan, vars.reverse(), Seq::empty());
    if vars.len() > 0 {
        let init = vars.drop_last();
        let last = vars.last();
        let first = codegen::load_var(plan, last)->Ok_0;
        let rest = codegen::load_vars(plan, init)->Ok_0;
        lemma_push_three(code, first[0], first[1], first[2]);
        assert(first =~= seq![first[0], first[1], first[2]]);
        lemma_loads_of_vars(plan, code + first, init);
        assert(code + (first + rest) =~= (code + first) + rest);
        assert(list =~= seq![var_transfer(plan, last)] + transfers(
            plan,
            init.reverse(),
            Seq::empty(),
        ));
        assert(loads_in(code).push(var_transfer(plan, last)) + transfers(
            plan,
            init.reverse(),
            Seq::empty(),
        ) =~= loads_in(code) + list);
    } else {
        assert(code + codegen::load_vars(plan, vars)->Ok_0 =~= code);
        assert(loads_in(code) + list =~= loads_in(code));
    }
}

/// The loads of global variables behind a piece of code.
proof fn lemma_loads_of_globals(plan: PlanView, code: Seq<Instruction>, globals: Seq<u32>)
    requires
        codegen::load_globals(plan, globals) is Ok,
    ensures
        ({
            let more = code + codegen::load_globals(plan, globals)->Ok_0;
            &&& loads_in(more) == loads_in(code) + transfers(plan, Seq::empty(), globals.reverse())
            &&& set_count(more) == set_count(code) + globals.len()
        }),
    decreases globals.len(),
{
    let list = transfers(plan, Seq::empty(), globals.reverse());
    if globals.len() > 0 {
        let init = globals.drop_last();
        let last = globals.last();
        let first = codegen::load_global(plan, last)->Ok_0;
        let rest = codegen::load_globals(plan, init)->Ok_0;
        lemma_push_three(code, first[0], first[1], first[2]);
        assert(first =~= seq![first[0], first[1], first[2]]);
        lemma_loads_of_globals(plan, code + first, init);
        assert(code + (first + rest) =~= (code + first) + rest);
        assert(list =~= seq![global_transfer(plan, last)] + transfers(
            plan,
            Seq::empty(),
            init.reverse(),
        ));
        assert(loads_in(code).push(global_transfer(plan, last)) + transfers(
            plan,
            Seq::empty(),
            init.reverse(),
        ) =~= loads_in(code) + list);
    } else {
        assert(code + codegen::load_globals(plan, globals)->Ok_0 =~= code);
        assert(loads_in(code) + list =~= loads_in(code));
    }
}

/// The stores of local variables behind a piece of code.
proof fn lemma_stores_of_vars(plan: PlanView, code: Seq<Instruction>, vars: Seq<u32>)
    requires
        codegen::store_vars(plan, vars) is Ok,
    ensures
        ({
            let more = code + codegen::store_vars(plan, vars)->Ok_0;
            &&& stores_in(more) == stores_in(code) + transfers(plan, vars, Seq::empty())
            &&& store_count(more) == store_count(code) + vars.len()
        }),
    decreases vars.len(),
{
    let list = transfers(plan, vars, Seq::empty());
    if vars.len() > 0 {
        let init = vars.drop_last();
        let last = vars.last();
        let rest = codegen::store_vars(plan, init)->Ok_0;
        let third = codegen::store_var(plan, last)->Ok_0;
        lemma_stores_of_vars(plan, code, init);
        lemma_push_three(code + rest, third[0], third[1], third[2]);
        assert(third =~= seq![third[0], third[1], third[2]]);
        assert(code + (rest + third) =~= (code + rest) + third);
        assert(list =~= transfers(plan, init, Seq::empty()).push(var_transfer(plan, last)));
        assert((stores_in(code) + transfers(plan, init, Seq::empty())).push(
            var_transfer(plan, last),
        ) =~= stores_in(code) + list);
    } else {
        assert(code + codegen::store_vars(plan, vars)->Ok_0 =~= code);
        assert(stores_in(code) + list =~= stores_in(code));
    }
}

/// The stores of global variables behind a piece of code.
proof fn lemma_stores_of_globals(plan: PlanView, code: Seq<Instruction>, globals: Seq<u32>)
    requires
        codegen::store_globals(plan, globals) is Ok,
    ensures
        ({
            let more = code + codegen::store_globals(plan, globals)->Ok_0;
            &&& stores_in(more) == stores_in(code) + transfers(plan, Seq::empty(), globals)
            &&& store_count(more) == store_count(code) + globals.len()
        }),
    decreases globals.len(),
{
    let list = transfers(plan, Seq::empty(), globals);
    if globals.len() > 0 {
        let init = globals.drop_last();
        let last = globals.last();
        let rest = codegen::store_globals(plan, init)->Ok_0;
        let third = codegen::store_global(plan, last)->Ok_0;
        lemma_stores_of_globals(plan, code, init);
        lemma_push_three(code + rest, third[0], third[1], third[2]);
        assert(third =~= seq![third[0], third[1], third[2]]);
        assert(code + (rest + third) =~= (code + rest) + third);
        assert(list =~= transfers(plan, Seq::empty(), init).push(global_transfer(plan, last)));
        assert((stores_in(code) + transfers(plan, Seq::empty(), init)).push(
            global_transfer(plan, last),
        ) =~= stores_in(code) + list);
    } else {
        assert(code + codegen::store_globals(plan, globals)->Ok_0 =~= code);
        assert(stores_in(code) + list =~= stores_in(code));
    }
}

/// A checkpoint stores the variables of its lists, each at its place and with its
/// type, and besides only the number of the region to start from.
pub proof fn law_checkpoint_stores(plan: PlanView, k: int, distributed: bool)
    requires
        codegen::save_code(plan, k, distributed) is Ok,
    ensures
        ({
            let code = codegen::save_code(plan, k, distributed)->Ok_0;
            let list = transfers(
                plan,
                plan.saved_vars(k, distributed),
                plan.saved_globals(k, distributed),
            );
            &&& stores_in(code) == list
            &&& store_count(code) == list.len() + 1
        }),
{
    let vars = plan.saved_vars(k, distributed);
    let globals = plan.saved_globals(k, distributed);
    let code = codegen::save_code(plan, k, distributed)->Ok_0;
    let none = Seq::<Instruction>::empty();
    let open = seq![Instruction::Block];
    let first = codegen::store_vars(plan, vars)->Ok_0;
    let second = codegen::store_globals(plan, globals)->Ok_0;
    let n = code.len() as int;
    let end = seq![code[n - 1]];
    let front = open + first + second;
    lemma_idle(none, open);
    assert(none + open =~= open);
    assert(stores_in(none) == Seq::<Transfer>::empty());
    lemma_stores_of_vars(plan, open, vars);
    lemma_stores_of_globals(plan, open + first, globals);
    lemma_push_three(front, code[n - 4], code[n - 3], code[n - 2]);
    let record = seq![code[n - 4], code[n - 3], code[n - 2]];
    lemma_idle(front + record, end);
    assert(code =~= front + record + end);
    assert(stores_in(none) + transfers(plan, vars, Seq::empty()) + transfers(
        plan,
        Seq::empty(),
        globals,
    ) =~= transfers(plan, vars, globals));
}

/// A restoration loads the variables of its lists, each from its place and with its
/// type, the last of a list first, and sets nothing else.
pub proof fn law_restoration_loads(plan: PlanView, k: int, distributed: bool)
    requires
        codegen::resume_code(plan, k, distributed) is Ok,
    ensures
        ({
            let code = codegen::resume_code(plan, k, distributed)->Ok_0;
            let list = transfers(
                plan,
                plan.saved_vars(k, distributed).reverse(),
                plan.saved_globals(k, distributed).reverse(),
            );
            &&& loads_in(code) == list
            &&& set_count(code) == list.len()
        }),
{
    let vars = plan.saved_vars(k, distributed);
    let globals = plan.saved_globals(k, distributed);
    let code = codegen::resume_code(plan, k, distributed)->Ok_0;
    let none = Seq::<Instruction>::empty();
    let test = codegen::resume_test(plan, plan.regions()[k + 1].index, distributed);
    let first = codegen::load_vars(plan, vars)->Ok_0;
    let second = codegen::load_globals(plan, globals)->Ok_0;
    let end = seq![Instruction::End];
    lemma_idle(none, test);
    assert(none + test =~= test);
    assert(loads_in(none) == Seq::<Transfer>::empty());
    lemma_loads_of_vars(plan, test, vars);
    lemma_loads_of_globals(plan, test + first, globals);
    lemma_idle(test + first + second, end);
    assert(code =~= test + first + second + end);
    assert(loads_in(none) + transfers(plan, vars.reverse(), Seq::empty()) + transfers(
        plan,
        Seq::empty(),
        globals.reverse(),
    ) =~= transfers(plan, vars.reverse(), globals.reverse()));
}

/// The variables of a checkpoint are listed once each.
proof fn lemma_saved_once(plan: PlanView, k: int, distributed: bool)
    requires
        plan.globals.len() <= u32::MAX,
        0 <= k < plan.regions().len(),
    ensures
        plan.saved_vars(k, distributed).no_duplicates(),
        plan.saved_globals(k, distributed).no_duplicates(),
{
    let node = plan.regions()[k];
    regions::law_touched(plan.insts, node, Access::LocalWrite, 0);
    regions::law_touched(plan.insts, node, Access::GlobalWrite, 0);
    regions::law_with_mutable(
        regions::touched(plan.insts, node, Access::GlobalWrite),
        plan.globals,
        0,
    );
    regions::law_live_out(
        plan.written_vars(),
        regions::read_before(plan.insts, plan.regions(), Access::LocalRead),
        k,
        0,
    );
    regions::law_live_out(
        plan.written_globals(),
        regions::read_before(plan.insts, plan.regions(), Access::GlobalRead),
        k,
        0,
    );
}

/// Lists without duplicates give transfers of different variables.
proof fn lemma_transfers_apart(plan: PlanView, vars: Seq<u32>, globals: Seq<u32>)
    requires
        vars.no_duplicates(),
        globals.no_duplicates(),
    ensures
        forall|i: int, j: int|
            0 <= i < j < transfers(plan, vars, globals).len() ==> (#[trigger] transfers(
                plan,
                vars,
                globals,
            )[i]).variable != (#[trigger] transfers(plan, vars, globals)[j]).variable,
{
    let list = transfers(plan, vars, globals);
    assert forall|i: int, j: int| 0 <= i < j < list.len() implies (#[trigger] list[i]).variable != (
    #[trigger] list[j]).variable by {
        if j < vars.len() {
            assert(vars[i] != vars[j]);
        } else if i >= vars.len() {
            assert(globals[i - vars.len()] != globals[j - vars.len()]);
        }
    }
}

/// The restoration of a checkpoint is its reverse: it loads exactly the variables that
/// the checkpoint stores, each once, from the address and the memory where it was
/// stored and with the type with which it was stored, which is the variable's own.
pub proof fn law_restoration_loads_what_is_stored(plan: PlanView, k: int, distributed: bool)
    requires
        laws::sized(plan),
        0 <= k < plan.regions().len() - 1,
        codegen::save_code(plan, k, distributed) is Ok,
        codegen::resume_code(plan, k, distributed) is Ok,
    ensures
        ({
            let stores = stores_in(codegen::save_code(plan, k, distributed)->Ok_0);
            let loads = loads_in(codegen::resume_code(plan, k, distributed)->Ok_0);
            &&& loads.len() == stores.len()
            &&& set_count(codegen::resume_code(plan, k, distributed)->Ok_0) == loads.len()
            &&& store_count(codegen::save_code(plan, k, distributed)->Ok_0) == stores.len() + 1
            &&& forall|t: Transfer| #[trigger] loads.contains(t) <==> stores.contains(t)
            &&& forall|i: int, j: int|
                0 <= i < j < stores.len() ==> (#[trigger] stores[i]).variable != (
                #[trigger] stores[j]).variable
            &&& forall|i: int, j: int|
                0 <= i < j < loads.len() ==> (#[trigger] loads[i]).variable != (
                #[trigger] loads[j]).variable
            &&& forall|i: int|
                0 <= i < stores.len() ==> {
                    let t = #[trigger] stores[i];
                    &&& t.arg == codegen::mem_arg(plan)
                    &&& match t.variable {
                        Variable::Local(var) => codegen::var_slot(plan, var) matches Ok(slot)
                            && t.address == slot.0 as i32 && t.ty == slot.1,
                        Variable::Global(global) => codegen::global_slot(
                            plan,
                            global,
                        ) matches Ok(slot) && t.address == slot.0 as i32 && t.ty == slot.1,
                    }
                }
        }),
{
    let vars = plan.saved_vars(k, distributed);
    let globals = plan.saved_globals(k, distributed);
    law_checkpoint_stores(plan, k, distributed);
    law_restoration_loads(plan, k, distributed);
    lemma_saved_once(plan, k, distributed);
    laws::lemma_saved_known(plan, k, distributed);
    let stores = transfers(plan, vars, globals);
    let loads = transfers(plan, vars.reverse(), globals.reverse());
    assert(vars.reverse().no_duplicates());
    assert(globals.reverse().no_duplicates());
    lemma_transfers_apart(plan, vars, globals);
    lemma_transfers_apart(plan, vars.reverse(), globals.reverse());
    assert forall|t: Transfer| #[trigger] loads.contains(t) <==> stores.contains(t) by {
        if loads.contains(t) {
            let i = choose|i: int| 0 <= i < loads.len() && loads[i] == t;
            if i < vars.len() {
                assert(stores[vars.len() - 1 - i] == t);
            } else {
                assert(stores[vars.len() + globals.len() - 1 - (i - vars.len())] == t);
            }
        }
        if stores.contains(t) {
            let i = choose|i: int| 0 <= i < stores.len() && stores[i] == t;
            if i < vars.len() {
                assert(loads[vars.len() - 1 - i] == t);
            } else {
                assert(loads[vars.len() + globals.len() - 1 - (i - vars.len())] == t);
            }
        }
    }
    assert forall|i: int| 0 <= i < stores.len() implies {
        let t = #[trigger] stores[i];
        &&& t.arg == codegen::mem_arg(plan)
        &&& match t.variable {
            Variable::Local(var) => codegen::var_slot(plan, var) matches Ok(slot) && t.address
                == slot.0 as i32 && t.ty == slot.1,
            Variable::Global(global) => codegen::global_slot(plan, global) matches Ok(slot)
                && t.address == slot.0 as i32 && t.ty == slot.1,
        }
    } by {
        if i < vars.len() {
            assert(vars.contains(vars[i]));
        } else {
            assert(globals.contains(globals[i - vars.len()]));
        }
    }
}

} // verus!
