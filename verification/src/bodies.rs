//! What becomes of the function bodies of a module with checkpoints.

use vstd::prelude::*;
use crate::body;
use crate::codegen;
use crate::contents;
use crate::encoder;
use crate::inject;
use crate::inject::TargetView;
use crate::instruction::{Instruction, NumType};
use crate::layout;
use crate::leb;
use crate::module::ModuleView;
use crate::plan::PlanView;
use crate::reader;
use crate::reading;
use crate::regions;
use crate::tree;
use crate::tree::{Inst, TreeNode};
use crate::types::{MigrateError, Operator, ValType, MAX_BODY_SIZE};

verus! {

/// The declaration of a run of locals.
pub open spec fn run_written() -> spec_fn((u32, Seq<u8>)) -> Seq<u8> {
    |run: (u32, Seq<u8>)| leb::uleb128(run.0 as nat) + run.1
}

/// The declaration of locals: how many runs there are, then each run, which is a number
/// of locals and their type.
pub open spec fn locals_written(groups: Seq<(u32, Seq<u8>)>) -> Seq<u8> {
    leb::uleb128(groups.len()) + reading::gathered(groups, run_written())
}

/// An instruction of a function body, with the function that it calls or refers to at
/// its new index. All others are encoded again as they are.
pub open spec fn inst_moved(old_body: Seq<u8>, num_imports: u32) -> spec_fn(Inst) -> Seq<u8> {
    |inst: Inst|
        match inst.op {
            Operator::Call(index) => seq![0x10u8] + leb::uleb128(
                contents::new_index(index, num_imports),
            ),
            Operator::ReturnCall(index) => seq![0x12u8] + leb::uleb128(
                contents::new_index(index, num_imports),
            ),
            Operator::RefFunc(index) => seq![0xd2u8] + leb::uleb128(
                contents::new_index(index, num_imports),
            ),
            _ => encoder::reencoded_operator(old_body, inst.pos as int)->Some_0,
        }
}

/// Runs of locals are declared one after the other.
proof fn lemma_groups_written(groups: Seq<(u32, Seq<u8>)>)
    ensures
        codegen::encoded_groups(groups) == reading::gathered(groups, run_written()),
    decreases groups.len(),
{
    if groups.len() > 0 {
        lemma_groups_written(groups.drop_last());
        assert(codegen::encoded_groups(groups) =~= reading::gathered(groups, run_written()));
    }
}

/// All instructions of a body are encoded one after the other.
pub(crate) proof fn lemma_insts_moved(old_body: Seq<u8>, insts: Seq<Inst>, num_imports: u32)
    ensures
        codegen::copied_between(insts, 0, usize::MAX, num_imports) matches Ok(code) ==> (
        codegen::encoded_code(old_body, code) matches Ok(bytes) ==> bytes == reading::gathered(
            insts,
            inst_moved(old_body, num_imports),
        )),
    decreases insts.len(),
{
    reveal(encoder::instruction_bytes);
    if insts.len() > 0 {
        lemma_insts_moved(old_body, insts.drop_last(), num_imports);
        if let Ok(code) = codegen::copied_between(insts, 0, usize::MAX, num_imports) {
            let before = codegen::copied_between(
                insts.drop_last(),
                0,
                usize::MAX,
                num_imports,
            )->Ok_0;
            assert(code.drop_last() =~= before);
        }
    }
}

/// The bodies of the other functions have the locals that they had, run by run, and
/// their instructions, one by one, with the functions that they call at their new
/// indices.
pub proof fn law_other_bodies(module: ModuleView, target: TargetView, i: int)
    requires
        0 <= i < module.function_bodies.len(),
        0 <= target.func_index,
        inject::prepared(module, target.func_index, target.distributed) == Ok::<
            TargetView,
            MigrateError,
        >(target),
        i != target.func_index,
    ensures
        inject::new_body(module, target, i) matches Ok(bytes) ==> {
            let old_body = module.function_bodies[i];
            &&& body::declared_groups(old_body) is Ok
            &&& body::instructions(old_body) is Ok
            &&& bytes == locals_written(body::declared_groups(old_body)->Ok_0.0)
                + reading::gathered(
                body::instructions(old_body)->Ok_0,
                inst_moved(old_body, module.num_of_import_functions),
            )
        },
{
    law_prepared(module, target.func_index, target.distributed, i);
    let old_body = module.function_bodies[i];
    if inject::new_body(module, target, i) is Ok {
        lemma_groups_written(target.locals[i]);
        lemma_insts_moved(
            old_body,
            body::instructions(old_body)->Ok_0,
            module.num_of_import_functions,
        );
    }
}

/// What is inserted into a module is what its function, and no other, gives: all
/// functions have their own locals, the function is the one that is asked for, its
/// instructions are those of its body, its variables are its parameters and locals, and
/// the globals are the imported ones and those of the module.
pub proof fn law_prepared(module: ModuleView, func_index: int, distributed: bool, i: int)
    requires
        0 <= func_index,
        0 <= i < module.function_bodies.len(),
    ensures
        inject::prepared(module, func_index, distributed) matches Ok(target) ==> {
            let func = func_index + module.num_of_import_functions;
            &&& target.func_index == func_index < module.function_bodies.len()
            &&& target.distributed == distributed
            &&& target.locals.len() == module.function_bodies.len()
            &&& body::declared_groups(module.function_bodies[i]) matches Ok(found)
                && target.locals[i] == found.0
            &&& body::instructions(module.function_bodies[func_index]) == Ok::<
                Seq<Inst>,
                MigrateError,
            >(target.plan.insts)
            &&& func < module.function_to_type.len()
            &&& module.function_to_type[func] < module.type_params.len()
            &&& target.plan.types == module.type_params[module.function_to_type[func] as int]
                + layout::expanded(target.locals[func_index])
            &&& target.plan.globals == module.imported_globals + module.globals
            &&& target.plan.num_imports == module.num_of_import_functions
            &&& target.plan.memory_index == module.checkpoint_memory_index
            &&& tree::block_tree(target.plan.insts) is Ok
            &&& target.plan.blocks == tree::tree_of(target.plan.insts).blocks
        },
{
    reveal(inject::prepared);
    lemma_locals(module.function_bodies, i);
}

/// The locals of all bodies are those of each.
proof fn lemma_locals(bodies: Seq<Seq<u8>>, i: int)
    requires
        0 <= i < bodies.len(),
    ensures
        inject::declared_locals(bodies) matches Ok(locals) ==> {
            &&& locals.len() == bodies.len()
            &&& body::declared_groups(bodies[i]) matches Ok(found) && locals[i] == found.0
        },
    decreases bodies.len(),
{
    inject::lemma_declared_locals_len(bodies);
    inject::lemma_declared_locals_len(bodies.drop_last());
    if i < bodies.len() - 1 {
        lemma_locals(bodies.drop_last(), i);
    }
}

/// All bodies declare locals that can be read.
pub(crate) proof fn lemma_locals_readable(bodies: Seq<Seq<u8>>)
    ensures
        inject::declared_locals(bodies) is Ok == (forall|i: int|
            0 <= i < bodies.len() ==> body::declared_groups(#[trigger] bodies[i]) is Ok),
    decreases bodies.len(),
{
    if bodies.len() > 0 {
        let init = bodies.drop_last();
        lemma_locals_readable(init);
        assert(bodies[bodies.len() - 1] == bodies.last());
        if forall|i: int| 0 <= i < bodies.len() ==> body::declared_groups(#[trigger] bodies[i]) is Ok {
            assert forall|i: int| 0 <= i < init.len() implies body::declared_groups(
                #[trigger] init[i],
            ) is Ok by {
                assert(init[i] == bodies[i]);
            }
        }
        if inject::declared_locals(bodies) is Ok {
            assert forall|i: int| 0 <= i < bodies.len() implies body::declared_groups(
                #[trigger] bodies[i],
            ) is Ok by {
                if i < init.len() {
                    assert(init[i] == bodies[i]);
                }
            }
        }
    }
}

/// Checkpoints can be inserted into a function of a module exactly if the locals of all
/// functions can be read, the function exists and its instructions can be read, all
/// its blocks are closed, it has a region, its type is declared, and its variables and
/// the globals can be numbered.
pub proof fn law_can_be_prepared(module: ModuleView, func_index: int, distributed: bool)
    requires
        0 <= func_index,
    ensures
        inject::prepared(module, func_index, distributed) is Ok == {
            let func = func_index + module.num_of_import_functions;
            &&& forall|i: int|
                0 <= i < module.function_bodies.len() ==> body::declared_groups(
                    #[trigger] module.function_bodies[i],
                ) is Ok
            &&& func_index < module.function_bodies.len()
            &&& body::instructions(module.function_bodies[func_index]) matches Ok(insts) && {
                &&& tree::block_tree(insts) is Ok
                &&& regions::top_level(tree::tree_of(insts).blocks).len() > 0
            }
            &&& func < module.function_to_type.len()
            &&& module.function_to_type[func] < module.type_params.len()
            &&& module.type_params[module.function_to_type[func] as int].len()
                + layout::expanded(
                body::declared_groups(module.function_bodies[func_index])->Ok_0.0,
            ).len() < u32::MAX
            &&& module.imported_globals.len() + module.globals.len() <= u32::MAX
        },
{
    reveal(inject::prepared);
    lemma_locals_readable(module.function_bodies);
    if 0 <= func_index < module.function_bodies.len() {
        lemma_locals(module.function_bodies, func_index);
        assert(module.function_bodies[func_index] == module.function_bodies[func_index]);
    }
}

/// The bytes of an instruction of the function with checkpoints. One of the function
/// as it was is encoded again.
pub open spec fn instruction_written(old_body: Seq<u8>) -> spec_fn(Instruction) -> Seq<u8> {
    |instruction: Instruction|
        match instruction {
            Instruction::Original(pos) => encoder::reencoded_operator(
                old_body,
                pos as int,
            )->Some_0,
            _ => encoder::instruction_bytes(instruction),
        }
}

/// Instructions are encoded one after the other.
proof fn lemma_code_written(old_body: Seq<u8>, code: Seq<Instruction>)
    ensures
        codegen::encoded_code(old_body, code) matches Ok(bytes) ==> bytes == reading::gathered(
            code,
            instruction_written(old_body),
        ),
    decreases code.len(),
{
    if code.len() > 0 {
        lemma_code_written(old_body, code.drop_last());
    }
}

/// The body of the function with checkpoints has the locals that the function had and
/// one integer of 32 bits behind them, then the code of the function with checkpoints.
pub proof fn law_target_body(module: ModuleView, target: TargetView)
    requires
        0 <= target.func_index < module.function_bodies.len(),
        inject::prepared(module, target.func_index, target.distributed) == Ok::<
            TargetView,
            MigrateError,
        >(target),
    ensures
        inject::new_body(module, target, target.func_index) matches Ok(bytes) ==> {
            let old_body = module.function_bodies[target.func_index];
            &&& body::declared_groups(old_body) is Ok
            &&& codegen::function_code(target.plan, target.distributed) is Ok
            &&& bytes == locals_written(
                body::declared_groups(old_body)->Ok_0.0.push((1u32, seq![0x7fu8])),
            ) + reading::gathered(
                codegen::function_code(target.plan, target.distributed)->Ok_0,
                instruction_written(old_body),
            )
        },
{
    law_prepared(module, target.func_index, target.distributed, target.func_index);
    let old_body = module.function_bodies[target.func_index];
    if inject::new_body(module, target, target.func_index) is Ok {
        lemma_groups_written(target.locals[target.func_index].push((1u32, seq![0x7fu8])));
        lemma_code_written(
            old_body,
            codegen::function_code(target.plan, target.distributed)->Ok_0,
        );
    }
}

/// An instruction of a region in the function with checkpoints.
pub open spec fn inst_kept(region: TreeNode, num_imports: u32) -> spec_fn(Inst) -> Seq<
    Instruction,
> {
    |inst: Inst|
        if region.start_inst <= inst.pos <= region.end_inst {
            match inst.op {
                Operator::Call(index) => seq![
                    Instruction::Call(contents::new_index(index, num_imports) as u32),
                ],
                Operator::ReturnCall(index) => seq![
                    Instruction::ReturnCall(contents::new_index(index, num_imports) as u32),
                ],
                Operator::RefFunc(index) => seq![
                    Instruction::RefFunc(contents::new_index(index, num_imports) as u32),
                ],
                _ => seq![Instruction::Original(inst.pos)],
            }
        } else {
            Seq::empty()
        }
}

/// The code around and in region number `k`: what comes in front of it, its own
/// instructions, and what comes behind.
pub open spec fn region_with_code(plan: PlanView, distributed: bool, k: int) -> Seq<Instruction> {
    codegen::region_head(plan, k, distributed)->Ok_0 + reading::gathered(
        plan.insts,
        inst_kept(plan.regions()[k], plan.num_imports),
    ) + codegen::region_tail(plan, k, distributed)->Ok_0
}

/// The regions, each with the code around it.
pub open spec fn regions_with_code(plan: PlanView, distributed: bool) -> Seq<Seq<Instruction>> {
    Seq::new(plan.regions().len(), |k: int| region_with_code(plan, distributed, k))
}

/// A piece of code as it is.
pub open spec fn itself() -> spec_fn(Seq<Instruction>) -> Seq<Instruction> {
    |code: Seq<Instruction>| code
}

/// The instructions of a region are copied.
proof fn lemma_insts_kept(insts: Seq<Inst>, region: TreeNode, num_imports: u32)
    ensures
        codegen::copied_between(
            insts,
            region.start_inst,
            region.end_inst,
            num_imports,
        ) matches Ok(code) ==> code == reading::gathered(insts, inst_kept(region, num_imports)),
    decreases insts.len(),
{
    if insts.len() > 0 {
        lemma_insts_kept(insts.drop_last(), region, num_imports);
        if let Ok(code) = codegen::copied_between(
            insts,
            region.start_inst,
            region.end_inst,
            num_imports,
        ) {
            assert(code =~= reading::gathered(insts, inst_kept(region, num_imports)));
        }
    }
}

/// The code of the first regions.
proof fn lemma_regions_code(plan: PlanView, distributed: bool, count: int)
    requires
        0 <= count <= plan.regions().len(),
    ensures
        codegen::regions_code(plan, count, distributed) matches Ok(code) ==> {
            &&& code == reading::gathered(
                regions_with_code(plan, distributed).take(count),
                itself(),
            )
            &&& forall|k: int|
                0 <= k < count ==> (#[trigger] codegen::region_head(plan, k, distributed)) is Ok
                    && codegen::region_tail(plan, k, distributed) is Ok
        },
    decreases count,
{
    let taken = regions_with_code(plan, distributed).take(count);
    if count > 0 {
        let k = count - 1;
        lemma_regions_code(plan, distributed, k);
        lemma_insts_kept(plan.insts, plan.regions()[k], plan.num_imports);
        assert(taken.drop_last() =~= regions_with_code(plan, distributed).take(k));
        assert(taken.last() == region_with_code(plan, distributed, k));
    } else {
        assert(taken =~= Seq::empty());
    }
}

/// The function with checkpoints starts by having the host restore the memories and
/// looking up the region to start from. Then come its regions, all of them in their
/// order, each with the code around it, and the end of the body.
pub proof fn law_function_code(plan: PlanView, distributed: bool)
    ensures
        codegen::function_code(plan, distributed) matches Ok(code) ==> {
            &&& plan.num_imports < u32::MAX
            &&& code == codegen::init_code(plan, (plan.num_imports + 1) as u32)
                + reading::gathered(regions_with_code(plan, distributed), itself()) + seq![
                Instruction::End,
            ]
            &&& forall|k: int|
                0 <= k < plan.regions().len() ==> (#[trigger] codegen::region_head(
                    plan,
                    k,
                    distributed,
                )) is Ok && codegen::region_tail(plan, k, distributed) is Ok
        },
{
    let count = plan.regions().len() as int;
    lemma_regions_code(plan, distributed, count);
    assert(regions_with_code(plan, distributed).take(count) =~= regions_with_code(
        plan,
        distributed,
    ));
}

/// The types of runs of locals are read where they are written: at the positions from
/// `pos` on at which the declaration of the runs has them.
pub open spec fn types_read(bytes: Seq<u8>, pos: int, groups: Seq<(u32, Seq<u8>)>) -> bool
    decreases groups.len(),
{
    groups.len() > 0 ==> {
        let (count, ty) = groups[0];
        let at = pos + leb::uleb128(count as nat).len();
        &&& reader::val_type_at(bytes, at) == Some((ty, at + ty.len()))
        &&& types_read(bytes, at + ty.len(), groups.drop_first())
    }
}

/// The first run is declared in front of the others.
proof fn lemma_first_run(groups: Seq<(u32, Seq<u8>)>)
    requires
        groups.len() > 0,
    ensures
        reading::gathered(groups, run_written()) == leb::uleb128(groups[0].0 as nat) + groups[0].1
            + reading::gathered(groups.drop_first(), run_written()),
    decreases groups.len(),
{
    let rest = groups.drop_first();
    let first = leb::uleb128(groups[0].0 as nat) + groups[0].1;
    if groups.len() == 1 {
        assert(groups.drop_last() =~= Seq::empty());
        assert(rest =~= Seq::empty());
        assert(reading::gathered(groups, run_written()) =~= first + reading::gathered(
            rest,
            run_written(),
        ));
    } else {
        lemma_first_run(groups.drop_last());
        assert(groups.drop_last().drop_first() =~= rest.drop_last());
        assert(rest.last() == groups.last());
        assert(reading::gathered(groups, run_written()) =~= first + reading::gathered(
            rest,
            run_written(),
        ));
    }
}

/// Runs of locals that were written are read again.
proof fn lemma_runs_read(bytes: Seq<u8>, pos: int, groups: Seq<(u32, Seq<u8>)>)
    requires
        0 <= pos,
        pos + reading::gathered(groups, run_written()).len() <= bytes.len(),
        bytes.subrange(pos, pos + reading::gathered(groups, run_written()).len())
            == reading::gathered(groups, run_written()),
        types_read(bytes, pos, groups),
    ensures
        body::groups_from(bytes, pos, groups.len()) == Ok::<
            (Seq<(u32, Seq<u8>)>, int),
            MigrateError,
        >((groups, pos + reading::gathered(groups, run_written()).len())),
    decreases groups.len(),
{
    if groups.len() == 0 {
        assert(groups =~= Seq::empty());
    } else {
        let all = reading::gathered(groups, run_written());
        let (count, ty) = groups[0];
        let number = leb::uleb128(count as nat);
        let rest = groups.drop_first();
        let more = reading::gathered(rest, run_written());
        lemma_first_run(groups);
        assert(all.len() == number.len() + ty.len() + more.len());
        let found = bytes.subrange(pos, pos + all.len());
        assert(bytes.subrange(pos, pos + number.len()) =~= number) by {
            assert forall|i: int| 0 <= i < number.len() implies bytes[pos + i]
                == #[trigger] number[i] by {
                assert(found[i] == all[i]);
            }
        }
        leb::law_decodes_encoded(bytes, pos, count);
        let next = pos + number.len() + ty.len();
        assert(bytes.subrange(next, next + more.len()) =~= more) by {
            assert forall|i: int| 0 <= i < more.len() implies bytes[next + i]
                == #[trigger] more[i] by {
                assert(found[number.len() + ty.len() + i] == all[number.len() + ty.len() + i]);
            }
        }
        lemma_runs_read(bytes, next, rest);
        assert(seq![(count, ty)] + rest =~= groups);
    }
}

/// Reading the locals of a body that starts with their declaration gives them back, and
/// finds the first instruction behind, if the types are read where they are written.
pub proof fn law_locals_read_again(groups: Seq<(u32, Seq<u8>)>, code: Seq<u8>)
    requires
        groups.len() <= u32::MAX,
        types_read(
            locals_written(groups) + code,
            leb::uleb128(groups.len()).len() as int,
            groups,
        ),
    ensures
        body::declared_groups(locals_written(groups) + code) == Ok::<
            (Seq<(u32, Seq<u8>)>, int),
            MigrateError,
        >((groups, locals_written(groups).len() as int)),
{
    let bytes = locals_written(groups) + code;
    let number = leb::uleb128(groups.len());
    let all = reading::gathered(groups, run_written());
    assert(bytes.subrange(0, number.len() as int) =~= number);
    leb::law_decodes_encoded(bytes, 0, groups.len() as u32);
    assert(bytes.subrange(number.len() as int, (number.len() + all.len()) as int) =~= all);
    lemma_runs_read(bytes, number.len() as int, groups);
}

/// Reading the locals of the new body of a function without checkpoints gives those
/// that its old body declares.
pub proof fn law_other_locals_read_again(module: ModuleView, target: TargetView, i: int)
    requires
        0 <= i < module.function_bodies.len(),
        0 <= target.func_index,
        inject::prepared(module, target.func_index, target.distributed) == Ok::<
            TargetView,
            MigrateError,
        >(target),
        i != target.func_index,
        inject::new_body(module, target, i) matches Ok(bytes) && body::declared_groups(
            module.function_bodies[i],
        ) matches Ok(found) && types_read(
            bytes,
            leb::uleb128(found.0.len()).len() as int,
            found.0,
        ),
    ensures
        body::declared_groups(inject::new_body(module, target, i)->Ok_0) matches Ok(found)
            && found.0 == body::declared_groups(module.function_bodies[i])->Ok_0.0,
{
    law_other_bodies(module, target, i);
    law_prepared(module, target.func_index, target.distributed, i);
    let old_body = module.function_bodies[i];
    law_locals_read_again(
        body::declared_groups(old_body)->Ok_0.0,
        reading::gathered(
            body::instructions(old_body)->Ok_0,
            inst_moved(old_body, module.num_of_import_functions),
        ),
    );
}

/// The instructions of a body are those that are found one behind the other from the
/// first position to the end.
pub proof fn law_instructions_read(bytes: Seq<u8>, pos: int, n: int)
    requires
        0 <= pos <= bytes.len() <= usize::MAX,
    ensures
        body::insts_from(bytes, pos) matches Ok(insts) ==> {
            &&& insts.len() == 0 <==> pos == bytes.len()
            &&& insts.len() > 0 ==> insts[0].pos == pos
            &&& 0 <= n < insts.len() ==> reader::operator_at(
                bytes,
                insts[n].pos as int,
            ) == Some((
                insts[n].op,
                if n == insts.len() - 1 {
                    bytes.len() as int
                } else {
                    insts[n + 1].pos as int
                },
            ))
        },
    decreases bytes.len() - pos,
{
    if let Ok(insts) = body::insts_from(bytes, pos) {
        if pos < bytes.len() {
            let (op, next) = reader::operator_at(bytes, pos)->Some_0;
            law_instructions_read(bytes, next, n - 1);
            let rest = body::insts_from(bytes, next)->Ok_0;
            assert(insts == seq![Inst { pos: pos as usize, op }] + rest);
            if 0 < n < insts.len() {
                assert(insts[n] == rest[n - 1]);
                if n < insts.len() - 1 {
                    assert(insts[n + 1] == rest[n]);
                }
            }
            if n == 0 && insts.len() > 1 {
                assert(insts[1] == rest[0]);
            }
        }
    }
}

/// The index of the function that an instruction calls or refers to, if it does.
pub open spec fn function_named(op: Operator) -> Option<u32> {
    match op {
        Operator::Call(index) => Some(index),
        Operator::ReturnCall(index) => Some(index),
        Operator::RefFunc(index) => Some(index),
        _ => None,
    }
}

/// There is a new index for the function that an instruction calls or refers to, if it
/// does.
pub open spec fn call_fits(inst: Inst, num_imports: u32) -> bool {
    function_named(inst.op) matches Some(index) ==> contents::new_index(index, num_imports)
        <= u32::MAX
}

/// An instruction that neither calls nor refers to a function can be encoded again.
pub open spec fn again_fits(old_body: Seq<u8>, inst: Inst) -> bool {
    function_named(inst.op) is None ==> inst.pos <= old_body.len() && encoder::reencoded_operator(
        old_body,
        inst.pos as int,
    ) is Some
}

/// All instructions can be encoded exactly if each can.
pub(crate) proof fn lemma_insts_fit(old_body: Seq<u8>, insts: Seq<Inst>, num_imports: u32)
    ensures
        codegen::copied_between(insts, 0, usize::MAX, num_imports) is Ok == (forall|i: int|
            0 <= i < insts.len() ==> call_fits(#[trigger] insts[i], num_imports)),
        codegen::copied_between(insts, 0, usize::MAX, num_imports) matches Ok(code) ==> {
            codegen::encoded_code(old_body, code) is Ok == (forall|i: int|
                0 <= i < insts.len() ==> again_fits(old_body, #[trigger] insts[i]))
        },
    decreases insts.len(),
{
    if insts.len() > 0 {
        let init = insts.drop_last();
        let last = insts.last();
        lemma_insts_fit(old_body, init, num_imports);
        assert(insts[insts.len() - 1] == last);
        if let Some(index) = function_named(last.op) {
            contents::law_moved_up(index, num_imports);
        }
        assert((forall|i: int| 0 <= i < insts.len() ==> call_fits(#[trigger] insts[i], num_imports))
            == (call_fits(last, num_imports) && (forall|i: int|
            0 <= i < init.len() ==> call_fits(#[trigger] init[i], num_imports)))) by {
            assert(forall|i: int| 0 <= i < init.len() ==> #[trigger] init[i] == insts[i]);
            assert(forall|i: int| 0 <= i < init.len() ==> #[trigger] insts[i] == init[i]);
        }
        assert((forall|i: int| 0 <= i < insts.len() ==> again_fits(old_body, #[trigger] insts[i]))
            == (again_fits(old_body, last) && (forall|i: int|
            0 <= i < init.len() ==> again_fits(old_body, #[trigger] init[i])))) by {
            assert(forall|i: int| 0 <= i < init.len() ==> #[trigger] init[i] == insts[i]);
            assert(forall|i: int| 0 <= i < init.len() ==> #[trigger] insts[i] == init[i]);
        }
        if let Ok(code) = codegen::copied_between(insts, 0, usize::MAX, num_imports) {
            let before = codegen::copied_between(init, 0, usize::MAX, num_imports)->Ok_0;
            assert(code.drop_last() =~= before);
            assert(code.last() == codegen::copied(last, num_imports)->Ok_0);
        }
    }
}

/// The body of another function can be written exactly if its instructions can be read,
/// there are indices for the functions that it calls or refers to, all its other
/// instructions can be encoded again, and it does not get too large.
pub proof fn law_other_body_can_be_written(module: ModuleView, target: TargetView, i: int)
    requires
        0 <= i < module.function_bodies.len(),
        0 <= target.func_index,
        inject::prepared(module, target.func_index, target.distributed) == Ok::<
            TargetView,
            MigrateError,
        >(target),
        i != target.func_index,
    ensures
        inject::new_body(module, target, i) is Ok == {
            let old_body = module.function_bodies[i];
            let groups = body::declared_groups(old_body)->Ok_0.0;
            &&& groups.len() <= u32::MAX
            &&& body::instructions(old_body) matches Ok(insts) && {
                &&& forall|j: int|
                    0 <= j < insts.len() ==> call_fits(
                        #[trigger] insts[j],
                        module.num_of_import_functions,
                    )
                &&& forall|j: int|
                    0 <= j < insts.len() ==> again_fits(old_body, #[trigger] insts[j])
                &&& locals_written(groups).len() + reading::gathered(
                    insts,
                    inst_moved(old_body, module.num_of_import_functions),
                ).len() <= MAX_BODY_SIZE
            }
        },
{
    law_prepared(module, target.func_index, target.distributed, i);
    let old_body = module.function_bodies[i];
    let groups = target.locals[i];
    lemma_groups_written(groups);
    if let Ok(insts) = body::instructions(old_body) {
        lemma_insts_fit(old_body, insts, module.num_of_import_functions);
        lemma_insts_moved(old_body, insts, module.num_of_import_functions);
    }
}

/// The variables that are checkpointed behind region number `k` are there, and none is a
/// reference.
pub open spec fn saved_fit(plan: PlanView, k: int, distributed: bool) -> bool {
    &&& forall|i: int|
        0 <= i < plan.saved_vars(k, distributed).len() ==> var_fits(
            plan,
            #[trigger] plan.saved_vars(k, distributed)[i],
        )
    &&& forall|i: int|
        0 <= i < plan.saved_globals(k, distributed).len() ==> global_fits(
            plan,
            #[trigger] plan.saved_globals(k, distributed)[i],
        )
}

/// A local variable is there, and holds no reference.
pub open spec fn var_fits(plan: PlanView, var: u32) -> bool {
    var < plan.types.len() && plan.types[var as int] != ValType::Ref
}

/// A global variable is there, and holds no reference.
pub open spec fn global_fits(plan: PlanView, global: u32) -> bool {
    global < plan.globals.len() && plan.globals[global as int].0 != ValType::Ref
}

/// The code for lists of variables can be produced exactly if each variable fits.
proof fn lemma_vars_fit(plan: PlanView, vars: Seq<u32>)
    ensures
        codegen::load_vars(plan, vars) is Ok == (forall|i: int|
            0 <= i < vars.len() ==> var_fits(plan, #[trigger] vars[i])),
        codegen::store_vars(plan, vars) is Ok == (forall|i: int|
            0 <= i < vars.len() ==> var_fits(plan, #[trigger] vars[i])),
    decreases vars.len(),
{
    if vars.len() > 0 {
        let init = vars.drop_last();
        lemma_vars_fit(plan, init);
        assert(vars[vars.len() - 1] == vars.last());
        assert((forall|i: int| 0 <= i < vars.len() ==> var_fits(plan, #[trigger] vars[i])) == (
        var_fits(plan, vars.last()) && (forall|i: int|
            0 <= i < init.len() ==> var_fits(plan, #[trigger] init[i])))) by {
            assert(forall|i: int| 0 <= i < init.len() ==> #[trigger] init[i] == vars[i]);
            assert(forall|i: int| 0 <= i < init.len() ==> #[trigger] vars[i] == init[i]);
        }
    }
}

/// The same of global variables.
proof fn lemma_globals_fit(plan: PlanView, globals: Seq<u32>)
    ensures
        codegen::load_globals(plan, globals) is Ok == (forall|i: int|
            0 <= i < globals.len() ==> global_fits(plan, #[trigger] globals[i])),
        codegen::store_globals(plan, globals) is Ok == (forall|i: int|
            0 <= i < globals.len() ==> global_fits(plan, #[trigger] globals[i])),
    decreases globals.len(),
{
    if globals.len() > 0 {
        let init = globals.drop_last();
        lemma_globals_fit(plan, init);
        assert(globals[globals.len() - 1] == globals.last());
        assert((forall|i: int| 0 <= i < globals.len() ==> global_fits(plan, #[trigger] globals[i]))
            == (global_fits(plan, globals.last()) && (forall|i: int|
            0 <= i < init.len() ==> global_fits(plan, #[trigger] init[i])))) by {
            assert(forall|i: int| 0 <= i < init.len() ==> #[trigger] init[i] == globals[i]);
            assert(forall|i: int| 0 <= i < init.len() ==> #[trigger] globals[i] == init[i]);
        }
    }
}

/// A checkpoint and its restoration can be produced exactly if the variables fit.
pub proof fn law_checkpoint_can_be_produced(plan: PlanView, k: int, distributed: bool)
    ensures
        codegen::save_code(plan, k, distributed) is Ok == saved_fit(plan, k, distributed),
        codegen::resume_code(plan, k, distributed) is Ok == saved_fit(plan, k, distributed),
{
    lemma_vars_fit(plan, plan.saved_vars(k, distributed));
    lemma_globals_fit(plan, plan.saved_globals(k, distributed));
}

/// There are indices for all functions that the instructions of a region call or refer to.
pub open spec fn region_fits(insts: Seq<Inst>, region: TreeNode, num_imports: u32) -> bool {
    forall|i: int|
        0 <= i < insts.len() ==> (region.start_inst <= (#[trigger] insts[i]).pos
            <= region.end_inst ==> call_fits(insts[i], num_imports))
}

/// The instructions of a region can be copied exactly if there are such indices.
proof fn lemma_region_fits(insts: Seq<Inst>, region: TreeNode, num_imports: u32)
    ensures
        codegen::copied_between(insts, region.start_inst, region.end_inst, num_imports) is Ok
            == region_fits(insts, region, num_imports),
    decreases insts.len(),
{
    if insts.len() > 0 {
        let init = insts.drop_last();
        let last = insts.last();
        lemma_region_fits(init, region, num_imports);
        assert(insts[insts.len() - 1] == last);
        if let Some(index) = function_named(last.op) {
            contents::law_moved_up(index, num_imports);
        }
        assert(region_fits(insts, region, num_imports) == (region_fits(init, region, num_imports)
            && (region.start_inst <= last.pos <= region.end_inst ==> call_fits(
            last,
            num_imports,
        )))) by {
            assert(forall|i: int| 0 <= i < init.len() ==> #[trigger] init[i] == insts[i]);
            assert(forall|i: int| 0 <= i < init.len() ==> #[trigger] insts[i] == init[i]);
        }
    }
}

/// The code of the first regions can be produced exactly if that of each can.
proof fn lemma_regions_fit(plan: PlanView, distributed: bool, count: int)
    requires
        0 <= count <= plan.regions().len(),
    ensures
        codegen::regions_code(plan, count, distributed) is Ok == ((forall|k: int|
            0 <= k < count && k < plan.regions().len() - 1 ==> #[trigger] saved_fit(
                plan,
                k,
                distributed,
            )) && (forall|k: int|
            0 <= k < count ==> region_fits(
                plan.insts,
                #[trigger] plan.regions()[k],
                plan.num_imports,
            ))),
    decreases count,
{
    if count > 0 {
        let k = count - 1;
        lemma_regions_fit(plan, distributed, k);
        lemma_region_fits(plan.insts, plan.regions()[k], plan.num_imports);
        law_checkpoint_can_be_produced(plan, k, distributed);
        if k > 0 {
            law_checkpoint_can_be_produced(plan, k - 1, distributed);
        }
        if codegen::regions_code(plan, count, distributed) is Ok {
            assert(codegen::regions_code(plan, k, distributed) is Ok);
            assert(codegen::region_code(plan, k, distributed) is Ok);
            assert(k < plan.regions().len() - 1 ==> saved_fit(plan, k, distributed));
        } else {
            if codegen::regions_code(plan, k, distributed) is Ok {
                if k > 0 {
                    assert(saved_fit(plan, k - 1, distributed));
                }
                assert(!(region_fits(plan.insts, plan.regions()[k], plan.num_imports) && (k
                    < plan.regions().len() - 1 ==> saved_fit(plan, k, distributed))));
            }
        }
    }
}

/// The code of the function with checkpoints can be produced exactly if there are indices
/// for the functions of the host and for all functions that are called or referred to in a
/// region, and all variables that are checkpointed are there and hold no references.
pub proof fn law_code_can_be_produced(plan: PlanView, distributed: bool)
    ensures
        codegen::function_code(plan, distributed) is Ok == (plan.num_imports < u32::MAX && (forall|
            k: int,
        |
            0 <= k < plan.regions().len() - 1 ==> #[trigger] saved_fit(plan, k, distributed)) && (
        forall|k: int|
            0 <= k < plan.regions().len() ==> region_fits(
                plan.insts,
                #[trigger] plan.regions()[k],
                plan.num_imports,
            ))),
{
    lemma_regions_fit(plan, distributed, plan.regions().len() as int);
}

/// An instruction of the function as it was can be encoded again.
pub open spec fn original_fits(old_body: Seq<u8>, instruction: Instruction) -> bool {
    instruction matches Instruction::Original(pos) ==> pos <= old_body.len()
        && encoder::reencoded_operator(old_body, pos as int) is Some
}

/// Code can be encoded exactly if each instruction of the function as it was can.
proof fn lemma_code_fits(old_body: Seq<u8>, code: Seq<Instruction>)
    ensures
        codegen::encoded_code(old_body, code) is Ok == (forall|i: int|
            0 <= i < code.len() ==> original_fits(old_body, #[trigger] code[i])),
    decreases code.len(),
{
    if code.len() > 0 {
        let init = code.drop_last();
        lemma_code_fits(old_body, init);
        assert(code[code.len() - 1] == code.last());
        assert((forall|i: int| 0 <= i < code.len() ==> original_fits(old_body, #[trigger] code[i]))
            == (original_fits(old_body, code.last()) && (forall|i: int|
            0 <= i < init.len() ==> original_fits(old_body, #[trigger] init[i])))) by {
            assert(forall|i: int| 0 <= i < init.len() ==> #[trigger] init[i] == code[i]);
            assert(forall|i: int| 0 <= i < init.len() ==> #[trigger] code[i] == init[i]);
        }
    }
}

/// The body of the function with checkpoints can be written exactly if its code can be
/// produced, all its instructions as they were can be encoded again, and it does not get
/// too large.
pub proof fn law_target_body_can_be_written(module: ModuleView, target: TargetView)
    requires
        0 <= target.func_index < module.function_bodies.len(),
        inject::prepared(module, target.func_index, target.distributed) == Ok::<
            TargetView,
            MigrateError,
        >(target),
    ensures
        inject::new_body(module, target, target.func_index) is Ok == {
            let old_body = module.function_bodies[target.func_index];
            let groups = body::declared_groups(old_body)->Ok_0.0;
            &&& groups.len() < u32::MAX
            &&& codegen::function_code(target.plan, target.distributed) matches Ok(code) && {
                &&& forall|i: int|
                    0 <= i < code.len() ==> original_fits(old_body, #[trigger] code[i])
                &&& locals_written(groups.push((1u32, seq![0x7fu8]))).len() + reading::gathered(
                    code,
                    instruction_written(old_body),
                ).len() <= MAX_BODY_SIZE
            }
        },
{
    law_prepared(module, target.func_index, target.distributed, target.func_index);
    let old_body = module.function_bodies[target.func_index];
    let groups = target.locals[target.func_index];
    lemma_groups_written(groups.push((1u32, seq![0x7fu8])));
    if let Ok(code) = codegen::function_code(target.plan, target.distributed) {
        lemma_code_fits(old_body, code);
        lemma_code_written(old_body, code);
    }
}

/// A variable has a place exactly if it is there and holds no reference. It is loaded and
/// stored with its own type, and lies behind the number of the region to start from, the
/// local variables first.
pub proof fn law_slots(plan: PlanView, var: u32)
    ensures
        match codegen::var_slot(plan, var) {
            Ok(slot) => var_fits(plan, var) && Some(slot.1) == NumType::of(plan.types[var as int])
                && slot.0 == layout::addresses(plan.types, 4)[var as int],
            Err(error) => if var >= plan.types.len() {
                error == MigrateError::UnknownVariable
            } else {
                error == MigrateError::ReferenceType && plan.types[var as int] == ValType::Ref
            },
        },
        match codegen::global_slot(plan, var) {
            Ok(slot) => global_fits(plan, var) && Some(slot.1) == NumType::of(
                plan.globals[var as int].0,
            ) && slot.0 == layout::addresses(
                plan.global_types(),
                4 + layout::slots(plan.types, plan.types.len() as int),
            )[var as int],
            Err(error) => if var >= plan.globals.len() {
                error == MigrateError::UnknownGlobal
            } else {
                error == MigrateError::ReferenceType && plan.globals[var as int].0 == ValType::Ref
            },
        },
        plan.global_types().len() == plan.globals.len(),
        var < plan.globals.len() ==> plan.global_types()[var as int] == plan.globals[var as int].0,
{
}

} // verus!
