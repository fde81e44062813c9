//! What is known of a function into which checkpoints are inserted.

use vstd::prelude::*;
use std::collections::HashMap;
use crate::body;
use crate::body::LocalGroup;
use crate::layout;
use crate::regions;
use crate::regions::Access;
use crate::tree;
use crate::tree::{CodeInsts, Inst, TreeNode};
use crate::types::{views, MigrateError, ValType};

verus! {

/// A function into which checkpoints are inserted.
#[verifier::ext_equal]
pub struct PlanView {
    /// Its instructions.
    pub insts: Seq<Inst>,
    /// The tree of its blocks.
    pub blocks: Seq<TreeNode>,
    /// The types of its parameters and locals.
    pub types: Seq<ValType>,
    /// The types of the globals of the module, the imported ones first, and whether
    /// they are mutable.
    pub globals: Seq<(ValType, bool)>,
    /// How many functions the module imports.
    pub num_imports: u32,
    /// The index of the checkpoint memory.
    pub memory_index: u32,
}

impl PlanView {
    /// The regions of the function, each of which ends with a checkpoint.
    pub open spec fn regions(self) -> Seq<TreeNode> {
        regions::top_level(self.blocks)
    }

    /// The variable that holds the number of the region to resume from. It
    /// comes behind all others.
    pub open spec fn resuming_var(self) -> u32 {
        self.types.len() as u32
    }

    /// The types of the globals.
    pub open spec fn global_types(self) -> Seq<ValType> {
        Seq::new(self.globals.len(), |i: int| self.globals[i].0)
    }

    /// The addresses of the parameters and locals, behind the number of the region
    /// to start from.
    pub open spec fn var_addresses(self) -> Seq<u64> {
        layout::addresses(self.types, layout::RESUMING_BLOCK_ADDR + layout::RESUMING_BLOCK_SIZE)
    }

    /// The addresses of the globals, behind those of the locals.
    pub open spec fn global_addresses(self) -> Seq<u64> {
        layout::addresses(
            self.global_types(),
            layout::RESUMING_BLOCK_ADDR + layout::RESUMING_BLOCK_SIZE + layout::slots(self.types, self.types.len() as int),
        )
    }

    /// The local variables that each region writes.
    pub open spec fn written_vars(self) -> Seq<Seq<u32>> {
        regions::written_vars(self.insts, self.regions())
    }

    /// The global variables that each region may write.
    pub open spec fn written_globals(self) -> Seq<Seq<u32>> {
        regions::written_globals(self.insts, self.regions(), self.globals)
    }

    /// The local variables that are live at the end of each region.
    pub open spec fn live_vars(self) -> Seq<Seq<u32>> {
        regions::live_out(
            self.written_vars(),
            regions::read_before(self.insts, self.regions(), Access::LocalRead),
        )
    }

    /// The global variables that are live at the end of each region.
    pub open spec fn live_globals(self) -> Seq<Seq<u32>> {
        regions::live_out(
            self.written_globals(),
            regions::read_before(self.insts, self.regions(), Access::GlobalRead),
        )
    }

    /// The local variables that are checkpointed at the end of region number
    /// `k`: with distributed checkpoints those that it writes, otherwise those
    /// that are live.
    pub open spec fn saved_vars(self, k: int, distributed: bool) -> Seq<u32> {
        if distributed {
            self.written_vars()[k]
        } else {
            self.live_vars()[k]
        }
    }

    /// The global variables that are checkpointed at the end of region number
    /// `k`.
    pub open spec fn saved_globals(self, k: int, distributed: bool) -> Seq<u32> {
        if distributed {
            self.written_globals()[k]
        } else {
            self.live_globals()[k]
        }
    }
}

/// A function into which checkpoints are inserted, with all that the code
/// generation needs.
pub struct Plan {
    pub insts: Vec<Inst>,
    pub blocks: Vec<TreeNode>,
    /// The instructions of the nodes that are code portions.
    pub insts_in_code_node: Vec<CodeInsts>,
    /// The nodes that end with a checkpoint.
    pub regions: Vec<TreeNode>,
    /// The numbers of these nodes.
    pub checkpoint_list: Vec<usize>,
    pub modified_vars_set: Vec<Vec<u32>>,
    pub set_global_vars: Vec<Vec<u32>>,
    pub live_in_set_vars: Vec<Vec<u32>>,
    pub get_global_vars: Vec<Vec<u32>>,
    pub live_out_set_vars: Vec<Vec<u32>>,
    pub live_out_global_vars: Vec<Vec<u32>>,
    pub params_and_locals: Vec<ValType>,
    pub resuming_block_var: u32,
    pub checkpoint_var_memory_mapping: HashMap<u32, u64>,
    pub checkpoint_global_memory_mapping: HashMap<u32, u64>,
    pub globals: Vec<(ValType, bool)>,
    pub num_of_import_functions: u32,
    pub checkpoint_memory_index: u32,
}

impl View for Plan {
    type V = PlanView;

    open spec fn view(&self) -> PlanView {
        PlanView {
            insts: self.insts@,
            blocks: self.blocks@,
            types: self.params_and_locals@,
            globals: self.globals@,
            num_imports: self.num_of_import_functions,
            memory_index: self.checkpoint_memory_index,
        }
    }
}

impl Plan {
    /// The lists of the plan are those of its function.
    pub open spec fn well_formed(self) -> bool {
        &&& tree::ordered(self.insts@)
        &&& tree::well_formed(tree::tree_of(self.insts@))
        &&& self.blocks@ == tree::tree_of(self.insts@).blocks
        &&& tree::tree_of(self.insts@).stack.len() == 0
        &&& views(self.insts_in_code_node@) == tree::tree_of(self.insts@).code_insts
        &&& self.regions@ == self@.regions()
        &&& self.regions@.len() > 0
        &&& self.checkpoint_list@ == regions::indices(self@.regions())
        &&& views(self.modified_vars_set@) == self@.written_vars()
        &&& views(self.set_global_vars@) == self@.written_globals()
        &&& views(self.live_in_set_vars@) == regions::read_before(
            self.insts@,
            self@.regions(),
            Access::LocalRead,
        )
        &&& views(self.get_global_vars@) == regions::read_before(
            self.insts@,
            self@.regions(),
            Access::GlobalRead,
        )
        &&& views(self.live_out_set_vars@) == self@.live_vars()
        &&& views(self.live_out_global_vars@) == self@.live_globals()
        &&& self.resuming_block_var == self@.resuming_var()
        &&& self.params_and_locals@.len() < u32::MAX
        &&& self.checkpoint_var_memory_mapping@ == by_number(self@.var_addresses())
        &&& self.checkpoint_global_memory_mapping@ == by_number(self@.global_addresses())
    }
}

/// What the module says of a function: the types of its parameters and locals,
/// and what surrounds it.
#[verifier::ext_equal]
pub struct FunctionContext {
    pub groups: Seq<(u32, Seq<u8>)>,
    pub params: Result<Seq<ValType>, MigrateError>,
    pub globals: Seq<(ValType, bool)>,
    pub num_imports: u32,
    pub memory_index: u32,
}

/// The plan for a function with these instructions, or the reason why there is
/// none.
pub open spec fn planned_for(insts: Seq<Inst>, context: FunctionContext) -> Result<
    PlanView,
    MigrateError,
> {
    match tree::block_tree(insts) {
        Err(error) => Err(error),
        Ok(tree) => if regions::top_level(tree.blocks).len() == 0 {
            Err(MigrateError::NoRegions)
        } else {
            match context.params {
                Err(error) => Err(error),
                Ok(params) => {
                    let types = params + layout::expanded(context.groups);
                    if types.len() >= u32::MAX || context.globals.len() > u32::MAX {
                        Err(MigrateError::TooLarge)
                    } else {
                        Ok(
                            PlanView {
                                insts,
                                blocks: tree.blocks,
                                types,
                                globals: context.globals,
                                num_imports: context.num_imports,
                                memory_index: context.memory_index,
                            },
                        )
                    }
                },
            }
        },
    }
}

/// The plan for a function with this body, or the reason why there is none.
pub open spec fn planned(body: Seq<u8>, context: FunctionContext) -> Result<PlanView, MigrateError> {
    match body::instructions(body) {
        Err(error) => Err(error),
        Ok(insts) => planned_for(insts, context),
    }
}

/// The address of each variable by its number.
pub open spec fn by_number(addresses: Seq<u64>) -> Map<u32, u64> {
    Map::new(|v: u32| v < addresses.len(), |v: u32| addresses[v as int])
}

/// Maps the number of each variable to its address.
fn map_by_number(addresses: &Vec<u64>) -> (mapping: HashMap<u32, u64>)
    requires
        addresses@.len() <= u32::MAX,
    ensures
        mapping@ == by_number(addresses@),
{
    broadcast use vstd::std_specs::hash::group_hash_axioms;

    let mut mapping: HashMap<u32, u64> = HashMap::new();
    let mut i: usize = 0;
    assert(mapping@ =~= by_number(addresses@.take(0)));
    while i < addresses.len()
        invariant
            i <= addresses@.len() <= u32::MAX,
            mapping@ == by_number(addresses@.take(i as int)),
        decreases addresses@.len() - i,
    {
        broadcast use vstd::std_specs::hash::group_hash_axioms;

        let ghost before = by_number(addresses@.take(i as int));
        mapping.insert(i as u32, addresses[i]);
        assert(before.insert(i as u32, addresses@[i as int]) =~= by_number(
            addresses@.take(i + 1),
        ));
        i = i + 1;
    }
    assert(addresses@.take(addresses@.len() as int) =~= addresses@);
    mapping
}

/// Takes the types of the globals.
fn types_of_globals(globals: &Vec<(ValType, bool)>) -> (types: Vec<ValType>)
    ensures
        types@ == Seq::new(globals@.len(), |i: int| globals@[i].0),
{
    let mut types: Vec<ValType> = Vec::new();
    let mut i: usize = 0;
    while i < globals.len()
        invariant
            i <= globals@.len(),
            types@ == Seq::new(i as nat, |j: int| globals@[j].0),
        decreases globals@.len() - i,
    {
        types.push(globals[i].0);
        i = i + 1;
        assert(types@ =~= Seq::new(i as nat, |j: int| globals@[j].0));
    }
    types
}

/// Where the parameters of functions are found.
pub struct Signatures<'a> {
    pub function_to_type: &'a Vec<u32>,
    pub params: &'a Vec<Vec<ValType>>,
    pub num_of_import_functions: u32,
}

impl<'a> Signatures<'a> {
    /// The parameters of the function number `func_index` among those that the
    /// module defines.
    pub open spec fn params_of(self, func_index: int) -> Result<Seq<ValType>, MigrateError> {
        layout::params_of(
            self.function_to_type@,
            views(self.params@),
            self.num_of_import_functions,
            func_index,
        )
    }
}

/// Prepares the plan for the function number `func_index` among those that the
/// module defines.
pub fn make_plan(
    code: &[u8],
    groups: &Vec<LocalGroup>,
    signatures: Signatures,
    func_index: usize,
    globals: &Vec<(ValType, bool)>,
    checkpoint_memory_index: u32,
) -> (plan: Result<Plan, MigrateError>)
    ensures
        match (plan, planned(
            code@,
            (FunctionContext {
                groups: views(groups@),
                params: signatures.params_of(func_index as int),
                globals: globals@,
                num_imports: signatures.num_of_import_functions,
                memory_index: checkpoint_memory_index,
            }),
        )) {
            (Ok(found), Ok(view)) => found@ == view && found.well_formed(),
            (Err(error), Err(expected)) => error == expected,
            _ => false,
        },
{
    match body::read_instructions(code) {
        Ok(insts) => plan_instructions(
            insts,
            groups,
            signatures,
            func_index,
            globals,
            checkpoint_memory_index,
        ),
        Err(error) => Err(error),
    }
}

/// Prepares the plan for a function with these instructions: divides it into
/// regions, computes the variables that are modified and live at each checkpoint,
/// and assigns an address to each variable.
pub fn plan_instructions(
    insts: Vec<Inst>,
    groups: &Vec<LocalGroup>,
    signatures: Signatures,
    func_index: usize,
    globals: &Vec<(ValType, bool)>,
    checkpoint_memory_index: u32,
) -> (plan: Result<Plan, MigrateError>)
    requires
        tree::ordered(insts@),
    ensures
        match (plan, planned_for(
            insts@,
            (FunctionContext {
                groups: views(groups@),
                params: signatures.params_of(func_index as int),
                globals: globals@,
                num_imports: signatures.num_of_import_functions,
                memory_index: checkpoint_memory_index,
            }),
        )) {
            (Ok(found), Ok(view)) => found@ == view && found.well_formed(),
            (Err(error), Err(expected)) => error == expected,
            _ => false,
        },
{
    let block_tree = match tree::build_block_tree(&insts) {
        Ok(found) => found,
        Err(error) => return Err(error),
    };
    let count: usize = insts.len();
    proof {
        assert(count == insts@.len());
        tree::lemma_tree_well_formed(insts@);
    }
    let nodes = regions::top_level_nodes(&block_tree.blocks);
    if nodes.len() == 0 {
        return Err(MigrateError::NoRegions);
    }
    let checkpoint_list = regions::generate_checkpoint_list(&nodes);
    let (modified_vars_set, set_global_vars) = regions::generate_modified_var_list(
        &insts,
        &nodes,
        globals,
    );
    proof {
        assert(views(modified_vars_set@).len() == nodes@.len());
        assert(views(set_global_vars@).len() == nodes@.len());
    }
    let live = regions::generate_live_var_list(
        &insts,
        &nodes,
        &modified_vars_set,
        &set_global_vars,
    );
    let params_and_locals = match layout::get_params_and_locals(
        signatures.function_to_type,
        signatures.params,
        signatures.num_of_import_functions,
        func_index,
        groups,
    ) {
        Ok(types) => types,
        Err(error) => return Err(error),
    };
    if params_and_locals.len() >= 0xffff_ffff || globals.len() > 0xffff_ffff {
        return Err(MigrateError::TooLarge);
    }
    let resuming_block_var: u32 = params_and_locals.len() as u32;
    let (var_addresses, globals_start) = layout::assign_addresses(
        &params_and_locals,
        layout::RESUMING_BLOCK_ADDR + layout::RESUMING_BLOCK_SIZE,
    );
    let global_types = types_of_globals(globals);
    let (global_addresses, _) = layout::assign_addresses(
        &global_types,
        globals_start,
    );
    let plan = Plan {
        insts,
        blocks: block_tree.blocks,
        insts_in_code_node: block_tree.insts_in_code_node,
        regions: nodes,
        checkpoint_list,
        modified_vars_set,
        set_global_vars,
        live_in_set_vars: live.live_in_set_vars,
        get_global_vars: live.get_global_vars,
        live_out_set_vars: live.live_out_set_vars,
        live_out_global_vars: live.live_out_global_vars,
        params_and_locals,
        resuming_block_var,
        checkpoint_var_memory_mapping: map_by_number(&var_addresses),
        checkpoint_global_memory_mapping: map_by_number(&global_addresses),
        globals: vstd::slice::slice_to_vec(globals.as_slice()),
        num_of_import_functions: signatures.num_of_import_functions,
        checkpoint_memory_index,
    };
    Ok(plan)
}

} // verus!
