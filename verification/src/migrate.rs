//! Insertion of checkpoint and restore procedures.

use vstd::prelude::*;
use std::collections::HashSet;
use crate::component;
use crate::component::Job;
use crate::encoder;
use crate::inject;
use crate::layout;
use crate::reader;
use crate::record;
use crate::record::{ComponentData, CoreModule};
use crate::tree::TreeNode;
use crate::types::{views, MigrateError, ValType, MAX_BINARY_SIZE};

verus! {

/// What is reported of a function with checkpoints.
pub struct ComputationInfo {
    pub name: String,
    /// The numbers of the nodes of its tree.
    pub blocks: Vec<u32>,
    /// The sizes in bytes of its parameters and locals.
    pub params_and_locals: Vec<u32>,
    /// The numbers of the nodes that end with a checkpoint.
    pub checkpoints: Vec<u32>,
    /// The local variables that are modified before each checkpoint.
    pub live_out_vars: Vec<HashSet<u32>>,
}

/// Inserts checkpoint and restore procedures into a function.
pub struct WasmMigrate {
    /// The index of the component in which the module is defined.
    pub component_index: i32,
    /// The index of the core module.
    pub core_module_index: i32,
    /// The index of the function in the module.
    pub func_index: i32,
    /// The components in the binary, each with the index of its parent; it is -1 where
    /// there is none.
    pub components: Vec<(ComponentData, i32)>,
}

/// The number of bytes that a value of this type takes; none for references.
pub open spec fn byte_size(ty: ValType) -> u32 {
    match ty {
        ValType::I32 => 4,
        ValType::I64 => 8,
        ValType::F32 => 4,
        ValType::F64 => 8,
        ValType::V128 => 16,
        ValType::Ref => 0,
    }
}

/// The types of the parameters and locals of a function of the module.
pub open spec fn types_of(module: CoreModule, func_index: u32) -> Result<
    Seq<ValType>,
    MigrateError,
> {
    match layout::params_of(
        module.data.function_to_type@,
        views(module.data.type_params@),
        module.data.num_of_import_functions,
        func_index as int,
    ) {
        Err(error) => Err(error),
        Ok(params) => Ok(params + layout::expanded(views(module.locals@[func_index as int]@))),
    }
}

/// The binary with checkpoint and restore procedures inserted. In a module they
/// go into the function that the job tells; in a component into the module that
/// it tells.
pub open spec fn migrated(bytes: Seq<u8>, job: Job) -> Result<Seq<u8>, MigrateError> {
    if bytes.len() > MAX_BINARY_SIZE {
        Err(MigrateError::TooLarge)
    } else if reader::component_header().is_prefix_of(bytes) {
        match component::elaborated(bytes, 0, job, component::piece_count(bytes) as int) {
            Err(error) => Err(error),
            Ok(progress) => if component::outline(bytes, 0).len() > i32::MAX {
                Err(MigrateError::IndexOverflow)
            } else {
                Ok(progress.bytes)
            },
        }
    } else {
        component::elaborated_module(bytes, job, true)
    }
}

impl WasmMigrate {
    /// The job for which the indices are set. A negative function index stands
    /// for no function.
    pub open spec fn job(self, distributed: bool) -> Job {
        Job {
            func_index: if self.func_index < 0 {
                usize::MAX
            } else {
                self.func_index as usize
            },
            target_component: self.component_index,
            target_module: self.core_module_index,
            distributed,
        }
    }

    /// The module whose index is set exists.
    pub open spec fn has_module(self) -> bool {
        &&& 0 <= self.component_index < self.components@.len()
        &&& 0 <= self.core_module_index
            < self.components@[self.component_index as int].0.core_modules@.len()
    }

    /// The module whose index is set.
    pub open spec fn module(self) -> CoreModule {
        self.components@[self.component_index as int].0.core_modules@[self.core_module_index as int]
    }

    /// Starts with all indices zero and no components.
    pub fn new() -> (migrate: WasmMigrate)
        ensures
            migrate.component_index == 0,
            migrate.core_module_index == 0,
            migrate.func_index == 0,
            migrate.components@.len() == 0,
    {
        WasmMigrate {
            component_index: 0,
            core_module_index: 0,
            func_index: 0,
            components: Vec::new(),
        }
    }

    /// The components after the procedures have been inserted into a binary. One
    /// that is a module counts as a component with that module and what was found
    /// out about the function. Of another one, all components are recorded in the
    /// order of the binary, each with its own modules.
    pub open spec fn recorded(self, bytes: Seq<u8>, job: Job) -> bool {
        if reader::component_header().is_prefix_of(bytes) {
            &&& record::lists_components(self.components@, component::outline(bytes, 0), job)
            &&& record::numbered(self.components@, component::outline(bytes, 0))
        } else {
            &&& self.components@.len() == 1
            &&& self.components@[0].1 == -1
            &&& self.components@[0].0.is_it_a_module
            &&& self.components@[0].0.component_index == 0
            &&& self.components@[0].0.core_modules@.len() == 1
            &&& self.components@[0].0.core_modules@[0].describes(bytes, job, true)
        }
    }

    /// Inserts the procedures, or tells why that is not possible.
    fn insert(&mut self, wasm_bytes: &[u8], distributed: bool) -> (result: Result<
        Vec<u8>,
        MigrateError,
    >)
        ensures
            final(self).component_index == old(self).component_index,
            final(self).core_module_index == old(self).core_module_index,
            final(self).func_index == old(self).func_index,
            match (result, migrated(wasm_bytes@, old(self).job(distributed))) {
                (Ok(bytes), Ok(view)) => bytes@ == view && final(self).recorded(
                    wasm_bytes@,
                    old(self).job(distributed),
                ),
                (Err(error), Err(expected)) => error == expected && final(self).components@
                    == old(self).components@,
                _ => false,
            },
    {
        if wasm_bytes.len() > MAX_BINARY_SIZE {
            return Err(MigrateError::TooLarge);
        }
        let job = Job {
            func_index: if self.func_index < 0 {
                usize::MAX
            } else {
                self.func_index as usize
            },
            target_component: self.component_index,
            target_module: self.core_module_index,
            distributed,
        };
        if reader::is_component(wasm_bytes) {
            return match component::elaborate_component_bytecode(wasm_bytes, 0, job) {
                Ok(found) => {
                    let mut components = found.components;
                    if components.len() > 0x7fff_ffff {
                        return Err(MigrateError::IndexOverflow);
                    }
                    record::number_components(
                        &mut components,
                        &found.parents,
                        Ghost(component::outline(wasm_bytes@, 0)),
                        Ghost(job),
                    );
                    self.components = components;
                    Ok(encoder::finish_component(found.encoded))
                },
                Err(error) => Err(error),
            };
        }
        let elaborated = match component::elaborate_module(wasm_bytes, job, true) {
            Ok(elaborated) => elaborated,
            Err(error) => return Err(error),
        };
        let mut component = ComponentData::new();
        component.is_it_a_module = true;
        component.core_modules.push(
            CoreModule::new(
                elaborated.data,
                elaborated.target,
                Ghost(wasm_bytes@),
                Ghost(job),
            ),
        );
        self.components = Vec::new();
        self.components.push((component, -1));
        Ok(encoder::finish_module(elaborated.encoded))
    }

    /// Inserts the procedures into a binary for which that is possible.
    pub fn compute(&mut self, wasm_bytes: &[u8], distributed: bool) -> (result: Vec<u8>)
        requires
            migrated(wasm_bytes@, old(self).job(distributed)) is Ok,
        ensures
            migrated(wasm_bytes@, old(self).job(distributed)) == Ok::<Seq<u8>, MigrateError>(
                result@,
            ),
            final(self).component_index == old(self).component_index,
            final(self).core_module_index == old(self).core_module_index,
            final(self).func_index == old(self).func_index,
            final(self).recorded(wasm_bytes@, old(self).job(distributed)),
    {
        match self.insert(wasm_bytes, distributed) {
            Ok(bytes) => bytes,
            Err(_) => Vec::new(),
        }
    }

    /// Inserts the procedures, or tells why that is not possible.
    pub fn try_compute(&mut self, wasm_bytes: &[u8], distributed: bool) -> (result: Result<
        Vec<u8>,
        MigrateError,
    >)
        ensures
            final(self).component_index == old(self).component_index,
            final(self).core_module_index == old(self).core_module_index,
            final(self).func_index == old(self).func_index,
            match (result, migrated(wasm_bytes@, old(self).job(distributed))) {
                (Ok(bytes), Ok(view)) => bytes@ == view && final(self).recorded(
                    wasm_bytes@,
                    old(self).job(distributed),
                ),
                (Err(error), Err(expected)) => error == expected && final(self).components@
                    == old(self).components@,
                _ => false,
            },
    {
        match self.insert(wasm_bytes, distributed) {
            Ok(_) => Ok(self.compute(wasm_bytes, distributed)),
            Err(error) => Err(error),
        }
    }

    /// Reports what was found out about the function number `func_index` of the
    /// module whose index is set. Here the indices are places in the lists, and the
    /// first place is zero.
    pub fn print_module_info(&self, func_index: u32, name: String) -> (info: ComputationInfo)
        requires
            self.has_module(),
            func_index < self.module().locals@.len(),
            types_of(self.module(), func_index) matches Ok(types) && forall|i: int|
                0 <= i < types.len() ==> #[trigger] types[i] != ValType::Ref,
        ensures
            info.name == name,
            info.blocks@ == Seq::new(
                self.module().blocks@.len(),
                |i: int| self.module().blocks@[i].index as u32,
            ),
            types_of(self.module(), func_index) matches Ok(types) && info.params_and_locals@
                == Seq::new(types.len(), |i: int| byte_size(types[i])),
            info.checkpoints@ == Seq::new(
                self.module().checkpoint_list@.len(),
                |i: int| self.module().checkpoint_list@[i] as u32,
            ),
            info.live_out_vars@.len() == self.module().modified_vars_set@.len(),
            forall|i: int|
                0 <= i < info.live_out_vars@.len() ==> (#[trigger] info.live_out_vars@[i])@
                    == self.module().modified_vars_set@[i]@.to_set(),
    {
        let module = &self.components[self.component_index as usize].0.core_modules[
            self.core_module_index as usize];
        let mut params_and_locals: Vec<u32> = Vec::new();
        if let Ok(types) = layout::get_params_and_locals(
            &module.data.function_to_type,
            &module.data.type_params,
            module.data.num_of_import_functions,
            func_index as usize,
            &module.locals[func_index as usize],
        ) {
            params_and_locals = sizes_of(&types);
        }
        ComputationInfo {
            name,
            blocks: numbers_of(&module.blocks),
            params_and_locals,
            checkpoints: narrowed(&module.checkpoint_list),
            live_out_vars: sets_of(&module.modified_vars_set),
        }
    }
}

/// Takes the numbers of the nodes.
fn numbers_of(blocks: &Vec<TreeNode>) -> (numbers: Vec<u32>)
    ensures
        numbers@ == Seq::new(blocks@.len(), |i: int| blocks@[i].index as u32),
{
    let mut numbers: Vec<u32> = Vec::new();
    let mut i: usize = 0;
    while i < blocks.len()
        invariant
            i <= blocks@.len(),
            numbers@ == Seq::new(i as nat, |j: int| blocks@[j].index as u32),
        decreases blocks@.len() - i,
    {
        numbers.push(blocks[i].index as u32);
        i = i + 1;
        assert(numbers@ =~= Seq::new(i as nat, |j: int| blocks@[j].index as u32));
    }
    numbers
}

/// Gives the sizes of values of these types.
fn sizes_of(types: &Vec<ValType>) -> (sizes: Vec<u32>)
    ensures
        sizes@ == Seq::new(types@.len(), |i: int| byte_size(types@[i])),
{
    let mut sizes: Vec<u32> = Vec::new();
    let mut i: usize = 0;
    while i < types.len()
        invariant
            i <= types@.len(),
            sizes@ == Seq::new(i as nat, |j: int| byte_size(types@[j])),
        decreases types@.len() - i,
    {
        let size: u32 = match types[i] {
            ValType::I32 => 4,
            ValType::I64 => 8,
            ValType::F32 => 4,
            ValType::F64 => 8,
            ValType::V128 => 16,
            ValType::Ref => 0,
        };
        sizes.push(size);
        i = i + 1;
        assert(sizes@ =~= Seq::new(i as nat, |j: int| byte_size(types@[j])));
    }
    sizes
}

/// Gives the numbers with 32 bits each.
fn narrowed(numbers: &Vec<usize>) -> (narrow: Vec<u32>)
    ensures
        narrow@ == Seq::new(numbers@.len(), |i: int| numbers@[i] as u32),
{
    let mut narrow: Vec<u32> = Vec::new();
    let mut i: usize = 0;
    while i < numbers.len()
        invariant
            i <= numbers@.len(),
            narrow@ == Seq::new(i as nat, |j: int| numbers@[j] as u32),
        decreases numbers@.len() - i,
    {
        narrow.push(numbers[i] as u32);
        i = i + 1;
        assert(narrow@ =~= Seq::new(i as nat, |j: int| numbers@[j] as u32));
    }
    narrow
}

/// Collects the members of a list.
fn set_of(list: &Vec<u32>) -> (set: HashSet<u32>)
    ensures
        set@ == list@.to_set(),
{
    broadcast use vstd::std_specs::hash::group_hash_axioms;

    let mut set: HashSet<u32> = HashSet::new();
    let mut i: usize = 0;
    assert(list@.take(0).to_set() =~= Set::empty());
    while i < list.len()
        invariant
            i <= list@.len(),
            set@ == list@.take(i as int).to_set(),
        decreases list@.len() - i,
    {
        broadcast use vstd::std_specs::hash::group_hash_axioms;

        set.insert(list[i]);
        proof {
            let before = list@.take(i as int);
            let after = list@.take(i + 1);
            assert(after =~= before.push(list@[i as int]));
            assert forall|v: u32| after.to_set().contains(v) == before.to_set().insert(
                list@[i as int],
            ).contains(v) by {
                if after.contains(v) {
                    let k = choose|k: int| 0 <= k < after.len() && after[k] == v;
                    if k < i {
                        assert(before[k] == v);
                    }
                }
                if before.contains(v) {
                    let k = choose|k: int| 0 <= k < before.len() && before[k] == v;
                    assert(after[k] == v);
                }
                assert(after[i as int] == list@[i as int]);
            }
            assert(after.to_set() =~= before.to_set().insert(list@[i as int]));
        }
        i = i + 1;
    }
    assert(list@.take(list@.len() as int) =~= list@);
    set
}

/// Collects the members of each list.
fn sets_of(lists: &Vec<Vec<u32>>) -> (sets: Vec<HashSet<u32>>)
    ensures
        sets@.len() == lists@.len(),
        forall|i: int|
            0 <= i < sets@.len() ==> (#[trigger] sets@[i])@ == lists@[i]@.to_set(),
{
    let mut sets: Vec<HashSet<u32>> = Vec::new();
    let mut i: usize = 0;
    while i < lists.len()
        invariant
            i <= lists@.len(),
            sets@.len() == i,
            forall|j: int| 0 <= j < i ==> (#[trigger] sets@[j])@ == lists@[j]@.to_set(),
        decreases lists@.len() - i,
    {
        sets.push(set_of(&lists[i]));
        i = i + 1;
    }
    sets
}

/// After the procedures have been inserted into a module, the function with
/// checkpoints can be reported, unless a parameter or local of it is a reference:
/// the module is the only one, the function is one that it defines, and the types
/// of its parameters and locals are known.
pub proof fn law_module_reported(migrate: WasmMigrate, bytes: Seq<u8>, job: Job)
    requires
        migrate.recorded(bytes, job),
        !reader::component_header().is_prefix_of(bytes),
        migrate.component_index == 0,
        migrate.core_module_index == 0,
        job.func_index <= u32::MAX,
    ensures
        migrate.has_module(),
        job.func_index < migrate.module().locals@.len(),
        types_of(migrate.module(), job.func_index as u32) is Ok,
        migrate.module().describes(bytes, job, true),
{
    reveal(inject::prepared);
    let module = migrate.module();
    inject::lemma_declared_locals_len(module.data@.function_bodies);
    assert(inject::locals_view(module.locals@).len() == module.locals@.len());
}

/// A component becomes a component, and anything else a module.
pub proof fn law_kind_kept(bytes: Seq<u8>, job: Job)
    ensures
        migrated(bytes, job) matches Ok(result) ==> {
            &&& reader::component_header().is_prefix_of(result)
                == reader::component_header().is_prefix_of(bytes)
            &&& !reader::component_header().is_prefix_of(bytes)
                ==> encoder::module_header().is_prefix_of(result)
        },
{
    component::law_component_header(bytes, 0, job, component::piece_count(bytes) as int);
    component::law_module_header(bytes, job, true);
    if let Ok(result) = migrated(bytes, job) {
        lemma_headers_differ(result);
    }
}

/// No binary starts with both headers.
proof fn lemma_headers_differ(bytes: Seq<u8>)
    ensures
        !(encoder::module_header().is_prefix_of(bytes) && reader::component_header().is_prefix_of(
            bytes,
        )),
{
    if encoder::module_header().is_prefix_of(bytes) && reader::component_header().is_prefix_of(
        bytes,
    ) {
        assert(encoder::module_header()[4] == bytes.subrange(0, 8)[4]);
        assert(reader::component_header()[4] == bytes.subrange(0, 8)[4]);
    }
}

} // verus!
