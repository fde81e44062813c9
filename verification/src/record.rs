//! What is recorded of the components and modules of a binary.

use vstd::prelude::*;
use crate::body::LocalGroup;
use crate::component::Job;
use crate::inject;
use crate::inject::{Target, TargetView};
use crate::module;
use crate::module::{ModuleData, ModuleView};
use crate::regions;
use crate::tree::TreeNode;
use crate::types::{views, MigrateError};

verus! {

/// A core module and what was found out about one of its functions.
pub struct CoreModule {
    pub data: ModuleData,
    /// The locals of each function that the module defines.
    pub locals: Vec<Vec<LocalGroup>>,
    /// The tree of blocks of the function.
    pub blocks: Vec<TreeNode>,
    /// The numbers of the nodes that end with a checkpoint.
    pub checkpoint_list: Vec<usize>,
    /// The local variables that are modified before each checkpoint.
    pub modified_vars_set: Vec<Vec<u32>>,
}

impl CoreModule {
    /// The module is the one in `bytes`. If it is the target, it comes with what is
    /// found out about the function that the job tells, and otherwise with nothing.
    pub open spec fn describes(self, bytes: Seq<u8>, job: Job, is_target: bool) -> bool {
        &&& module::module_of(bytes) == Ok::<ModuleView, MigrateError>(self.data@)
        &&& if is_target {
            inject::prepared(self.data@, job.func_index as int, job.distributed) matches Ok(target)
                && {
                &&& inject::locals_view(self.locals@) == target.locals
                &&& self.blocks@ == target.plan.blocks
                &&& self.checkpoint_list@ == regions::indices(target.plan.regions())
                &&& views(self.modified_vars_set@) == target.plan.written_vars()
            }
        } else {
            &&& self.locals@.len() == 0
            &&& self.blocks@.len() == 0
            &&& self.checkpoint_list@.len() == 0
            &&& self.modified_vars_set@.len() == 0
        }
    }

    /// Records a module, with what was found out about the function if it is the
    /// target.
    pub(crate) fn new(
        data: ModuleData,
        target: Option<Target>,
        Ghost(bytes): Ghost<Seq<u8>>,
        Ghost(job): Ghost<Job>,
    ) -> (module: CoreModule)
        requires
            module::module_of(bytes) == Ok::<ModuleView, MigrateError>(data@),
            target matches Some(found) ==> found.well_formed(data@) && inject::prepared(
                data@,
                job.func_index as int,
                job.distributed,
            ) == Ok::<TargetView, MigrateError>(found@),
        ensures
            module.describes(bytes, job, target is Some),
    {
        match target {
            Some(found) => CoreModule {
                data,
                locals: found.locals,
                blocks: found.plan.blocks,
                checkpoint_list: found.plan.checkpoint_list,
                modified_vars_set: found.plan.modified_vars_set,
            },
            None => CoreModule {
                data,
                locals: Vec::new(),
                blocks: Vec::new(),
                checkpoint_list: Vec::new(),
                modified_vars_set: Vec::new(),
            },
        }
    }
}

/// A component of a binary. A binary that is a module counts as a component
/// which holds that module alone.
pub struct ComponentData {
    /// The component is in reality a module.
    pub is_it_a_module: bool,
    /// The index of the component, in the order of the binary.
    pub component_index: i32,
    /// The core modules defined within the component.
    pub core_modules: Vec<CoreModule>,
}

impl ComponentData {
    /// Creates a component without modules.
    pub fn new() -> (data: ComponentData)
        ensures
            !data.is_it_a_module,
            data.component_index == 0,
            data.core_modules@.len() == 0,
    {
        ComponentData { is_it_a_module: false, component_index: 0, core_modules: Vec::new() }
    }
}

/// Where a component lies and what it holds: the component that holds it, by its
/// place in the order of the binary, how deep it is nested, and the bytes of its
/// modules.
pub struct Outline {
    pub parent: Option<int>,
    pub depth: int,
    pub modules: Seq<Seq<u8>>,
}

/// These are the modules of a component that is nested `depth` deep.
pub open spec fn lists_modules(
    modules: Seq<CoreModule>,
    contents: Seq<Seq<u8>>,
    depth: int,
    job: Job,
) -> bool {
    &&& modules.len() == contents.len()
    &&& forall|j: int|
        0 <= j < modules.len() ==> (#[trigger] modules[j]).describes(
            contents[j],
            job,
            job.target_component == depth && job.target_module == j + 1,
        )
}

/// The component is the one of the outline.
pub open spec fn lists_component(component: ComponentData, outline: Outline, job: Job) -> bool {
    &&& !component.is_it_a_module
    &&& lists_modules(component.core_modules@, outline.modules, outline.depth, job)
}

/// The components are those of the outlines.
pub open spec fn lists_components(
    components: Seq<(ComponentData, i32)>,
    outlines: Seq<Outline>,
    job: Job,
) -> bool {
    &&& components.len() == outlines.len()
    &&& forall|i: int|
        0 <= i < components.len() ==> lists_component((#[trigger] components[i]).0, outlines[i], job)
}

/// The parents are those of the outlines, and come before their components.
pub open spec fn lists_parents(parents: Seq<Option<usize>>, outlines: Seq<Outline>) -> bool {
    &&& parents.len() == outlines.len()
    &&& forall|i: int|
        0 <= i < parents.len() ==> match (#[trigger] parents[i], outlines[i].parent) {
            (Some(parent), Some(expected)) => parent == expected && parent < i,
            (None, None) => true,
            _ => false,
        }
}

/// The components have the numbers of their places, and the parents of the outlines;
/// the parent of the outermost one is -1.
pub open spec fn numbered(components: Seq<(ComponentData, i32)>, outlines: Seq<Outline>) -> bool {
    &&& components.len() == outlines.len()
    &&& forall|i: int|
        0 <= i < components.len() ==> {
            &&& (#[trigger] components[i]).0.component_index == i
            &&& components[i].1 == match outlines[i].parent {
                Some(parent) => parent,
                None => -1,
            }
        }
}

/// Gives components their numbers and parents.
pub(crate) fn number_components(
    components: &mut Vec<(ComponentData, i32)>,
    parents: &Vec<Option<usize>>,
    Ghost(outlines): Ghost<Seq<Outline>>,
    Ghost(job): Ghost<Job>,
)
    requires
        old(components)@.len() <= i32::MAX,
        lists_components(old(components)@, outlines, job),
        lists_parents(parents@, outlines),
    ensures
        lists_components(final(components)@, outlines, job),
        numbered(final(components)@, outlines),
{
    let count: usize = components.len();
    let mut i: usize = 0;
    while i < count
        invariant
            i <= count <= i32::MAX,
            count == components@.len(),
            lists_components(components@, outlines, job),
            lists_parents(parents@, outlines),
            forall|k: int|
                0 <= k < i ==> {
                    &&& (#[trigger] components@[k]).0.component_index == k
                    &&& components@[k].1 == match outlines[k].parent {
                        Some(parent) => parent,
                        None => -1,
                    }
                },
        decreases count - i,
    {
        components[i].0.component_index = i as i32;
        components[i].1 = match parents[i] {
            Some(parent) => parent as i32,
            None => -1,
        };
        i = i + 1;
    }
}

} // verus!
