//! The encoding of a module, with or without checkpoint and restore procedures.

use vstd::prelude::*;
use crate::body;
use crate::body::LocalGroup;
use crate::codegen;
use crate::encoder;
use crate::layout;
use crate::leb;
use crate::module::{section_view, ModuleData, ModuleView};
use crate::plan;
use crate::plan::{FunctionContext, Plan, PlanView, Signatures};
use crate::section::{Section, SectionView};
use crate::types::{
    views, ExportView, ExternKind, MigrateError, MAX_BINARY_SIZE, MAX_BODY_SIZE,
};

verus! {

/// The runs of locals that each of the function bodies declares.
pub open spec fn declared_locals(bodies: Seq<Seq<u8>>) -> Result<
    Seq<Seq<(u32, Seq<u8>)>>,
    MigrateError,
>
    decreases bodies.len(),
{
    if bodies.len() == 0 {
        Ok(Seq::empty())
    } else {
        match declared_locals(bodies.drop_last()) {
            Err(error) => Err(error),
            Ok(before) => match body::declared_groups(bodies.last()) {
                Err(error) => Err(error),
                Ok((groups, _)) => Ok(before.push(groups)),
            },
        }
    }
}

/// What is inserted into a module, and where.
#[verifier::ext_equal]
pub struct TargetView {
    /// The locals of all functions that the module defines.
    pub locals: Seq<Seq<(u32, Seq<u8>)>>,
    /// The number of the function with checkpoints among them.
    pub func_index: int,
    pub plan: PlanView,
    /// Checkpoints are distributed.
    pub distributed: bool,
}

/// What is inserted into the function number `func_index` of a module, or the
/// reason why nothing can be inserted.
#[verifier::opaque]
pub open spec fn prepared(module: ModuleView, func_index: int, distributed: bool) -> Result<
    TargetView,
    MigrateError,
> {
    match declared_locals(module.function_bodies) {
        Err(error) => Err(error),
        Ok(locals) => if func_index >= module.function_bodies.len() {
            Err(MigrateError::MissingFunction)
        } else {
            match plan::planned(
                module.function_bodies[func_index],
                FunctionContext {
                    groups: locals[func_index],
                    params: layout::params_of(
                        module.function_to_type,
                        module.type_params,
                        module.num_of_import_functions,
                        func_index,
                    ),
                    globals: module.imported_globals + module.globals,
                    num_imports: module.num_of_import_functions,
                    memory_index: module.checkpoint_memory_index,
                },
            ) {
                Err(error) => Err(error),
                Ok(plan) => Ok(TargetView { locals, func_index, plan, distributed }),
            }
        },
    }
}

/// What is inserted into a module, and where.
pub struct Target {
    pub locals: Vec<Vec<LocalGroup>>,
    pub func_index: usize,
    pub plan: Plan,
    pub distributed: bool,
}

/// The views of lists of runs of locals.
pub open spec fn locals_view(locals: Seq<Vec<LocalGroup>>) -> Seq<Seq<(u32, Seq<u8>)>> {
    Seq::new(locals.len(), |i: int| views(locals[i]@))
}

impl View for Target {
    type V = TargetView;

    open spec fn view(&self) -> TargetView {
        TargetView {
            locals: locals_view(self.locals@),
            func_index: self.func_index as int,
            plan: self.plan@,
            distributed: self.distributed,
        }
    }
}

impl Target {
    /// The locals are those of all functions of the module, one of which is
    /// planned.
    pub open spec fn well_formed(self, module: ModuleView) -> bool {
        &&& self.plan.well_formed()
        &&& self.locals@.len() == module.function_bodies.len()
        &&& self.func_index < module.function_bodies.len()
        &&& self.plan@.num_imports == module.num_of_import_functions
    }
}

/// There is a list of locals for each body.
pub(crate) proof fn lemma_declared_locals_len(bodies: Seq<Seq<u8>>)
    ensures
        declared_locals(bodies) matches Ok(locals) ==> locals.len() == bodies.len(),
    decreases bodies.len(),
{
    if bodies.len() > 0 {
        lemma_declared_locals_len(bodies.drop_last());
    }
}

/// The first body whose locals cannot be read decides on the error.
proof fn lemma_declared_locals_error(bodies: Seq<Seq<u8>>, count: int)
    requires
        0 <= count <= bodies.len(),
        declared_locals(bodies.take(count)) is Err,
    ensures
        declared_locals(bodies) == declared_locals(bodies.take(count)),
    decreases bodies.len() - count,
{
    if count < bodies.len() {
        assert(bodies.take(count + 1).drop_last() =~= bodies.take(count));
        lemma_declared_locals_error(bodies, count + 1);
    } else {
        assert(bodies.take(count) =~= bodies);
    }
}

/// Extracts the locals of each function that the module defines.
pub fn extract_locals(module: &ModuleData) -> (locals: Result<Vec<Vec<LocalGroup>>, MigrateError>)
    ensures
        match (locals, declared_locals(module@.function_bodies)) {
            (Ok(found), Ok(view)) => locals_view(found@) == view && found@.len()
                == module@.function_bodies.len(),
            (Err(error), Err(expected)) => error == expected,
            _ => false,
        },
{
    let ghost bodies = module@.function_bodies;
    let mut locals: Vec<Vec<LocalGroup>> = Vec::new();
    let mut i: usize = 0;
    assert(bodies.take(0) =~= Seq::empty());
    assert(locals_view(locals@) =~= Seq::empty());
    while i < module.function_bodies.len()
        invariant
            i <= module.function_bodies@.len(),
            locals@.len() == i,
            bodies == module@.function_bodies,
            declared_locals(bodies.take(i as int)) == Ok::<
                Seq<Seq<(u32, Seq<u8>)>>,
                MigrateError,
            >(locals_view(locals@)),
        decreases module.function_bodies@.len() - i,
    {
        let ghost before = locals_view(locals@);
        proof {
            assert(bodies.take(i + 1).drop_last() =~= bodies.take(i as int));
            assert(bodies.take(i + 1).last() == module.function_bodies@[i as int]@);
        }
        match body::read_locals(module.function_bodies[i].as_slice()) {
            Ok((groups, _)) => {
                let ghost view = views(groups@);
                locals.push(groups);
                assert(locals_view(locals@) =~= before.push(view));
            },
            Err(error) => {
                proof {
                    lemma_declared_locals_error(bodies, i + 1);
                }
                return Err(error);
            },
        }
        i = i + 1;
    }
    assert(bodies.take(bodies.len() as int) =~= bodies);
    Ok(locals)
}

/// Prepares what is inserted into the function number `func_index` of a
/// module.
pub fn pre_module_encoding(module: &ModuleData, func_index: usize, distributed: bool) -> (target:
    Result<Target, MigrateError>)
    ensures
        match (target, prepared(module@, func_index as int, distributed)) {
            (Ok(found), Ok(view)) => found@ == view && found.well_formed(module@),
            (Err(error), Err(expected)) => error == expected,
            _ => false,
        },
{
    proof {
        reveal(prepared);
    }
    let locals = match extract_locals(module) {
        Ok(locals) => locals,
        Err(error) => return Err(error),
    };
    if func_index >= module.function_bodies.len() {
        return Err(MigrateError::MissingFunction);
    }
    let signatures = Signatures {
        function_to_type: &module.function_to_type,
        params: &module.type_params,
        num_of_import_functions: module.num_of_import_functions,
    };
    assert(module@.function_bodies[func_index as int]
        == module.function_bodies@[func_index as int]@);
    assert(locals_view(locals@)[func_index as int] == views(locals@[func_index as int]@));
    let globals = module.all_globals();
    let plan = match plan::make_plan(
        module.function_bodies[func_index].as_slice(),
        &locals[func_index],
        signatures,
        func_index,
        &globals,
        module.checkpoint_memory_index,
    ) {
        Ok(plan) => plan,
        Err(error) => return Err(error),
    };
    Ok(Target { locals, func_index, plan, distributed })
}

/// The section with more entries, if they can be counted.
pub open spec fn extended(
    section: Result<SectionView, MigrateError>,
    entries: Seq<u8>,
) -> Result<SectionView, MigrateError> {
    match section {
        Err(error) => Err(error),
        Ok(found) => if found.count + 1 > u32::MAX {
            Err(MigrateError::TooLarge)
        } else {
            Ok(found.concat(SectionView { count: 1, entries }))
        },
    }
}

/// The type section of the encoded module. The types of the two functions that
/// the host provides come behind all others.
pub open spec fn types_out(module: ModuleView, inject: bool) -> Result<SectionView, MigrateError> {
    match module.type_section {
        None => Err(MigrateError::MissingTypes),
        Some(section) => if inject {
            extended(
                extended(Ok(section), encoder::function_type_entry(1)),
                encoder::function_type_entry(0),
            )
        } else {
            Ok(section)
        },
    }
}

/// The import section with the two functions that the host provides, whose
/// types are number `ty` and the one behind it.
pub open spec fn host_imports(section: SectionView, ty: nat) -> Result<SectionView, MigrateError> {
    if ty + 1 > u32::MAX {
        Err(MigrateError::IndexOverflow)
    } else {
        extended(
            extended(
                Ok(section),
                encoder::function_import_entry("host"@, "should_migrate"@, ty as u32),
            ),
            encoder::function_import_entry("host"@, "restore_memory"@, (ty + 1) as u32),
        )
    }
}

/// The import section of the encoded module.
pub open spec fn imports_out(module: ModuleView, inject: bool) -> Result<
    Option<SectionView>,
    MigrateError,
> {
    if inject {
        let section = match module.import_section {
            Some(found) => found,
            None => SectionView::empty(),
        };
        let types = match module.type_section {
            Some(found) => found.count,
            None => 0,
        };
        match host_imports(section, types) {
            Err(error) => Err(error),
            Ok(found) => Ok(Some(found)),
        }
    } else {
        Ok(module.import_section)
    }
}

/// The function section of the encoded module.
pub open spec fn functions_out(module: ModuleView, inject: bool) -> Option<SectionView> {
    match module.function_section {
        Some(section) => Some(section),
        None => if inject {
            Some(SectionView { count: 1, entries: leb::uleb128(0) })
        } else {
            None
        },
    }
}

/// The memory section of the encoded module: behind the memories of the module
/// come one for the checkpoints and a spare one. A module without checkpoints
/// keeps its own.
pub open spec fn memories_out(module: ModuleView, inject: bool) -> Result<
    Option<SectionView>,
    MigrateError,
> {
    if inject {
        let section = match module.memory_section {
            Some(found) => found,
            None => SectionView::empty(),
        };
        match extended(
            extended(Ok(section), encoder::memory_entry(1)),
            encoder::memory_entry(2),
        ) {
            Err(error) => Err(error),
            Ok(found) => Ok(Some(found)),
        }
    } else {
        Ok(module.memory_section)
    }
}

/// The entry for an export, with the index of a function shifted.
pub open spec fn shifted_export(export: ExportView, num_imports: u32) -> Result<
    Seq<u8>,
    MigrateError,
> {
    if vstd::utf8::encode_utf8(export.name).len() > MAX_BINARY_SIZE {
        Err(MigrateError::TooLarge)
    } else if export.kind == ExternKind::Func {
        match codegen::shifted(export.index, num_imports) {
            Err(error) => Err(error),
            Ok(index) => Ok(encoder::export_entry(export.name, export.kind, index)),
        }
    } else {
        Ok(encoder::export_entry(export.name, export.kind, export.index))
    }
}

/// The section with these exports, the indices of functions shifted.
pub open spec fn shifted_exports(exports: Seq<ExportView>, num_imports: u32) -> Result<
    SectionView,
    MigrateError,
>
    decreases exports.len(),
{
    if exports.len() == 0 {
        Ok(SectionView::empty())
    } else {
        match shifted_exports(exports.drop_last(), num_imports) {
            Err(error) => Err(error),
            Ok(before) => match shifted_export(exports.last(), num_imports) {
                Err(error) => Err(error),
                Ok(entry) => extended(Ok(before), entry),
            },
        }
    }
}

/// The export section of the encoded module. The checkpoint memory comes behind
/// all other exports.
pub open spec fn exports_out(module: ModuleView, inject: bool) -> Result<
    Option<SectionView>,
    MigrateError,
> {
    if inject {
        match extended(
            shifted_exports(module.exports, module.num_of_import_functions),
            encoder::export_entry(
                "checkpoint_memory"@,
                ExternKind::Memory,
                module.checkpoint_memory_index,
            ),
        ) {
            Err(error) => Err(error),
            Ok(section) => Ok(Some(section)),
        }
    } else {
        Ok(module.export_section)
    }
}

/// The element section of the encoded module.
pub open spec fn elements_out(module: ModuleView, inject: bool) -> Option<SectionView> {
    if inject {
        module.element_section_with_cr
    } else {
        module.element_section
    }
}

/// The body of a function with these locals and this code.
pub open spec fn encoded_body(
    groups: Seq<(u32, Seq<u8>)>,
    code: Result<Seq<u8>, MigrateError>,
) -> Result<Seq<u8>, MigrateError> {
    match code {
        Err(error) => Err(error),
        Ok(bytes) => {
            let encoded = codegen::encoded_locals(groups) + bytes;
            if groups.len() > u32::MAX || encoded.len() > MAX_BODY_SIZE {
                Err(MigrateError::TooLarge)
            } else {
                Ok(encoded)
            }
        },
    }
}

/// The body of a function without checkpoints, with the functions that it calls
/// at their new indices.
pub open spec fn updated_body(
    old_body: Seq<u8>,
    groups: Seq<(u32, Seq<u8>)>,
    num_imports: u32,
) -> Result<Seq<u8>, MigrateError> {
    let code = match body::instructions(old_body) {
        Err(error) => Err(error),
        Ok(insts) => match codegen::copied_between(insts, 0, usize::MAX, num_imports) {
            Err(error) => Err(error),
            Ok(code) => codegen::encoded_code(old_body, code),
        },
    };
    encoded_body(groups, code)
}

/// The body of the function with checkpoints. It has one more local variable,
/// an integer of 32 bits.
pub open spec fn target_body(old_body: Seq<u8>, target: TargetView) -> Result<
    Seq<u8>,
    MigrateError,
> {
    let code = match codegen::function_code(target.plan, target.distributed) {
        Err(error) => Err(error),
        Ok(code) => codegen::encoded_code(old_body, code),
    };
    encoded_body(target.locals[target.func_index].push((1u32, seq![0x7fu8])), code)
}

/// The new body of function number `i`.
pub open spec fn new_body(module: ModuleView, target: TargetView, i: int) -> Result<
    Seq<u8>,
    MigrateError,
> {
    if i == target.func_index {
        target_body(module.function_bodies[i], target)
    } else {
        updated_body(
            module.function_bodies[i],
            target.locals[i],
            module.num_of_import_functions,
        )
    }
}

/// The section with the new bodies of the first `count` functions.
pub open spec fn new_bodies(module: ModuleView, target: TargetView, count: int) -> Result<
    SectionView,
    MigrateError,
>
    decreases count,
{
    if count <= 0 {
        Ok(SectionView::empty())
    } else {
        match new_bodies(module, target, count - 1) {
            Err(error) => Err(error),
            Ok(before) => match new_body(module, target, count - 1) {
                Err(error) => Err(error),
                Ok(bytes) => extended(Ok(before), encoder::code_entry(bytes)),
            },
        }
    }
}

/// The code section of the encoded module.
pub open spec fn code_out(module: ModuleView, target: Option<TargetView>) -> Result<
    Option<SectionView>,
    MigrateError,
> {
    match target {
        None => Ok(module.code_section),
        Some(found) => match new_bodies(module, found, module.function_bodies.len() as int) {
            Err(error) => Err(error),
            Ok(section) => Ok(Some(section)),
        },
    }
}

/// The bytes of a module followed by a section, if there is one.
pub open spec fn followed(
    bytes: Result<Seq<u8>, MigrateError>,
    id: u8,
    section: Result<Option<SectionView>, MigrateError>,
) -> Result<Seq<u8>, MigrateError> {
    match bytes {
        Err(error) => Err(error),
        Ok(before) => match section {
            Err(error) => Err(error),
            Ok(None) => Ok(before),
            Ok(Some(found)) => if found.contents().len() > u32::MAX {
                Err(MigrateError::TooLarge)
            } else {
                Ok(before + encoder::section_bytes(id, found.contents()))
            },
        },
    }
}

/// The start function of the encoded module.
pub open spec fn start_out(module: ModuleView, inject: bool) -> Result<Option<u32>, MigrateError> {
    match module.start_func {
        None => Ok(None),
        Some(func) => if inject {
            match codegen::shifted(func, module.num_of_import_functions) {
                Err(error) => Err(error),
                Ok(index) => Ok(Some(index)),
            }
        } else {
            Ok(Some(func))
        },
    }
}

/// The bytes of a module followed by a section that holds a number, if there is
/// one.
pub open spec fn followed_by_number(
    bytes: Result<Seq<u8>, MigrateError>,
    id: u8,
    number: Result<Option<u32>, MigrateError>,
) -> Result<Seq<u8>, MigrateError> {
    match bytes {
        Err(error) => Err(error),
        Ok(before) => match number {
            Err(error) => Err(error),
            Ok(None) => Ok(before),
            Ok(Some(found)) => Ok(before + encoder::section_bytes(id, leb::uleb128(found as nat))),
        },
    }
}

/// The bytes of a module followed by custom sections with these contents.
pub open spec fn followed_by_customs(bytes: Seq<u8>, customs: Seq<Seq<u8>>) -> Result<
    Seq<u8>,
    MigrateError,
>
    decreases customs.len(),
{
    if customs.len() == 0 {
        Ok(bytes)
    } else {
        match followed_by_customs(bytes, customs.drop_last()) {
            Err(error) => Err(error),
            Ok(before) => if customs.last().len() > u32::MAX {
                Err(MigrateError::TooLarge)
            } else {
                Ok(before + encoder::section_bytes(0, customs.last()))
            },
        }
    }
}

/// The custom sections of the encoded module. What they say of functions would be
/// wrong of a module with checkpoints, which has none.
pub open spec fn customs_out(module: ModuleView, inject: bool) -> Seq<Seq<u8>> {
    if inject {
        Seq::empty()
    } else {
        module.custom_section
    }
}

/// The bytes of the encoded module up to the tag section.
pub open spec fn encoded_front(module: ModuleView, inject: bool) -> Result<Seq<u8>, MigrateError> {
    let header: Result<Seq<u8>, MigrateError> = Ok(encoder::module_header());
    let types = match types_out(module, inject) {
        Err(error) => Err(error),
        Ok(section) => Ok(Some(section)),
    };
    let with_types = followed(header, 1, types);
    let with_imports = followed(with_types, 2, imports_out(module, inject));
    let with_functions = followed(with_imports, 3, Ok(functions_out(module, inject)));
    let with_tables = followed(with_functions, 4, Ok(module.table_section));
    let with_memories = followed(with_tables, 5, memories_out(module, inject));
    followed(with_memories, 13, Ok(module.tag_section))
}

/// The bytes of the encoded module. Without a target it has no checkpoints.
#[verifier::opaque]
pub open spec fn encoded_module(module: ModuleView, target: Option<TargetView>) -> Result<
    Seq<u8>,
    MigrateError,
> {
    let inject = target is Some;
    let front = encoded_front(module, inject);
    let with_globals = followed(front, 6, Ok(Some(module.global_section)));
    let with_exports = followed(with_globals, 7, exports_out(module, inject));
    let with_start = followed_by_number(with_exports, 8, start_out(module, inject));
    let with_elements = followed(with_start, 9, Ok(elements_out(module, inject)));
    let with_count = followed_by_number(with_elements, 12, Ok(module.data_count_section));
    let with_code = followed(with_count, 10, code_out(module, target));
    let with_data = followed(with_code, 11, Ok(module.data_section));
    match with_data {
        Err(error) => Err(error),
        Ok(bytes) => followed_by_customs(bytes, customs_out(module, inject)),
    }
}

/// The outcome is that of the specification.
pub open spec fn section_agrees(
    section: Result<Option<Section>, MigrateError>,
    expected: Result<Option<SectionView>, MigrateError>,
) -> bool {
    match (section, expected) {
        (Ok(found), Ok(view)) => section_view(found) == view,
        (Err(error), Err(expected_error)) => error == expected_error,
        _ => false,
    }
}

/// Copies a section that may be missing.
fn copy_section(section: &Option<Section>) -> (copy: Option<Section>)
    ensures
        section_view(copy) == section_view(*section),
{
    match section {
        Some(found) => Some(found.copy()),
        None => None,
    }
}

/// Copies a section that may be missing, in which case it is empty.
fn copy_or_empty(section: &Option<Section>) -> (copy: Section)
    ensures
        copy@ == (match section_view(*section) {
            Some(found) => found,
            None => SectionView::empty(),
        }),
{
    match section {
        Some(found) => found.copy(),
        None => Section::new(),
    }
}

/// Adds an entry that was encoded to a section.
fn extend_section(
    section: &mut Section,
    encoded: (u32, Vec<u8>),
    Ghost(entries): Ghost<Seq<u8>>,
) -> (outcome: Result<(), MigrateError>)
    requires
        encoder::encodes(encoded, (SectionView { count: 1, entries })),
    ensures
        match (outcome, extended(Ok(old(section)@), entries)) {
            (Ok(_), Ok(view)) => final(section)@ == view,
            (Err(error), Err(expected)) => error == expected,
            _ => false,
        },
{
    let (count, bytes) = encoded;
    let more = Section::from_encoding(count, bytes, Ghost(SectionView { count: 1, entries }));
    if section.append(&more) {
        Ok(())
    } else {
        Err(MigrateError::TooLarge)
    }
}

/// Produces the type section.
fn encode_types(module: &ModuleData, inject: bool) -> (section: Result<Option<Section>, MigrateError>)
    ensures
        section_agrees(
            section,
            match types_out(module@, inject) {
                Err(error) => Err(error),
                Ok(found) => Ok(Some(found)),
            },
        ),
{
    let mut types = match &module.type_section {
        Some(found) => found.copy(),
        None => return Err(MigrateError::MissingTypes),
    };
    if inject {
        if let Err(error) = extend_section(
            &mut types,
            encoder::encode_function_type(1),
            Ghost(encoder::function_type_entry(1)),
        ) {
            return Err(error);
        }
        if let Err(error) = extend_section(
            &mut types,
            encoder::encode_function_type(0),
            Ghost(encoder::function_type_entry(0)),
        ) {
            return Err(error);
        }
    }
    Ok(Some(types))
}

/// The names of the functions that the host provides are short.
proof fn lemma_host_names()
    ensures
        vstd::utf8::encode_utf8("host"@).len() <= MAX_BINARY_SIZE / 4,
        vstd::utf8::encode_utf8("should_migrate"@).len() <= MAX_BINARY_SIZE / 4,
        vstd::utf8::encode_utf8("restore_memory"@).len() <= MAX_BINARY_SIZE / 4,
        vstd::utf8::encode_utf8("checkpoint_memory"@).len() <= MAX_BINARY_SIZE / 4,
{
    reveal_strlit("host");
    reveal_strlit("should_migrate");
    reveal_strlit("restore_memory");
    reveal_strlit("checkpoint_memory");
    lemma_utf8_len("host"@);
    lemma_utf8_len("should_migrate"@);
    lemma_utf8_len("restore_memory"@);
    lemma_utf8_len("checkpoint_memory"@);
}

/// A character takes at most four bytes.
proof fn lemma_utf8_len(s: Seq<char>)
    ensures
        vstd::utf8::encode_utf8(s).len() <= 4 * s.len(),
    decreases s.len(),
{
    if s.len() > 0 {
        lemma_utf8_len(s.drop_first());
    }
}

/// Produces the import section.
fn encode_imports(module: &ModuleData, inject: bool) -> (section: Result<
    Option<Section>,
    MigrateError,
>)
    ensures
        section_agrees(section, imports_out(module@, inject)),
{
    if !inject {
        return Ok(copy_section(&module.import_section));
    }
    let index_should_migrate: u32 = match &module.type_section {
        Some(types) => types.count,
        None => 0,
    };
    let mut imports = copy_or_empty(&module.import_section);
    if index_should_migrate == u32::MAX {
        return Err(MigrateError::IndexOverflow);
    }
    let index_restore_memory: u32 = index_should_migrate + 1;
    proof {
        lemma_host_names();
    }
    if let Err(error) = extend_section(
        &mut imports,
        encoder::encode_function_import("host", "should_migrate", index_should_migrate),
        Ghost(
            encoder::function_import_entry("host"@, "should_migrate"@, index_should_migrate),
        ),
    ) {
        return Err(error);
    }
    if let Err(error) = extend_section(
        &mut imports,
        encoder::encode_function_import("host", "restore_memory", index_restore_memory),
        Ghost(
            encoder::function_import_entry("host"@, "restore_memory"@, index_restore_memory),
        ),
    ) {
        return Err(error);
    }
    Ok(Some(imports))
}

/// Produces the function section.
fn encode_functions(module: &ModuleData, inject: bool) -> (section: Option<Section>)
    ensures
        section_view(section) == functions_out(module@, inject),
{
    match &module.function_section {
        Some(found) => Some(found.copy()),
        None => if inject {
            Some(Section { count: 1, entries: leb::encode_u32(0) })
        } else {
            None
        },
    }
}

/// Produces the memory section.
fn encode_memories(module: &ModuleData, inject: bool) -> (section: Result<
    Option<Section>,
    MigrateError,
>)
    ensures
        section_agrees(section, memories_out(module@, inject)),
{
    if !inject {
        return Ok(copy_section(&module.memory_section));
    }
    let mut memories = copy_or_empty(&module.memory_section);
    if let Err(error) = extend_section(
        &mut memories,
        encoder::encode_memory(1),
        Ghost(encoder::memory_entry(1)),
    ) {
        return Err(error);
    }
    if let Err(error) = extend_section(
        &mut memories,
        encoder::encode_memory(2),
        Ghost(encoder::memory_entry(2)),
    ) {
        return Err(error);
    }
    Ok(Some(memories))
}

/// The first export that cannot be encoded decides on the error.
proof fn lemma_shifted_exports_error(exports: Seq<ExportView>, num_imports: u32, count: int)
    requires
        0 <= count <= exports.len(),
        shifted_exports(exports.take(count), num_imports) is Err,
    ensures
        shifted_exports(exports, num_imports) == shifted_exports(exports.take(count), num_imports),
    decreases exports.len() - count,
{
    if count < exports.len() {
        assert(exports.take(count + 1).drop_last() =~= exports.take(count));
        lemma_shifted_exports_error(exports, num_imports, count + 1);
    } else {
        assert(exports.take(count) =~= exports);
    }
}

/// Produces the section with all exports, the indices of functions shifted.
fn shift_exports(module: &ModuleData) -> (section: Result<Section, MigrateError>)
    ensures
        match (section, shifted_exports(module@.exports, module.num_of_import_functions)) {
            (Ok(found), Ok(view)) => found@ == view,
            (Err(error), Err(expected)) => error == expected,
            _ => false,
        },
{
    let num_imports: u32 = module.num_of_import_functions;
    let mut section = Section::new();
    let ghost exports = module@.exports;
    let mut i: usize = 0;
    assert(exports.take(0) =~= Seq::empty());
    while i < module.exports.len()
        invariant
            i <= module.exports@.len(),
            exports == module@.exports,
            num_imports == module.num_of_import_functions,
            shifted_exports(exports.take(i as int), num_imports) == Ok::<SectionView, MigrateError>(
                section@,
            ),
        decreases module.exports@.len() - i,
    {
        let export = &module.exports[i];
        let name = export.name.as_str();
        proof {
            assert(exports.take(i + 1).drop_last() =~= exports.take(i as int));
            assert(exports.take(i + 1).last() == export@);
        }
        if name.as_bytes().len() > MAX_BINARY_SIZE {
            proof {
                lemma_shifted_exports_error(exports, num_imports, i + 1);
            }
            return Err(MigrateError::TooLarge);
        }
        let mut index: u32 = export.index;
        if export.kind == ExternKind::Func {
            index = match codegen::shift_index(index, num_imports) {
                Ok(found) => found,
                Err(error) => {
                    proof {
                        lemma_shifted_exports_error(exports, num_imports, i + 1);
                    }
                    return Err(error);
                },
            };
        }
        if let Err(error) = extend_section(
            &mut section,
            encoder::encode_export(name, export.kind, index),
            Ghost(encoder::export_entry(name@, export.kind, index)),
        ) {
            proof {
                lemma_shifted_exports_error(exports, num_imports, i + 1);
            }
            return Err(error);
        }
        i = i + 1;
    }
    assert(exports.take(exports.len() as int) =~= exports);
    Ok(section)
}

/// Produces the export section.
fn encode_exports(module: &ModuleData, inject: bool) -> (section: Result<
    Option<Section>,
    MigrateError,
>)
    ensures
        section_agrees(section, exports_out(module@, inject)),
{
    if !inject {
        return Ok(copy_section(&module.export_section));
    }
    let mut exports = match shift_exports(module) {
        Ok(found) => found,
        Err(error) => return Err(error),
    };
    proof {
        lemma_host_names();
    }
    if let Err(error) = extend_section(
        &mut exports,
        encoder::encode_export(
            "checkpoint_memory",
            ExternKind::Memory,
            module.checkpoint_memory_index,
        ),
        Ghost(
            encoder::export_entry(
                "checkpoint_memory"@,
                ExternKind::Memory,
                module.checkpoint_memory_index,
            ),
        ),
    ) {
        return Err(error);
    }
    Ok(Some(exports))
}

/// The outcome is that of the specification.
pub open spec fn bytes_agree(
    bytes: Result<Vec<u8>, MigrateError>,
    expected: Result<Seq<u8>, MigrateError>,
) -> bool {
    match (bytes, expected) {
        (Ok(found), Ok(view)) => found@ == view,
        (Err(error), Err(expected_error)) => error == expected_error,
        _ => false,
    }
}

/// Puts the locals of a function in front of its code.
fn encode_body(groups: &Vec<LocalGroup>, mut code: Vec<u8>) -> (bytes: Result<
    Vec<u8>,
    MigrateError,
>)
    ensures
        bytes_agree(bytes, encoded_body(views(groups@), Ok(code@))),
{
    let mut bytes = match codegen::encode_locals(groups) {
        Some(found) => found,
        None => return Err(MigrateError::TooLarge),
    };
    if bytes.len() > MAX_BODY_SIZE || code.len() > MAX_BODY_SIZE - bytes.len() {
        return Err(MigrateError::TooLarge);
    }
    bytes.append(&mut code);
    Ok(bytes)
}

/// Produces the body of a function without checkpoints, with the functions that
/// it calls at their new indices. Indirect calls go through the element section
/// and stay as they are.
pub fn update_function_indexes(old_body: &[u8], groups: &Vec<LocalGroup>, num_imports: u32) -> (bytes:
    Result<Vec<u8>, MigrateError>)
    ensures
        bytes_agree(bytes, updated_body(old_body@, views(groups@), num_imports)),
{
    let insts = match body::read_instructions(old_body) {
        Ok(insts) => insts,
        Err(error) => return Err(error),
    };
    let code = match codegen::copy_between(&insts, 0, usize::MAX, num_imports) {
        Ok(code) => code,
        Err(error) => return Err(error),
    };
    match codegen::encode_instructions(old_body, &code) {
        Ok(bytes) => encode_body(groups, bytes),
        Err(error) => Err(error),
    }
}

/// Copies runs of locals and adds one integer of 32 bits.
fn groups_with_resuming_var(groups: &Vec<LocalGroup>) -> (extended_groups: Vec<LocalGroup>)
    ensures
        views(extended_groups@) == views(groups@).push((1u32, seq![0x7fu8])),
{
    let mut copy: Vec<LocalGroup> = Vec::new();
    let mut i: usize = 0;
    assert(views(groups@).take(0) =~= views(copy@));
    while i < groups.len()
        invariant
            i <= groups@.len(),
            views(copy@) == views(groups@).take(i as int),
        decreases groups@.len() - i,
    {
        let ghost before = views(copy@);
        let group = LocalGroup {
            count: groups[i].count,
            ty: vstd::slice::slice_to_vec(groups[i].ty.as_slice()),
        };
        let ghost view = group@;
        copy.push(group);
        proof {
            assert(views(copy@) =~= before.push(view));
            assert(views(groups@).take(i + 1) =~= before.push(views(groups@)[i as int]));
        }
        i = i + 1;
    }
    let ghost before = views(copy@);
    let mut ty: Vec<u8> = Vec::new();
    ty.push(0x7f);
    assert(ty@ =~= seq![0x7fu8]);
    let group = LocalGroup { count: 1, ty };
    let ghost view = group@;
    copy.push(group);
    proof {
        assert(before =~= views(groups@));
        assert(views(copy@) =~= before.push(view));
    }
    copy
}

/// Produces the body of the function with checkpoints.
fn encode_target_body(old_body: &[u8], target: &Target) -> (bytes: Result<Vec<u8>, MigrateError>)
    requires
        target.plan.well_formed(),
        target.func_index < target.locals@.len(),
    ensures
        bytes_agree(bytes, target_body(old_body@, target@)),
{
    let code = match codegen::encode_target(&target.plan, target.distributed) {
        Ok(code) => code,
        Err(error) => return Err(error),
    };
    let bytes = match codegen::encode_instructions(old_body, &code) {
        Ok(bytes) => bytes,
        Err(error) => return Err(error),
    };
    let groups = groups_with_resuming_var(&target.locals[target.func_index]);
    encode_body(&groups, bytes)
}

/// Produces the new body of function number `i`.
fn encode_new_body(module: &ModuleData, target: &Target, i: usize) -> (bytes: Result<
    Vec<u8>,
    MigrateError,
>)
    requires
        target.well_formed(module@),
        i < module@.function_bodies.len(),
    ensures
        bytes_agree(bytes, new_body(module@, target@, i as int)),
{
    assert(module@.function_bodies[i as int] == module.function_bodies@[i as int]@);
    if i == target.func_index {
        encode_target_body(module.function_bodies[i].as_slice(), target)
    } else {
        update_function_indexes(
            module.function_bodies[i].as_slice(),
            &target.locals[i],
            module.num_of_import_functions,
        )
    }
}

/// The first body that cannot be encoded decides on the error.
proof fn lemma_new_bodies_error(module: ModuleView, target: TargetView, count: int, total: int)
    requires
        0 <= count <= total,
        new_bodies(module, target, count) is Err,
    ensures
        new_bodies(module, target, total) == new_bodies(module, target, count),
    decreases total - count,
{
    if count < total {
        lemma_new_bodies_error(module, target, count + 1, total);
    }
}

/// Produces the section with the new bodies of all functions.
fn encode_new_bodies(module: &ModuleData, target: &Target) -> (section: Result<
    Section,
    MigrateError,
>)
    requires
        target.well_formed(module@),
    ensures
        match (section, new_bodies(module@, target@, module@.function_bodies.len() as int)) {
            (Ok(found), Ok(view)) => found@ == view,
            (Err(error), Err(expected)) => error == expected,
            _ => false,
        },
{
    let mut section = Section::new();
    let count: usize = module.function_bodies.len();
    let mut i: usize = 0;
    while i < count
        invariant
            i <= count,
            count == module@.function_bodies.len(),
            target.well_formed(module@),
            new_bodies(module@, target@, i as int) == Ok::<SectionView, MigrateError>(section@),
        decreases count - i,
    {
        let bytes = match encode_new_body(module, target, i) {
            Ok(bytes) => bytes,
            Err(error) => {
                proof {
                    lemma_new_bodies_error(module@, target@, i + 1, count as int);
                }
                return Err(error);
            },
        };
        proof {
            lemma_new_body_len(module@, target@, i as int);
        }
        if let Err(error) = extend_section(
            &mut section,
            encoder::encode_code(&bytes),
            Ghost(encoder::code_entry(bytes@)),
        ) {
            proof {
                lemma_new_bodies_error(module@, target@, i + 1, count as int);
            }
            return Err(error);
        }
        i = i + 1;
    }
    Ok(section)
}

/// The new body of a function is not too large.
proof fn lemma_new_body_len(module: ModuleView, target: TargetView, i: int)
    ensures
        new_body(module, target, i) matches Ok(bytes) ==> bytes.len() <= MAX_BODY_SIZE,
{
}

/// Produces the code section.
fn encode_code_section(module: &ModuleData, target: &Option<Target>) -> (section: Result<
    Option<Section>,
    MigrateError,
>)
    requires
        target matches Some(found) ==> found.well_formed(module@),
    ensures
        section_agrees(section, code_out(module@, target_view(*target))),
{
    match target {
        None => Ok(copy_section(&module.code_section)),
        Some(found) => match encode_new_bodies(module, found) {
            Ok(section) => Ok(Some(section)),
            Err(error) => Err(error),
        },
    }
}

/// The view of a target that may be missing.
pub open spec fn target_view(target: Option<Target>) -> Option<TargetView> {
    match target {
        Some(found) => Some(found@),
        None => None,
    }
}

/// Adds a section to a module, if there is one.
fn write_section(
    encoded: &mut wasm_encoder::Module,
    id: u8,
    section: Result<Option<Section>, MigrateError>,
    Ghost(view): Ghost<Result<Option<SectionView>, MigrateError>>,
) -> (outcome: Result<(), MigrateError>)
    requires
        section_agrees(section, view),
    ensures
        match (outcome, followed(Ok(encoder::module_bytes(*old(encoded))), id, view)) {
            (Ok(_), Ok(bytes)) => encoder::module_bytes(*final(encoded)) == bytes,
            (Err(error), Err(expected)) => error == expected,
            _ => false,
        },
{
    match section {
        Err(error) => Err(error),
        Ok(None) => Ok(()),
        Ok(Some(found)) => match found.contents() {
            None => Err(MigrateError::TooLarge),
            Some(contents) => {
                encoder::add_section(encoded, id, &contents);
                Ok(())
            },
        },
    }
}

/// Encodes the sections of a module up to the memory section.
fn encode_front(module: &ModuleData, inject: bool) -> (encoded: Result<
    wasm_encoder::Module,
    MigrateError,
>)
    ensures
        match (encoded, encoded_front(module@, inject)) {
            (Ok(found), Ok(bytes)) => encoder::module_bytes(found) == bytes,
            (Err(error), Err(expected)) => error == expected,
            _ => false,
        },
{
    let mut encoded = encoder::new_module();
    let ghost types = match types_out(module@, inject) {
        Err(error) => Err(error),
        Ok(section) => Ok(Some(section)),
    };
    if let Err(error) = write_section(&mut encoded, 1, encode_types(module, inject), Ghost(types)) {
        return Err(error);
    }
    if let Err(error) = write_section(
        &mut encoded,
        2,
        encode_imports(module, inject),
        Ghost(imports_out(module@, inject)),
    ) {
        return Err(error);
    }
    if let Err(error) = write_section(
        &mut encoded,
        3,
        Ok(encode_functions(module, inject)),
        Ghost(Ok(functions_out(module@, inject))),
    ) {
        return Err(error);
    }
    if let Err(error) = write_section(
        &mut encoded,
        4,
        Ok(copy_section(&module.table_section)),
        Ghost(Ok(module@.table_section)),
    ) {
        return Err(error);
    }
    if let Err(error) = write_section(
        &mut encoded,
        5,
        encode_memories(module, inject),
        Ghost(memories_out(module@, inject)),
    ) {
        return Err(error);
    }
    if let Err(error) = write_section(
        &mut encoded,
        13,
        Ok(copy_section(&module.tag_section)),
        Ghost(Ok(module@.tag_section)),
    ) {
        return Err(error);
    }
    Ok(encoded)
}

/// Gives the start function of the encoded module.
fn shift_start(module: &ModuleData, inject: bool) -> (start: Result<Option<u32>, MigrateError>)
    ensures
        start == start_out(module@, inject),
{
    match module.start_func {
        None => Ok(None),
        Some(func) => if inject {
            match codegen::shift_index(func, module.num_of_import_functions) {
                Ok(index) => Ok(Some(index)),
                Err(error) => Err(error),
            }
        } else {
            Ok(Some(func))
        },
    }
}

/// Adds a section that holds a number, if there is one.
fn write_number(encoded: &mut wasm_encoder::Module, id: u8, number: Option<u32>)
    ensures
        followed_by_number(Ok(encoder::module_bytes(*old(encoded))), id, Ok(number)) == Ok::<
            Seq<u8>,
            MigrateError,
        >(encoder::module_bytes(*final(encoded))),
{
    if let Some(found) = number {
        let contents = leb::encode_u32(found);
        proof {
            leb::lemma_uleb128_u32_len(found as nat);
        }
        encoder::add_section(encoded, id, &contents);
    }
}

/// The first custom section that does not fit decides on the error.
proof fn lemma_customs_error(bytes: Seq<u8>, customs: Seq<Seq<u8>>, count: int)
    requires
        0 <= count <= customs.len(),
        followed_by_customs(bytes, customs.take(count)) is Err,
    ensures
        followed_by_customs(bytes, customs) == followed_by_customs(
            bytes,
            customs.take(count),
        ),
    decreases customs.len() - count,
{
    if count < customs.len() {
        assert(customs.take(count + 1).drop_last() =~= customs.take(count));
        lemma_customs_error(bytes, customs, count + 1);
    } else {
        assert(customs.take(count) =~= customs);
    }
}

/// Adds custom sections with these contents.
fn write_customs(encoded: &mut wasm_encoder::Module, customs: &Vec<Vec<u8>>) -> (outcome: Result<
    (),
    MigrateError,
>)
    ensures
        match (outcome, followed_by_customs(
            encoder::module_bytes(*old(encoded)),
            views(customs@),
        )) {
            (Ok(_), Ok(bytes)) => encoder::module_bytes(*final(encoded)) == bytes,
            (Err(error), Err(expected)) => error == expected,
            _ => false,
        },
{
    let ghost all = views(customs@);
    let ghost start = encoder::module_bytes(*encoded);
    let mut i: usize = 0;
    assert(all.take(0) =~= Seq::empty());
    while i < customs.len()
        invariant
            i <= customs@.len(),
            all == views(customs@),
            start == encoder::module_bytes(*old(encoded)),
            followed_by_customs(start, all.take(i as int)) == Ok::<Seq<u8>, MigrateError>(
                encoder::module_bytes(*encoded),
            ),
        decreases customs@.len() - i,
    {
        proof {
            assert(all.take(i + 1).drop_last() =~= all.take(i as int));
            assert(all.take(i + 1).last() == customs@[i as int]@);
        }
        if customs[i].len() > 0xffff_ffff {
            proof {
                lemma_customs_error(start, all, i + 1);
            }
            return Err(MigrateError::TooLarge);
        }
        encoder::add_section(encoded, 0, &customs[i]);
        i = i + 1;
    }
    assert(all.take(all.len() as int) =~= all);
    Ok(())
}

/// Encodes a module, with checkpoint and restore procedures inserted if there
/// is a target.
pub fn encode_module(module: &ModuleData, target: &Option<Target>) -> (encoded: Result<
    wasm_encoder::Module,
    MigrateError,
>)
    requires
        target matches Some(found) ==> found.well_formed(module@),
    ensures
        match (encoded, encoded_module(module@, target_view(*target))) {
            (Ok(found), Ok(bytes)) => encoder::module_bytes(found) == bytes,
            (Err(error), Err(expected)) => error == expected,
            _ => false,
        },
{
    proof {
        reveal(encoded_module);
    }
    let inject = target.is_some();
    let mut encoded = match encode_front(module, inject) {
        Ok(encoded) => encoded,
        Err(error) => return Err(error),
    };
    if let Err(error) = write_section(
        &mut encoded,
        6,
        Ok(Some(module.global_section.copy())),
        Ghost(Ok(Some(module@.global_section))),
    ) {
        return Err(error);
    }
    if let Err(error) = write_section(
        &mut encoded,
        7,
        encode_exports(module, inject),
        Ghost(exports_out(module@, inject)),
    ) {
        return Err(error);
    }
    match shift_start(module, inject) {
        Ok(start) => write_number(&mut encoded, 8, start),
        Err(error) => return Err(error),
    }
    let elements = if inject {
        copy_section(&module.element_section_with_cr)
    } else {
        copy_section(&module.element_section)
    };
    if let Err(error) = write_section(
        &mut encoded,
        9,
        Ok(elements),
        Ghost(Ok(elements_out(module@, inject))),
    ) {
        return Err(error);
    }
    write_number(&mut encoded, 12, module.data_count_section);
    if let Err(error) = write_section(
        &mut encoded,
        10,
        encode_code_section(module, target),
        Ghost(code_out(module@, target_view(*target))),
    ) {
        return Err(error);
    }
    if let Err(error) = write_section(
        &mut encoded,
        11,
        Ok(copy_section(&module.data_section)),
        Ghost(Ok(module@.data_section)),
    ) {
        return Err(error);
    }
    if !inject {
        if let Err(error) = write_customs(&mut encoded, &module.custom_section) {
            return Err(error);
        }
    }
    Ok(encoded)
}

/// A section keeps its entries in front when it is extended.
pub open spec fn extends(more: SectionView, section: SectionView, count: nat) -> bool {
    &&& more.count == section.count + count
    &&& section.entries.is_prefix_of(more.entries)
}

/// An extended section keeps its entries in front.
proof fn lemma_extended(section: SectionView, first: Seq<u8>, second: Seq<u8>)
    ensures
        extended(extended(Ok(section), first), second) matches Ok(more) ==> extends(
            more,
            section,
            2,
        ),
{
    if let Ok(more) = extended(extended(Ok(section), first), second) {
        assert(more.entries =~= section.entries + first + second);
        assert(section.entries =~= more.entries.subrange(0, section.entries.len() as int));
    }
}

/// The types, imports and memories of a module keep their indices: what is
/// inserted comes behind them, two types, two imported functions and two
/// memories.
pub proof fn law_indices_kept(module: ModuleView)
    ensures
        match (types_out(module, true), module.type_section) {
            (Ok(more), Some(section)) => extends(more, section, 2),
            (Ok(_), None) => false,
            _ => true,
        },
        match (imports_out(module, true), module.import_section) {
            (Ok(Some(more)), Some(section)) => extends(more, section, 2),
            (Ok(Some(more)), None) => extends(more, SectionView::empty(), 2),
            (Ok(None), _) => false,
            _ => true,
        },
        match (memories_out(module, true), module.memory_section) {
            (Ok(Some(more)), Some(section)) => extends(more, section, 2),
            (Ok(Some(more)), None) => extends(more, SectionView::empty(), 2),
            (Ok(None), _) => false,
            _ => true,
        },
{
    if let Some(section) = module.type_section {
        lemma_extended(
            section,
            encoder::function_type_entry(1),
            encoder::function_type_entry(0),
        );
    }
    let imports = match module.import_section {
        Some(found) => found,
        None => SectionView::empty(),
    };
    let types = match module.type_section {
        Some(found) => found.count,
        None => 0,
    };
    lemma_extended(
        imports,
        encoder::function_import_entry("host"@, "should_migrate"@, types as u32),
        encoder::function_import_entry("host"@, "restore_memory"@, (types + 1) as u32),
    );
    let memories = match module.memory_section {
        Some(found) => found,
        None => SectionView::empty(),
    };
    lemma_extended(memories, encoder::memory_entry(1), encoder::memory_entry(2));
}

/// There are as many exports as before and one for the checkpoint memory.
pub proof fn law_exports_kept(module: ModuleView)
    ensures
        exports_out(module, true) matches Ok(section) ==> (section matches Some(found)
            && found.count == module.exports.len() + 1),
{
    lemma_shifted_exports_count(module.exports, module.num_of_import_functions);
}

/// Each export has its entry.
proof fn lemma_shifted_exports_count(exports: Seq<ExportView>, num_imports: u32)
    ensures
        shifted_exports(exports, num_imports) matches Ok(section) ==> section.count
            == exports.len(),
    decreases exports.len(),
{
    if exports.len() > 0 {
        lemma_shifted_exports_count(exports.drop_last(), num_imports);
    }
}

/// A function is exported under the index at which it is called.
pub proof fn law_exports_follow_calls(export: ExportView, num_imports: u32)
    requires
        export.kind == ExternKind::Func,
        vstd::utf8::encode_utf8(export.name).len() <= MAX_BINARY_SIZE,
    ensures
        match codegen::shifted(export.index, num_imports) {
            Ok(index) => shifted_export(export, num_imports) == Ok::<Seq<u8>, MigrateError>(
                encoder::export_entry(export.name, export.kind, index),
            ),
            Err(error) => shifted_export(export, num_imports) == Err::<Seq<u8>, MigrateError>(error),
        },
{
}

/// The encoded module has a body for each function that the module defines.
pub proof fn law_bodies_kept(module: ModuleView, target: TargetView)
    ensures
        code_out(module, Some(target)) matches Ok(section) ==> (section matches Some(found)
            && found.count == module.function_bodies.len()),
{
    lemma_new_bodies_count(module, target, module.function_bodies.len() as int);
}

/// Each function has its body.
proof fn lemma_new_bodies_count(module: ModuleView, target: TargetView, count: int)
    requires
        0 <= count,
    ensures
        new_bodies(module, target, count) matches Ok(section) ==> section.count == count,
    decreases count,
{
    if count > 0 {
        lemma_new_bodies_count(module, target, count - 1);
    }
}

/// Sections are added behind what is there.
proof fn lemma_followed(
    header: Seq<u8>,
    bytes: Result<Seq<u8>, MigrateError>,
    id: u8,
    section: Result<Option<SectionView>, MigrateError>,
)
    requires
        bytes matches Ok(before) ==> header.is_prefix_of(before),
    ensures
        followed(bytes, id, section) matches Ok(after) ==> header.is_prefix_of(after),
{
    if let (Ok(before), Ok(after)) = (bytes, followed(bytes, id, section)) {
        assert(header =~= after.subrange(0, header.len() as int));
    }
}

/// The encoded module starts with the header of a module.
pub proof fn law_module_header(module: ModuleView, target: Option<TargetView>)
    ensures
        encoded_module(module, target) matches Ok(bytes) ==> encoder::module_header().is_prefix_of(
            bytes,
        ),
{
    reveal(encoded_module);
    let inject = target is Some;
    let header = encoder::module_header();
    let start: Result<Seq<u8>, MigrateError> = Ok(header);
    assert(header =~= header.subrange(0, header.len() as int));
    let types = match types_out(module, inject) {
        Err(error) => Err(error),
        Ok(section) => Ok(Some(section)),
    };
    lemma_followed(header, start, 1, types);
    let b1 = followed(start, 1, types);
    lemma_followed(header, b1, 2, imports_out(module, inject));
    let b2 = followed(b1, 2, imports_out(module, inject));
    lemma_followed(header, b2, 3, Ok(functions_out(module, inject)));
    let b3 = followed(b2, 3, Ok(functions_out(module, inject)));
    lemma_followed(header, b3, 4, Ok(module.table_section));
    let b4 = followed(b3, 4, Ok(module.table_section));
    lemma_followed(header, b4, 5, memories_out(module, inject));
    let b13 = followed(b4, 5, memories_out(module, inject));
    lemma_followed(header, b13, 13, Ok(module.tag_section));
    let b5 = encoded_front(module, inject);
    lemma_followed(header, b5, 6, Ok(Some(module.global_section)));
    let b6 = followed(b5, 6, Ok(Some(module.global_section)));
    lemma_followed(header, b6, 7, exports_out(module, inject));
    let b7 = followed(b6, 7, exports_out(module, inject));
    let b8 = followed_by_number(b7, 8, start_out(module, inject));
    if let (Ok(before), Ok(after)) = (b7, b8) {
        assert(header =~= after.subrange(0, header.len() as int));
    }
    lemma_followed(header, b8, 9, Ok(elements_out(module, inject)));
    let b9 = followed(b8, 9, Ok(elements_out(module, inject)));
    let b12 = followed_by_number(b9, 12, Ok(module.data_count_section));
    if let (Ok(before), Ok(after)) = (b9, b12) {
        assert(header =~= after.subrange(0, header.len() as int));
    }
    lemma_followed(header, b12, 10, code_out(module, target));
    let b10 = followed(b12, 10, code_out(module, target));
    lemma_followed(header, b10, 11, Ok(module.data_section));
    let b11 = followed(b10, 11, Ok(module.data_section));
    if let Ok(bytes) = b11 {
        lemma_followed_by_customs(header, bytes, customs_out(module, inject));
    }
}

/// Custom sections are added behind what is there.
proof fn lemma_followed_by_customs(header: Seq<u8>, bytes: Seq<u8>, customs: Seq<Seq<u8>>)
    requires
        header.is_prefix_of(bytes),
    ensures
        followed_by_customs(bytes, customs) matches Ok(after) ==> header.is_prefix_of(after),
    decreases customs.len(),
{
    if customs.len() > 0 {
        lemma_followed_by_customs(header, bytes, customs.drop_last());
        if let Ok(after) = followed_by_customs(bytes, customs) {
            assert(header =~= after.subrange(0, header.len() as int));
        }
    }
}

} // verus!
