//! The encoding of a component with checkpoint and restore procedures in one of
//! its modules.

use vstd::prelude::*;
use crate::encoder;
use crate::inject;
use crate::inject::{Target, TargetView};
use crate::module;
use crate::module::{ModuleData, ModuleView};
use crate::payload;
use crate::payload::{Payload, SectionKind};
use crate::reader;
use crate::record;
use crate::record::{ComponentData, CoreModule, Outline};
use crate::types::{MigrateError, MAX_BINARY_SIZE, MAX_TYPED_SIZE};

verus! {

/// Which function gets checkpoints.
#[derive(Clone, Copy, Debug, PartialEq, Eq, Structural)]
pub struct Job {
    /// The number of the function among those that its module defines.
    pub func_index: usize,
    /// How deep the component that holds the module is nested.
    pub target_component: i32,
    /// The number of the module in the component; the first one has number one.
    pub target_module: i32,
    /// Checkpoints are distributed.
    pub distributed: bool,
}

/// The module in `bytes`, encoded again with checkpoints if it is the target.
pub open spec fn elaborated_module(bytes: Seq<u8>, job: Job, is_target: bool) -> Result<
    Seq<u8>,
    MigrateError,
> {
    match module::module_of(bytes) {
        Err(error) => Err(error),
        Ok(found) => if is_target {
            match inject::prepared(found, job.func_index as int, job.distributed) {
                Err(error) => Err(error),
                Ok(target) => inject::encoded_module(found, Some(target)),
            }
        } else {
            inject::encoded_module(found, None)
        },
    }
}

/// A module that was encoded again, and what was found out about it.
pub struct Elaborated {
    pub encoded: wasm_encoder::Module,
    pub data: ModuleData,
    /// What was inserted, if it is the target.
    pub target: Option<Target>,
}

/// Encodes the module in `bytes` again, with checkpoints if it is the target.
pub fn elaborate_module(bytes: &[u8], job: Job, is_target: bool) -> (elaborated: Result<
    Elaborated,
    MigrateError,
>)
    requires
        bytes@.len() <= MAX_BINARY_SIZE,
    ensures
        match (elaborated, elaborated_module(bytes@, job, is_target)) {
            (Ok(found), Ok(view)) => {
                &&& encoder::module_bytes(found.encoded) == view
                &&& module::module_of(bytes@) == Ok::<ModuleView, MigrateError>(found.data@)
                &&& is_target ==> (found.target matches Some(target) && target.well_formed(
                    found.data@,
                ) && inject::prepared(found.data@, job.func_index as int, job.distributed) == Ok::<
                    TargetView,
                    MigrateError,
                >(target@))
                &&& is_target == found.target is Some
            },
            (Err(error), Err(expected)) => error == expected,
            _ => false,
        },
{
    let data = match module::read_module_bytecode(bytes) {
        Ok(found) => found,
        Err(error) => return Err(error),
    };
    let mut target: Option<Target> = None;
    if is_target {
        target = match inject::pre_module_encoding(&data, job.func_index, job.distributed) {
            Ok(prepared) => Some(prepared),
            Err(error) => return Err(error),
        };
    }
    match inject::encode_module(&data, &target) {
        Ok(encoded) => Ok(Elaborated { encoded, data, target }),
        Err(error) => Err(error),
    }
}

/// How many pieces a binary has.
pub open spec fn piece_count(bytes: Seq<u8>) -> nat {
    match payload::parsed(bytes) {
        Ok(pieces) => pieces.len(),
        Err(_) => 0,
    }
}

/// A component that is being encoded: its bytes, and how many modules it has.
#[verifier::ext_equal]
pub struct Progress {
    pub bytes: Seq<u8>,
    pub modules: int,
}

/// The component with one more section.
pub open spec fn with_section(before: Progress, id: u8, contents: Seq<u8>, modules: int) -> Result<
    Progress,
    MigrateError,
> {
    if contents.len() > u32::MAX {
        Err(MigrateError::TooLarge)
    } else {
        Ok(
            Progress {
                bytes: before.bytes + encoder::section_bytes(id, contents),
                modules: before.modules + modules,
            },
        )
    }
}

/// The component with the module that lies between two positions added, with
/// checkpoints if it is the target.
pub open spec fn with_module(
    bytes: Seq<u8>,
    start: int,
    end: int,
    depth: int,
    job: Job,
    before: Progress,
) -> Result<Progress, MigrateError> {
    match payload::span_of(bytes, start, end) {
        Err(error) => Err(error),
        Ok(inner) => if before.modules + 1 > i32::MAX {
            Err(MigrateError::IndexOverflow)
        } else {
            let is_target = job.target_component == depth && job.target_module == before.modules
                + 1;
            match elaborated_module(inner, job, is_target) {
                Err(error) => Err(error),
                Ok(encoded) => with_section(before, 1, encoded, 1),
            }
        },
    }
}

/// The bytes of the component that is nested between two positions.
pub open spec fn nested_bytes(bytes: Seq<u8>, start: int, end: int, depth: int) -> Result<
    Seq<u8>,
    MigrateError,
> {
    match payload::span_of(bytes, start, end) {
        Err(error) => Err(error),
        Ok(inner) => if inner.len() >= bytes.len() {
            Err(MigrateError::OutOfBounds)
        } else if depth + 1 > i32::MAX {
            Err(MigrateError::IndexOverflow)
        } else {
            Ok(inner)
        },
    }
}

/// The component with a nested one added.
pub open spec fn with_nested(before: Progress, nested: Result<Progress, MigrateError>) -> Result<
    Progress,
    MigrateError,
> {
    match nested {
        Err(error) => Err(error),
        Ok(found) => with_section(before, 4, found.bytes, 0),
    }
}

/// The component with a piece that is neither a module nor a component: its
/// sections are copied, the rest is left out.
pub open spec fn with_other(bytes: Seq<u8>, index: int, piece: Payload, before: Progress) -> Result<
    Progress,
    MigrateError,
> {
    if encoder::is_copied(piece) {
        if !encoder::fits_again(piece) {
            Err(MigrateError::TooLarge)
        } else {
            match encoder::reencoded_piece(bytes, index) {
                None => Err(MigrateError::Reencode),
                Some(section) => Ok(
                    Progress { bytes: before.bytes + section, modules: before.modules },
                ),
            }
        }
    } else {
        Ok(before)
    }
}

/// How far the modules and components reach that lie directly in a component,
/// among its first `count` pieces.
pub open spec fn reached(pieces: Seq<Payload>, count: int) -> int
    decreases count,
{
    if count <= 0 {
        0
    } else {
        let before = reached(pieces, count - 1);
        match pieces[count - 1] {
            Payload::Section(SectionKind::CoreModule, start, end)
            | Payload::Section(SectionKind::Component, start, end) => if start < before {
                before
            } else {
                end as int
            },
            _ => before,
        }
    }
}

/// Piece number `i` belongs to the component itself, not to a module or component
/// inside it.
pub open spec fn own(pieces: Seq<Payload>, i: int) -> bool {
    pieces[i] matches Payload::Section(_, start, _) ==> start >= reached(pieces, i)
}

/// A module or component, and the range in which it lies.
pub open spec fn inner_range(piece: Payload) -> Option<(usize, usize)> {
    match piece {
        Payload::Section(SectionKind::CoreModule, start, end)
        | Payload::Section(SectionKind::Component, start, end) => Some((start, end)),
        _ => None,
    }
}

/// What is reached never goes back.
proof fn lemma_reached_rises(pieces: Seq<Payload>, from: int, to: int)
    requires
        0 <= from <= to <= pieces.len(),
        forall|i: int|
            0 <= i < pieces.len() ==> ((#[trigger] inner_range(pieces[i])) matches Some(range)
                ==> range.0 <= range.1),
    ensures
        reached(pieces, from) <= reached(pieces, to),
    decreases to - from,
{
    if from < to {
        lemma_reached_rises(pieces, from, to - 1);
        assert(inner_range(pieces[to - 1]) matches Some(range) ==> range.0 <= range.1);
    }
}

/// The modules and components that count as a component's own do not overlap, so
/// none of them lies inside another.
pub proof fn law_own_pieces_apart(pieces: Seq<Payload>, i: int, j: int)
    requires
        0 <= i < j < pieces.len(),
        forall|n: int|
            0 <= n < pieces.len() ==> ((#[trigger] inner_range(pieces[n])) matches Some(range)
                ==> range.0 <= range.1),
        own(pieces, i),
        own(pieces, j),
    ensures
        inner_range(pieces[i]) matches Some(first) ==> (inner_range(pieces[j]) matches Some(second)
            ==> first.1 <= second.0),
{
    lemma_reached_rises(pieces, i + 1, j);
}

/// The component in `bytes`, which is nested `depth` deep, encoded again up to
/// its first `count` pieces. The pieces of the modules and components inside it
/// are encoded with these.
pub open spec fn elaborated(bytes: Seq<u8>, depth: int, job: Job, count: int) -> Result<
    Progress,
    MigrateError,
>
    decreases bytes.len(), count,
{
    match payload::parsed(bytes) {
        Err(error) => Err(error),
        Ok(pieces) => if count <= 0 {
            Ok(Progress { bytes: reader::component_header(), modules: 0 })
        } else {
            match elaborated(bytes, depth, job, count - 1) {
                Err(error) => Err(error),
                Ok(before) => if !own(pieces, count - 1) {
                    Ok(before)
                } else {
                    match pieces[count - 1] {
                        Payload::Section(SectionKind::CoreModule, start, end) => with_module(
                            bytes,
                            start as int,
                            end as int,
                            depth,
                            job,
                            before,
                        ),
                        Payload::Section(SectionKind::Component, start, end) => {
                            match nested_bytes(bytes, start as int, end as int, depth) {
                                Err(error) => Err(error),
                                Ok(inner) => with_nested(
                                    before,
                                    elaborated(inner, depth + 1, job, piece_count(inner) as int),
                                ),
                            }
                        },
                        piece => with_other(bytes, count - 1, piece, before),
                    }
                },
            }
        },
    }
}

/// The bytes of the modules that lie directly in a component, among its first
/// `count` pieces.
pub open spec fn module_contents(bytes: Seq<u8>, count: int) -> Seq<Seq<u8>>
    decreases count,
{
    match payload::parsed(bytes) {
        Err(_) => Seq::empty(),
        Ok(pieces) => if count <= 0 {
            Seq::empty()
        } else {
            let before = module_contents(bytes, count - 1);
            match pieces[count - 1] {
                Payload::Section(SectionKind::CoreModule, start, end) => {
                    match payload::span_of(bytes, start as int, end as int) {
                        Ok(inner) => if own(pieces, count - 1) {
                            before.push(inner)
                        } else {
                            before
                        },
                        Err(_) => before,
                    }
                },
                _ => before,
            }
        },
    }
}

/// The outline of a component, without those that are nested in it.
pub open spec fn own_outline(bytes: Seq<u8>, depth: int) -> Outline {
    Outline {
        parent: None,
        depth,
        modules: module_contents(bytes, piece_count(bytes) as int),
    }
}

/// The outlines of a component and those nested in it, as they are when `offset`
/// others come first. The first of these holds the component.
pub open spec fn placed(outlines: Seq<Outline>, offset: nat) -> Seq<Outline> {
    Seq::new(
        outlines.len(),
        |i: int|
            Outline {
                parent: match outlines[i].parent {
                    None => Some(0),
                    Some(parent) => Some(parent + offset),
                },
                ..outlines[i]
            },
    )
}

/// The outlines of the components that are nested in one, among its first `count`
/// pieces.
pub open spec fn nested_outlines(bytes: Seq<u8>, depth: int, count: int) -> Seq<Outline>
    decreases bytes.len(), count,
{
    match payload::parsed(bytes) {
        Err(_) => Seq::empty(),
        Ok(pieces) => if count <= 0 {
            Seq::empty()
        } else {
            let before = nested_outlines(bytes, depth, count - 1);
            match pieces[count - 1] {
                Payload::Section(SectionKind::Component, start, end) => {
                    match nested_bytes(bytes, start as int, end as int, depth) {
                        Ok(inner) => if own(pieces, count - 1) {
                            before + placed(
                                seq![own_outline(inner, depth + 1)] + nested_outlines(
                                    inner,
                                    depth + 1,
                                    piece_count(inner) as int,
                                ),
                                before.len() + 1,
                            )
                        } else {
                            before
                        },
                        Err(_) => before,
                    }
                },
                _ => before,
            }
        },
    }
}

/// The outlines of all components in a binary, in its order. A component comes
/// before those that are nested in it.
pub open spec fn outline(bytes: Seq<u8>, depth: int) -> Seq<Outline> {
    seq![own_outline(bytes, depth)] + nested_outlines(bytes, depth, piece_count(bytes) as int)
}

/// The first piece that cannot be encoded decides on the error.
pub(crate) proof fn lemma_elaborated_error(bytes: Seq<u8>, depth: int, job: Job, count: int, total: int)
    requires
        0 <= count <= total,
        elaborated(bytes, depth, job, count) is Err,
    ensures
        elaborated(bytes, depth, job, total) == elaborated(bytes, depth, job, count),
    decreases total - count,
{
    if count < total {
        lemma_elaborated_error(bytes, depth, job, count + 1, total);
    }
}

/// Tells whether a piece of a component is copied into the encoded one.
fn copies(piece: Payload) -> (copied: bool)
    ensures
        copied == encoder::is_copied(piece),
{
    match piece {
        Payload::Section(kind, _, _) => match kind {
            SectionKind::CoreInstance
            | SectionKind::CoreType
            | SectionKind::ComponentInstance
            | SectionKind::ComponentAlias
            | SectionKind::ComponentType
            | SectionKind::ComponentCanonical
            | SectionKind::ComponentStart
            | SectionKind::ComponentImport
            | SectionKind::ComponentExport
            | SectionKind::Custom => true,
            _ => false,
        },
        _ => false,
    }
}

/// Tells whether a piece of a component is short enough to be encoded again.
pub fn can_copy(piece: Payload) -> (fits: bool)
    ensures
        fits == encoder::fits_again(piece),
{
    match piece {
        Payload::Section(kind, start, end) => match kind {
            SectionKind::ComponentType
            | SectionKind::ComponentCanonical
            | SectionKind::ComponentImport
            | SectionKind::ComponentExport => end <= start || end - start <= MAX_TYPED_SIZE,
            _ => true,
        },
        _ => true,
    }
}

/// The outcome of adding to a component is that of the specification.
pub open spec fn grown(
    outcome: Result<i32, MigrateError>,
    component: wasm_encoder::Component,
    expected: Result<Progress, MigrateError>,
) -> bool {
    match (outcome, expected) {
        (Ok(modules), Ok(view)) => encoder::component_bytes(component) == view.bytes && modules
            == view.modules,
        (Err(error), Err(expected_error)) => error == expected_error,
        _ => false,
    }
}

/// Adds the module between two positions to a component with this number of
/// modules, with checkpoints if it is the target.
fn add_elaborated_module(
    component: &mut wasm_encoder::Component,
    bytes: &[u8],
    start: usize,
    end: usize,
    depth: i32,
    job: Job,
    modules: i32,
    recorded: &mut Vec<CoreModule>,
    Ghost(contents): Ghost<Seq<Seq<u8>>>,
) -> (outcome: Result<i32, MigrateError>)
    requires
        bytes@.len() <= MAX_BINARY_SIZE,
        modules >= 0,
        old(recorded)@.len() == modules,
        record::lists_modules(old(recorded)@, contents, depth as int, job),
    ensures
        grown(
            outcome,
            *final(component),
            with_module(
                bytes@,
                start as int,
                end as int,
                depth as int,
                job,
                (Progress {
                    bytes: encoder::component_bytes(*old(component)),
                    modules: modules as int,
                }),
            ),
        ),
        outcome matches Ok(count) ==> {
            &&& count >= 0
            &&& final(recorded)@.len() == count
            &&& payload::span_of(bytes@, start as int, end as int) matches Ok(inner)
                && record::lists_modules(
                final(recorded)@,
                contents.push(inner),
                depth as int,
                job,
            )
        },
{
    let inner = match payload::span(bytes, start, end) {
        Ok(inner) => inner,
        Err(error) => return Err(error),
    };
    if modules == i32::MAX {
        return Err(MigrateError::IndexOverflow);
    }
    let module_index: i32 = modules + 1;
    let is_target = job.target_component == depth && job.target_module == module_index;
    let elaborated = match elaborate_module(inner, job, is_target) {
        Ok(elaborated) => elaborated,
        Err(error) => return Err(error),
    };
    if encoder::module_len(&elaborated.encoded) > 0xffff_ffff {
        return Err(MigrateError::TooLarge);
    }
    encoder::add_module(component, &elaborated.encoded);
    recorded.push(
        CoreModule::new(elaborated.data, elaborated.target, Ghost(inner@), Ghost(job)),
    );
    Ok(module_index)
}

/// A component that was encoded again, and what is recorded of it and of those that
/// are nested in it.
pub struct ElaboratedComponent {
    pub encoded: wasm_encoder::Component,
    /// The components in the order of the binary, not numbered yet.
    pub components: Vec<(ComponentData, i32)>,
    /// Which of them holds each one.
    pub parents: Vec<Option<usize>>,
}

/// Adds a nested component to one with this number of modules.
fn add_nested(
    component: &mut wasm_encoder::Component,
    nested: &Result<ElaboratedComponent, MigrateError>,
    modules: i32,
    Ghost(view): Ghost<Result<Progress, MigrateError>>,
) -> (outcome: Result<i32, MigrateError>)
    requires
        match (*nested, view) {
            (Ok(found), Ok(progress)) => encoder::component_bytes(found.encoded)
                == progress.bytes,
            (Err(error), Err(expected)) => error == expected,
            _ => false,
        },
    ensures
        grown(
            outcome,
            *final(component),
            with_nested(
                (Progress {
                    bytes: encoder::component_bytes(*old(component)),
                    modules: modules as int,
                }),
                view,
            ),
        ),
        outcome matches Ok(count) ==> count == modules && *nested is Ok,
{
    let encoded = match nested {
        Ok(nested) => &nested.encoded,
        Err(error) => return Err(*error),
    };
    if encoder::component_len(encoded) > 0xffff_ffff {
        return Err(MigrateError::TooLarge);
    }
    encoder::add_component(component, encoded);
    Ok(modules)
}

/// Records a nested component, and those that are nested in it, behind those that
/// are recorded already. The first parent is that of the component that holds it.
fn record_nested(
    components: &mut Vec<(ComponentData, i32)>,
    parents: &mut Vec<Option<usize>>,
    nested: ElaboratedComponent,
    Ghost(before): Ghost<Seq<Outline>>,
    Ghost(found): Ghost<Seq<Outline>>,
    Ghost(holder): Ghost<Outline>,
    Ghost(job): Ghost<Job>,
)
    requires
        holder.parent is None,
        record::lists_components(old(components)@, before, job),
        record::lists_parents(old(parents)@, seq![holder] + before),
        record::lists_components(nested.components@, found, job),
        record::lists_parents(nested.parents@, found),
    ensures
        record::lists_components(
            final(components)@,
            before + placed(found, before.len() + 1),
            job,
        ),
        record::lists_parents(
            final(parents)@,
            seq![holder] + (before + placed(found, before.len() + 1)),
        ),
{
    let mut nested = nested;
    let offset: usize = parents.len();
    let ghost first = parents@;
    let ghost outlines = seq![holder] + (before + placed(found, before.len() + 1));
    components.append(&mut nested.components);
    let total: usize = components.len();
    let mut i: usize = 0;
    while i < nested.parents.len()
        invariant
            i <= nested.parents@.len(),
            total + 1 == offset + nested.parents@.len(),
            first.len() == offset == before.len() + 1,
            parents@.len() == offset + i,
            record::lists_parents(nested.parents@, found),
            record::lists_parents(first, seq![holder] + before),
            outlines == seq![holder] + (before + placed(found, before.len() + 1)),
            record::lists_parents(parents@, outlines.take(offset + i)),
        decreases nested.parents@.len() - i,
    {
        let parent: usize = match nested.parents[i] {
            Some(parent) => parent + offset,
            None => 0,
        };
        parents.push(Some(parent));
        i = i + 1;
    }
    assert(outlines.take(offset + i) =~= outlines);
}

/// Adds a piece that is neither a module nor a component to a component with
/// this number of modules.
fn add_other(
    component: &mut wasm_encoder::Component,
    bytes: &[u8],
    index: usize,
    piece: Payload,
    modules: i32,
) -> (outcome: Result<i32, MigrateError>)
    requires
        bytes@.len() <= MAX_BINARY_SIZE,
        payload::parsed(bytes@) matches Ok(pieces) && index < pieces.len()
            && pieces[index as int] == piece,
    ensures
        grown(
            outcome,
            *final(component),
            with_other(
                bytes@,
                index as int,
                piece,
                (Progress {
                    bytes: encoder::component_bytes(*old(component)),
                    modules: modules as int,
                }),
            ),
        ),
        outcome matches Ok(count) ==> count == modules,
{
    if copies(piece) {
        if !can_copy(piece) {
            return Err(MigrateError::TooLarge);
        }
        if let Err(_) = encoder::copy_piece(component, bytes, index) {
            return Err(MigrateError::Reencode);
        }
    }
    Ok(modules)
}

/// Takes the bytes of the component that is nested between two positions.
fn take_nested<'a>(bytes: &'a [u8], start: usize, end: usize, depth: i32) -> (found: Result<
    &'a [u8],
    MigrateError,
>)
    ensures
        match (found, nested_bytes(bytes@, start as int, end as int, depth as int)) {
            (Ok(slice), Ok(view)) => slice@ == view && slice@.len() < bytes@.len() && depth
                < i32::MAX,
            (Err(error), Err(expected)) => error == expected,
            _ => false,
        },
{
    let inner = match payload::span(bytes, start, end) {
        Ok(inner) => inner,
        Err(error) => return Err(error),
    };
    if inner.len() >= bytes.len() {
        return Err(MigrateError::OutOfBounds);
    }
    if depth == i32::MAX {
        return Err(MigrateError::IndexOverflow);
    }
    Ok(inner)
}

/// Encodes the component in `bytes` again, with checkpoints in the function that
/// the job tells. The component is nested `depth` deep.
pub fn elaborate_component_bytecode(bytes: &[u8], depth: i32, job: Job) -> (elaborate: Result<
    ElaboratedComponent,
    MigrateError,
>)
    requires
        bytes@.len() <= MAX_BINARY_SIZE,
        depth >= 0,
    ensures
        match (elaborate, elaborated(bytes@, depth as int, job, piece_count(bytes@) as int)) {
            (Ok(found), Ok(view)) => {
                &&& encoder::component_bytes(found.encoded) == view.bytes
                &&& record::lists_components(
                    found.components@,
                    outline(bytes@, depth as int),
                    job,
                )
                &&& record::lists_parents(found.parents@, outline(bytes@, depth as int))
            },
            (Err(error), Err(expected)) => error == expected,
            _ => false,
        },
    decreases bytes@.len(),
{
    let pieces = match payload::parse_payloads(bytes) {
        Ok(pieces) => pieces,
        Err(error) => return Err(error),
    };
    let mut component = encoder::new_component();
    let mut module_index: i32 = 0;
    let mut behind: usize = 0;
    let mut modules: Vec<CoreModule> = Vec::new();
    let mut components: Vec<(ComponentData, i32)> = Vec::new();
    let mut parents: Vec<Option<usize>> = Vec::new();
    parents.push(None);
    let ghost holder = own_outline(bytes@, depth as int);
    let count: usize = pieces.len();
    let mut i: usize = 0;
    while i < count
        invariant
            i <= count,
            count == pieces@.len(),
            bytes@.len() <= MAX_BINARY_SIZE,
            depth >= 0,
            module_index >= 0,
            payload::parsed(bytes@) == Ok::<Seq<Payload>, MigrateError>(pieces@),
            behind == reached(pieces@, i as int),
            elaborated(bytes@, depth as int, job, i as int) == Ok::<Progress, MigrateError>(
                Progress {
                    bytes: encoder::component_bytes(component),
                    modules: module_index as int,
                },
            ),
            modules@.len() == module_index,
            record::lists_modules(
                modules@,
                module_contents(bytes@, i as int),
                depth as int,
                job,
            ),
            holder == own_outline(bytes@, depth as int),
            record::lists_components(
                components@,
                nested_outlines(bytes@, depth as int, i as int),
                job,
            ),
            record::lists_parents(
                parents@,
                seq![holder] + nested_outlines(bytes@, depth as int, i as int),
            ),
        decreases count - i,
    {
        let piece = pieces[i];
        proof {
            if elaborated(bytes@, depth as int, job, i + 1) is Err {
                lemma_elaborated_error(bytes@, depth as int, job, i + 1, count as int);
            }
        }
        let mut inside = false;
        if let Payload::Section(_, start, _) = piece {
            inside = start < behind;
        }
        assert(inside == !own(pieces@, i as int));
        let outcome = if inside {
            Ok(module_index)
        } else {
            match piece {
                Payload::Section(SectionKind::CoreModule, start, end) => {
                    behind = end;
                    add_elaborated_module(
                        &mut component,
                        bytes,
                        start,
                        end,
                        depth,
                        job,
                        module_index,
                        &mut modules,
                        Ghost(module_contents(bytes@, i as int)),
                    )
                },
                Payload::Section(SectionKind::Component, start, end) => {
                    behind = end;
                    match take_nested(bytes, start, end, depth) {
                        Err(error) => Err(error),
                        Ok(inner) => {
                            let nested = elaborate_component_bytecode(inner, depth + 1, job);
                            let added = add_nested(
                                &mut component,
                                &nested,
                                module_index,
                                Ghost(
                                    elaborated(
                                        inner@,
                                        depth + 1,
                                        job,
                                        piece_count(inner@) as int,
                                    ),
                                ),
                            );
                            if let (Ok(_), Ok(found)) = (&added, nested) {
                                record_nested(
                                    &mut components,
                                    &mut parents,
                                    found,
                                    Ghost(nested_outlines(bytes@, depth as int, i as int)),
                                    Ghost(outline(inner@, depth + 1)),
                                    Ghost(holder),
                                    Ghost(job),
                                );
                            }
                            added
                        },
                    }
                },
                _ => add_other(&mut component, bytes, i, piece, module_index),
            }
        };
        assert(grown(outcome, component, elaborated(bytes@, depth as int, job, i + 1)));
        match outcome {
            Ok(total) => {
                module_index = total;
            },
            Err(error) => return Err(error),
        }
        i = i + 1;
    }
    components.insert(
        0,
        (ComponentData { is_it_a_module: false, component_index: 0, core_modules: modules }, -1),
    );
    Ok(ElaboratedComponent { encoded: component, components, parents })
}

/// Outline number `i` comes behind its parent and lies one step deeper.
pub open spec fn behind_parent(outlines: Seq<Outline>, i: int) -> bool {
    outlines[i].parent matches Some(parent) && 0 <= parent < i && outlines[i].depth
        == outlines[parent].depth + 1
}

/// The first outline has no parent. Each other one comes behind its parent and lies
/// one step deeper.
pub open spec fn parents_first(outlines: Seq<Outline>) -> bool {
    &&& outlines.len() > 0
    &&& outlines[0].parent is None
    &&& forall|i: int| 1 <= i < outlines.len() ==> #[trigger] behind_parent(outlines, i)
}

/// Nested components come behind the one that holds them.
proof fn lemma_parents_first(bytes: Seq<u8>, depth: int, count: int)
    ensures
        parents_first(seq![own_outline(bytes, depth)] + nested_outlines(bytes, depth, count)),
    decreases bytes.len(), count,
{
    let holder = own_outline(bytes, depth);
    let all = seq![holder] + nested_outlines(bytes, depth, count);
    if payload::parsed(bytes) is Ok && count > 0 {
        let pieces = payload::parsed(bytes)->Ok_0;
        lemma_parents_first(bytes, depth, count - 1);
        let before = nested_outlines(bytes, depth, count - 1);
        let front = seq![holder] + before;
        if let Payload::Section(SectionKind::Component, start, end) = pieces[count - 1] {
            if let Ok(inner) = nested_bytes(bytes, start as int, end as int, depth) {
                if own(pieces, count - 1) {
                    lemma_parents_first(inner, depth + 1, piece_count(inner) as int);
                    let found = outline(inner, depth + 1);
                    assert(all =~= front + placed(found, before.len() + 1));
                    assert forall|i: int| 1 <= i < all.len() implies #[trigger] behind_parent(
                        all,
                        i,
                    ) by {
                        if i < front.len() {
                            assert(behind_parent(front, i));
                        } else if i > front.len() {
                            assert(behind_parent(found, i - front.len()));
                        }
                    }
                }
            }
        }
    }
}

/// A component is listed before those that are nested in it, and these lie one step
/// deeper.
pub proof fn law_outline_parents(bytes: Seq<u8>, depth: int)
    ensures
        parents_first(outline(bytes, depth)),
        outline(bytes, depth)[0].depth == depth,
{
    lemma_parents_first(bytes, depth, piece_count(bytes) as int);
}

/// The encoded module starts with the header of a module.
pub proof fn law_module_header(bytes: Seq<u8>, job: Job, is_target: bool)
    ensures
        elaborated_module(bytes, job, is_target) matches Ok(result)
            ==> encoder::module_header().is_prefix_of(result),
{
    if let Ok(found) = module::module_of(bytes) {
        inject::law_module_header(found, None);
        if let Ok(target) = inject::prepared(found, job.func_index as int, job.distributed) {
            inject::law_module_header(found, Some(target));
        }
    }
}

/// The encoded component starts with the header of a component.
pub proof fn law_component_header(bytes: Seq<u8>, depth: int, job: Job, count: int)
    ensures
        elaborated(bytes, depth, job, count) matches Ok(progress)
            ==> reader::component_header().is_prefix_of(progress.bytes),
    decreases count,
{
    let header = reader::component_header();
    if count <= 0 {
        assert(header =~= header.subrange(0, header.len() as int));
    } else {
        law_component_header(bytes, depth, job, count - 1);
        if let Ok(progress) = elaborated(bytes, depth, job, count) {
            let before = elaborated(bytes, depth, job, count - 1)->Ok_0;
            assert(before.bytes.is_prefix_of(progress.bytes)) by {
                assert(before.bytes =~= progress.bytes.subrange(0, before.bytes.len() as int));
            }
            assert(header =~= progress.bytes.subrange(0, header.len() as int)) by {
                assert(header =~= before.bytes.subrange(0, header.len() as int));
            }
        }
    }
}

} // verus!
