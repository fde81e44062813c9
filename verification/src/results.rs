//! What the insertion of checkpoints makes of a binary, told by reading the result.

use vstd::prelude::*;
use crate::bodies;
use crate::body;
use crate::codegen;
use crate::component;
use crate::component::Job;
use crate::contents;
use crate::encoder;
use crate::inject;
use crate::instruction::NumType;
use crate::layout;
use crate::leb;
use crate::migrate;
use crate::module;
use crate::module::ModuleView;
use crate::payload;
use crate::payload::{Payload, SectionKind};
use crate::plan::PlanView;
use crate::reader;
use crate::reading;
use crate::record;
use crate::record::{CoreModule, Outline};
use crate::regions;
use crate::tree;
use crate::types::{views, MigrateError, ValType, MAX_BINARY_SIZE, MAX_TYPED_SIZE};
use crate::variables;

verus! {

/// Function number `func_index` of a module, as it is divided into regions: its
/// instructions, the types of its parameters and locals, and what surrounds it.
pub open spec fn function_of(module: ModuleView, func_index: int) -> PlanView {
    let insts = body::instructions(module.function_bodies[func_index])->Ok_0;
    let ty = module.function_to_type[func_index + module.num_of_import_functions];
    PlanView {
        insts,
        blocks: tree::tree_of(insts).blocks,
        types: module.type_params[ty as int] + layout::expanded(
            body::declared_groups(module.function_bodies[func_index])->Ok_0.0,
        ),
        globals: module.imported_globals + module.globals,
        num_imports: module.num_of_import_functions,
        memory_index: module.checkpoint_memory_index,
    }
}

/// The new body of function number `i`, where function number `func_index` gets
/// checkpoints.
pub open spec fn body_written(
    module: ModuleView,
    func_index: int,
    distributed: bool,
    i: int,
) -> Seq<u8> {
    let old_body = module.function_bodies[i];
    let groups = body::declared_groups(old_body)->Ok_0.0;
    if i == func_index {
        bodies::locals_written(groups.push((1u32, seq![0x7fu8]))) + reading::gathered(
            codegen::function_code(function_of(module, func_index), distributed)->Ok_0,
            bodies::instruction_written(old_body),
        )
    } else {
        bodies::locals_written(groups) + reading::gathered(
            body::instructions(old_body)->Ok_0,
            bodies::inst_moved(old_body, module.num_of_import_functions),
        )
    }
}

/// The new bodies of all functions.
pub open spec fn bodies_written(module: ModuleView, func_index: int, distributed: bool) -> Seq<
    Seq<u8>,
> {
    Seq::new(
        module.function_bodies.len(),
        |i: int| body_written(module, func_index, distributed, i),
    )
}

/// The result is the module in `bytes` with checkpoints in the function that the job
/// tells, and in no other.
pub open spec fn has_checkpoints(bytes: Seq<u8>, job: Job, result: Seq<u8>) -> bool {
    &&& encoder::module_header().is_prefix_of(result)
    &&& module::module_of(bytes) matches Ok(found) && {
        &&& job.func_index < found.function_bodies.len()
        &&& codegen::function_code(
            function_of(found, job.func_index as int),
            job.distributed,
        ) is Ok
        &&& contents::sections(result) == Some(
            contents::in_order(
                |id: u8|
                    contents::held_with_checkpoints(
                        found,
                        bodies_written(found, job.func_index as int, job.distributed),
                        id,
                    ),
            ),
        )
    }
}

/// The result is the module in `bytes` as it was.
pub open spec fn has_no_checkpoints(bytes: Seq<u8>, result: Seq<u8>) -> bool {
    &&& encoder::module_header().is_prefix_of(result)
    &&& module::module_of(bytes) matches Ok(found) && contents::sections(result) == Some(
        contents::in_order(|id: u8| contents::held(found, id)) + contents::customs(
            found.custom_section,
        ),
    )
}

/// A module that is the target gets checkpoints in the function that the job tells, and
/// any other module is carried over as it was.
pub proof fn law_module_result(bytes: Seq<u8>, job: Job, is_target: bool)
    ensures
        component::elaborated_module(bytes, job, is_target) matches Ok(result) ==> if is_target {
            has_checkpoints(bytes, job, result)
        } else {
            has_no_checkpoints(bytes, result)
        },
{
    if let Ok(result) = component::elaborated_module(bytes, job, is_target) {
        component::law_module_header(bytes, job, is_target);
        let found = module::module_of(bytes)->Ok_0;
        if is_target {
            let func_index = job.func_index as int;
            let target = inject::prepared(found, func_index, job.distributed)->Ok_0;
            contents::law_read_with_checkpoints(found, target);
            bodies::law_can_be_prepared(found, func_index, job.distributed);
            bodies::law_prepared(found, func_index, job.distributed, func_index);
            assert(target.plan =~= function_of(found, func_index));
            let expected = bodies_written(found, func_index, job.distributed);
            assert forall|i: int| 0 <= i < found.function_bodies.len() implies inject::new_body(
                found,
                target,
                i,
            )->Ok_0 == #[trigger] expected[i] by {
                assert(inject::new_body(found, target, i) is Ok);
                if i == func_index {
                    bodies::law_target_body(found, target);
                } else {
                    bodies::law_other_bodies(found, target, i);
                }
            }
            assert(inject::new_body(found, target, func_index) is Ok);
            bodies::law_target_body(found, target);
            assert(contents::bodies_of(found, target) =~= expected);
            let first = |id: u8|
                contents::held_with_checkpoints(found, contents::bodies_of(found, target), id);
            let second = |id: u8| contents::held_with_checkpoints(found, expected, id);
            assert(contents::in_order(first) == contents::in_order(second));
        } else {
            contents::law_carried_over(found);
        }
    }
}

/// The insertion into a binary that is a module puts checkpoints into the function that
/// the job tells.
pub proof fn law_module_migrated(bytes: Seq<u8>, job: Job)
    requires
        !reader::component_header().is_prefix_of(bytes),
    ensures
        migrate::migrated(bytes, job) matches Ok(result) ==> has_checkpoints(bytes, job, result),
{
    law_module_result(bytes, job, true);
}

/// A module or a component lies in a range of its binary, between these positions.
pub open spec fn container(piece: Payload) -> Option<(int, int)> {
    match piece {
        Payload::Section(SectionKind::CoreModule, start, end) => Some((start as int, end as int)),
        Payload::Section(SectionKind::Component, start, end) => Some((start as int, end as int)),
        _ => None,
    }
}

/// Piece number `i` lies in a module or component that comes before it.
pub open spec fn within(pieces: Seq<Payload>, i: int) -> bool {
    exists|j: int| 0 <= j < i && #[trigger] starts_in(pieces[i], pieces[j])
}

/// A section starts in a module or component.
pub open spec fn starts_in(inner: Payload, outer: Payload) -> bool {
    &&& container(outer) matches Some(range)
    &&& inner matches Payload::Section(_, start, _)
    &&& range.0 <= start < range.1
}

/// A module or component ends at this position.
pub open spec fn ends_at(piece: Payload, pos: int) -> bool {
    container(piece) matches Some(range) && range.1 == pos
}

/// Sections come in the order of their starts, and one that starts in a module or
/// component ends in it.
pub open spec fn nested(pieces: Seq<Payload>) -> bool {
    forall|i: int, j: int|
        0 <= j < i < pieces.len() ==> #[trigger] nested_in(pieces[j], #[trigger] pieces[i])
}

/// A section comes behind another one, or inside it.
pub open spec fn nested_in(outer: Payload, inner: Payload) -> bool {
    container(outer) matches Some(range) ==> (inner matches Payload::Section(_, start, end)
        ==> range.0 <= range.1 && range.0 <= start <= end && (start < range.1 ==> end <= range.1))
}

/// What is reached is the end of a module or component, and no end lies behind it.
proof fn lemma_reached(pieces: Seq<Payload>, count: int)
    requires
        0 <= count <= pieces.len(),
        nested(pieces),
    ensures
        component::reached(pieces, count) == 0 || exists|j: int|
            0 <= j < count && #[trigger] ends_at(pieces[j], component::reached(pieces, count)),
        forall|j: int|
            0 <= j < count ==> ((#[trigger] container(pieces[j])) matches Some(range)
                ==> range.1 <= component::reached(pieces, count)),
        component::reached(pieces, count) >= 0,
    decreases count,
{
    if count > 0 {
        let k = count - 1;
        lemma_reached(pieces, k);
        let before = component::reached(pieces, k);
        let now = component::reached(pieces, count);
        if let Some((start, end)) = container(pieces[k]) {
            if start < before {
                let j = choose|j: int| 0 <= j < k && #[trigger] ends_at(pieces[j], before);
                assert(nested_in(pieces[j], pieces[k]));
                assert(end <= before);
                assert(ends_at(pieces[j], now));
            } else {
                assert(now == end);
                assert(ends_at(pieces[k], now));
                assert forall|j: int| 0 <= j < k implies ((#[trigger] container(
                    pieces[j],
                )) matches Some(range) ==> range.1 <= now) by {
                    assert(nested_in(pieces[j], pieces[k]));
                }
            }
        } else if before != 0 {
            let j = choose|j: int| 0 <= j < k && #[trigger] ends_at(pieces[j], before);
            assert(ends_at(pieces[j], now));
        }
    }
}

/// A piece belongs to the component itself exactly if it lies in none of the modules and
/// components before it.
pub proof fn law_own_pieces(pieces: Seq<Payload>, i: int)
    requires
        0 <= i < pieces.len(),
        nested(pieces),
    ensures
        component::own(pieces, i) == !within(pieces, i),
{
    lemma_reached(pieces, i);
    if let Payload::Section(_, start, _) = pieces[i] {
        let reached = component::reached(pieces, i);
        if start < reached {
            let j = choose|j: int| 0 <= j < i && #[trigger] ends_at(pieces[j], reached);
            assert(nested_in(pieces[j], pieces[i]));
            assert(starts_in(pieces[i], pieces[j]));
            assert(within(pieces, i));
        }
    }
}

/// How many modules lie directly in a component, among its first `count` pieces.
pub open spec fn modules_among(pieces: Seq<Payload>, count: int) -> nat
    decreases count,
{
    if count <= 0 {
        0
    } else {
        modules_among(pieces, count - 1) + (if component::own(pieces, count - 1)
            && pieces[count - 1] matches Payload::Section(SectionKind::CoreModule, _, _) {
            1nat
        } else {
            0nat
        })
    }
}

/// What stands for a piece of a component in the encoded one is a single section with
/// this identifier and these contents.
pub open spec fn only_section(chunk: Seq<u8>, id: u8, found: Seq<u8>) -> bool {
    contents::sections_from(chunk, 0) == Some(seq![(id, found)])
}

/// What stands for piece number `i` of a component that is nested `depth` deep. A module
/// is encoded again, with checkpoints if it is the one that the job tells by the depth
/// of its component and its number in it. A component is encoded again in the same way.
/// Of the other pieces, sections are copied. What lies in a module or component has no
/// section of its own.
pub open spec fn stands_for(
    bytes: Seq<u8>,
    depth: int,
    job: Job,
    pieces: Seq<Payload>,
    i: int,
    chunk: Seq<u8>,
) -> bool
    decreases bytes.len(), 0int,
{
    if !component::own(pieces, i) {
        chunk == Seq::<u8>::empty()
    } else {
        match pieces[i] {
            Payload::Section(SectionKind::CoreModule, start, end) => {
                let found = contents::sections_from(chunk, 0)->Some_0[0].1;
                let inner = bytes.subrange(start as int, end as int);
                &&& start <= end <= bytes.len()
                &&& only_section(chunk, 1, found)
                &&& if job.target_component == depth && job.target_module == modules_among(
                    pieces,
                    i,
                ) + 1 {
                    has_checkpoints(inner, job, found)
                } else {
                    has_no_checkpoints(inner, found)
                }
            },
            Payload::Section(SectionKind::Component, start, end) => {
                let found = contents::sections_from(chunk, 0)->Some_0[0].1;
                &&& start <= end <= bytes.len()
                &&& end - start < bytes.len()
                &&& only_section(chunk, 4, found)
                &&& made_from(bytes.subrange(start as int, end as int), depth + 1, job, found)
            },
            Payload::Section(kind, _, _) => match kind {
                SectionKind::Custom
                | SectionKind::CoreInstance
                | SectionKind::CoreType
                | SectionKind::ComponentInstance
                | SectionKind::ComponentAlias
                | SectionKind::ComponentType
                | SectionKind::ComponentCanonical
                | SectionKind::ComponentStart
                | SectionKind::ComponentImport
                | SectionKind::ComponentExport => encoder::reencoded_piece(bytes, i) == Some(chunk),
                _ => chunk == Seq::<u8>::empty(),
            },
            _ => chunk == Seq::<u8>::empty(),
        }
    }
}

/// Bytes as they are.
pub open spec fn itself() -> spec_fn(Seq<u8>) -> Seq<u8> {
    |chunk: Seq<u8>| chunk
}

/// The result is made from the component in `bytes`, which is nested `depth` deep: behind
/// the header of a component comes what stands for each of its pieces, in their order.
pub open spec fn made_from(bytes: Seq<u8>, depth: int, job: Job, result: Seq<u8>) -> bool
    decreases bytes.len(), 1int,
{
    payload::parsed(bytes) matches Ok(pieces) && exists|chunks: Seq<Seq<u8>>|
        #![trigger reading::gathered(chunks, itself())]
        {
            &&& chunks.len() == pieces.len()
            &&& result == reader::component_header() + reading::gathered(chunks, itself())
            &&& forall|i: int|
                0 <= i < pieces.len() ==> stands_for(
                    bytes,
                    depth,
                    job,
                    pieces,
                    i,
                    #[trigger] chunks[i],
                )
        }
}

/// A section that stands alone is read again.
proof fn lemma_only_section(id: u8, found: Seq<u8>)
    requires
        found.len() <= u32::MAX,
    ensures
        only_section(encoder::section_bytes(id, found), id, found),
{
    let bytes = encoder::section_bytes(id, found);
    let size = leb::uleb128(found.len());
    assert(bytes.subrange(1, 1 + size.len() as int) =~= size);
    leb::law_decodes_encoded(bytes, 1, found.len() as u32);
    let start = 1 + size.len() as int;
    assert(bytes.subrange(start, start + found.len()) =~= found);
    assert(start + found.len() == bytes.len());
    assert(contents::sections_from(bytes, bytes.len() as int) == Some(
        Seq::<(u8, Seq<u8>)>::empty(),
    ));
    assert(seq![(id, found)] + Seq::<(u8, Seq<u8>)>::empty() =~= seq![(id, found)]);
}

/// What is added for one piece stands for it.
proof fn lemma_piece_stands(
    bytes: Seq<u8>,
    depth: int,
    job: Job,
    count: int,
) -> (chunk: Seq<u8>)
    requires
        payload::parsed(bytes) is Ok,
        0 < count <= payload::parsed(bytes)->Ok_0.len(),
        component::elaborated(bytes, depth, job, count) is Ok,
        component::elaborated(bytes, depth, job, count - 1)->Ok_0.modules == modules_among(
            payload::parsed(bytes)->Ok_0,
            count - 1,
        ),
    ensures
        stands_for(bytes, depth, job, payload::parsed(bytes)->Ok_0, count - 1, chunk),
        component::elaborated(bytes, depth, job, count)->Ok_0.bytes == component::elaborated(
            bytes,
            depth,
            job,
            count - 1,
        )->Ok_0.bytes + chunk,
        component::elaborated(bytes, depth, job, count)->Ok_0.modules == modules_among(
            payload::parsed(bytes)->Ok_0,
            count,
        ),
    decreases bytes.len(), count, 0int,
{
    let pieces = payload::parsed(bytes)->Ok_0;
    let i = count - 1;
    let before = component::elaborated(bytes, depth, job, i)->Ok_0;
    let after = component::elaborated(bytes, depth, job, count)->Ok_0;
    let none = Seq::<u8>::empty();
    assert(before.bytes + none =~= before.bytes);
    if !component::own(pieces, i) {
        none
    } else {
        match pieces[i] {
            Payload::Section(SectionKind::CoreModule, start, end) => {
                let inner = bytes.subrange(start as int, end as int);
                let is_target = job.target_component == depth && job.target_module
                    == before.modules + 1;
                law_module_result(inner, job, is_target);
                let found = component::elaborated_module(inner, job, is_target)->Ok_0;
                lemma_only_section(1, found);
                encoder::section_bytes(1, found)
            },
            Payload::Section(SectionKind::Component, start, end) => {
                let inner = bytes.subrange(start as int, end as int);
                let found = component::elaborated(
                    inner,
                    depth + 1,
                    job,
                    component::piece_count(inner) as int,
                )->Ok_0.bytes;
                lemma_component_made(inner, depth + 1, job);
                lemma_only_section(4, found);
                encoder::section_bytes(4, found)
            },
            _ => {
                if encoder::is_copied(pieces[i]) {
                    encoder::reencoded_piece(bytes, i)->Some_0
                } else {
                    none
                }
            },
        }
    }
}

/// What is added for the first pieces stands for these.
proof fn lemma_pieces_stand(bytes: Seq<u8>, depth: int, job: Job, count: int) -> (chunks: Seq<
    Seq<u8>,
>)
    requires
        payload::parsed(bytes) is Ok,
        0 <= count <= payload::parsed(bytes)->Ok_0.len(),
        component::elaborated(bytes, depth, job, count) is Ok,
    ensures
        chunks.len() == count,
        component::elaborated(bytes, depth, job, count)->Ok_0.bytes == reader::component_header()
            + reading::gathered(chunks, itself()),
        component::elaborated(bytes, depth, job, count)->Ok_0.modules == modules_among(
            payload::parsed(bytes)->Ok_0,
            count,
        ),
        forall|i: int|
            0 <= i < count ==> stands_for(
                bytes,
                depth,
                job,
                payload::parsed(bytes)->Ok_0,
                i,
                #[trigger] chunks[i],
            ),
    decreases bytes.len(), count, 1int,
{
    if count == 0 {
        let chunks = Seq::<Seq<u8>>::empty();
        assert(reader::component_header() + reading::gathered(chunks, itself())
            =~= reader::component_header());
        chunks
    } else {
        let before = lemma_pieces_stand(bytes, depth, job, count - 1);
        let chunk = lemma_piece_stands(bytes, depth, job, count);
        let chunks = before.push(chunk);
        assert(chunks.drop_last() =~= before);
        assert(reader::component_header() + reading::gathered(before, itself()) + chunk
            =~= reader::component_header() + reading::gathered(chunks, itself()));
        assert forall|i: int| 0 <= i < count implies stands_for(
            bytes,
            depth,
            job,
            payload::parsed(bytes)->Ok_0,
            i,
            #[trigger] chunks[i],
        ) by {
            if i < count - 1 {
                assert(chunks[i] == before[i]);
            }
        }
        chunks
    }
}

/// A component is made from its pieces.
proof fn lemma_component_made(bytes: Seq<u8>, depth: int, job: Job)
    ensures
        component::elaborated(
            bytes,
            depth,
            job,
            component::piece_count(bytes) as int,
        ) matches Ok(progress) ==> made_from(bytes, depth, job, progress.bytes),
    decreases bytes.len(), component::piece_count(bytes), 2int,
{
    let count = component::piece_count(bytes) as int;
    if component::elaborated(bytes, depth, job, count) is Ok {
        let chunks = lemma_pieces_stand(bytes, depth, job, count);
        assert(reading::gathered(chunks, itself()) == reading::gathered(chunks, itself()));
    }
}

/// The insertion into a component encodes each of its modules again, with checkpoints in
/// the one that the job tells, exactly as the insertion into that module alone, and
/// copies the rest.
pub proof fn law_component_migrated(bytes: Seq<u8>, job: Job)
    requires
        reader::component_header().is_prefix_of(bytes),
    ensures
        migrate::migrated(bytes, job) matches Ok(result) ==> made_from(bytes, 0, job, result),
{
    lemma_component_made(bytes, 0, job);
}

/// A module can be encoded again exactly if it can be read and, as the target, prepared,
/// and what comes out of that can be encoded.
pub proof fn law_module_succeeds(bytes: Seq<u8>, job: Job, is_target: bool)
    ensures
        component::elaborated_module(bytes, job, is_target) is Ok == (module::module_of(
            bytes,
        ) matches Ok(found) && if is_target {
            inject::prepared(found, job.func_index as int, job.distributed) matches Ok(target)
                && inject::encoded_module(found, Some(target)) is Ok
        } else {
            inject::encoded_module(found, None) is Ok
        }),
{
}

/// Piece number `i` of a component that is nested `depth` deep can be encoded again.
pub open spec fn piece_fits(
    bytes: Seq<u8>,
    depth: int,
    job: Job,
    pieces: Seq<Payload>,
    i: int,
) -> bool {
    component::own(pieces, i) ==> match pieces[i] {
        Payload::Section(SectionKind::CoreModule, start, end) => {
            &&& start <= end <= bytes.len()
            &&& modules_among(pieces, i) < i32::MAX
            &&& component::elaborated_module(
                bytes.subrange(start as int, end as int),
                job,
                job.target_component == depth && job.target_module == modules_among(pieces, i) + 1,
            ) matches Ok(found) && found.len() <= u32::MAX
        },
        Payload::Section(SectionKind::Component, start, end) => {
            let inner = bytes.subrange(start as int, end as int);
            &&& start <= end <= bytes.len()
            &&& end - start < bytes.len()
            &&& depth < i32::MAX
            &&& component::elaborated(
                inner,
                depth + 1,
                job,
                component::piece_count(inner) as int,
            ) matches Ok(found) && found.bytes.len() <= u32::MAX
        },
        Payload::Section(kind, start, end) => match kind {
            SectionKind::ComponentType
            | SectionKind::ComponentCanonical
            | SectionKind::ComponentImport
            | SectionKind::ComponentExport => end - start <= MAX_TYPED_SIZE
                && encoder::reencoded_piece(bytes, i) is Some,
            SectionKind::Custom
            | SectionKind::CoreInstance
            | SectionKind::CoreType
            | SectionKind::ComponentInstance
            | SectionKind::ComponentAlias
            | SectionKind::ComponentStart => encoder::reencoded_piece(bytes, i) is Some,
            _ => true,
        },
        _ => true,
    }
}

/// Whether the first pieces of a component can be encoded again.
proof fn lemma_pieces_fit(bytes: Seq<u8>, depth: int, job: Job, count: int)
    requires
        payload::parsed(bytes) is Ok,
        0 <= count <= payload::parsed(bytes)->Ok_0.len(),
    ensures
        component::elaborated(bytes, depth, job, count) is Ok == (forall|i: int|
            0 <= i < count ==> #[trigger] piece_fits(
                bytes,
                depth,
                job,
                payload::parsed(bytes)->Ok_0,
                i,
            )),
    decreases count,
{
    if count > 0 {
        let pieces = payload::parsed(bytes)->Ok_0;
        let k = count - 1;
        lemma_pieces_fit(bytes, depth, job, k);
        if component::elaborated(bytes, depth, job, k) is Ok {
            let chunks = lemma_pieces_stand(bytes, depth, job, k);
            let before = component::elaborated(bytes, depth, job, k)->Ok_0;
            assert(before.modules == modules_among(pieces, k));
            assert(component::elaborated(bytes, depth, job, count) is Ok == piece_fits(
                bytes,
                depth,
                job,
                pieces,
                k,
            ));
        }
    }
}

/// A component can be encoded again exactly if it can be parsed and each of its pieces can
/// be encoded again.
pub proof fn law_component_succeeds(bytes: Seq<u8>, depth: int, job: Job)
    ensures
        component::elaborated(bytes, depth, job, component::piece_count(bytes) as int) is Ok == (
        payload::parsed(bytes) matches Ok(pieces) && (forall|i: int|
            0 <= i < pieces.len() ==> #[trigger] piece_fits(bytes, depth, job, pieces, i))),
{
    if payload::parsed(bytes) is Ok {
        lemma_pieces_fit(bytes, depth, job, component::piece_count(bytes) as int);
    }
}

/// The insertion into a binary succeeds exactly if the binary is not too large and it, or
/// each of its pieces, can be encoded again.
pub proof fn law_insertion_succeeds(bytes: Seq<u8>, job: Job)
    ensures
        migrate::migrated(bytes, job) is Ok == (bytes.len() <= MAX_BINARY_SIZE && (
        if reader::component_header().is_prefix_of(bytes) {
            component::elaborated(bytes, 0, job, component::piece_count(bytes) as int) is Ok
                && component::outline(bytes, 0).len() <= i32::MAX
        } else {
            component::elaborated_module(bytes, job, true) is Ok
        })),
        bytes.len() > MAX_BINARY_SIZE ==> migrate::migrated(bytes, job) == Err::<
            Seq<u8>,
            MigrateError,
        >(MigrateError::TooLarge),
        bytes.len() <= MAX_BINARY_SIZE && reader::payloads(bytes) is None ==> migrate::migrated(
            bytes,
            job,
        ) == Err::<Seq<u8>, MigrateError>(MigrateError::Parse),
{
    reveal(module::module_of);
}

/// Why checkpoints cannot be inserted into a function: locals cannot be read, the function
/// is missing, its instructions cannot be read, a block is left open, there is no region,
/// its type is missing, or there are too many variables.
pub proof fn law_reasons(module: ModuleView, func_index: int, distributed: bool)
    requires
        0 <= func_index,
        forall|i: int|
            0 <= i < module.function_bodies.len() ==> body::declared_groups(
                #[trigger] module.function_bodies[i],
            ) is Ok,
    ensures
        inject::prepared(module, func_index, distributed) matches Err(error) ==> {
            let func = func_index + module.num_of_import_functions;
            let insts = body::instructions(module.function_bodies[func_index]);
            if func_index >= module.function_bodies.len() {
                error == MigrateError::MissingFunction
            } else if insts is Err {
                error == MigrateError::Parse
            } else if tree::tree_of(insts->Ok_0).stack.len() > 0 {
                error == MigrateError::UnbalancedBlocks
            } else if regions::top_level(tree::tree_of(insts->Ok_0).blocks).len() == 0 {
                error == MigrateError::NoRegions
            } else if func >= module.function_to_type.len() || module.function_to_type[func]
                >= module.type_params.len() {
                error == MigrateError::MissingType
            } else {
                error == MigrateError::TooLarge
            }
        },
{
    reveal(inject::prepared);
    bodies::lemma_locals_readable(module.function_bodies);
    if func_index < module.function_bodies.len() {
        let old_body = module.function_bodies[func_index];
        assert(body::declared_groups(old_body) is Ok);
        lemma_instructions_error(old_body, body::declared_groups(old_body)->Ok_0.1);
    }
}

/// Instructions that cannot be read are a matter of parsing.
proof fn lemma_instructions_error(bytes: Seq<u8>, pos: int)
    ensures
        body::insts_from(bytes, pos) matches Err(error) ==> error == MigrateError::Parse,
    decreases bytes.len() - pos,
{
    if pos < bytes.len() {
        if let Some((op, next)) = reader::operator_at(bytes, pos) {
            if pos < next <= bytes.len() {
                lemma_instructions_error(bytes, next);
            }
        }
    }
}

/// The job is the one that the indices tell. A negative index is that of no function.
pub proof fn law_job(migrate: migrate::WasmMigrate, distributed: bool, found: ModuleView)
    ensures
        migrate.func_index >= 0 ==> migrate.job(distributed).func_index == migrate.func_index,
        migrate.func_index < 0 && found.function_bodies.len() <= usize::MAX ==> inject::prepared(
            found,
            migrate.job(distributed).func_index as int,
            distributed,
        ) is Err,
        migrate.job(distributed).target_component == migrate.component_index,
        migrate.job(distributed).target_module == migrate.core_module_index,
        migrate.job(distributed).distributed == distributed,
{
    bodies::law_can_be_prepared(
        found,
        migrate.job(distributed).func_index as int,
        distributed,
    );
}

/// What is recorded of the module with checkpoints is what its function gives: the locals
/// of all functions, the tree of its blocks, the numbers of its regions, and the local
/// variables that each region writes.
pub proof fn law_recorded_function(recorded: CoreModule, bytes: Seq<u8>, job: Job, k: int, var: u32)
    requires
        recorded.describes(bytes, job, true),
    ensures
        ({
            let found = recorded.data@;
            let function = function_of(found, job.func_index as int);
            &&& module::module_of(bytes) == Ok::<ModuleView, MigrateError>(found)
            &&& job.func_index < found.function_bodies.len()
            &&& recorded.locals@.len() == found.function_bodies.len()
            &&& 0 <= k < recorded.locals@.len() ==> (body::declared_groups(
                found.function_bodies[k],
            ) matches Ok(groups) && views(recorded.locals@[k]@) == groups.0)
            &&& recorded.blocks@ == function.blocks
            &&& recorded.checkpoint_list@.len() == function.regions().len()
            &&& recorded.modified_vars_set@.len() == function.regions().len()
            &&& 0 <= k < function.regions().len() ==> {
                &&& recorded.checkpoint_list@[k] == function.regions()[k].index
                &&& recorded.modified_vars_set@[k]@.contains(var) == variables::sets_local(
                    function,
                    k,
                    var,
                )
            }
        }),
{
    let found = recorded.data@;
    let func_index = job.func_index as int;
    let function = function_of(found, func_index);
    bodies::law_can_be_prepared(found, func_index, job.distributed);
    bodies::law_prepared(found, func_index, job.distributed, func_index);
    let target = inject::prepared(found, func_index, job.distributed)->Ok_0;
    assert(target.plan =~= function);
    assert(inject::locals_view(recorded.locals@).len() == recorded.locals@.len());
    assert(views(recorded.modified_vars_set@).len() == recorded.modified_vars_set@.len());
    if 0 <= k < recorded.locals@.len() {
        bodies::law_prepared(found, func_index, job.distributed, k);
        assert(inject::locals_view(recorded.locals@)[k] == views(recorded.locals@[k]@));
    }
    if 0 <= k < function.regions().len() {
        variables::law_region_variables(function, k, var);
        assert(views(recorded.modified_vars_set@)[k] == recorded.modified_vars_set@[k]@);
    }
}

/// What is recorded of a component lists, in their order, the modules that lie directly in
/// it.
pub proof fn law_outline_modules(bytes: Seq<u8>, depth: int, job: Job, i: int)
    requires
        payload::parsed(bytes) is Ok,
        0 <= i < payload::parsed(bytes)->Ok_0.len(),
        component::elaborated(bytes, depth, job, component::piece_count(bytes) as int) is Ok,
    ensures
        ({
            let pieces = payload::parsed(bytes)->Ok_0;
            let modules = component::outline(bytes, depth)[0].modules;
            &&& modules.len() == modules_among(pieces, pieces.len() as int)
            &&& component::own(pieces, i) ==> (pieces[i] matches Payload::Section(
                SectionKind::CoreModule,
                start,
                end,
            ) ==> modules[modules_among(pieces, i) as int] == bytes.subrange(
                start as int,
                end as int,
            ))
        }),
{
    let pieces = payload::parsed(bytes)->Ok_0;
    law_component_succeeds(bytes, depth, job);
    lemma_module_contents(bytes, depth, job, pieces.len() as int, i);
}

/// The modules among the first pieces of a component.
proof fn lemma_module_contents(bytes: Seq<u8>, depth: int, job: Job, count: int, i: int)
    requires
        payload::parsed(bytes) is Ok,
        0 <= count <= payload::parsed(bytes)->Ok_0.len(),
        forall|k: int|
            0 <= k < count ==> #[trigger] piece_fits(
                bytes,
                depth,
                job,
                payload::parsed(bytes)->Ok_0,
                k,
            ),
    ensures
        ({
            let pieces = payload::parsed(bytes)->Ok_0;
            let modules = component::module_contents(bytes, count);
            &&& modules.len() == modules_among(pieces, count)
            &&& 0 <= i < count && component::own(pieces, i) ==> (
            pieces[i] matches Payload::Section(
                SectionKind::CoreModule,
                start,
                end,
            ) ==> modules_among(pieces, i) < modules.len() && modules[modules_among(
                pieces,
                i,
            ) as int] == bytes.subrange(start as int, end as int))
        }),
    decreases count,
{
    if count > 0 {
        lemma_module_contents(bytes, depth, job, count - 1, i);
        assert(piece_fits(bytes, depth, job, payload::parsed(bytes)->Ok_0, count - 1));
    }
}

/// The variable that is added to the function with checkpoints is the one behind its
/// parameters and locals.
pub proof fn law_added_variable(module: ModuleView, target: inject::TargetView)
    requires
        0 <= target.func_index < module.function_bodies.len(),
        inject::prepared(module, target.func_index, target.distributed) == Ok::<
            inject::TargetView,
            MigrateError,
        >(target),
    ensures
        ({
            let func = target.func_index + module.num_of_import_functions;
            let groups = target.locals[target.func_index];
            target.plan.resuming_var() == module.type_params[module.function_to_type[func] as int].len()
                + variables::declared(groups, groups.len() as int)
        }),
{
    bodies::law_prepared(module, target.func_index, target.distributed, target.func_index);
    bodies::law_can_be_prepared(module, target.func_index, target.distributed);
    variables::lemma_expanded_len(target.locals[target.func_index]);
}

/// The checkpoint memory is accessed without offset, and with an alignment that is allowed
/// for every type: no more bytes than a value takes.
pub proof fn law_access(plan: PlanView, ty: NumType)
    ensures
        codegen::mem_arg(plan).offset == 0,
        codegen::mem_arg(plan).memory_index == plan.memory_index,
        codegen::mem_arg(plan).align <= 2,
        vstd::arithmetic::power2::pow2(codegen::mem_arg(plan).align as nat) <= ty.width(),
{
    vstd::arithmetic::power2::lemma2_to64();
}

/// How many components lie in a component, at any depth, among its first `count` pieces.
pub open spec fn components_among(
    bytes: Seq<u8>,
    depth: int,
    pieces: Seq<Payload>,
    count: int,
) -> nat
    decreases count,
{
    if count <= 0 {
        0
    } else {
        components_among(bytes, depth, pieces, count - 1) + (match pieces[count - 1] {
            Payload::Section(SectionKind::Component, start, end) => if component::own(
                pieces,
                count - 1,
            ) {
                component::outline(bytes.subrange(start as int, end as int), depth + 1).len()
            } else {
                0
            },
            _ => 0,
        })
    }
}

/// The components among the first pieces of a component.
proof fn lemma_nested_outlines(bytes: Seq<u8>, depth: int, job: Job, count: int, i: int, j: int)
    requires
        payload::parsed(bytes) is Ok,
        0 <= count <= payload::parsed(bytes)->Ok_0.len(),
        forall|k: int|
            0 <= k < count ==> #[trigger] piece_fits(
                bytes,
                depth,
                job,
                payload::parsed(bytes)->Ok_0,
                k,
            ),
    ensures
        ({
            let pieces = payload::parsed(bytes)->Ok_0;
            let found = component::nested_outlines(bytes, depth, count);
            &&& found.len() == components_among(bytes, depth, pieces, count)
            &&& 0 <= i < count && component::own(pieces, i) ==> (
            pieces[i] matches Payload::Section(SectionKind::Component, start, end) ==> ({
                let inner = component::outline(
                    bytes.subrange(start as int, end as int),
                    depth + 1,
                );
                let place = components_among(bytes, depth, pieces, i);
                0 <= j < inner.len() ==> place + j < found.len() && found[place + j] == (Outline {
                    parent: match inner[j].parent {
                        None => Some(0int),
                        Some(parent) => Some(parent + place + 1),
                    },
                    ..inner[j]
                })
            }))
        }),
    decreases count,
{
    if count > 0 {
        let pieces = payload::parsed(bytes)->Ok_0;
        lemma_nested_outlines(bytes, depth, job, count - 1, i, j);
        assert(piece_fits(bytes, depth, job, pieces, count - 1));
    }
}

/// What is recorded of a binary lists the component that it is first, and behind it, for
/// each component that lies directly in it, what is recorded of that one, in their order.
/// Parents are places in the list.
pub proof fn law_outline_components(bytes: Seq<u8>, depth: int, job: Job, i: int, j: int)
    requires
        payload::parsed(bytes) is Ok,
        0 <= i < payload::parsed(bytes)->Ok_0.len(),
        component::elaborated(bytes, depth, job, component::piece_count(bytes) as int) is Ok,
    ensures
        ({
            let pieces = payload::parsed(bytes)->Ok_0;
            let found = component::outline(bytes, depth);
            &&& found.len() == 1 + components_among(bytes, depth, pieces, pieces.len() as int)
            &&& found[0].parent is None
            &&& found[0].depth == depth
            &&& component::own(pieces, i) ==> (pieces[i] matches Payload::Section(
                SectionKind::Component,
                start,
                end,
            ) ==> ({
                let inner = component::outline(
                    bytes.subrange(start as int, end as int),
                    depth + 1,
                );
                let place = 1 + components_among(bytes, depth, pieces, i);
                0 <= j < inner.len() ==> found[place + j] == (Outline {
                    parent: match inner[j].parent {
                        None => Some(0int),
                        Some(parent) => Some(parent + place),
                    },
                    ..inner[j]
                })
            }))
        }),
{
    let pieces = payload::parsed(bytes)->Ok_0;
    law_component_succeeds(bytes, depth, job);
    lemma_nested_outlines(bytes, depth, job, pieces.len() as int, i, j);
}

/// After the insertion into a component, each component is recorded under its place, with
/// the place of the one that holds it, or -1, and with its modules, of which only the
/// target comes with what was found out about a function.
pub proof fn law_recorded_components(
    migrate: migrate::WasmMigrate,
    bytes: Seq<u8>,
    job: Job,
    i: int,
    j: int,
)
    requires
        reader::component_header().is_prefix_of(bytes),
        migrate.recorded(bytes, job),
        0 <= i < migrate.components@.len(),
    ensures
        ({
            let outline = component::outline(bytes, 0)[i];
            let found = migrate.components@[i];
            &&& migrate.components@.len() == component::outline(bytes, 0).len()
            &&& !found.0.is_it_a_module
            &&& found.0.component_index == i
            &&& found.1 == (match outline.parent {
                Some(parent) => parent,
                None => -1int,
            })
            &&& found.0.core_modules@.len() == outline.modules.len()
            &&& 0 <= j < outline.modules.len() ==> found.0.core_modules@[j].describes(
                outline.modules[j],
                job,
                job.target_component == outline.depth && job.target_module == j + 1,
            )
        }),
{
    let found = migrate.components@[i];
    assert(record::lists_component(found.0, component::outline(bytes, 0)[i], job));
    if 0 <= j < found.0.core_modules@.len() {
        let module = found.0.core_modules@[j];
    }
}

/// After the insertion into a module, it is recorded as the only one of the only component.
pub proof fn law_recorded_module(migrate: migrate::WasmMigrate, bytes: Seq<u8>, job: Job)
    requires
        !reader::component_header().is_prefix_of(bytes),
        migrate.recorded(bytes, job),
    ensures
        migrate.components@.len() == 1,
        migrate.components@[0].1 == -1,
        migrate.components@[0].0.is_it_a_module,
        migrate.components@[0].0.component_index == 0,
        migrate.components@[0].0.core_modules@.len() == 1,
        migrate.components@[0].0.core_modules@[0].describes(bytes, job, true),
{
}

/// Modules that are not the target are recorded without anything about a function.
pub proof fn law_recorded_without_function(recorded: CoreModule, bytes: Seq<u8>, job: Job)
    requires
        recorded.describes(bytes, job, false),
    ensures
        module::module_of(bytes) == Ok::<ModuleView, MigrateError>(recorded.data@),
        recorded.locals@.len() == 0,
        recorded.blocks@.len() == 0,
        recorded.checkpoint_list@.len() == 0,
        recorded.modified_vars_set@.len() == 0,
{
}

/// The types that are reported of a function are those of the parameters of its type,
/// behind which come those of its locals.
pub proof fn law_reported_types_of(recorded: CoreModule, func_index: u32)
    ensures
        ({
            let func = func_index + recorded.data.num_of_import_functions;
            let functions = recorded.data.function_to_type@;
            let params = recorded.data.type_params@;
            if func < functions.len() && functions[func] < params.len() {
                migrate::types_of(recorded, func_index) == Ok::<Seq<ValType>, MigrateError>(
                    params[functions[func] as int]@ + layout::expanded(
                        views(recorded.locals@[func_index as int]@),
                    ),
                )
            } else {
                migrate::types_of(recorded, func_index) == Err::<Seq<ValType>, MigrateError>(
                    MigrateError::MissingType,
                )
            }
        }),
{
}

/// Why piece number `count - 1` of a component cannot be encoded again, where those before
/// it can.
pub proof fn law_why_piece_fails(bytes: Seq<u8>, depth: int, job: Job, count: int)
    requires
        payload::parsed(bytes) is Ok,
        0 < count <= payload::parsed(bytes)->Ok_0.len(),
        component::elaborated(bytes, depth, job, count - 1) is Ok,
    ensures
        component::elaborated(bytes, depth, job, count) matches Err(error) ==> {
            let pieces = payload::parsed(bytes)->Ok_0;
            let number = modules_among(pieces, count - 1) + 1;
            match pieces[count - 1] {
                Payload::Section(SectionKind::CoreModule, start, end) => {
                    let inner = bytes.subrange(start as int, end as int);
                    let is_target = job.target_component == depth && job.target_module == number;
                    if !(start <= end <= bytes.len()) {
                        error == MigrateError::OutOfBounds
                    } else if number > i32::MAX {
                        error == MigrateError::IndexOverflow
                    } else {
                        match component::elaborated_module(inner, job, is_target) {
                            Err(reason) => error == reason,
                            Ok(_) => error == MigrateError::TooLarge,
                        }
                    }
                },
                Payload::Section(SectionKind::Component, start, end) => {
                    let inner = bytes.subrange(start as int, end as int);
                    if !(start <= end <= bytes.len() && end - start < bytes.len()) {
                        error == MigrateError::OutOfBounds
                    } else if depth >= i32::MAX {
                        error == MigrateError::IndexOverflow
                    } else {
                        match component::elaborated(
                            inner,
                            depth + 1,
                            job,
                            component::piece_count(inner) as int,
                        ) {
                            Err(reason) => error == reason,
                            Ok(_) => error == MigrateError::TooLarge,
                        }
                    }
                },
                _ => if encoder::fits_again(pieces[count - 1]) {
                    error == MigrateError::Reencode
                } else {
                    error == MigrateError::TooLarge
                },
            }
        },
        component::elaborated(bytes, depth, job, count) matches Err(error)
            ==> component::elaborated(
            bytes,
            depth,
            job,
            component::piece_count(bytes) as int,
        ) == component::elaborated(bytes, depth, job, count),
{
    let chunks = lemma_pieces_stand(bytes, depth, job, count - 1);
    if component::elaborated(bytes, depth, job, count) is Err {
        component::lemma_elaborated_error(
            bytes,
            depth,
            job,
            count,
            component::piece_count(bytes) as int,
        );
    }
}

} // verus!
