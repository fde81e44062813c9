//! The sections and function bodies of a binary.

use vstd::prelude::*;
use crate::reader;
use crate::types::{MigrateError, RawPayload};

verus! {

/// What a section of a module or of a component holds.
#[derive(Clone, Copy, Debug, PartialEq, Eq, Structural)]
pub enum SectionKind {
    Custom,
    Type,
    Import,
    Function,
    Table,
    Memory,
    Global,
    Export,
    Start,
    Element,
    Code,
    Data,
    DataCount,
    Tag,
    CoreModule,
    CoreInstance,
    CoreType,
    Component,
    ComponentInstance,
    ComponentAlias,
    ComponentType,
    ComponentCanonical,
    ComponentStart,
    ComponentImport,
    ComponentExport,
    Unknown,
}

impl SectionKind {
    /// The kind of the section with identifier `id` in a module, or in a
    /// component.
    pub open spec fn of(component: bool, id: u8) -> SectionKind {
        if id == 0 {
            SectionKind::Custom
        } else if component {
            SectionKind::of_component(id)
        } else {
            SectionKind::of_module(id)
        }
    }

    /// The kind of the section with identifier `id` in a module.
    pub open spec fn of_module(id: u8) -> SectionKind {
        if id == 1 {
            SectionKind::Type
        } else if id == 2 {
            SectionKind::Import
        } else if id == 3 {
            SectionKind::Function
        } else if id == 4 {
            SectionKind::Table
        } else if id == 5 {
            SectionKind::Memory
        } else if id == 6 {
            SectionKind::Global
        } else if id == 7 {
            SectionKind::Export
        } else if id == 8 {
            SectionKind::Start
        } else if id == 9 {
            SectionKind::Element
        } else if id == 10 {
            SectionKind::Code
        } else if id == 11 {
            SectionKind::Data
        } else if id == 12 {
            SectionKind::DataCount
        } else if id == 13 {
            SectionKind::Tag
        } else {
            SectionKind::Unknown
        }
    }

    /// The kind of the section with identifier `id` in a component.
    pub open spec fn of_component(id: u8) -> SectionKind {
        if id == 1 {
            SectionKind::CoreModule
        } else if id == 2 {
            SectionKind::CoreInstance
        } else if id == 3 {
            SectionKind::CoreType
        } else if id == 4 {
            SectionKind::Component
        } else if id == 5 {
            SectionKind::ComponentInstance
        } else if id == 6 {
            SectionKind::ComponentAlias
        } else if id == 7 {
            SectionKind::ComponentType
        } else if id == 8 {
            SectionKind::ComponentCanonical
        } else if id == 9 {
            SectionKind::ComponentStart
        } else if id == 10 {
            SectionKind::ComponentImport
        } else if id == 11 {
            SectionKind::ComponentExport
        } else {
            SectionKind::Unknown
        }
    }

    /// Gives the kind of the section with identifier `id`.
    pub fn from_id(component: bool, id: u8) -> (kind: SectionKind)
        ensures
            kind == SectionKind::of(component, id),
    {
        match (component, id) {
            (_, 0) => SectionKind::Custom,
            (false, 1) => SectionKind::Type,
            (false, 2) => SectionKind::Import,
            (false, 3) => SectionKind::Function,
            (false, 4) => SectionKind::Table,
            (false, 5) => SectionKind::Memory,
            (false, 6) => SectionKind::Global,
            (false, 7) => SectionKind::Export,
            (false, 8) => SectionKind::Start,
            (false, 9) => SectionKind::Element,
            (false, 10) => SectionKind::Code,
            (false, 11) => SectionKind::Data,
            (false, 12) => SectionKind::DataCount,
            (false, 13) => SectionKind::Tag,
            (true, 1) => SectionKind::CoreModule,
            (true, 2) => SectionKind::CoreInstance,
            (true, 3) => SectionKind::CoreType,
            (true, 4) => SectionKind::Component,
            (true, 5) => SectionKind::ComponentInstance,
            (true, 6) => SectionKind::ComponentAlias,
            (true, 7) => SectionKind::ComponentType,
            (true, 8) => SectionKind::ComponentCanonical,
            (true, 9) => SectionKind::ComponentStart,
            (true, 10) => SectionKind::ComponentImport,
            (true, 11) => SectionKind::ComponentExport,
            _ => SectionKind::Unknown,
        }
    }
}

/// A piece of a binary whose place in it is known.
#[derive(Clone, Copy, Debug, PartialEq, Eq, Structural)]
pub enum Payload {
    /// A section and the range of its contents.
    Section(SectionKind, usize, usize),
    /// The range of a function body inside a code section.
    Body(usize, usize),
    /// A header, or an end.
    Mark,
}

/// Tells whether the innermost open module or component is a component.
pub open spec fn in_component(scopes: Seq<bool>) -> bool {
    scopes.len() > 0 && scopes.last()
}

/// The open modules (`false`) and components (`true`), outermost first, after
/// one more piece. A nested binary counts as a module until its header tells.
pub open spec fn scopes_step(scopes: Seq<bool>, raw: RawPayload) -> Seq<bool> {
    match raw {
        RawPayload::Version(component) => if scopes.len() == 0 {
            scopes
        } else {
            scopes.drop_last().push(component)
        },
        RawPayload::Section(id, _, _) => if in_component(scopes) && (id == 1 || id == 4) {
            scopes.push(false)
        } else {
            scopes
        },
        RawPayload::Body(_, _) => scopes,
        RawPayload::End => if scopes.len() == 0 {
            scopes
        } else {
            scopes.drop_last()
        },
    }
}

/// The open modules and components after the pieces `raw`.
pub open spec fn scopes_after(raw: Seq<RawPayload>) -> Seq<bool>
    decreases raw.len(),
{
    if raw.len() == 0 {
        seq![false]
    } else {
        scopes_step(scopes_after(raw.drop_last()), raw.last())
    }
}

/// The piece number `i` of `raw`.
pub open spec fn classified(raw: Seq<RawPayload>, i: int) -> Payload {
    match raw[i] {
        RawPayload::Section(id, start, end) => Payload::Section(
            SectionKind::of(in_component(scopes_after(raw.take(i))), id),
            start,
            end,
        ),
        RawPayload::Body(start, end) => Payload::Body(start, end),
        _ => Payload::Mark,
    }
}

/// The pieces `raw`, with the kinds of the sections among them.
pub open spec fn all_classified(raw: Seq<RawPayload>) -> Seq<Payload> {
    Seq::new(raw.len(), |i: int| classified(raw, i))
}

/// The pieces of a binary.
pub open spec fn parsed(bytes: Seq<u8>) -> Result<Seq<Payload>, MigrateError> {
    match reader::payloads(bytes) {
        Some(raw) => Ok(all_classified(raw)),
        None => Err(MigrateError::Parse),
    }
}

/// Splits a binary into its pieces.
pub fn parse_payloads(bytes: &[u8]) -> (found: Result<Vec<Payload>, MigrateError>)
    ensures
        match (found, parsed(bytes@)) {
            (Ok(pieces), Ok(view)) => pieces@ == view,
            (Err(error), Err(expected)) => error == expected,
            _ => false,
        },
{
    match reader::read_payloads(bytes) {
        Ok(raw) => Ok(classify(&raw)),
        Err(_) => Err(MigrateError::Parse),
    }
}

/// Finds out the kinds of the sections among the pieces of a binary.
pub fn classify(raw: &Vec<RawPayload>) -> (pieces: Vec<Payload>)
    ensures
        pieces@ == all_classified(raw@),
{
    let mut pieces: Vec<Payload> = Vec::new();
    let mut scopes: Vec<bool> = Vec::new();
    scopes.push(false);
    let mut i: usize = 0;
    assert(raw@.take(0) =~= Seq::empty());
    assert(scopes@ =~= seq![false]);
    while i < raw.len()
        invariant
            i <= raw@.len(),
            scopes@ == scopes_after(raw@.take(i as int)),
            pieces@ == Seq::new(i as nat, |j: int| classified(raw@, j)),
        decreases raw@.len() - i,
    {
        let component = scopes.len() > 0 && scopes[scopes.len() - 1];
        let ghost before = scopes@;
        match raw[i] {
            RawPayload::Version(is_component) => {
                if scopes.len() > 0 {
                    scopes.pop();
                    scopes.push(is_component);
                }
                pieces.push(Payload::Mark);
            },
            RawPayload::Section(id, start, end) => {
                pieces.push(Payload::Section(SectionKind::from_id(component, id), start, end));
                if component && (id == 1 || id == 4) {
                    scopes.push(false);
                }
            },
            RawPayload::Body(start, end) => {
                pieces.push(Payload::Body(start, end));
            },
            RawPayload::End => {
                scopes.pop();
                pieces.push(Payload::Mark);
            },
        }
        proof {
            assert(raw@.take(i + 1).drop_last() =~= raw@.take(i as int));
            assert(raw@.take(i + 1).last() == raw@[i as int]);
            assert(scopes@ =~= scopes_step(before, raw@[i as int]));
            assert(pieces@ =~= Seq::new((i + 1) as nat, |j: int| classified(raw@, j)));
        }
        i = i + 1;
    }
    pieces
}

/// The bytes from `start` to `end`, if they exist.
pub open spec fn span_of(bytes: Seq<u8>, start: int, end: int) -> Result<Seq<u8>, MigrateError> {
    if 0 <= start <= end <= bytes.len() {
        Ok(bytes.subrange(start, end))
    } else {
        Err(MigrateError::OutOfBounds)
    }
}

/// Takes the bytes from `start` to `end`.
pub fn span<'a>(bytes: &'a [u8], start: usize, end: usize) -> (found: Result<&'a [u8], MigrateError>)
    ensures
        match (found, span_of(bytes@, start as int, end as int)) {
            (Ok(slice), Ok(view)) => slice@ == view,
            (Err(error), Err(expected)) => error == expected,
            _ => false,
        },
{
    if start <= end && end <= bytes.len() {
        Ok(vstd::slice::slice_subrange(bytes, start, end))
    } else {
        Err(MigrateError::OutOfBounds)
    }
}

/// The sections of a module have the identifiers from zero to thirteen, and those of a
/// component the identifiers from zero to eleven.
pub proof fn law_section_kinds(id: u8)
    ensures
        SectionKind::of(false, id) == (match id {
            0 => SectionKind::Custom,
            1 => SectionKind::Type,
            2 => SectionKind::Import,
            3 => SectionKind::Function,
            4 => SectionKind::Table,
            5 => SectionKind::Memory,
            6 => SectionKind::Global,
            7 => SectionKind::Export,
            8 => SectionKind::Start,
            9 => SectionKind::Element,
            10 => SectionKind::Code,
            11 => SectionKind::Data,
            12 => SectionKind::DataCount,
            13 => SectionKind::Tag,
            _ => SectionKind::Unknown,
        }),
        SectionKind::of(true, id) == (match id {
            0 => SectionKind::Custom,
            1 => SectionKind::CoreModule,
            2 => SectionKind::CoreInstance,
            3 => SectionKind::CoreType,
            4 => SectionKind::Component,
            5 => SectionKind::ComponentInstance,
            6 => SectionKind::ComponentAlias,
            7 => SectionKind::ComponentType,
            8 => SectionKind::ComponentCanonical,
            9 => SectionKind::ComponentStart,
            10 => SectionKind::ComponentImport,
            11 => SectionKind::ComponentExport,
            _ => SectionKind::Unknown,
        }),
{
}

/// The pieces open no module or component and end none.
pub open spec fn is_flat(component: bool, pieces: Seq<RawPayload>) -> bool {
    forall|i: int|
        0 <= i < pieces.len() ==> match #[trigger] pieces[i] {
            RawPayload::Section(id, _, _) => !component || (id != 1 && id != 4),
            RawPayload::Body(_, _) => true,
            _ => false,
        }
}

/// Flat pieces leave the open modules and components as they are.
proof fn lemma_flat(before: Seq<RawPayload>, pieces: Seq<RawPayload>)
    requires
        is_flat(in_component(scopes_after(before)), pieces),
    ensures
        scopes_after(before + pieces) == scopes_after(before),
    decreases pieces.len(),
{
    if pieces.len() == 0 {
        assert(before + pieces =~= before);
    } else {
        let init = pieces.drop_last();
        assert forall|i: int| 0 <= i < init.len() implies match #[trigger] init[i] {
            RawPayload::Section(id, _, _) => !in_component(scopes_after(before)) || (id != 1 && id
                != 4),
            RawPayload::Body(_, _) => true,
            _ => false,
        } by {
            assert(init[i] == pieces[i]);
        }
        lemma_flat(before, init);
        assert((before + pieces).drop_last() =~= before + init);
        assert(pieces[pieces.len() - 1] == pieces.last());
    }
}

/// The sections behind a header are those of what the header says, a module or a component.
/// A section of a component that holds a module or a component opens it, so that what
/// follows counts as its own up to its end, and then the component goes on.
pub proof fn law_nested_binary(
    before: Seq<RawPayload>,
    id: u8,
    start: usize,
    end: usize,
    component: bool,
    inner: Seq<RawPayload>,
)
    requires
        in_component(scopes_after(before)),
        id == 1 || id == 4,
        is_flat(component, inner),
    ensures
        ({
            let opened = before + seq![
                RawPayload::Section(id, start, end),
                RawPayload::Version(component),
            ] + inner;
            &&& scopes_after(opened) == scopes_after(before).push(component)
            &&& in_component(scopes_after(opened)) == component
            &&& scopes_after(opened + seq![RawPayload::End]) == scopes_after(before)
            &&& in_component(scopes_after(seq![RawPayload::Version(component)])) == component
        }),
{
    let section = RawPayload::Section(id, start, end);
    let version = RawPayload::Version(component);
    let first = before.push(section);
    let second = first.push(version);
    assert(first.drop_last() =~= before);
    assert(second.drop_last() =~= first);
    assert(before + seq![section, version] =~= second);
    assert(scopes_after(first) == scopes_after(before).push(false));
    assert(scopes_after(before).push(false).drop_last() =~= scopes_after(before));
    assert(scopes_after(second) =~= scopes_after(before).push(component));
    lemma_flat(second, inner);
    let opened = second + inner;
    assert((opened + seq![RawPayload::End]).drop_last() =~= opened);
    assert(scopes_after(opened + seq![RawPayload::End]) =~= scopes_after(before));
    let alone = seq![version];
    assert(alone.drop_last() =~= Seq::empty());
    assert(scopes_after(alone.drop_last()) == seq![false]);
}

/// Each piece of a binary keeps its place and its range. A section is one of a component or
/// of a module, whichever is open there.
pub proof fn law_pieces_kept(bytes: Seq<u8>, raw: Seq<RawPayload>, i: int)
    requires
        reader::payloads(bytes) == Some(raw),
        0 <= i < raw.len(),
    ensures
        parsed(bytes) matches Ok(pieces) && pieces.len() == raw.len() && (match raw[i] {
            RawPayload::Section(id, start, end) => pieces[i] == Payload::Section(
                SectionKind::of(in_component(scopes_after(raw.take(i))), id),
                start,
                end,
            ),
            RawPayload::Body(start, end) => pieces[i] == Payload::Body(start, end),
            _ => pieces[i] == Payload::Mark,
        }),
{
}

} // verus!
