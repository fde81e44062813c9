//! What a module holds, read off the pieces of its binary.

use vstd::prelude::*;
use crate::bodies;
use crate::body;
use crate::contents;
use crate::encoder;
use crate::leb;
use crate::module;
use crate::module::ModuleView;
use crate::payload;
use crate::payload::{Payload, SectionKind};
use crate::reader;
use crate::section::SectionView;
use crate::types::{
    ExportView, Import, ItemsView, MigrateError, RawPayload, ValType, MAX_BINARY_SIZE,
};

verus! {

/// The pieces are those of a module: none is the header of a component.
pub open spec fn of_module(raw: Seq<RawPayload>) -> bool {
    forall|i: int| 0 <= i < raw.len() ==> #[trigger] raw[i] != RawPayload::Version(true)
}

/// The piece is a section with this identifier.
pub open spec fn is_section(piece: RawPayload, id: u8) -> bool {
    piece matches RawPayload::Section(found, _, _) && found == id
}

/// No two of the pieces are sections with this identifier.
pub open spec fn at_most_one(raw: Seq<RawPayload>, id: u8) -> bool {
    forall|i: int, j: int|
        0 <= i < j < raw.len() ==> !(is_section(#[trigger] raw[i], id) && is_section(
            #[trigger] raw[j],
            id,
        ))
}

/// The bytes in which a piece lies.
pub open spec fn data_of(bytes: Seq<u8>, piece: RawPayload) -> Seq<u8> {
    match piece {
        RawPayload::Section(_, start, end) => bytes.subrange(start as int, end as int),
        RawPayload::Body(start, end) => bytes.subrange(start as int, end as int),
        _ => Seq::empty(),
    }
}

/// What is found in each item, one after the other.
pub open spec fn gathered<S, T>(items: Seq<S>, found: spec_fn(S) -> Seq<T>) -> Seq<T>
    decreases items.len(),
{
    if items.len() == 0 {
        Seq::empty()
    } else {
        gathered(items.drop_last(), found) + found(items.last())
    }
}

/// A section with this identifier and these contents, encoded again.
pub open spec fn encoded_again(id: u8, data: Seq<u8>) -> Option<SectionView> {
    if id == 1 {
        encoder::reencoded_types(data)
    } else if id == 2 {
        encoder::reencoded_imports(data)
    } else if id == 3 {
        encoder::reencoded_functions(data)
    } else if id == 4 {
        encoder::reencoded_tables(data)
    } else if id == 5 {
        encoder::reencoded_memories(data)
    } else if id == 6 {
        encoder::reencoded_globals(data)
    } else if id == 7 {
        encoder::reencoded_exports(data)
    } else if id == 9 {
        encoder::reencoded_elements(data)
    } else if id == 10 {
        encoder::reencoded_code(data)
    } else if id == 11 {
        encoder::reencoded_data(data)
    } else if id == 13 {
        encoder::reencoded_tags(data)
    } else {
        None
    }
}

/// What a section with this identifier and these contents becomes: a number stays that
/// number, and everything else is encoded again. A section without entries is left out,
/// unless it is one of globals, elements or code.
pub open spec fn kept(id: u8, data: Seq<u8>) -> Option<Seq<u8>> {
    if id == 8 || id == 12 {
        match leb::decoded_u32(data, 0) {
            Some((number, _)) => Some(leb::uleb128(number as nat)),
            None => None,
        }
    } else {
        match encoded_again(id, data) {
            Some(section) => if section.count == 0 && id != 6 && id != 9 && id != 10 {
                None
            } else {
                Some(leb::uleb128(section.count) + section.entries)
            },
            None => None,
        }
    }
}

/// What a module holds under an identifier under which its binary has no section.
pub open spec fn absent(id: u8) -> Option<Seq<u8>> {
    if id == 6 {
        Some(leb::uleb128(0))
    } else {
        None
    }
}

/// In a module there are no open components.
proof fn lemma_scopes(raw: Seq<RawPayload>)
    requires
        of_module(raw),
    ensures
        !payload::in_component(payload::scopes_after(raw)),
        forall|i: int|
            0 <= i < payload::scopes_after(raw).len() ==> !#[trigger] payload::scopes_after(raw)[i],
    decreases raw.len(),
{
    if raw.len() > 0 {
        let init = raw.drop_last();
        assert forall|i: int| 0 <= i < init.len() implies #[trigger] init[i] != RawPayload::Version(
            true,
        ) by {
            assert(init[i] == raw[i]);
        }
        lemma_scopes(init);
        assert(raw.last() == raw[raw.len() - 1]);
    }
}

/// A piece of a module.
pub open spec fn piece_of(piece: RawPayload) -> Payload {
    match piece {
        RawPayload::Section(id, start, end) => Payload::Section(
            SectionKind::of(false, id),
            start,
            end,
        ),
        RawPayload::Body(start, end) => Payload::Body(start, end),
        _ => Payload::Mark,
    }
}

/// The pieces of a module before its last one, and the last one.
proof fn lemma_pieces(raw: Seq<RawPayload>)
    requires
        of_module(raw),
        raw.len() > 0,
    ensures
        of_module(raw.drop_last()),
        payload::all_classified(raw).drop_last() == payload::all_classified(raw.drop_last()),
        payload::all_classified(raw).last() == piece_of(raw.last()),
{
    let init = raw.drop_last();
    let n = raw.len() - 1;
    assert forall|i: int| 0 <= i < init.len() implies #[trigger] init[i] != RawPayload::Version(
        true,
    ) by {
        assert(init[i] == raw[i]);
    }
    assert forall|i: int| 0 <= i < init.len() implies payload::classified(raw, i)
        == #[trigger] payload::classified(init, i) by {
        assert(raw.take(i) =~= init.take(i));
    }
    assert(payload::all_classified(raw).drop_last() =~= payload::all_classified(init));
    assert(raw.take(n) =~= init);
    lemma_scopes(init);
    assert(payload::all_classified(raw).last() == payload::classified(raw, n));
}

/// What one more piece changes under an identifier.
#[verifier::rlimit(30)]
proof fn lemma_held_after(module: ModuleView, bytes: Seq<u8>, piece: RawPayload, id: u8)
    requires
        1 <= id <= 13,
    ensures
        module::with_piece(module, bytes, piece_of(piece)) matches Ok(after) ==> {
            &&& !is_section(piece, id) ==> contents::held(after, id) == contents::held(module, id)
            &&& !is_section(piece, 6) ==> after.global_section == module.global_section
            &&& is_section(piece, id) && contents::held(module, id) == absent(id) && (id == 6
                ==> module.global_section == SectionView::empty()) ==> contents::held(after, id)
                == kept(id, data_of(bytes, piece))
        },
{
    if let RawPayload::Section(found, start, end) = piece {
        let data = data_of(bytes, piece);
        if is_section(piece, 6) && id == 6 {
            if let Some(section) = encoder::reencoded_globals(data) {
                assert(SectionView::empty().concat(section) =~= section);
            }
        }
    }
}

/// What a module holds after these pieces under an identifier.
proof fn lemma_held(bytes: Seq<u8>, raw: Seq<RawPayload>, id: u8)
    requires
        of_module(raw),
        1 <= id <= 13,
        at_most_one(raw, id),
    ensures
        module::with_pieces(bytes, payload::all_classified(raw)) matches Ok(found) ==> {
            &&& (forall|i: int| 0 <= i < raw.len() ==> !is_section(#[trigger] raw[i], id))
                ==> contents::held(found, id) == absent(id) && (id == 6 ==> found.global_section
                == SectionView::empty())
            &&& forall|i: int|
                0 <= i < raw.len() && is_section(#[trigger] raw[i], id) ==> contents::held(
                    found,
                    id,
                ) == kept(id, data_of(bytes, raw[i]))
        },
    decreases raw.len(),
{
    let pieces = payload::all_classified(raw);
    if module::with_pieces(bytes, pieces) is Ok {
        if raw.len() == 0 {
            assert(leb::uleb128(0) + Seq::<u8>::empty() =~= leb::uleb128(0));
        } else {
            let init = raw.drop_last();
            let last = raw.last();
            lemma_pieces(raw);
            assert forall|i: int, j: int| 0 <= i < j < init.len() implies !(is_section(
                #[trigger] init[i],
                id,
            ) && is_section(#[trigger] init[j], id)) by {
                assert(init[i] == raw[i] && init[j] == raw[j]);
            }
            lemma_held(bytes, init, id);
            let before = module::with_pieces(bytes, pieces.drop_last())->Ok_0;
            let after = module::with_pieces(bytes, pieces)->Ok_0;
            lemma_held_after(before, bytes, last, id);
            assert(raw[raw.len() - 1] == last);
            if is_section(last, id) {
                assert forall|i: int| 0 <= i < init.len() implies !is_section(
                    #[trigger] init[i],
                    id,
                ) by {
                    assert(init[i] == raw[i]);
                }
            }
            if forall|i: int| 0 <= i < raw.len() ==> !is_section(#[trigger] raw[i], id) {
                assert forall|i: int| 0 <= i < init.len() implies !is_section(
                    #[trigger] init[i],
                    id,
                ) by {
                    assert(init[i] == raw[i]);
                }
            }
            assert forall|i: int|
                0 <= i < raw.len() && is_section(#[trigger] raw[i], id) implies contents::held(
                after,
                id,
            ) == kept(id, data_of(bytes, raw[i])) by {
                if i < init.len() {
                    assert(init[i] == raw[i]);
                    assert(!is_section(last, id));
                }
            }
        }
    }
}

/// Under each identifier, a module holds the section that its binary has under it,
/// encoded again, and nothing if the binary has none.
pub proof fn law_sections_read(bytes: Seq<u8>, raw: Seq<RawPayload>, id: u8)
    requires
        reader::payloads(bytes) == Some(raw),
        of_module(raw),
        1 <= id <= 13,
        at_most_one(raw, id),
    ensures
        module::module_of(bytes) matches Ok(found) ==> {
            &&& (forall|i: int| 0 <= i < raw.len() ==> !is_section(#[trigger] raw[i], id))
                ==> contents::held(found, id) == absent(id)
            &&& forall|i: int|
                0 <= i < raw.len() && is_section(#[trigger] raw[i], id) ==> contents::held(
                    found,
                    id,
                ) == kept(id, data_of(bytes, raw[i]))
        },
{
    reveal(module::module_of);
    lemma_held(bytes, raw, id);
}

/// The functions among imports.
pub open spec fn imported_functions(imports: Seq<Import>) -> Seq<u32> {
    gathered(
        imports,
        |import: Import|
            match import {
                Import::Function(ty) => seq![ty],
                _ => Seq::empty(),
            },
    )
}

/// The globals among imports.
pub open spec fn imported_globals(imports: Seq<Import>) -> Seq<(ValType, bool)> {
    gathered(
        imports,
        |import: Import|
            match import {
                Import::Global(ty, mutable) => seq![(ty, mutable)],
                _ => Seq::empty(),
            },
    )
}

/// The memories among imports.
pub open spec fn imported_memories(imports: Seq<Import>) -> Seq<Import> {
    gathered(
        imports,
        |import: Import|
            match import {
                Import::Memory => seq![import],
                _ => Seq::empty(),
            },
    )
}

/// The imports are told apart.
proof fn lemma_imports(imports: Seq<Import>)
    ensures
        module::function_imports(imports) == imported_functions(imports),
        module::global_imports(imports) == imported_globals(imports),
        module::memory_imports(imports) == imported_memories(imports).len(),
    decreases imports.len(),
{
    if imports.len() > 0 {
        let init = imports.drop_last();
        lemma_imports(init);
        assert(module::function_imports(imports) =~= imported_functions(imports));
        assert(module::global_imports(imports) =~= imported_globals(imports));
    }
}

/// The function body that a piece is.
pub open spec fn body_in(bytes: Seq<u8>) -> spec_fn(RawPayload) -> Seq<Seq<u8>> {
    |piece: RawPayload|
        if piece is Body {
            seq![data_of(bytes, piece)]
        } else {
            Seq::empty()
        }
}

/// The custom section that a piece is.
pub open spec fn custom_in(bytes: Seq<u8>) -> spec_fn(RawPayload) -> Seq<Seq<u8>> {
    |piece: RawPayload|
        if is_section(piece, 0) {
            seq![data_of(bytes, piece)]
        } else {
            Seq::empty()
        }
}

/// The parameters of the function types that a piece declares.
pub open spec fn params_in(bytes: Seq<u8>) -> spec_fn(RawPayload) -> Seq<Seq<ValType>> {
    |piece: RawPayload|
        if is_section(piece, 1) {
            reader::function_params(data_of(bytes, piece))->Some_0
        } else {
            Seq::empty()
        }
}

/// The results of the function types that a piece declares.
pub open spec fn results_in(bytes: Seq<u8>) -> spec_fn(RawPayload) -> Seq<Seq<ValType>> {
    |piece: RawPayload|
        if is_section(piece, 1) {
            reader::function_results(data_of(bytes, piece))->Some_0
        } else {
            Seq::empty()
        }
}

/// The types of the functions that a piece imports or declares.
pub open spec fn functions_in(bytes: Seq<u8>) -> spec_fn(RawPayload) -> Seq<u32> {
    |piece: RawPayload|
        if is_section(piece, 2) {
            imported_functions(reader::imports(data_of(bytes, piece))->Some_0)
        }         else if is_section(piece, 3) {
            reader::function_types(data_of(bytes, piece))->Some_0
        } else {
            Seq::empty()
        }
}

/// The types of the functions that a piece imports.
pub open spec fn function_imports_in(bytes: Seq<u8>) -> spec_fn(RawPayload) -> Seq<u32> {
    |piece: RawPayload|
        if is_section(piece, 2) {
            imported_functions(reader::imports(data_of(bytes, piece))->Some_0)
        } else {
            Seq::empty()
        }
}

/// The memories that a piece imports.
pub open spec fn memory_imports_in(bytes: Seq<u8>) -> spec_fn(RawPayload) -> Seq<Import> {
    |piece: RawPayload|
        if is_section(piece, 2) {
            imported_memories(reader::imports(data_of(bytes, piece))->Some_0)
        } else {
            Seq::empty()
        }
}

/// How many memories a piece declares.
pub open spec fn memories_in(bytes: Seq<u8>) -> spec_fn(RawPayload) -> nat {
    |piece: RawPayload|
        if is_section(piece, 5) {
            encoder::reencoded_memories(data_of(bytes, piece))->Some_0.count
        } else {
            0
        }
}

/// The sum of what is found in each item.
pub open spec fn summed<S>(items: Seq<S>, found: spec_fn(S) -> nat) -> nat
    decreases items.len(),
{
    if items.len() == 0 {
        0
    } else {
        summed(items.drop_last(), found) + found(items.last())
    }
}

/// The globals that a piece imports.
pub open spec fn global_imports_in(bytes: Seq<u8>) -> spec_fn(RawPayload) -> Seq<(ValType, bool)> {
    |piece: RawPayload|
        if is_section(piece, 2) {
            imported_globals(reader::imports(data_of(bytes, piece))->Some_0)
        } else {
            Seq::empty()
        }
}

/// The globals that a piece defines.
pub open spec fn globals_in(bytes: Seq<u8>) -> spec_fn(RawPayload) -> Seq<(ValType, bool)> {
    |piece: RawPayload|
        if is_section(piece, 6) {
            reader::global_types(data_of(bytes, piece))->Some_0
        } else {
            Seq::empty()
        }
}

/// The exports of a piece.
pub open spec fn exports_in(bytes: Seq<u8>) -> spec_fn(RawPayload) -> Seq<ExportView> {
    |piece: RawPayload|
        if is_section(piece, 7) {
            reader::exports(data_of(bytes, piece))->Some_0
        } else {
            Seq::empty()
        }
}

/// The lists of a module after these pieces are made of what is found in each piece.
pub open spec fn lists_found(bytes: Seq<u8>, raw: Seq<RawPayload>, found: ModuleView) -> bool {
    &&& found.function_bodies == gathered(raw, body_in(bytes))
    &&& found.custom_section == gathered(raw, custom_in(bytes))
    &&& found.type_params == gathered(raw, params_in(bytes))
    &&& found.type_results == gathered(raw, results_in(bytes))
    &&& found.function_to_type == gathered(raw, functions_in(bytes))
    &&& found.num_of_import_functions == gathered(raw, function_imports_in(bytes)).len()
    &&& found.num_of_import_memories == gathered(raw, memory_imports_in(bytes)).len()
    &&& found.checkpoint_memory_index == gathered(raw, memory_imports_in(bytes)).len() + summed(
        raw,
        memories_in(bytes),
    )
    &&& found.imported_globals == gathered(raw, global_imports_in(bytes))
    &&& found.globals == gathered(raw, globals_in(bytes))
    &&& found.exports == gathered(raw, exports_in(bytes))
}

/// One more piece adds what is found in it.
#[verifier::rlimit(40)]
proof fn lemma_lists_after(
    bytes: Seq<u8>,
    raw: Seq<RawPayload>,
    before: ModuleView,
    after: ModuleView,
)
    requires
        raw.len() > 0,
        lists_found(bytes, raw.drop_last(), before),
        module::with_piece(before, bytes, piece_of(raw.last())) == Ok::<ModuleView, MigrateError>(
            after,
        ),
    ensures
        lists_found(bytes, raw, after),
{
    let piece = raw.last();
    if is_section(piece, 2) {
        lemma_imports(reader::imports(data_of(bytes, piece))->Some_0);
    }
    assert(after.function_bodies =~= gathered(raw, body_in(bytes)));
    assert(after.custom_section =~= gathered(raw, custom_in(bytes)));
    assert(after.type_params =~= gathered(raw, params_in(bytes)));
    assert(after.type_results =~= gathered(raw, results_in(bytes)));
    assert(after.function_to_type =~= gathered(raw, functions_in(bytes)));
    assert(after.imported_globals =~= gathered(raw, global_imports_in(bytes)));
    assert(after.globals =~= gathered(raw, globals_in(bytes)));
    assert(after.exports =~= gathered(raw, exports_in(bytes)));
}

/// The lists of a module are made of what is found in the pieces of its binary.
proof fn lemma_lists(bytes: Seq<u8>, raw: Seq<RawPayload>)
    requires
        of_module(raw),
    ensures
        module::with_pieces(bytes, payload::all_classified(raw)) matches Ok(found) ==> lists_found(
            bytes,
            raw,
            found,
        ),
    decreases raw.len(),
{
    let pieces = payload::all_classified(raw);
    if module::with_pieces(bytes, pieces) is Ok {
        if raw.len() == 0 {
            assert(lists_found(bytes, raw, ModuleView::empty()));
        } else {
            lemma_pieces(raw);
            lemma_lists(bytes, raw.drop_last());
            lemma_lists_after(
                bytes,
                raw,
                module::with_pieces(bytes, pieces.drop_last())->Ok_0,
                module::with_pieces(bytes, pieces)->Ok_0,
            );
        }
    }
}

/// The bodies, types, functions, globals, exports and custom sections of a module are
/// those that its binary has, in their order. The checkpoint memory comes behind all the
/// memories that the binary imports and declares.
pub proof fn law_lists_read(bytes: Seq<u8>, raw: Seq<RawPayload>)
    requires
        reader::payloads(bytes) == Some(raw),
        of_module(raw),
    ensures
        module::module_of(bytes) matches Ok(found) ==> lists_found(bytes, raw, found),
{
    reveal(module::module_of);
    lemma_lists(bytes, raw);
}

/// Each function of the code section has the parameters and the results of the type that
/// the module declares for it, behind the imported functions.
pub proof fn law_signatures_read(bytes: Seq<u8>, i: int)
    ensures
        module::module_of(bytes) matches Ok(found) ==> {
            let func = i + found.num_of_import_functions;
            &&& found.params.len() == found.function_bodies.len()
            &&& found.results.len() == found.function_bodies.len()
            &&& 0 <= i < found.function_bodies.len() && func < found.function_to_type.len() ==> {
                let ty = found.function_to_type[func] as int;
                &&& ty < found.type_params.len() ==> found.params[i] == found.type_params[ty]
                &&& ty < found.type_results.len() ==> found.results[i] == found.type_results[ty]
            }
        },
{
    reveal(module::module_of);
}

/// The indices of functions, moved behind the functions of the host.
pub open spec fn indices_moved(indices: Seq<u32>, num_imports: u32) -> Seq<u32> {
    Seq::new(indices.len(), |i: int| contents::new_index(indices[i], num_imports) as u32)
}

/// A constant expression without its final `end`, with the functions that it refers to at
/// their new indices.
pub open spec fn expression_moved(num_imports: u32) -> spec_fn(Seq<u8>) -> Seq<u8> {
    |expr: Seq<u8>|
        gathered(
            body::insts_from(expr, 0)->Ok_0.drop_last(),
            bodies::inst_moved(expr, num_imports),
        )
}

/// An element segment with the functions that it refers to at their new indices, as the
/// only one of a section.
pub open spec fn segment_moved(
    data: Seq<u8>,
    items: Seq<ItemsView>,
    num_imports: u32,
    i: int,
) -> Option<SectionView> {
    match items[i] {
        ItemsView::Functions(indices) => encoder::element_with_functions(
            data,
            i,
            indices_moved(indices, num_imports),
        ),
        ItemsView::Expressions(exprs) => encoder::element_with_expressions(
            data,
            i,
            Seq::new(exprs.len(), |j: int| expression_moved(num_imports)(exprs[j])),
        ),
    }
}

/// All segments of an element section, each as the only one of a section.
pub open spec fn segments_moved(data: Seq<u8>, items: Seq<ItemsView>, num_imports: u32) -> Seq<
    SectionView,
> {
    Seq::new(items.len(), |i: int| segment_moved(data, items, num_imports, i)->Some_0)
}

/// How many entries a section has.
pub open spec fn count_of() -> spec_fn(SectionView) -> nat {
    |section: SectionView| section.count
}

/// The entries of a section.
pub open spec fn entries_of() -> spec_fn(SectionView) -> Seq<u8> {
    |section: SectionView| section.entries
}

/// All indices are moved.
proof fn lemma_indices_moved(indices: Seq<u32>, num_imports: u32)
    ensures
        module::shifted_all(indices, num_imports) matches Ok(found) ==> found == indices_moved(
            indices,
            num_imports,
        ),
        module::shifted_all(indices, num_imports) is Ok == (forall|i: int|
            0 <= i < indices.len() ==> contents::new_index(#[trigger] indices[i], num_imports)
                <= u32::MAX),
    decreases indices.len(),
{
    if indices.len() > 0 {
        let init = indices.drop_last();
        lemma_indices_moved(init, num_imports);
        contents::law_moved_up(indices.last(), num_imports);
        assert(indices[indices.len() - 1] == indices.last());
        if module::shifted_all(indices, num_imports) is Ok {
            assert(module::shifted_all(indices, num_imports)->Ok_0 =~= indices_moved(
                indices,
                num_imports,
            ));
            assert forall|i: int| 0 <= i < indices.len() implies contents::new_index(
                #[trigger] indices[i],
                num_imports,
            ) <= u32::MAX by {
                if i < init.len() {
                    assert(init[i] == indices[i]);
                }
            }
        }
        if forall|i: int|
            0 <= i < indices.len() ==> contents::new_index(#[trigger] indices[i], num_imports)
                <= u32::MAX {
            assert forall|i: int| 0 <= i < init.len() implies contents::new_index(
                #[trigger] init[i],
                num_imports,
            ) <= u32::MAX by {
                assert(init[i] == indices[i]);
            }
        }
    } else {
        assert(indices_moved(indices, num_imports) =~= Seq::empty());
    }
}

/// All expressions are moved.
proof fn lemma_expressions_moved(exprs: Seq<Seq<u8>>, num_imports: u32)
    ensures
        module::shifted_expressions(exprs, num_imports) matches Ok(found) ==> found == Seq::new(
            exprs.len(),
            |j: int| expression_moved(num_imports)(exprs[j]),
        ),
    decreases exprs.len(),
{
    if exprs.len() > 0 {
        lemma_expressions_moved(exprs.drop_last(), num_imports);
        if let Ok(found) = module::shifted_expressions(exprs, num_imports) {
            let last = exprs.last();
            bodies::lemma_insts_moved(
                last,
                body::insts_from(last, 0)->Ok_0.drop_last(),
                num_imports,
            );
            assert(found =~= Seq::new(
                exprs.len(),
                |j: int| expression_moved(num_imports)(exprs[j]),
            ));
        }
    } else {
        assert(Seq::new(exprs.len(), |j: int| expression_moved(num_imports)(exprs[j]))
            =~= Seq::empty());
    }
}

/// The first segments of an element section are moved.
proof fn lemma_segments_moved(data: Seq<u8>, items: Seq<ItemsView>, count: int, num_imports: u32)
    requires
        0 <= count <= items.len(),
    ensures
        module::shifted_elements(data, items, count, num_imports) matches Ok(found) ==> {
            let segments = segments_moved(data, items, num_imports).take(count);
            &&& found.count == summed(segments, count_of())
            &&& found.entries == gathered(segments, entries_of())
            &&& forall|i: int|
                0 <= i < count ==> #[trigger] segment_moved(data, items, num_imports, i) is Some
        },
    decreases count,
{
    let segments = segments_moved(data, items, num_imports).take(count);
    if count > 0 {
        let k = count - 1;
        lemma_segments_moved(data, items, k, num_imports);
        assert(segments.drop_last() =~= segments_moved(data, items, num_imports).take(k));
        match items[k] {
            ItemsView::Functions(indices) => lemma_indices_moved(indices, num_imports),
            ItemsView::Expressions(exprs) => lemma_expressions_moved(exprs, num_imports),
        }
    } else {
        assert(segments =~= Seq::empty());
    }
}

/// What an element section becomes in a module with checkpoints.
pub open spec fn elements_moved(data: Seq<u8>, num_imports: u32) -> Option<SectionView> {
    let segments = segments_moved(data, reader::element_items(data)->Some_0, num_imports);
    if summed(segments, count_of()) == 0 {
        None
    } else {
        Some(
            SectionView {
                count: summed(segments, count_of()),
                entries: gathered(segments, entries_of()),
            },
        )
    }
}

/// What one more piece changes of the elements.
proof fn lemma_elements_after(module: ModuleView, bytes: Seq<u8>, piece: RawPayload)
    ensures
        module::with_piece(module, bytes, piece_of(piece)) matches Ok(after) ==> {
            &&& !is_section(piece, 9) ==> after.element_section_with_cr
                == module.element_section_with_cr
            &&& !is_section(piece, 2) ==> after.num_of_import_functions
                == module.num_of_import_functions
            &&& is_section(piece, 9) && module.element_section_with_cr is None
                ==> after.element_section_with_cr == elements_moved(
                data_of(bytes, piece),
                module.num_of_import_functions,
            )
        },
{
    if is_section(piece, 9) && module::with_piece(module, bytes, piece_of(piece)) is Ok {
        let data = data_of(bytes, piece);
        let items = reader::element_items(data)->Some_0;
        let count = items.len() as int;
        lemma_segments_moved(data, items, count, module.num_of_import_functions);
        let segments = segments_moved(data, items, module.num_of_import_functions);
        assert(segments.take(count) =~= segments);
        let found = module::shifted_elements(data, items, count, module.num_of_import_functions)->Ok_0;
        assert(found =~= SectionView {
            count: summed(segments, count_of()),
            entries: gathered(segments, entries_of()),
        });
    }
}

/// Imports come before elements.
pub open spec fn imports_first(raw: Seq<RawPayload>) -> bool {
    forall|i: int, j: int|
        0 <= i < j < raw.len() ==> !(is_section(#[trigger] raw[i], 9) && is_section(
            #[trigger] raw[j],
            2,
        ))
}

/// The elements of a module after these pieces.
proof fn lemma_elements(bytes: Seq<u8>, raw: Seq<RawPayload>)
    requires
        of_module(raw),
        at_most_one(raw, 9),
        imports_first(raw),
    ensures
        module::with_pieces(bytes, payload::all_classified(raw)) matches Ok(found) ==> {
            &&& (forall|i: int| 0 <= i < raw.len() ==> !is_section(#[trigger] raw[i], 9))
                ==> found.element_section_with_cr is None
            &&& forall|i: int|
                0 <= i < raw.len() && is_section(#[trigger] raw[i], 9)
                    ==> found.element_section_with_cr == elements_moved(
                    data_of(bytes, raw[i]),
                    found.num_of_import_functions,
                )
        },
    decreases raw.len(),
{
    let pieces = payload::all_classified(raw);
    if module::with_pieces(bytes, pieces) is Ok && raw.len() > 0 {
        let init = raw.drop_last();
        let last = raw.last();
        lemma_pieces(raw);
        assert forall|i: int, j: int| 0 <= i < j < init.len() implies !(is_section(
            #[trigger] init[i],
            9,
        ) && is_section(#[trigger] init[j], 9)) && !(is_section(init[i], 9) && is_section(
            init[j],
            2,
        )) by {
            assert(init[i] == raw[i] && init[j] == raw[j]);
        }
        lemma_elements(bytes, init);
        let before = module::with_pieces(bytes, pieces.drop_last())->Ok_0;
        let after = module::with_pieces(bytes, pieces)->Ok_0;
        lemma_elements_after(before, bytes, last);
        assert(raw[raw.len() - 1] == last);
        if is_section(last, 9) {
            assert forall|i: int| 0 <= i < init.len() implies !is_section(#[trigger] init[i], 9) by {
                assert(init[i] == raw[i]);
            }
        }
        if forall|i: int| 0 <= i < raw.len() ==> !is_section(#[trigger] raw[i], 9) {
            assert forall|i: int| 0 <= i < init.len() implies !is_section(#[trigger] init[i], 9) by {
                assert(init[i] == raw[i]);
            }
        }
        assert forall|i: int|
            0 <= i < raw.len() && is_section(
                #[trigger] raw[i],
                9,
            ) implies after.element_section_with_cr == elements_moved(
            data_of(bytes, raw[i]),
            after.num_of_import_functions,
        ) by {
            if i < init.len() {
                assert(init[i] == raw[i]);
                assert(!is_section(last, 9));
                assert(!is_section(last, 2));
            }
        }
    }
}

/// In a module with checkpoints, the element section of its binary refers to functions at
/// their new indices, segment by segment, in lists of indices and in expressions.
pub proof fn law_elements_read(bytes: Seq<u8>, raw: Seq<RawPayload>)
    requires
        reader::payloads(bytes) == Some(raw),
        of_module(raw),
        at_most_one(raw, 9),
        imports_first(raw),
    ensures
        module::module_of(bytes) matches Ok(found) ==> {
            &&& (forall|i: int| 0 <= i < raw.len() ==> !is_section(#[trigger] raw[i], 9))
                ==> found.element_section_with_cr is None
            &&& forall|i: int|
                0 <= i < raw.len() && is_section(#[trigger] raw[i], 9)
                    ==> found.element_section_with_cr == elements_moved(
                    data_of(bytes, raw[i]),
                    found.num_of_import_functions,
                )
        },
{
    reveal(module::module_of);
    lemma_elements(bytes, raw);
}

/// A constant expression can be encoded again with the functions that it refers to at
/// their new indices.
pub open spec fn expression_fits(expr: Seq<u8>, num_imports: u32) -> bool {
    body::insts_from(expr, 0) matches Ok(insts) && insts.len() > 0 && (forall|i: int|
        0 <= i < insts.len() - 1 ==> bodies::call_fits(#[trigger] insts[i], num_imports)
            && bodies::again_fits(expr, insts[i]))
}

/// How many bytes a constant expression takes then.
pub open spec fn expression_size(num_imports: u32) -> spec_fn(Seq<u8>) -> nat {
    |expr: Seq<u8>| expression_moved(num_imports)(expr).len()
}

/// An element segment can be encoded again with the functions that it refers to at their
/// new indices.
pub open spec fn segment_fits(
    data: Seq<u8>,
    items: Seq<ItemsView>,
    num_imports: u32,
    i: int,
) -> bool {
    &&& match items[i] {
        ItemsView::Functions(indices) => indices.len() <= MAX_BINARY_SIZE / 8 && (forall|j: int|
            0 <= j < indices.len() ==> contents::new_index(#[trigger] indices[j], num_imports)
                <= u32::MAX),
        ItemsView::Expressions(exprs) => {
            &&& exprs.len() <= MAX_BINARY_SIZE / 4
            &&& forall|j: int|
                0 <= j < exprs.len() ==> expression_fits(#[trigger] exprs[j], num_imports)
            &&& summed(exprs, expression_size(num_imports)) <= MAX_BINARY_SIZE / 2
        },
    }
    &&& segment_moved(data, items, num_imports, i) is Some
}

/// An element section can be encoded again with the functions that it refers to at their
/// new indices.
pub open spec fn elements_fit(data: Seq<u8>, num_imports: u32) -> bool {
    reader::element_items(data) matches Some(items) && (forall|i: int|
        0 <= i < items.len() ==> #[trigger] segment_fits(data, items, num_imports, i)) && summed(
        segments_moved(data, items, num_imports),
        count_of(),
    ) <= u32::MAX
}

/// An expression can be moved exactly if it fits.
proof fn lemma_expression_fits(expr: Seq<u8>, num_imports: u32)
    ensures
        module::shifted_expression(expr, num_imports) is Ok == expression_fits(expr, num_imports),
        module::shifted_expression(expr, num_imports) matches Ok(found) ==> found
            == expression_moved(num_imports)(expr),
{
    if let Ok(insts) = body::insts_from(expr, 0) {
        if insts.len() > 0 {
            let init = insts.drop_last();
            bodies::lemma_insts_fit(expr, init, num_imports);
            bodies::lemma_insts_moved(expr, init, num_imports);
            assert(expression_fits(expr, num_imports) == ((forall|i: int|
                0 <= i < init.len() ==> bodies::call_fits(#[trigger] init[i], num_imports)) && (
            forall|i: int|
                0 <= i < init.len() ==> bodies::again_fits(expr, #[trigger] init[i])))) by {
                assert(forall|i: int| 0 <= i < init.len() ==> #[trigger] init[i] == insts[i]);
                assert(forall|i: int| 0 <= i < init.len() ==> #[trigger] insts[i] == init[i]);
            }
        }
    }
}

/// The bytes of expressions are counted.
proof fn lemma_total(exprs: Seq<Seq<u8>>, num_imports: u32)
    ensures
        encoder::total(Seq::new(exprs.len(), |j: int| expression_moved(num_imports)(exprs[j])))
            == summed(exprs, expression_size(num_imports)),
    decreases exprs.len(),
{
    let moved = Seq::new(exprs.len(), |j: int| expression_moved(num_imports)(exprs[j]));
    if exprs.len() > 0 {
        let init = exprs.drop_last();
        lemma_total(init, num_imports);
        assert(moved.drop_last() =~= Seq::new(
            init.len(),
            |j: int| expression_moved(num_imports)(init[j]),
        ));
    }
}

/// Expressions can be moved exactly if each fits and they are not too large together.
proof fn lemma_expressions_fit(exprs: Seq<Seq<u8>>, num_imports: u32)
    ensures
        module::shifted_expressions(exprs, num_imports) is Ok == ((forall|j: int|
            0 <= j < exprs.len() ==> expression_fits(#[trigger] exprs[j], num_imports)) && summed(
            exprs,
            expression_size(num_imports),
        ) <= MAX_BINARY_SIZE / 2),
    decreases exprs.len(),
{
    if exprs.len() > 0 {
        let init = exprs.drop_last();
        lemma_expressions_fit(init, num_imports);
        lemma_expressions_moved(init, num_imports);
        lemma_expression_fits(exprs.last(), num_imports);
        lemma_total(init, num_imports);
        assert(exprs[exprs.len() - 1] == exprs.last());
        assert((forall|j: int|
            0 <= j < exprs.len() ==> expression_fits(#[trigger] exprs[j], num_imports)) == (
        expression_fits(exprs.last(), num_imports) && (forall|j: int|
            0 <= j < init.len() ==> expression_fits(#[trigger] init[j], num_imports)))) by {
            assert(forall|i: int| 0 <= i < init.len() ==> #[trigger] init[i] == exprs[i]);
            assert(forall|i: int| 0 <= i < init.len() ==> #[trigger] exprs[i] == init[i]);
        }
    }
}

/// The first segments can be moved exactly if each fits and their entries can be counted.
proof fn lemma_segments_fit(data: Seq<u8>, items: Seq<ItemsView>, count: int, num_imports: u32)
    requires
        0 <= count <= items.len(),
    ensures
        module::shifted_elements(data, items, count, num_imports) is Ok == ((forall|i: int|
            0 <= i < count ==> #[trigger] segment_fits(data, items, num_imports, i)) && summed(
            segments_moved(data, items, num_imports).take(count),
            count_of(),
        ) <= u32::MAX),
    decreases count,
{
    let segments = segments_moved(data, items, num_imports);
    if count > 0 {
        let k = count - 1;
        lemma_segments_fit(data, items, k, num_imports);
        lemma_segments_moved(data, items, k, num_imports);
        assert(segments.take(count).drop_last() =~= segments.take(k));
        match items[k] {
            ItemsView::Functions(indices) => {
                lemma_indices_moved(indices, num_imports);
            },
            ItemsView::Expressions(exprs) => {
                lemma_expressions_fit(exprs, num_imports);
                lemma_expressions_moved(exprs, num_imports);
            },
        }
        assert(module::shifted_element(data, k, items[k], num_imports) is Ok == segment_fits(
            data,
            items,
            num_imports,
            k,
        ));
        assert(module::shifted_element(data, k, items[k], num_imports) is Ok ==> segments[k]
            == module::shifted_element(data, k, items[k], num_imports)->Ok_0);
    } else {
        assert(segments.take(0) =~= Seq::empty());
    }
}

/// An element section can be moved exactly if it fits.
proof fn lemma_elements_fit(data: Seq<u8>, num_imports: u32)
    requires
        reader::element_items(data) is Some,
    ensures
        module::shifted_elements(
            data,
            reader::element_items(data)->Some_0,
            reader::element_items(data)->Some_0.len() as int,
            num_imports,
        ) is Ok == elements_fit(data, num_imports),
{
    let items = reader::element_items(data)->Some_0;
    lemma_segments_fit(data, items, items.len() as int, num_imports);
    let segments = segments_moved(data, items, num_imports);
    assert(segments.take(items.len() as int) =~= segments);
}

/// A piece of a module can be read, where the module imports this many functions.
pub open spec fn piece_reads(bytes: Seq<u8>, piece: RawPayload, num_imports: u32) -> bool {
    let data = data_of(bytes, piece);
    match piece {
        RawPayload::Body(start, end) => start <= end <= bytes.len(),
        RawPayload::Section(id, start, end) => id > 13 || {
            &&& start <= end <= bytes.len()
            &&& id == 0 || id == 8 || id == 12 || encoded_again(id, data) is Some
            &&& id == 1 ==> reader::function_params(data) is Some && reader::function_results(
                data,
            ) is Some
            &&& id == 2 ==> reader::imports(data) is Some
            &&& id == 3 ==> reader::function_types(data) is Some
            &&& id == 6 ==> (reader::global_types(data) matches Some(globals) && (forall|i: int|
                0 <= i < globals.len() ==> (#[trigger] globals[i]).0 != ValType::Ref))
            &&& id == 7 ==> reader::exports(data) is Some
            &&& id == 8 || id == 12 ==> leb::decoded_u32(data, 0) is Some
            &&& id == 9 ==> elements_fit(data, num_imports)
        },
        _ => true,
    }
}

/// How many globals a piece defines.
pub open spec fn global_count_in(bytes: Seq<u8>) -> spec_fn(RawPayload) -> nat {
    |piece: RawPayload|
        if is_section(piece, 6) {
            encoder::reencoded_globals(data_of(bytes, piece))->Some_0.count
        } else {
            0
        }
}

/// The functions, memories and globals of the pieces can be counted.
pub open spec fn counts_fit(bytes: Seq<u8>, raw: Seq<RawPayload>) -> bool {
    &&& gathered(raw, function_imports_in(bytes)).len() <= u32::MAX
    &&& gathered(raw, memory_imports_in(bytes)).len() + summed(raw, memories_in(bytes))
        <= u32::MAX
    &&& summed(raw, global_count_in(bytes)) <= u32::MAX
}

/// Whether one more piece can be read.
#[verifier::rlimit(40)]
proof fn lemma_piece_reads(bytes: Seq<u8>, raw: Seq<RawPayload>, before: ModuleView)
    requires
        raw.len() > 0,
        lists_found(bytes, raw.drop_last(), before),
        before.global_section.count == summed(raw.drop_last(), global_count_in(bytes)),
        counts_fit(bytes, raw.drop_last()),
    ensures
        module::with_piece(before, bytes, piece_of(raw.last())) is Ok == (piece_reads(
            bytes,
            raw.last(),
            before.num_of_import_functions,
        ) && counts_fit(bytes, raw)),
        module::with_piece(before, bytes, piece_of(raw.last())) matches Ok(after)
            ==> after.global_section.count == summed(raw, global_count_in(bytes)),
{
    let piece = raw.last();
    let data = data_of(bytes, piece);
    if is_section(piece, 2) && reader::imports(data) is Some {
        lemma_imports(reader::imports(data)->Some_0);
    }
    if is_section(piece, 9) && reader::element_items(data) is Some {
        lemma_elements_fit(data, before.num_of_import_functions);
    }
}

/// Whether these pieces can be read.
proof fn lemma_reads(bytes: Seq<u8>, raw: Seq<RawPayload>)
    requires
        of_module(raw),
        imports_first(raw),
    ensures
        module::with_pieces(bytes, payload::all_classified(raw)) is Ok == (counts_fit(bytes, raw)
            && (forall|i: int|
            0 <= i < raw.len() ==> piece_reads(
                bytes,
                #[trigger] raw[i],
                gathered(raw, function_imports_in(bytes)).len() as u32,
            ))),
        module::with_pieces(bytes, payload::all_classified(raw)) matches Ok(found)
            ==> found.global_section.count == summed(raw, global_count_in(bytes)),
    decreases raw.len(),
{
    let pieces = payload::all_classified(raw);
    if raw.len() > 0 {
        let init = raw.drop_last();
        let last = raw.last();
        let found = function_imports_in(bytes);
        lemma_pieces(raw);
        assert forall|i: int, j: int| 0 <= i < j < init.len() implies !(is_section(
            #[trigger] init[i],
            9,
        ) && is_section(#[trigger] init[j], 2)) by {
            assert(init[i] == raw[i] && init[j] == raw[j]);
        }
        lemma_reads(bytes, init);
        lemma_lists(bytes, init);
        assert(raw[raw.len() - 1] == last);
        let n = gathered(raw, found).len();
        let m = gathered(init, found).len();
        assert(!is_section(last, 2) ==> gathered(raw, found) =~= gathered(init, found));
        assert forall|i: int| 0 <= i < init.len() implies piece_reads(
            bytes,
            #[trigger] raw[i],
            n as u32,
        ) == piece_reads(bytes, init[i], m as u32) by {
            assert(init[i] == raw[i]);
            if is_section(last, 2) {
                assert(!is_section(raw[i], 9));
            }
        }
        assert(piece_reads(bytes, last, n as u32) == piece_reads(bytes, last, m as u32));
        assert(counts_fit(bytes, raw) ==> counts_fit(bytes, init));
        if module::with_pieces(bytes, pieces.drop_last()) is Ok {
            let before = module::with_pieces(bytes, pieces.drop_last())->Ok_0;
            lemma_piece_reads(bytes, raw, before);
            assert(forall|i: int|
                0 <= i < init.len() ==> piece_reads(bytes, #[trigger] init[i], m as u32));
            if module::with_pieces(bytes, pieces) is Ok {
                assert forall|i: int| 0 <= i < raw.len() implies piece_reads(
                    bytes,
                    #[trigger] raw[i],
                    n as u32,
                ) by {
                    if i < init.len() {
                        assert(piece_reads(bytes, init[i], m as u32));
                    }
                }
            }
        } else if counts_fit(bytes, raw) && (forall|i: int|
            0 <= i < raw.len() ==> piece_reads(bytes, #[trigger] raw[i], n as u32)) {
            assert forall|i: int| 0 <= i < init.len() implies piece_reads(
                bytes,
                #[trigger] init[i],
                m as u32,
            ) by {
                assert(piece_reads(bytes, raw[i], n as u32));
            }
        }
    }
}

/// A module can be read exactly if each piece of its binary can, and its functions,
/// memories and globals can be counted.
pub proof fn law_can_be_read(bytes: Seq<u8>, raw: Seq<RawPayload>)
    requires
        reader::payloads(bytes) == Some(raw),
        of_module(raw),
        imports_first(raw),
    ensures
        module::module_of(bytes) is Ok == (counts_fit(bytes, raw) && (forall|i: int|
            0 <= i < raw.len() ==> piece_reads(
                bytes,
                #[trigger] raw[i],
                gathered(raw, function_imports_in(bytes)).len() as u32,
            ))),
{
    reveal(module::module_of);
    lemma_reads(bytes, raw);
}

/// Why a piece of a module cannot be read.
pub proof fn law_why_piece_fails(module: ModuleView, bytes: Seq<u8>, piece: RawPayload)
    ensures
        module::with_piece(module, bytes, piece_of(piece)) matches Err(error) ==> {
            let data = data_of(bytes, piece);
            match piece {
                RawPayload::Body(start, end) => error == MigrateError::OutOfBounds,
                RawPayload::Section(id, start, end) => {
                    &&& id <= 13
                    &&& if !(start <= end <= bytes.len()) {
                        error == MigrateError::OutOfBounds
                    } else if id == 8 || id == 12 {
                        error == MigrateError::Parse
                    } else if encoded_again(id, data) is None {
                        error == MigrateError::Reencode
                    } else if id == 1 || id == 3 || id == 7 {
                        error == MigrateError::Parse
                    } else if id == 2 {
                        error == (if reader::imports(data) is None {
                            MigrateError::Parse
                        } else {
                            MigrateError::IndexOverflow
                        })
                    } else if id == 5 {
                        error == MigrateError::IndexOverflow
                    } else if id == 6 {
                        error == (if reader::global_types(data) is None {
                            MigrateError::Parse
                        } else if module::holds_reference(reader::global_types(data)->Some_0) {
                            MigrateError::ReferenceType
                        } else {
                            MigrateError::TooLarge
                        })
                    } else {
                        id == 9 && (reader::element_items(data) is None ==> error
                            == MigrateError::Parse)
                    }
                },
                _ => false,
            }
        },
{
}

/// The first piece that cannot be read decides on the error.
pub proof fn law_first_failure(bytes: Seq<u8>, raw: Seq<RawPayload>)
    requires
        reader::payloads(bytes) == Some(raw),
        of_module(raw),
    ensures
        module::module_of(bytes) matches Err(error) ==> exists|i: int|
            0 <= i < raw.len() && #[trigger] fails_at(bytes, raw, i, error),
{
    reveal(module::module_of);
    lemma_first_failure(bytes, raw, raw.len() as int);
    assert(raw.take(raw.len() as int) =~= raw);
}

/// The pieces before number `i` can be read, and this one cannot, for this reason.
pub open spec fn fails_at(bytes: Seq<u8>, raw: Seq<RawPayload>, i: int, error: MigrateError) -> bool {
    module::with_pieces(bytes, payload::all_classified(raw.take(i))) matches Ok(before)
        && module::with_piece(before, bytes, piece_of(raw[i])) == Err::<ModuleView, MigrateError>(
        error,
    )
}

/// The same of the first pieces.
proof fn lemma_first_failure(bytes: Seq<u8>, raw: Seq<RawPayload>, count: int)
    requires
        of_module(raw),
        0 <= count <= raw.len(),
    ensures
        module::with_pieces(bytes, payload::all_classified(raw.take(count))) matches Err(error)
            ==> exists|i: int| 0 <= i < count && #[trigger] fails_at(bytes, raw, i, error),
    decreases count,
{
    let taken = raw.take(count);
    if count > 0 {
        lemma_first_failure(bytes, raw, count - 1);
        assert forall|i: int| 0 <= i < taken.len() implies #[trigger] taken[i]
            != RawPayload::Version(true) by {
            assert(taken[i] == raw[i]);
        }
        lemma_pieces(taken);
        assert(taken.drop_last() =~= raw.take(count - 1));
        if let Err(error) = module::with_pieces(bytes, payload::all_classified(taken)) {
            if module::with_pieces(bytes, payload::all_classified(raw.take(count - 1))) is Ok {
                assert(fails_at(bytes, raw, count - 1, error));
            } else {
                let i = choose|i: int|
                    0 <= i < count - 1 && #[trigger] fails_at(bytes, raw, i, error);
                assert(0 <= i < count && fails_at(bytes, raw, i, error));
            }
        }
    } else {
        assert(payload::all_classified(taken) =~= Seq::empty());
    }
}

} // verus!
