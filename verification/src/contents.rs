//! What is found in an encoded module when its sections are read again.

use vstd::prelude::*;
use crate::codegen;
use crate::encoder;
use crate::inject;
use crate::inject::TargetView;
use crate::leb;
use crate::module::ModuleView;
use crate::reading;
use crate::section::SectionView;
use crate::types::{ExportView, ExternKind, MigrateError, MAX_BINARY_SIZE};

verus! {

/// The sections that are read from `pos` on, each with its identifier and its
/// contents: an identifier is followed by the size of the contents, and these by the
/// next section.
pub open spec fn sections_from(bytes: Seq<u8>, pos: int) -> Option<Seq<(u8, Seq<u8>)>>
    decreases bytes.len() - pos,
{
    if pos < 0 || pos > bytes.len() {
        None
    } else if pos == bytes.len() {
        Some(Seq::empty())
    } else {
        match leb::decoded_u32(bytes, pos + 1) {
            None => None,
            Some((size, start)) => if start <= pos || start + size > bytes.len() {
                None
            } else {
                match sections_from(bytes, start + size) {
                    None => None,
                    Some(rest) => Some(
                        seq![(bytes[pos], bytes.subrange(start, start + size))] + rest,
                    ),
                }
            },
        }
    }
}

/// The sections of a binary, which come behind its header of eight bytes.
pub open spec fn sections(bytes: Seq<u8>) -> Option<Seq<(u8, Seq<u8>)>> {
    sections_from(bytes, 8)
}

/// The contents of the sections with this identifier.
pub open spec fn with_id(list: Seq<(u8, Seq<u8>)>, id: u8) -> Seq<Seq<u8>>
    decreases list.len(),
{
    if list.len() == 0 {
        Seq::empty()
    } else if list.last().0 == id {
        with_id(list.drop_last(), id).push(list.last().1)
    } else {
        with_id(list.drop_last(), id)
    }
}

/// Sections one after the other, as they are written.
spec fn written(list: Seq<(u8, Seq<u8>)>) -> Seq<u8>
    decreases list.len(),
{
    if list.len() == 0 {
        Seq::empty()
    } else {
        written(list.drop_last()) + encoder::section_bytes(list.last().0, list.last().1)
    }
}

/// The size of each section fits in 32 bits.
spec fn all_fit(list: Seq<(u8, Seq<u8>)>) -> bool {
    forall|i: int| 0 <= i < list.len() ==> (#[trigger] list[i]).1.len() <= u32::MAX
}

/// Sections that are written behind others are those others with them behind.
proof fn lemma_written_first(list: Seq<(u8, Seq<u8>)>)
    requires
        list.len() > 0,
    ensures
        written(list) == encoder::section_bytes(list[0].0, list[0].1) + written(list.drop_first()),
    decreases list.len(),
{
    let rest = list.drop_first();
    if list.len() == 1 {
        assert(list.drop_last() =~= Seq::empty());
        assert(rest =~= Seq::empty());
        assert(written(list) =~= encoder::section_bytes(list[0].0, list[0].1) + written(rest));
    } else {
        lemma_written_first(list.drop_last());
        assert(list.drop_last().drop_first() =~= rest.drop_last());
        assert(rest.last() == list.last());
        assert(written(list) =~= encoder::section_bytes(list[0].0, list[0].1) + written(rest));
    }
}

/// Sections that were written are read again.
proof fn lemma_read_again(bytes: Seq<u8>, pos: int, list: Seq<(u8, Seq<u8>)>)
    requires
        0 <= pos <= bytes.len(),
        bytes.subrange(pos, bytes.len() as int) == written(list),
        all_fit(list),
    ensures
        sections_from(bytes, pos) == Some(list),
    decreases list.len(),
{
    if list.len() == 0 {
        assert(bytes.subrange(pos, bytes.len() as int).len() == 0);
        assert(list =~= Seq::empty());
    } else {
        lemma_written_first(list);
        let (id, contents) = list[0];
        let rest = list.drop_first();
        let size = leb::uleb128(contents.len());
        let tail = bytes.subrange(pos, bytes.len() as int);
        assert(tail == seq![id] + size + contents + written(rest));
        assert(tail.len() == 1 + size.len() + contents.len() + written(rest).len());
        assert(bytes[pos] == tail[0]);
        assert(bytes.subrange(pos + 1, pos + 1 + size.len()) =~= size) by {
            assert forall|i: int| 0 <= i < size.len() implies bytes[pos + 1 + i]
                == #[trigger] size[i] by {
                assert(tail[1 + i] == size[i]);
            }
        }
        assert(contents.len() <= u32::MAX);
        leb::law_decodes_encoded(bytes, pos + 1, contents.len() as u32);
        let start = pos + 1 + size.len();
        assert(bytes.subrange(start, start + contents.len()) =~= contents) by {
            assert forall|i: int| 0 <= i < contents.len() implies bytes[start + i]
                == #[trigger] contents[i] by {
                assert(tail[1 + size.len() + i] == contents[i]);
            }
        }
        let next = start + contents.len();
        assert(bytes.subrange(next, bytes.len() as int) =~= written(rest)) by {
            assert forall|i: int| 0 <= i < written(rest).len() implies bytes[next + i]
                == #[trigger] written(rest)[i] by {
                assert(tail[1 + size.len() + contents.len() + i] == written(rest)[i]);
            }
        }
        assert forall|i: int| 0 <= i < rest.len() implies (#[trigger] rest[i]).1.len()
            <= u32::MAX by {
            assert(rest[i] == list[i + 1]);
        }
        lemma_read_again(bytes, next, rest);
        assert(seq![(id, contents)] + rest =~= list);
    }
}

/// The bytes, if there are any, are the header of a module and these sections.
spec fn made_of(bytes: Result<Seq<u8>, MigrateError>, list: Seq<(u8, Seq<u8>)>) -> bool {
    bytes matches Ok(found) ==> found == encoder::module_header() + written(list) && all_fit(list)
}

/// A section that may be missing, as a list.
pub open spec fn listed(id: u8, contents: Option<Seq<u8>>) -> Seq<(u8, Seq<u8>)> {
    match contents {
        None => Seq::empty(),
        Some(found) => seq![(id, found)],
    }
}

/// The contents of a section that may be missing.
pub open spec fn contents_of(section: Option<SectionView>) -> Option<Seq<u8>> {
    match section {
        None => None,
        Some(found) => Some(leb::uleb128(found.count) + found.entries),
    }
}

/// The contents of a section that holds a number and may be missing.
pub open spec fn number_of(number: Option<u32>) -> Option<Seq<u8>> {
    match number {
        None => None,
        Some(found) => Some(leb::uleb128(found as nat)),
    }
}

/// One more section is written behind the others.
proof fn lemma_one_more(bytes: Seq<u8>, list: Seq<(u8, Seq<u8>)>, id: u8, contents: Seq<u8>)
    requires
        bytes == encoder::module_header() + written(list),
        all_fit(list),
        contents.len() <= u32::MAX,
    ensures
        bytes + encoder::section_bytes(id, contents) == encoder::module_header() + written(
            list + seq![(id, contents)],
        ),
        all_fit(list + seq![(id, contents)]),
{
    let more = list + seq![(id, contents)];
    assert(more.drop_last() =~= list);
    assert(bytes + encoder::section_bytes(id, contents) =~= encoder::module_header() + written(
        more,
    ));
    assert forall|i: int| 0 <= i < more.len() implies (#[trigger] more[i]).1.len() <= u32::MAX by {
        if i < list.len() {
            assert(more[i] == list[i]);
        }
    }
}

/// The same of a section that may be missing.
proof fn lemma_followed_made(
    bytes: Result<Seq<u8>, MigrateError>,
    list: Seq<(u8, Seq<u8>)>,
    id: u8,
    section: Result<Option<SectionView>, MigrateError>,
)
    requires
        made_of(bytes, list),
    ensures
        inject::followed(bytes, id, section) is Ok ==> section is Ok && made_of(
            inject::followed(bytes, id, section),
            list + listed(id, contents_of(section->Ok_0)),
        ),
{
    if inject::followed(bytes, id, section) is Ok {
        if let Some(found) = section->Ok_0 {
            lemma_one_more(bytes->Ok_0, list, id, found.contents());
        } else {
            assert(list + Seq::empty() =~= list);
        }
    }
}

/// The same of a number.
proof fn lemma_number_made(
    bytes: Result<Seq<u8>, MigrateError>,
    list: Seq<(u8, Seq<u8>)>,
    id: u8,
    number: Result<Option<u32>, MigrateError>,
)
    requires
        made_of(bytes, list),
    ensures
        inject::followed_by_number(bytes, id, number) is Ok ==> number is Ok && made_of(
            inject::followed_by_number(bytes, id, number),
            list + listed(id, number_of(number->Ok_0)),
        ),
{
    if inject::followed_by_number(bytes, id, number) is Ok {
        if let Some(found) = number->Ok_0 {
            leb::lemma_uleb128_u32_len(found as nat);
            lemma_one_more(bytes->Ok_0, list, id, leb::uleb128(found as nat));
        } else {
            assert(list + Seq::empty() =~= list);
        }
    }
}

/// Custom sections with these contents.
pub open spec fn customs(contents: Seq<Seq<u8>>) -> Seq<(u8, Seq<u8>)> {
    Seq::new(contents.len(), |i: int| (0u8, contents[i]))
}

/// The same of custom sections.
proof fn lemma_customs_made(bytes: Seq<u8>, list: Seq<(u8, Seq<u8>)>, contents: Seq<Seq<u8>>)
    requires
        bytes == encoder::module_header() + written(list),
        all_fit(list),
    ensures
        made_of(inject::followed_by_customs(bytes, contents), list + customs(contents)),
    decreases contents.len(),
{
    if contents.len() == 0 {
        assert(list + customs(contents) =~= list);
    } else {
        let init = contents.drop_last();
        lemma_customs_made(bytes, list, init);
        if let Ok(before) = inject::followed_by_customs(bytes, init) {
            if contents.last().len() <= u32::MAX {
                lemma_one_more(before, list + customs(init), 0, contents.last());
                assert(list + customs(init) + seq![(0u8, contents.last())] =~= list + customs(
                    contents,
                ));
            }
        }
    }
}

/// The contents of the section with this identifier in the encoded module, if it has
/// one.
spec fn part(module: ModuleView, target: Option<TargetView>, id: u8) -> Option<Seq<u8>> {
    let inject = target is Some;
    if id == 1 {
        contents_of(
            match inject::types_out(module, inject) {
                Ok(found) => Some(found),
                Err(_) => None,
            },
        )
    } else if id == 2 {
        contents_of(inject::imports_out(module, inject)->Ok_0)
    } else if id == 3 {
        contents_of(inject::functions_out(module, inject))
    } else if id == 4 {
        contents_of(module.table_section)
    } else if id == 5 {
        contents_of(inject::memories_out(module, inject)->Ok_0)
    } else if id == 6 {
        contents_of(Some(module.global_section))
    } else if id == 7 {
        contents_of(inject::exports_out(module, inject)->Ok_0)
    } else if id == 8 {
        number_of(inject::start_out(module, inject)->Ok_0)
    } else if id == 9 {
        contents_of(inject::elements_out(module, inject))
    } else if id == 10 {
        contents_of(inject::code_out(module, target)->Ok_0)
    } else if id == 11 {
        contents_of(module.data_section)
    } else if id == 12 {
        number_of(module.data_count_section)
    } else if id == 13 {
        contents_of(module.tag_section)
    } else {
        None
    }
}

/// A section for each identifier for which there are contents, in the order in which
/// the sections of a module stand.
pub open spec fn in_order(contents: spec_fn(u8) -> Option<Seq<u8>>) -> Seq<(u8, Seq<u8>)> {
    listed(1, contents(1)) + listed(2, contents(2)) + listed(3, contents(3)) + listed(
        4,
        contents(4),
    ) + listed(5, contents(5)) + listed(13, contents(13)) + listed(6, contents(6)) + listed(
        7,
        contents(7),
    ) + listed(8, contents(8)) + listed(9, contents(9)) + listed(12, contents(12)) + listed(
        10,
        contents(10),
    ) + listed(11, contents(11))
}

/// The encoded module is its header and its sections in their order.
#[verifier::rlimit(30)]
proof fn lemma_made(module: ModuleView, target: Option<TargetView>)
    ensures
        inject::encoded_module(module, target) matches Ok(bytes) ==> {
            let inject = target is Some;
            let list = in_order(|id: u8| part(module, target, id)) + customs(
                inject::customs_out(module, inject),
            );
            &&& sections(bytes) == Some(list)
            &&& inject::types_out(module, inject) is Ok
            &&& inject::imports_out(module, inject) is Ok
            &&& inject::memories_out(module, inject) is Ok
            &&& inject::exports_out(module, inject) is Ok
            &&& inject::start_out(module, inject) is Ok
            &&& inject::code_out(module, target) is Ok
        },
{
    reveal(inject::encoded_module);
    if inject::encoded_module(module, target) is Ok {
        let inject = target is Some;
        let header: Result<Seq<u8>, MigrateError> = Ok(encoder::module_header());
        let none = Seq::<(u8, Seq<u8>)>::empty();
        assert(written(none) =~= Seq::empty());
        assert(encoder::module_header() + Seq::empty() =~= encoder::module_header());
        assert(made_of(header, none));
        let types = match inject::types_out(module, inject) {
            Err(error) => Err(error),
            Ok(section) => Ok(Some(section)),
        };
        let contents = |id: u8| part(module, target, id);
        lemma_followed_made(header, none, 1, types);
        let b1 = inject::followed(header, 1, types);
        let l1 = listed(1, contents(1));
        assert(none + l1 =~= l1);
        lemma_followed_made(b1, l1, 2, inject::imports_out(module, inject));
        let b2 = inject::followed(b1, 2, inject::imports_out(module, inject));
        let l2 = l1 + listed(2, contents(2));
        lemma_followed_made(b2, l2, 3, Ok(inject::functions_out(module, inject)));
        let b3 = inject::followed(b2, 3, Ok(inject::functions_out(module, inject)));
        let l3 = l2 + listed(3, contents(3));
        lemma_followed_made(b3, l3, 4, Ok(module.table_section));
        let b4 = inject::followed(b3, 4, Ok(module.table_section));
        let l4 = l3 + listed(4, contents(4));
        lemma_followed_made(b4, l4, 5, inject::memories_out(module, inject));
        let b5 = inject::followed(b4, 5, inject::memories_out(module, inject));
        let l5 = l4 + listed(5, contents(5));
        lemma_followed_made(b5, l5, 13, Ok(module.tag_section));
        let b13 = inject::encoded_front(module, inject);
        let l13 = l5 + listed(13, contents(13));
        lemma_followed_made(b13, l13, 6, Ok(Some(module.global_section)));
        let b6 = inject::followed(b13, 6, Ok(Some(module.global_section)));
        let l6 = l13 + listed(6, contents(6));
        lemma_followed_made(b6, l6, 7, inject::exports_out(module, inject));
        let b7 = inject::followed(b6, 7, inject::exports_out(module, inject));
        let l7 = l6 + listed(7, contents(7));
        lemma_number_made(b7, l7, 8, inject::start_out(module, inject));
        let b8 = inject::followed_by_number(b7, 8, inject::start_out(module, inject));
        let l8 = l7 + listed(8, contents(8));
        lemma_followed_made(b8, l8, 9, Ok(inject::elements_out(module, inject)));
        let b9 = inject::followed(b8, 9, Ok(inject::elements_out(module, inject)));
        let l9 = l8 + listed(9, contents(9));
        lemma_number_made(b9, l9, 12, Ok(module.data_count_section));
        let b12 = inject::followed_by_number(b9, 12, Ok(module.data_count_section));
        let l12 = l9 + listed(12, contents(12));
        lemma_followed_made(b12, l12, 10, inject::code_out(module, target));
        let b10 = inject::followed(b12, 10, inject::code_out(module, target));
        let l10 = l12 + listed(10, contents(10));
        lemma_followed_made(b10, l10, 11, Ok(module.data_section));
        let b11 = inject::followed(b10, 11, Ok(module.data_section));
        let l11 = l10 + listed(11, contents(11));
        lemma_customs_made(b11->Ok_0, l11, inject::customs_out(module, inject));
        let list = l11 + customs(inject::customs_out(module, inject));
        let bytes = inject::encoded_module(module, target)->Ok_0;
        assert(l11 == in_order(contents));
        assert(bytes == encoder::module_header() + written(list));
        assert(bytes.subrange(8, bytes.len() as int) =~= written(list));
        lemma_read_again(bytes, 8, list);
    }
}

/// The sections with an identifier in two lists one after the other.
proof fn lemma_with_id_concat(first: Seq<(u8, Seq<u8>)>, second: Seq<(u8, Seq<u8>)>, id: u8)
    ensures
        with_id(first + second, id) == with_id(first, id) + with_id(second, id),
    decreases second.len(),
{
    if second.len() == 0 {
        assert(first + second =~= first);
        assert(with_id(first, id) + Seq::empty() =~= with_id(first, id));
    } else {
        lemma_with_id_concat(first, second.drop_last(), id);
        assert((first + second).drop_last() =~= first + second.drop_last());
        assert(with_id(first + second, id) =~= with_id(first, id) + with_id(second, id));
    }
}

/// A section that may be missing is found under its identifier alone.
proof fn lemma_with_id_listed(other: u8, contents: Option<Seq<u8>>, id: u8)
    ensures
        with_id(listed(other, contents), id) == (match contents {
            Some(found) => if other == id {
                seq![found]
            } else {
                Seq::empty()
            },
            None => Seq::empty(),
        }),
{
    let list = listed(other, contents);
    if list.len() > 0 {
        assert(list.drop_last() =~= Seq::empty());
        assert(with_id(list.drop_last(), id) =~= Seq::empty());
        assert(Seq::<Seq<u8>>::empty().push(list.last().1) =~= seq![list.last().1]);
    }
}

/// Custom sections have the identifier zero.
proof fn lemma_with_id_customs(contents: Seq<Seq<u8>>, id: u8)
    ensures
        with_id(customs(contents), id) == (if id == 0 {
            contents
        } else {
            Seq::empty()
        }),
    decreases contents.len(),
{
    let list = customs(contents);
    if contents.len() > 0 {
        lemma_with_id_customs(contents.drop_last(), id);
        assert(list.drop_last() =~= customs(contents.drop_last()));
        assert(contents.drop_last().push(contents.last()) =~= contents);
    } else {
        assert(contents =~= Seq::empty());
    }
}

/// What is found in a list under an identifier.
proof fn lemma_with_id_in_order(
    contents: spec_fn(u8) -> Option<Seq<u8>>,
    rest: Seq<Seq<u8>>,
    id: u8,
)
    ensures
        with_id(in_order(contents) + customs(rest), id) == (if id == 0 {
            rest
        } else if id <= 13 {
            match contents(id) {
                Some(found) => seq![found],
                None => Seq::empty(),
            }
        } else {
            Seq::empty()
        }),
{
    let none = Seq::<Seq<u8>>::empty();
    let l1 = listed(1, contents(1));
    lemma_with_id_listed(1, contents(1), id);
    let l2 = l1 + listed(2, contents(2));
    lemma_with_id_concat(l1, listed(2, contents(2)), id);
    lemma_with_id_listed(2, contents(2), id);
    let l3 = l2 + listed(3, contents(3));
    lemma_with_id_concat(l2, listed(3, contents(3)), id);
    lemma_with_id_listed(3, contents(3), id);
    let l4 = l3 + listed(4, contents(4));
    lemma_with_id_concat(l3, listed(4, contents(4)), id);
    lemma_with_id_listed(4, contents(4), id);
    let l5 = l4 + listed(5, contents(5));
    lemma_with_id_concat(l4, listed(5, contents(5)), id);
    lemma_with_id_listed(5, contents(5), id);
    let l13 = l5 + listed(13, contents(13));
    lemma_with_id_concat(l5, listed(13, contents(13)), id);
    lemma_with_id_listed(13, contents(13), id);
    let l6 = l13 + listed(6, contents(6));
    lemma_with_id_concat(l13, listed(6, contents(6)), id);
    lemma_with_id_listed(6, contents(6), id);
    let l7 = l6 + listed(7, contents(7));
    lemma_with_id_concat(l6, listed(7, contents(7)), id);
    lemma_with_id_listed(7, contents(7), id);
    let l8 = l7 + listed(8, contents(8));
    lemma_with_id_concat(l7, listed(8, contents(8)), id);
    lemma_with_id_listed(8, contents(8), id);
    let l9 = l8 + listed(9, contents(9));
    lemma_with_id_concat(l8, listed(9, contents(9)), id);
    lemma_with_id_listed(9, contents(9), id);
    let l12 = l9 + listed(12, contents(12));
    lemma_with_id_concat(l9, listed(12, contents(12)), id);
    lemma_with_id_listed(12, contents(12), id);
    let l10 = l12 + listed(10, contents(10));
    lemma_with_id_concat(l12, listed(10, contents(10)), id);
    lemma_with_id_listed(10, contents(10), id);
    let l11 = l10 + listed(11, contents(11));
    lemma_with_id_concat(l10, listed(11, contents(11)), id);
    lemma_with_id_listed(11, contents(11), id);
    lemma_with_id_concat(l11, customs(rest), id);
    lemma_with_id_customs(rest, id);
    assert(l11 == in_order(contents));
    assert(with_id(l11 + customs(rest), id) =~= (if id == 0 {
        rest
    } else if id <= 13 {
        match contents(id) {
            Some(found) => seq![found],
            None => none,
        }
    } else {
        none
    }));
}

/// What a module holds under each identifier. The global section is there even if the
/// module has no globals.
pub open spec fn held(module: ModuleView, id: u8) -> Option<Seq<u8>> {
    if id == 1 {
        contents_of(module.type_section)
    } else if id == 2 {
        contents_of(module.import_section)
    } else if id == 3 {
        contents_of(module.function_section)
    } else if id == 4 {
        contents_of(module.table_section)
    } else if id == 5 {
        contents_of(module.memory_section)
    } else if id == 6 {
        contents_of(Some(module.global_section))
    } else if id == 7 {
        contents_of(module.export_section)
    } else if id == 8 {
        number_of(module.start_func)
    } else if id == 9 {
        contents_of(module.element_section)
    } else if id == 10 {
        contents_of(module.code_section)
    } else if id == 11 {
        contents_of(module.data_section)
    } else if id == 12 {
        number_of(module.data_count_section)
    } else if id == 13 {
        contents_of(module.tag_section)
    } else {
        None
    }
}

/// A module without checkpoints is carried over whole: reading the encoded module
/// gives each section that the module holds, with its contents, and its custom
/// sections behind these, in their order.
pub proof fn law_carried_over(module: ModuleView)
    ensures
        inject::encoded_module(module, None) matches Ok(bytes) ==> sections(bytes) == Some(
            in_order(|id: u8| held(module, id)) + customs(module.custom_section),
        ),
{
    if inject::encoded_module(module, None) is Ok {
        lemma_made(module, None);
        assert(in_order(|id: u8| part(module, None, id)) == in_order(|id: u8| held(module, id)));
    }
}

/// Under each identifier a module without checkpoints has what it had.
pub proof fn law_each_section_carried_over(module: ModuleView, id: u8)
    ensures
        inject::encoded_module(module, None) matches Ok(bytes) ==> (sections(bytes) matches Some(
            list,
        ) && with_id(list, id) == (if id == 0 {
            module.custom_section
        } else {
            match held(module, id) {
                Some(found) => seq![found],
                None => Seq::empty(),
            }
        })),
{
    if inject::encoded_module(module, None) is Ok {
        law_carried_over(module);
        lemma_with_id_in_order(|i: u8| held(module, i), module.custom_section, id);
    }
}

/// The size of contents that may be missing fits in 32 bits.
pub open spec fn fits(contents: Option<Seq<u8>>) -> bool {
    contents matches Some(found) ==> found.len() <= u32::MAX
}

/// A module without checkpoints can be encoded exactly if it has types and the size of
/// each of its sections fits in 32 bits.
pub proof fn law_can_be_carried_over(module: ModuleView)
    ensures
        inject::encoded_module(module, None) is Ok == (module.type_section is Some && (forall|
            id: u8,
        | #[trigger]
            fits(held(module, id))) && (forall|i: int|
            0 <= i < module.custom_section.len() ==> (#[trigger] module.custom_section[i]).len()
                <= u32::MAX)),
{
    reveal(inject::encoded_module);
    assert forall|n: u32| #[trigger] leb::uleb128(n as nat).len() <= 5 by {
        leb::lemma_uleb128_u32_len(n as nat);
    }
    let all = fits(held(module, 1)) && fits(held(module, 2)) && fits(held(module, 3)) && fits(
        held(module, 4),
    ) && fits(held(module, 5)) && fits(held(module, 6)) && fits(held(module, 7)) && fits(
        held(module, 9),
    ) && fits(held(module, 10)) && fits(held(module, 11)) && fits(held(module, 13));
    assert(all == (forall|id: u8| #[trigger] fits(held(module, id)))) by {
        assert(fits(held(module, 8)) && fits(held(module, 12)));
    }
    assert forall|bytes: Seq<u8>| #[trigger]
        inject::followed_by_customs(bytes, module.custom_section) is Ok == (forall|i: int|
            0 <= i < module.custom_section.len() ==> (#[trigger] module.custom_section[i]).len()
                <= u32::MAX) by {
        lemma_customs_fit(bytes, module.custom_section);
    }
}

/// Custom sections can be added exactly if the size of each fits in 32 bits.
proof fn lemma_customs_fit(bytes: Seq<u8>, contents: Seq<Seq<u8>>)
    ensures
        inject::followed_by_customs(bytes, contents) is Ok == (forall|i: int|
            0 <= i < contents.len() ==> (#[trigger] contents[i]).len() <= u32::MAX),
    decreases contents.len(),
{
    if contents.len() > 0 {
        let init = contents.drop_last();
        lemma_customs_fit(bytes, init);
        assert(contents[contents.len() - 1] == contents.last());
        if forall|i: int| 0 <= i < init.len() ==> (#[trigger] init[i]).len() <= u32::MAX {
            assert forall|i: int| 0 <= i < contents.len() - 1 implies (#[trigger] contents[i]).len()
                <= u32::MAX by {
                assert(init[i] == contents[i]);
            }
        }
        if forall|i: int| 0 <= i < contents.len() ==> (#[trigger] contents[i]).len() <= u32::MAX {
            assert forall|i: int| 0 <= i < init.len() implies (#[trigger] init[i]).len()
                <= u32::MAX by {
                assert(init[i] == contents[i]);
            }
        }
    }
}

/// The index of a function once two functions have been put behind the imported ones.
pub open spec fn new_index(index: u32, num_imports: u32) -> nat {
    if index < num_imports {
        index as nat
    } else {
        index as nat + 2
    }
}

/// Functions that are imported stay where they are and the others move up by two, if
/// there is an index for them.
pub proof fn law_moved_up(index: u32, num_imports: u32)
    ensures
        match codegen::shifted(index, num_imports) {
            Ok(found) => found == new_index(index, num_imports),
            Err(error) => error == MigrateError::IndexOverflow && new_index(index, num_imports)
                > u32::MAX,
        },
{
}

/// A section that may be missing with two more entries.
pub open spec fn with_two_more(section: Option<SectionView>, more: Seq<u8>) -> Option<Seq<u8>> {
    match section {
        Some(found) => Some(leb::uleb128(found.count + 2) + (found.entries + more)),
        None => Some(leb::uleb128(2) + more),
    }
}

/// The entry of an export, with a function at its new index.
pub open spec fn export_moved(num_imports: u32) -> spec_fn(ExportView) -> Seq<u8> {
    |export: ExportView|
        if export.kind == ExternKind::Func {
            encoder::export_entry(
                export.name,
                export.kind,
                new_index(export.index, num_imports) as u32,
            )
        } else {
            encoder::export_entry(export.name, export.kind, export.index)
        }
}

/// The new bodies of the functions of a module.
pub open spec fn bodies_of(module: ModuleView, target: TargetView) -> Seq<Seq<u8>> {
    Seq::new(
        module.function_bodies.len(),
        |i: int| inject::new_body(module, target, i)->Ok_0,
    )
}

/// A body preceded by its size.
pub open spec fn sized_body() -> spec_fn(Seq<u8>) -> Seq<u8> {
    |body: Seq<u8>| leb::uleb128(body.len()) + body
}

/// What a module with checkpoints, whose functions have these bodies, holds under each
/// identifier. Behind its types, imports
/// and memories come those that are added: the types `[] -> [i32]` and `[] -> []`, the
/// two functions of the host, which have these types, and two memories of one page and
/// of two pages. The checkpoint memory is exported behind all that was. Tables, tags,
/// globals and data are as they were.
pub open spec fn held_with_checkpoints(module: ModuleView, bodies: Seq<Seq<u8>>, id: u8) -> Option<
    Seq<u8>,
> {
    let types = match module.type_section {
        Some(found) => found.count,
        None => 0,
    };
    if id == 1 {
        with_two_more(
            module.type_section,
            seq![0x60u8, 0x00u8, 0x01u8, 0x7fu8, 0x60u8, 0x00u8, 0x00u8],
        )
    } else if id == 2 {
        with_two_more(
            module.import_section,
            encoder::function_import_entry("host"@, "should_migrate"@, types as u32)
                + encoder::function_import_entry("host"@, "restore_memory"@, (types + 1) as u32),
        )
    } else if id == 3 {
        match module.function_section {
            Some(_) => held(module, 3),
            None => Some(seq![0x01u8, 0x00u8]),
        }
    } else if id == 5 {
        with_two_more(module.memory_section, seq![0x00u8, 0x01u8, 0x00u8, 0x02u8])
    } else if id == 7 {
        Some(
            leb::uleb128(module.exports.len() + 1) + (reading::gathered(
                module.exports,
                export_moved(module.num_of_import_functions),
            ) + encoder::export_entry(
                "checkpoint_memory"@,
                ExternKind::Memory,
                module.checkpoint_memory_index,
            )),
        )
    } else if id == 8 {
        match module.start_func {
            Some(func) => Some(leb::uleb128(new_index(func, module.num_of_import_functions))),
            None => None,
        }
    } else if id == 9 {
        contents_of(module.element_section_with_cr)
    } else if id == 10 {
        Some(
            leb::uleb128(bodies.len()) + reading::gathered(bodies, sized_body()),
        )
    } else {
        held(module, id)
    }
}

/// The section with the exports of a module, functions at their new indices.
proof fn lemma_exports_moved(exports: Seq<ExportView>, num_imports: u32)
    ensures
        inject::shifted_exports(exports, num_imports) matches Ok(section) ==> {
            &&& section.count == exports.len()
            &&& section.entries == reading::gathered(exports, export_moved(num_imports))
        },
    decreases exports.len(),
{
    if exports.len() > 0 {
        lemma_exports_moved(exports.drop_last(), num_imports);
    }
}

/// The section with the new bodies of the first functions.
proof fn lemma_bodies_sized(module: ModuleView, target: TargetView, count: int)
    requires
        0 <= count <= module.function_bodies.len(),
    ensures
        inject::new_bodies(module, target, count) matches Ok(section) ==> {
            &&& section.count == count
            &&& section.entries == reading::gathered(
                bodies_of(module, target).take(count),
                sized_body(),
            )
            &&& forall|i: int| 0 <= i < count ==> #[trigger] inject::new_body(module, target, i) is Ok
        },
    decreases count,
{
    if count > 0 {
        lemma_bodies_sized(module, target, count - 1);
        let taken = bodies_of(module, target).take(count);
        assert(taken.drop_last() =~= bodies_of(module, target).take(count - 1));
    } else {
        assert(bodies_of(module, target).take(0) =~= Seq::empty());
    }
}

/// What is added behind the types.
proof fn lemma_added_types(section: SectionView)
    ensures
        inject::extended(
            inject::extended(Ok(section), encoder::function_type_entry(1)),
            encoder::function_type_entry(0),
        ) matches Ok(found) ==> contents_of(Some(found)) == with_two_more(
            Some(section),
            seq![0x60u8, 0x00u8, 0x01u8, 0x7fu8, 0x60u8, 0x00u8, 0x00u8],
        ),
{
    let first = encoder::function_type_entry(1);
    let second = encoder::function_type_entry(0);
    assert(first =~= seq![0x60u8, 0x00u8, 0x01u8, 0x7fu8]);
    assert(second =~= seq![0x60u8, 0x00u8, 0x00u8]);
    assert(section.entries + first + second =~= section.entries + seq![
        0x60u8,
        0x00u8,
        0x01u8,
        0x7fu8,
        0x60u8,
        0x00u8,
        0x00u8,
    ]);
}

/// Two entries that are added to a section.
proof fn lemma_two_more(section: Option<SectionView>, first: Seq<u8>, second: Seq<u8>)
    ensures
        inject::extended(
            inject::extended(
                Ok(
                    match section {
                        Some(found) => found,
                        None => SectionView::empty(),
                    },
                ),
                first,
            ),
            second,
        ) matches Ok(found) ==> contents_of(Some(found)) == with_two_more(section, first + second),
{
    let start = match section {
        Some(found) => found,
        None => SectionView::empty(),
    };
    assert(start.entries + first + second =~= start.entries + (first + second));
    assert(Seq::<u8>::empty() + (first + second) =~= first + second);
}

/// Reading a module with checkpoints gives what it held, with what is added, and
/// nothing else. It has no custom sections.
#[verifier::rlimit(30)]
pub proof fn law_read_with_checkpoints(module: ModuleView, target: TargetView)
    ensures
        inject::encoded_module(module, Some(target)) matches Ok(bytes) ==> {
            &&& module.type_section is Some
            &&& sections(bytes) == Some(
                in_order(|id: u8| held_with_checkpoints(module, bodies_of(module, target), id)),
            )
            &&& forall|i: int|
                0 <= i < module.function_bodies.len() ==> #[trigger] inject::new_body(
                    module,
                    target,
                    i,
                ) is Ok
        },
{
    if inject::encoded_module(module, Some(target)) is Ok {
        let some = Some(target);
        lemma_made(module, some);
        lemma_parts_of_target(module, target);
        lemma_bodies_sized(module, target, module.function_bodies.len() as int);
        let parts = |id: u8| part(module, some, id);
        let expected = |id: u8| held_with_checkpoints(module, bodies_of(module, target), id);
        assert(parts(1) == expected(1));
        assert(parts(2) == expected(2));
        assert(parts(3) == expected(3));
        assert(parts(4) == expected(4));
        assert(parts(5) == expected(5));
        assert(parts(6) == expected(6));
        assert(parts(7) == expected(7));
        assert(parts(8) == expected(8));
        assert(parts(9) == expected(9));
        assert(parts(10) == expected(10));
        assert(parts(11) == expected(11));
        assert(parts(12) == expected(12));
        assert(parts(13) == expected(13));
        assert(in_order(parts) == in_order(expected));
        assert(in_order(parts) + customs(Seq::empty()) =~= in_order(parts));
    }
}

/// The custom sections are gone from a module with checkpoints, and its tables, tags,
/// globals and data are those of the module without.
pub proof fn law_rest_as_without(module: ModuleView, target: TargetView, id: u8)
    requires
        id == 4 || id == 6 || id == 11 || id == 12 || id == 13,
    ensures
        match (inject::encoded_module(module, Some(target)), inject::encoded_module(module, None)) {
            (Ok(with), Ok(without)) => (sections(with) matches Some(first) && sections(
                without,
            ) matches Some(second) && with_id(first, id) == with_id(second, id) && with_id(first, 0)
                == Seq::<Seq<u8>>::empty()),
            _ => true,
        },
{
    law_read_with_checkpoints(module, target);
    law_carried_over(module);
    let expected = |i: u8| held_with_checkpoints(module, bodies_of(module, target), i);
    lemma_with_id_in_order(expected, Seq::empty(), id);
    lemma_with_id_in_order(expected, Seq::empty(), 0);
    assert(in_order(expected) + customs(Seq::empty()) =~= in_order(expected));
    lemma_with_id_in_order(|i: u8| held(module, i), module.custom_section, id);
}

/// An export can be encoded again: its name is short enough, and there is an index for a
/// function.
pub open spec fn export_fits(export: ExportView, num_imports: u32) -> bool {
    &&& vstd::utf8::encode_utf8(export.name).len() <= MAX_BINARY_SIZE
    &&& export.kind == ExternKind::Func ==> new_index(export.index, num_imports) <= u32::MAX
}

/// Exports can be encoded again exactly if each can and they can be counted.
proof fn lemma_exports_fit(exports: Seq<ExportView>, num_imports: u32)
    ensures
        inject::shifted_exports(exports, num_imports) is Ok == (exports.len() <= u32::MAX && (
        forall|i: int|
            0 <= i < exports.len() ==> export_fits(#[trigger] exports[i], num_imports))),
    decreases exports.len(),
{
    if exports.len() > 0 {
        let init = exports.drop_last();
        lemma_exports_fit(init, num_imports);
        lemma_exports_moved(init, num_imports);
        law_moved_up(exports.last().index, num_imports);
        assert(exports[exports.len() - 1] == exports.last());
        assert((forall|i: int|
            0 <= i < exports.len() ==> export_fits(#[trigger] exports[i], num_imports)) == (
        export_fits(exports.last(), num_imports) && (forall|i: int|
            0 <= i < init.len() ==> export_fits(#[trigger] init[i], num_imports)))) by {
            assert(forall|i: int| 0 <= i < init.len() ==> #[trigger] init[i] == exports[i]);
            assert(forall|i: int| 0 <= i < init.len() ==> #[trigger] exports[i] == init[i]);
        }
    }
}

/// Bodies can be put into a section exactly if each can be written and they can be counted.
proof fn lemma_bodies_fit(module: ModuleView, target: TargetView, count: int)
    requires
        0 <= count <= module.function_bodies.len(),
    ensures
        inject::new_bodies(module, target, count) is Ok == (count <= u32::MAX && (forall|i: int|
            0 <= i < count ==> #[trigger] inject::new_body(module, target, i) is Ok)),
    decreases count,
{
    if count > 0 {
        lemma_bodies_fit(module, target, count - 1);
        lemma_bodies_sized(module, target, count - 1);
    }
}

/// Two more entries can be counted in a section that may be missing.
pub open spec fn has_room_for_two(section: Option<SectionView>) -> bool {
    section matches Some(found) ==> found.count + 2 <= u32::MAX
}

/// A module with checkpoints can be encoded exactly if it has types, what is added can be
/// counted, its exports and its start function have indices, its bodies can be written, and
/// the size of each section fits in 32 bits.
#[verifier::rlimit(40)]
pub proof fn law_can_have_checkpoints(module: ModuleView, target: TargetView)
    ensures
        inject::encoded_module(module, Some(target)) is Ok == {
            &&& module.type_section is Some
            &&& has_room_for_two(module.type_section)
            &&& has_room_for_two(module.import_section)
            &&& has_room_for_two(module.memory_section)
            &&& module.exports.len() < u32::MAX
            &&& forall|i: int|
                0 <= i < module.exports.len() ==> export_fits(
                    #[trigger] module.exports[i],
                    module.num_of_import_functions,
                )
            &&& module.start_func matches Some(func) ==> new_index(
                func,
                module.num_of_import_functions,
            ) <= u32::MAX
            &&& module.function_bodies.len() <= u32::MAX
            &&& forall|i: int|
                0 <= i < module.function_bodies.len() ==> #[trigger] inject::new_body(
                    module,
                    target,
                    i,
                ) is Ok
            &&& forall|id: u8| #[trigger]
                fits(held_with_checkpoints(module, bodies_of(module, target), id))
        },
{
    let bodies = bodies_of(module, target);
    let count = module.function_bodies.len() as int;
    lemma_exports_fit(module.exports, module.num_of_import_functions);
    lemma_exports_moved(module.exports, module.num_of_import_functions);
    lemma_bodies_fit(module, target, count);
    lemma_bodies_sized(module, target, count);
    assert(bodies.take(count) =~= bodies);
    if let Some(func) = module.start_func {
        law_moved_up(func, module.num_of_import_functions);
    }
    let counts = {
        &&& module.type_section is Some
        &&& has_room_for_two(module.type_section)
        &&& has_room_for_two(module.import_section)
        &&& has_room_for_two(module.memory_section)
        &&& module.exports.len() < u32::MAX
        &&& forall|i: int|
            0 <= i < module.exports.len() ==> export_fits(
                #[trigger] module.exports[i],
                module.num_of_import_functions,
            )
        &&& module.start_func matches Some(func) ==> new_index(
            func,
            module.num_of_import_functions,
        ) <= u32::MAX
        &&& module.function_bodies.len() <= u32::MAX
        &&& forall|i: int|
            0 <= i < module.function_bodies.len() ==> #[trigger] inject::new_body(
                module,
                target,
                i,
            ) is Ok
    };
    let some = Some(target);
    let produced = inject::types_out(module, true) is Ok && inject::imports_out(module, true) is Ok
        && inject::memories_out(module, true) is Ok && inject::exports_out(module, true) is Ok
        && inject::start_out(module, true) is Ok && inject::code_out(module, some) is Ok;
    assert(counts == produced);
    if produced {
        lemma_parts_of_target(module, target);
        lemma_fits_all(module, target);
    } else {
        reveal(inject::encoded_module);
    }
}

/// What is produced for a module with checkpoints is what it holds.
proof fn lemma_parts_of_target(module: ModuleView, target: TargetView)
    requires
        inject::types_out(module, true) is Ok,
        inject::imports_out(module, true) is Ok,
        inject::memories_out(module, true) is Ok,
        inject::exports_out(module, true) is Ok,
        inject::start_out(module, true) is Ok,
        inject::code_out(module, Some(target)) is Ok,
    ensures
        forall|id: u8| #[trigger]
            part(module, Some(target), id) == held_with_checkpoints(
                module,
                bodies_of(module, target),
                id,
            ),
{
    let types = match module.type_section {
        Some(found) => found.count,
        None => 0,
    };
    lemma_added_types(module.type_section->Some_0);
    lemma_two_more(
        module.import_section,
        encoder::function_import_entry("host"@, "should_migrate"@, types as u32),
        encoder::function_import_entry("host"@, "restore_memory"@, (types + 1) as u32),
    );
    lemma_two_more(module.memory_section, encoder::memory_entry(1), encoder::memory_entry(2));
    assert(encoder::memory_entry(1) + encoder::memory_entry(2) =~= seq![
        0x00u8,
        0x01u8,
        0x00u8,
        0x02u8,
    ]);
    assert(leb::uleb128(1) + leb::uleb128(0) =~= seq![0x01u8, 0x00u8]);
    lemma_exports_moved(module.exports, module.num_of_import_functions);
    if let Some(func) = module.start_func {
        law_moved_up(func, module.num_of_import_functions);
    }
    let count = module.function_bodies.len() as int;
    lemma_bodies_sized(module, target, count);
    assert(bodies_of(module, target).take(count) =~= bodies_of(module, target));
}

/// A module whose sections can be produced can be encoded exactly if the size of each fits
/// in 32 bits.
proof fn lemma_fits_all(module: ModuleView, target: TargetView)
    requires
        inject::types_out(module, true) is Ok,
        inject::imports_out(module, true) is Ok,
        inject::memories_out(module, true) is Ok,
        inject::exports_out(module, true) is Ok,
        inject::start_out(module, true) is Ok,
        inject::code_out(module, Some(target)) is Ok,
        forall|id: u8| #[trigger]
            part(module, Some(target), id) == held_with_checkpoints(
                module,
                bodies_of(module, target),
                id,
            ),
    ensures
        inject::encoded_module(module, Some(target)) is Ok == (forall|id: u8| #[trigger]
            fits(held_with_checkpoints(module, bodies_of(module, target), id))),
{
    reveal(inject::encoded_module);
    let some = Some(target);
    let bodies = bodies_of(module, target);
    assert forall|n: u32| #[trigger] leb::uleb128(n as nat).len() <= 5 by {
        leb::lemma_uleb128_u32_len(n as nat);
    }
    let all = fits(part(module, some, 1)) && fits(part(module, some, 2)) && fits(
        part(module, some, 3),
    ) && fits(part(module, some, 4)) && fits(part(module, some, 5)) && fits(part(module, some, 6))
        && fits(part(module, some, 7)) && fits(part(module, some, 9)) && fits(
        part(module, some, 10),
    ) && fits(part(module, some, 11)) && fits(part(module, some, 13));
    assert(inject::encoded_module(module, some) is Ok == all);
    assert(fits(part(module, some, 8)) && fits(part(module, some, 12)));
    assert(all == (forall|id: u8| #[trigger] fits(held_with_checkpoints(module, bodies, id)))) by {
        if all {
            assert forall|id: u8| #[trigger] fits(held_with_checkpoints(module, bodies, id)) by {
                assert(part(module, some, id) == held_with_checkpoints(module, bodies, id));
            }
        }
        if forall|id: u8| #[trigger] fits(held_with_checkpoints(module, bodies, id)) {
            assert(fits(held_with_checkpoints(module, bodies, 1)));
            assert(fits(held_with_checkpoints(module, bodies, 2)));
            assert(fits(held_with_checkpoints(module, bodies, 3)));
            assert(fits(held_with_checkpoints(module, bodies, 4)));
            assert(fits(held_with_checkpoints(module, bodies, 5)));
            assert(fits(held_with_checkpoints(module, bodies, 6)));
            assert(fits(held_with_checkpoints(module, bodies, 7)));
            assert(fits(held_with_checkpoints(module, bodies, 9)));
            assert(fits(held_with_checkpoints(module, bodies, 10)));
            assert(fits(held_with_checkpoints(module, bodies, 11)));
            assert(fits(held_with_checkpoints(module, bodies, 13)));
        }
    }
}

/// A module without types cannot be encoded, and one without checkpoints that has them
/// fails only where a section is too large.
pub proof fn law_why_not_encoded(module: ModuleView, target: TargetView)
    ensures
        module.type_section is None ==> inject::encoded_module(module, None) == Err::<
            Seq<u8>,
            MigrateError,
        >(MigrateError::MissingTypes),
        module.type_section is None ==> inject::encoded_module(module, Some(target)) == Err::<
            Seq<u8>,
            MigrateError,
        >(MigrateError::MissingTypes),
        module.type_section is Some ==> (inject::encoded_module(module, None) matches Err(error)
            ==> error == MigrateError::TooLarge),
{
    reveal(inject::encoded_module);
    if let Err(error) = inject::encoded_module(module, None) {
        if module.type_section is Some {
            assert forall|bytes: Seq<u8>| #[trigger]
                inject::followed_by_customs(bytes, module.custom_section) matches Err(
                    found,
                ) ==> found == MigrateError::TooLarge by {
                lemma_customs_error(bytes, module.custom_section);
            }
        }
    }
}

/// Custom sections fail only where one is too large.
proof fn lemma_customs_error(bytes: Seq<u8>, contents: Seq<Seq<u8>>)
    ensures
        inject::followed_by_customs(bytes, contents) matches Err(error) ==> error
            == MigrateError::TooLarge,
    decreases contents.len(),
{
    if contents.len() > 0 {
        lemma_customs_error(bytes, contents.drop_last());
    }
}

} // verus!
