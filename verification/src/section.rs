//! Sections as a number of entries and the bytes of these entries.

use vstd::prelude::*;
use crate::leb;

verus! {

/// What a section holds: how many entries, and their encodings one after the
/// other.
#[verifier::ext_equal]
pub struct SectionView {
    pub count: nat,
    pub entries: Seq<u8>,
}

impl SectionView {
    /// The section without entries.
    pub open spec fn empty() -> SectionView {
        SectionView { count: 0, entries: Seq::empty() }
    }

    /// The entries of `self` followed by those of `other`.
    pub open spec fn concat(self, other: SectionView) -> SectionView {
        SectionView { count: self.count + other.count, entries: self.entries + other.entries }
    }

    /// The contents of the section in a binary: the number of entries, then
    /// the entries.
    pub open spec fn contents(self) -> Seq<u8> {
        leb::uleb128(self.count) + self.entries
    }

    /// The contents preceded by their size.
    pub open spec fn encoding(self) -> Seq<u8> {
        leb::uleb128(self.contents().len()) + self.contents()
    }
}

/// A section of a module.
pub struct Section {
    pub count: u32,
    pub entries: Vec<u8>,
}

impl View for Section {
    type V = SectionView;

    open spec fn view(&self) -> SectionView {
        SectionView { count: self.count as nat, entries: self.entries@ }
    }
}

impl Section {
    /// Creates a section without entries.
    pub fn new() -> (section: Section)
        ensures
            section@ == SectionView::empty(),
    {
        Section { count: 0, entries: Vec::new() }
    }

    /// Copies the section.
    pub fn copy(&self) -> (section: Section)
        ensures
            section@ == self@,
    {
        Section { count: self.count, entries: vstd::slice::slice_to_vec(self.entries.as_slice()) }
    }

    /// Tells whether the section has no entries.
    pub fn is_empty(&self) -> (empty: bool)
        ensures
            empty == (self@.count == 0),
    {
        self.count == 0
    }

    /// Takes the entries out of an encoded section with `count` entries.
    pub(crate) fn from_encoding(count: u32, encoded: Vec<u8>, Ghost(view): Ghost<SectionView>) -> (section:
        Section)
        requires
            encoded@ == view.encoding(),
            count == view.count,
        ensures
            section@ == view,
    {
        proof {
            let size = leb::uleb128(view.contents().len());
            let number = leb::uleb128(view.count);
            assert(encoded@ =~= size + number + view.entries);
            assert(encoded@.subrange(0, size.len() as int) =~= size);
            assert(encoded@.subrange(size.len() as int, (size.len() + number.len()) as int)
                =~= number);
        }
        let start: usize = leb::skip_u32(&encoded, 0, Ghost(view.contents().len()));
        let entries_start: usize = leb::skip_u32(&encoded, start, Ghost(view.count));
        let slice = vstd::slice::slice_subrange(encoded.as_slice(), entries_start, encoded.len());
        let entries = vstd::slice::slice_to_vec(slice);
        assert(entries@ =~= view.entries);
        Section { count, entries }
    }

    /// Adds the entries of `other` at the end. Fails, and leaves the section
    /// as it is, if the number of entries would not fit in 32 bits.
    pub fn append(&mut self, other: &Section) -> (done: bool)
        ensures
            done == (old(self)@.count + other@.count <= u32::MAX),
            done ==> final(self)@ == old(self)@.concat(other@),
            !done ==> *final(self) == *old(self),
    {
        if self.count > u32::MAX - other.count {
            return false;
        }
        self.count = self.count + other.count;
        let mut more = vstd::slice::slice_to_vec(other.entries.as_slice());
        self.entries.append(&mut more);
        true
    }

    /// The contents of the section in a binary, if their size fits in 32 bits.
    pub fn contents(&self) -> (contents: Option<Vec<u8>>)
        ensures
            contents is Some == (self@.contents().len() <= u32::MAX),
            contents matches Some(bytes) ==> bytes@ == self@.contents(),
    {
        let mut bytes = leb::encode_u32(self.count);
        proof {
            leb::lemma_uleb128_u32_len(self.count as nat);
        }
        if self.entries.len() > 0xffff_ffff - bytes.len() {
            return None;
        }
        let mut entries = vstd::slice::slice_to_vec(self.entries.as_slice());
        bytes.append(&mut entries);
        Some(bytes)
    }
}

} // verus!
