use vstd::prelude::*;

verus! {

/// A process address-space mapping. Page-table walking is not wired up
/// yet: iteration yields no entries.
pub struct Mapping {}

/// An iterator over the page table entries of a mapping.
pub struct MappingIter {}

/// A mutable iterator over the page table entries of a mapping.
pub struct MappingIterMut {}

/// One page table entry of a mapping: the raw descriptor word.
pub struct PageTableEntry(pub usize);

impl Mapping {
    /// Iterates over the page table entries covering the given address
    /// range.
    pub fn iter(&self, addr_begin: usize, addr_end: usize) -> (r: MappingIter) {
        MappingIter {  }
    }

    /// Iterates mutably over the page table entries covering the given
    /// address range.
    pub fn iter_mut(&self, addr_begin: usize, addr_end: usize) -> (r: MappingIterMut) {
        MappingIterMut {  }
    }
}

impl MappingIter {
    /// The next page table entry, of which there is none yet.
    pub fn next(&mut self) -> (r: Option<PageTableEntry>)
        ensures
            r is None,
    {
        None
    }
}

impl MappingIterMut {
    /// The next page table entry, of which there is none yet.
    pub fn next(&mut self) -> (r: Option<PageTableEntry>)
        ensures
            r is None,
    {
        None
    }
}

} // verus!
