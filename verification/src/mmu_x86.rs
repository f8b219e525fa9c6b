use vstd::prelude::*;

verus! {

/// An x86 address space, identified by the physical address of its root
/// page table.
pub struct AddressSpaceX86(pub usize);

/// One x86 page table entry: the raw descriptor word.
#[derive(Clone, Copy)]
pub struct PageTableEntryX86(pub usize);

impl PageTableEntryX86 {
    /// The physical address the entry points at: the descriptor word with
    /// its low twelve flag bits cleared.
    pub fn address(&self) -> (r: usize)
        ensures
            r == (self.0 / 4096) * 4096,
    {
        self.0 / 4096 * 4096
    }

    /// Whether the entry is present: its P bit (bit 0) is set.
    pub fn is_valid(&self) -> (r: bool)
        ensures
            r == (self.0 % 2 == 1),
    {
        self.0 % 2 == 1
    }

    /// Whether the entry points at a further page table rather than a
    /// large page: it is present and its PS bit (bit 7) is clear.
    pub fn is_table(&self) -> (r: bool)
        ensures
            r == (self.0 % 2 == 1 && self.0 / 128 % 2 == 0),
    {
        self.is_valid() && self.0 / 128 % 2 == 0
    }
}

} // verus!
