use crate::bytes::spec_update_range;
use crate::error::{Error, FsError};
use vstd::prelude::*;

verus! {

/// The block storage interface consumed by the filesystem cores.
///
/// A provider exposes a flat array of bytes, addressed at byte granularity.
/// Each access either fully satisfies the request or fails: a read that
/// returns `Ok` has filled the whole buffer with the bytes stored at the
/// requested offset, and a write either replaces exactly the requested
/// range or fails leaving the bytes as they were. Partial transfers are
/// not a defined outcome.
pub trait DataStorage: Sized {
    /// The bytes currently held by the storage.
    spec fn contents(&self) -> Seq<u8>;

    /// Fills `buffer` with the `buffer.len()` bytes stored at `offset`, or
    /// fails without resizing `buffer`.
    fn read(&self, offset: u64, buffer: &mut Vec<u8>) -> (r: Result<(), Error>)
        ensures
            final(buffer)@.len() == old(buffer)@.len(),
            r is Ok ==> offset + old(buffer)@.len() <= self.contents().len()
                && final(buffer)@ == self.contents().subrange(
                    offset as int,
                    offset + old(buffer)@.len(),
                ),
    ;

    /// Replaces the `data.len()` bytes stored at `offset` with `data`, or
    /// fails with the stored bytes unchanged.
    fn write(&mut self, offset: u64, data: &Vec<u8>) -> (r: Result<(), Error>)
        ensures
            r is Ok ==> offset + data@.len() <= old(self).contents().len()
                && final(self).contents() == spec_update_range(
                    old(self).contents(),
                    offset as int,
                    data@,
                ),
            r is Err ==> final(self).contents() == old(self).contents(),
    ;
}

/// Block storage backed by a byte vector held in memory.
///
/// An access that stays within the held bytes always succeeds; one that
/// would run past their end fails with `Inconsistent` — the volume
/// metadata that produced the offset points outside the volume — leaving
/// everything untouched.
pub struct MemoryDataStorage {
    data: Vec<u8>,
}

impl MemoryDataStorage {
    /// Wraps `data` as a storage volume.
    pub fn new(data: Vec<u8>) -> (r: Self)
        ensures
            r.contents() == data@,
    {
        MemoryDataStorage { data }
    }

    /// The current bytes of the volume.
    pub fn data(&self) -> (r: &Vec<u8>)
        ensures
            r@ == self.contents(),
    {
        &self.data
    }

    /// Fills `buffer` from offset `offset`: succeeds exactly when the
    /// requested range lies within the held bytes, and fails with
    /// `Inconsistent` leaving `buffer` untouched otherwise.
    pub fn read(&self, offset: u64, buffer: &mut Vec<u8>) -> (r: Result<(), Error>)
        ensures
            final(buffer)@.len() == old(buffer)@.len(),
            r is Ok <==> offset + old(buffer)@.len() <= self.contents().len(),
            r is Ok ==> final(buffer)@ == self.contents().subrange(
                offset as int,
                offset + old(buffer)@.len(),
            ),
            r is Err ==> final(buffer)@ == old(buffer)@ && r->Err_0 == Error::Fs(
                FsError::Inconsistent,
            ),
    {
        let len = buffer.len();
        if offset > self.data.len() as u64 || len as u64 > self.data.len() as u64 - offset {
            return Err(Error::Fs(FsError::Inconsistent));
        }
        let dlen: usize = self.data.len();
        let base = offset as usize;
        let mut i: usize = 0;
        while i < len
            invariant
                i <= len,
                len == buffer@.len(),
                base + len <= self.data@.len(),
                dlen == self.data@.len(),
                forall|j: int| 0 <= j < i ==> buffer@[j] == self.data@[base + j],
            decreases len - i,
        {
            let b = self.data[base + i];
            buffer.set(i, b);
            i = i + 1;
        }
        proof {
            assert(buffer@ =~= self.contents().subrange(offset as int, offset + len));
        }
        Ok(())
    }

    /// Replaces the bytes at `offset` with `data`: succeeds exactly when
    /// the range lies within the held bytes, and fails with `Inconsistent`
    /// leaving them unchanged otherwise.
    pub fn write(&mut self, offset: u64, data: &Vec<u8>) -> (r: Result<(), Error>)
        ensures
            r is Ok <==> offset + data@.len() <= old(self).contents().len(),
            r is Ok ==> final(self).contents() == spec_update_range(
                old(self).contents(),
                offset as int,
                data@,
            ),
            r is Err ==> final(self).contents() == old(self).contents() && r->Err_0 == Error::Fs(
                FsError::Inconsistent,
            ),
    {
        let len = data.len();
        if offset > self.data.len() as u64 || len as u64 > self.data.len() as u64 - offset {
            return Err(Error::Fs(FsError::Inconsistent));
        }
        let ghost d0 = self.data@;
        let dlen: usize = self.data.len();
        let base = offset as usize;
        let mut i: usize = 0;
        while i < len
            invariant
                i <= len,
                len == data@.len(),
                base + len <= self.data@.len(),
                self.data@.len() == d0.len(),
                dlen == d0.len(),
                forall|j: int| 0 <= j < d0.len() && !(base <= j < base + i)
                    ==> self.data@[j] == d0[j],
                forall|j: int| base <= j < base + i ==> self.data@[j] == data@[j - base],
            decreases len - i,
        {
            let b = data[i];
            self.data.set(base + i, b);
            i = i + 1;
        }
        proof {
            assert(self.contents() =~= spec_update_range(d0, offset as int, data@));
        }
        Ok(())
    }
}

impl DataStorage for MemoryDataStorage {
    closed spec fn contents(&self) -> Seq<u8> {
        self.data@
    }

    fn read(&self, offset: u64, buffer: &mut Vec<u8>) -> (r: Result<(), Error>) {
        self.read(offset, buffer)
    }

    fn write(&mut self, offset: u64, data: &Vec<u8>) -> (r: Result<(), Error>) {
        self.write(offset, data)
    }
}

} // verus!
