use crate::error::Error;
use vstd::prelude::*;

verus! {

/// The client side of the filesystem interface. No transport is wired up
/// yet: every operation reports `Unimplemented`.
pub struct FileSystemClient {}

impl FileSystemClient {
    /// Enumerating directories has no transport yet.
    pub fn stat(&self, index: u64, offset: u64, buffer: &mut Vec<u8>) -> (r: Result<u64, Error>)
        ensures
            r == Result::<u64, Error>::Err(Error::Unimplemented),
            final(buffer)@ == old(buffer)@,
    {
        Err(Error::Unimplemented)
    }

    /// Reading file data has no transport yet.
    pub fn read(&self, index: u64, offset: u64, buffer: &mut Vec<u8>) -> (r: Result<(), Error>)
        ensures
            r == Result::<(), Error>::Err(Error::Unimplemented),
            final(buffer)@ == old(buffer)@,
    {
        Err(Error::Unimplemented)
    }

    /// Writing file data has no transport yet.
    pub fn write(&self, index: u64, offset: u64, buffer: &Vec<u8>) -> (r: Result<(), Error>)
        ensures
            r == Result::<(), Error>::Err(Error::Unimplemented),
    {
        Err(Error::Unimplemented)
    }
}

} // verus!
