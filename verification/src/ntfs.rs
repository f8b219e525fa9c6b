use crate::error::Error;
use crate::storage::DataStorage;
use vstd::prelude::*;

verus! {

/// The NTFS variant. Only mounting is wired up: every data
/// operation reports `Unimplemented`.
pub struct FileSystemServer<DS: DataStorage> {
    data_storage: DS,
}

impl<DS: DataStorage> FileSystemServer<DS> {
    /// Mounts the volume. The variant performs no validation yet.
    pub fn new(data_storage: DS) -> (r: Result<Self, Error>)
        ensures
            r is Ok,
    {
        Ok(FileSystemServer { data_storage })
    }

    /// Enumerating directories is not supported by this variant.
    pub fn stat(&self, index: u64, offset: u64, buffer: &mut Vec<u8>) -> (r: Result<u64, Error>)
        ensures
            r == Result::<u64, Error>::Err(Error::Unimplemented),
            final(buffer)@ == old(buffer)@,
    {
        Err(Error::Unimplemented)
    }

    /// Reading file data is not supported by this variant.
    pub fn read(&self, index: u64, offset: u64, buffer: &mut Vec<u8>) -> (r: Result<(), Error>)
        ensures
            r == Result::<(), Error>::Err(Error::Unimplemented),
            final(buffer)@ == old(buffer)@,
    {
        Err(Error::Unimplemented)
    }

    /// Writing file data is not supported by this variant.
    pub fn write(&mut self, index: u64, offset: u64, buffer: &Vec<u8>) -> (r: Result<(), Error>)
        ensures
            r == Result::<(), Error>::Err(Error::Unimplemented),
            *final(self) == *old(self),
    {
        Err(Error::Unimplemented)
    }
}

} // verus!
