use crate::bytes::{spec_le32, u32_le_at, zero_vec};
use crate::error::{Error, FsError};
use crate::fat::Geometry;
use crate::storage::DataStorage;
use vstd::prelude::*;

verus! {

/// The base-two logarithm of the sector size recorded by an exFAT boot
/// sector, stored directly as a shift count.
pub open spec fn spec_exfat_bps_log2(b: Seq<u8>) -> int {
    b[108] as int
}

/// The base-two logarithm of the cluster size in sectors, stored directly
/// as a shift count.
pub open spec fn spec_exfat_spc_log2(b: Seq<u8>) -> int {
    b[109] as int
}

/// The count of File Allocation Tables on the volume.
pub open spec fn spec_exfat_number_of_fats(b: Seq<u8>) -> int {
    b[110] as int
}

/// The volume-relative sector offset of the first File Allocation Table.
pub open spec fn spec_exfat_fat_offset_sectors(b: Seq<u8>) -> int {
    spec_le32(b, 80)
}

/// The length in sectors of each File Allocation Table.
pub open spec fn spec_exfat_fat_length(b: Seq<u8>) -> int {
    spec_le32(b, 84)
}

/// The volume-relative sector offset of the cluster heap.
pub open spec fn spec_exfat_heap_sectors(b: Seq<u8>) -> int {
    spec_le32(b, 88)
}

/// The cluster index of the first cluster of the root directory.
pub open spec fn spec_exfat_root_cluster(b: Seq<u8>) -> int {
    spec_le32(b, 96)
}

/// The sector size in bytes, for a supported shift count.
pub open spec fn spec_exfat_bps(b: Seq<u8>) -> int {
    if spec_exfat_bps_log2(b) == 9 {
        512
    } else if spec_exfat_bps_log2(b) == 10 {
        1024
    } else if spec_exfat_bps_log2(b) == 11 {
        2048
    } else {
        4096
    }
}

/// Whether an exFAT boot sector passes every geometry validation: a
/// sector size shift of 9 to 12, a cluster size of at most 2^25 bytes,
/// the first table past the boot regions, one or two tables, and the
/// cluster heap past the table region.
pub open spec fn spec_exfat_boot_valid(b: Seq<u8>) -> bool {
    &&& b.len() >= 512
    &&& 9 <= spec_exfat_bps_log2(b) <= 12
    &&& spec_exfat_bps_log2(b) + spec_exfat_spc_log2(b) <= 25
    &&& spec_exfat_fat_offset_sectors(b) >= 24
    &&& (spec_exfat_number_of_fats(b) == 1 || spec_exfat_number_of_fats(b) == 2)
    &&& spec_exfat_heap_sectors(b) >= spec_exfat_fat_offset_sectors(b) + spec_exfat_fat_length(b)
        * spec_exfat_number_of_fats(b)
}

/// Decodes and validates the volume geometry recorded by a 512-byte exFAT
/// boot sector. Succeeds exactly when every documented invariant holds,
/// and every rejection is the `Inconsistent` volume error, nothing else.
pub fn decode_geometry(boot: &Vec<u8>) -> (r: Result<Geometry, Error>)
    requires
        boot@.len() == 512,
    ensures
        r is Ok <==> spec_exfat_boot_valid(boot@),
        r is Ok ==> {
            let g = r->Ok_0;
            &&& g.bytes_per_cluster_log2 as int == spec_exfat_bps_log2(boot@)
                + spec_exfat_spc_log2(boot@)
            &&& g.fat_offset as int == spec_exfat_fat_offset_sectors(boot@) * spec_exfat_bps(boot@)
            &&& g.cluster_heap_offset as int == spec_exfat_heap_sectors(boot@) * spec_exfat_bps(
                boot@,
            )
            &&& g.first_cluster_of_root_directory as int == spec_exfat_root_cluster(boot@)
            &&& 9 <= g.bytes_per_cluster_log2 <= 25
            &&& g.fat_offset <= 0x400000000000
            &&& g.cluster_heap_offset <= 0x400000000000
        },
        r is Err ==> r->Err_0 == Error::Fs(FsError::Inconsistent),
{
    let bytes_per_sector_log2 = boot[108];
    if bytes_per_sector_log2 < 9 || bytes_per_sector_log2 > 12 {
        return Err(Error::Fs(FsError::Inconsistent));
    }
    let bytes_per_sector: u64 = if bytes_per_sector_log2 == 9 {
        512
    } else if bytes_per_sector_log2 == 10 {
        1024
    } else if bytes_per_sector_log2 == 11 {
        2048
    } else {
        4096
    };
    let sectors_per_cluster_log2 = boot[109];
    if sectors_per_cluster_log2 > 25 - bytes_per_sector_log2 {
        return Err(Error::Fs(FsError::Inconsistent));
    }
    let bytes_per_cluster_log2 = bytes_per_sector_log2 + sectors_per_cluster_log2;

    let fat_offset_sectors = u32_le_at(boot, 80);
    if fat_offset_sectors < 24 {
        return Err(Error::Fs(FsError::Inconsistent));
    }
    let number_of_fats = boot[110];
    if number_of_fats != 1 && number_of_fats != 2 {
        return Err(Error::Fs(FsError::Inconsistent));
    }
    let fat_length = u32_le_at(boot, 84);
    let cluster_heap_sectors = u32_le_at(boot, 88);
    proof {
        assert(fat_length as u64 * number_of_fats as u64 <= 0x1FFFFFFFE) by (nonlinear_arith)
            requires
                fat_length <= 0xFFFFFFFF && number_of_fats <= 2,
        ;
    }
    if (cluster_heap_sectors as u64) < fat_offset_sectors as u64 + fat_length as u64
        * number_of_fats as u64 {
        return Err(Error::Fs(FsError::Inconsistent));
    }

    let first_cluster_of_root_directory = u32_le_at(boot, 96);

    proof {
        lemma_exfat_sector_product(fat_offset_sectors as int, bytes_per_sector as int);
        lemma_exfat_sector_product(cluster_heap_sectors as int, bytes_per_sector as int);
    }
    Ok(
        Geometry {
            bytes_per_cluster_log2,
            fat_offset: fat_offset_sectors as u64 * bytes_per_sector,
            cluster_heap_offset: cluster_heap_sectors as u64 * bytes_per_sector,
            first_cluster_of_root_directory,
        },
    )
}

/// A sector count scaled to bytes stays within 64 bits: sector counts are
/// 32-bit and sectors hold at most 4096 bytes.
proof fn lemma_exfat_sector_product(sectors: int, bps: int)
    requires
        0 <= sectors <= 0xFFFFFFFF,
        0 <= bps <= 4096,
    ensures
        sectors * bps <= 0x400000000000,
{
    assert(sectors * bps <= 0x400000000000) by (nonlinear_arith)
        requires
            0 <= sectors <= 0xFFFFFFFF && 0 <= bps <= 4096,
    ;
}

/// The exFAT variant. Mounting decodes and validates the volume geometry;
/// the data operations are not supported by this build and report
/// `Unimplemented`.
pub struct FileSystemServer<DS: DataStorage> {
    data_storage: DS,
    bytes_per_cluster_log2: u8,
    fat_offset: u64,
    cluster_heap_offset: u64,
    first_cluster_of_root_directory: u32,
}

impl<DS: DataStorage> FileSystemServer<DS> {
    /// The base-two logarithm of the cluster size in bytes.
    pub closed spec fn spec_bpc_log2(&self) -> int {
        self.bytes_per_cluster_log2 as int
    }

    /// The absolute byte offset of the first File Allocation Table.
    pub closed spec fn spec_fat_off(&self) -> int {
        self.fat_offset as int
    }

    /// The absolute byte offset of the cluster heap.
    pub closed spec fn spec_heap_off(&self) -> int {
        self.cluster_heap_offset as int
    }

    /// The cluster index at which the root directory begins.
    pub closed spec fn spec_root_cluster(&self) -> int {
        self.first_cluster_of_root_directory as int
    }

    /// Mounts an exFAT volume: reads the boot sector, decodes and
    /// validates the geometry it records through this variant's
    /// `decode_geometry`, and fails on any violated invariant.
    pub fn new(data_storage: DS) -> (r: Result<Self, Error>)
        ensures
            r is Ok ==> {
                let fs = r->Ok_0;
                let d = data_storage.contents();
                &&& spec_exfat_boot_valid(d)
                &&& fs.spec_bpc_log2() == spec_exfat_bps_log2(d) + spec_exfat_spc_log2(d)
                &&& fs.spec_fat_off() == spec_exfat_fat_offset_sectors(d) * spec_exfat_bps(d)
                &&& fs.spec_heap_off() == spec_exfat_heap_sectors(d) * spec_exfat_bps(d)
                &&& fs.spec_root_cluster() == spec_exfat_root_cluster(d)
            },
    {
        let mut boot: Vec<u8> = zero_vec(512);
        match data_storage.read(0, &mut boot) {
            Ok(()) => {},
            Err(e) => {
                return Err(e);
            },
        }
        let g = match decode_geometry(&boot) {
            Ok(g) => g,
            Err(e) => {
                return Err(e);
            },
        };
        proof {
            let d = data_storage.contents();
            assert(boot@ == d.subrange(0, 512));
            assert(boot@[108] == d[108] && boot@[109] == d[109] && boot@[110] == d[110]);
            assert(spec_le32(boot@, 80) == spec_le32(d, 80));
            assert(spec_le32(boot@, 84) == spec_le32(d, 84));
            assert(spec_le32(boot@, 88) == spec_le32(d, 88));
            assert(spec_le32(boot@, 96) == spec_le32(d, 96));
            assert(spec_exfat_boot_valid(boot@) == spec_exfat_boot_valid(d));
        }
        Ok(
            FileSystemServer {
                data_storage,
                bytes_per_cluster_log2: g.bytes_per_cluster_log2,
                fat_offset: g.fat_offset,
                cluster_heap_offset: g.cluster_heap_offset,
                first_cluster_of_root_directory: g.first_cluster_of_root_directory,
            },
        )
    }

    /// Enumerating directories is not supported by this build.
    pub fn stat(&self, index: u64, offset: u64, buffer: &mut Vec<u8>) -> (r: Result<u64, Error>)
        ensures
            r == Result::<u64, Error>::Err(Error::Unimplemented),
            final(buffer)@ == old(buffer)@,
    {
        Err(Error::Unimplemented)
    }

    /// Reading file data is not supported by this build.
    pub fn read(&self, index: u64, offset: u64, buffer: &mut Vec<u8>) -> (r: Result<(), Error>)
        ensures
            r == Result::<(), Error>::Err(Error::Unimplemented),
            final(buffer)@ == old(buffer)@,
    {
        Err(Error::Unimplemented)
    }

    /// Writing file data is not supported by this build.
    pub fn write(&mut self, index: u64, offset: u64, buffer: &Vec<u8>) -> (r: Result<(), Error>)
        ensures
            r == Result::<(), Error>::Err(Error::Unimplemented),
            *final(self) == *old(self),
    {
        Err(Error::Unimplemented)
    }
}

} // verus!
