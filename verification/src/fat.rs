use crate::bytes::{copy_into, spec_le16, spec_le32, spec_update_range, u16_le_at, u32_le_at,
    zero_vec};
use crate::chain::{lemma_chain_walk, spec_chain, spec_cluster_at, spec_fat_next,
    spec_valid_cluster, ClusterChain};
use crate::dirent::{lemma_encode_push, lemma_filter_from_concat, lemma_filter_from_empty,
    lemma_filter_from_singleton, lemma_fit_count_bounds, spec_encode_entries, spec_filter_from,
    spec_fit_count, spec_from_pred, spec_group_ok, spec_group_units, spec_listing, spec_long_units, SpecEntry,
    SpecListStatus, SpecSlot};
use crate::names::spec_utf16_to_utf8;
use crate::error::{Error, FsError};
use crate::storage::DataStorage;
use vstd::arithmetic::div_mod::{lemma_fundamental_div_mod, lemma_fundamental_div_mod_converse};
use vstd::prelude::*;

verus! {

/// The count of cluster numbers that can name a cluster of the heap
/// (numbers 2 through 0xFFFFFF6). No acyclic cluster chain can be longer:
/// a walk that exceeds this many links must be looping and is reported as
/// `Inconsistent` instead of never returning.
pub const CHAIN_CAP: u64 = 0xFFFFFF5;

/// Multiplying by a non-negative value preserves order.
pub proof fn lemma_mul_mono(x: int, y: int, z: int)
    requires
        x <= y,
        0 <= z,
    ensures
        x * z <= y * z,
{
    assert(x * z <= y * z) by (nonlinear_arith)
        requires
            x <= y && 0 <= z,
    ;
}

/// Once the walk from `c0` reaches a sentinel it stays there: the cluster
/// reached after any later number of links is that same sentinel.
pub proof fn lemma_invalid_stays(d: Seq<u8>, fat_off: int, c0: u32, m: nat, m2: nat)
    requires
        m <= m2,
        !spec_valid_cluster(spec_cluster_at(d, fat_off, c0, m)),
    ensures
        spec_cluster_at(d, fat_off, c0, m2) == spec_cluster_at(d, fat_off, c0, m),
    decreases m2,
{
    if m2 > m {
        lemma_invalid_stays(d, fat_off, c0, m, (m2 - 1) as nat);
    }
}

/// The product of two non-negative values bounded by `bx` and `by` is
/// bounded by `bx * by`.
pub proof fn lemma_mul_bound(x: int, y: int, bx: int, by: int)
    requires
        0 <= x <= bx,
        0 <= y <= by,
    ensures
        x * y <= bx * by,
{
    assert(x * y <= bx * by) by (nonlinear_arith)
        requires
            0 <= x <= bx && 0 <= y <= by,
    ;
}

/// Whether `v` is one of the thirty-two powers of two representable in 32
/// bits.
pub open spec fn spec_is_power_of_two(v: u32) -> bool {
    v == 0x1 || v == 0x2 || v == 0x4 || v == 0x8 || v == 0x10 || v == 0x20 || v == 0x40
        || v == 0x80 || v == 0x100 || v == 0x200 || v == 0x400 || v == 0x800 || v == 0x1000
        || v == 0x2000 || v == 0x4000 || v == 0x8000 || v == 0x10000 || v == 0x20000
        || v == 0x40000 || v == 0x80000 || v == 0x100000 || v == 0x200000 || v == 0x400000
        || v == 0x800000 || v == 0x1000000 || v == 0x2000000 || v == 0x4000000 || v == 0x8000000
        || v == 0x10000000 || v == 0x20000000 || v == 0x40000000 || v == 0x80000000
}

/// Whether `value` is a nonzero power of two, decided by the usual bit
/// trick: a power of two shares no set bit with its predecessor.
pub fn is_power_of_two(value: u32) -> (r: bool)
    ensures
        r == spec_is_power_of_two(value),
{
    let r = value != 0 && value & (value - 1) == 0;
    proof {
        assert((value != 0 && value & (value - 1) as u32 == 0) == (value == 0x1 || value == 0x2
            || value == 0x4 || value == 0x8 || value == 0x10 || value == 0x20 || value == 0x40
            || value == 0x80 || value == 0x100 || value == 0x200 || value == 0x400
            || value == 0x800 || value == 0x1000 || value == 0x2000 || value == 0x4000
            || value == 0x8000 || value == 0x10000 || value == 0x20000 || value == 0x40000
            || value == 0x80000 || value == 0x100000 || value == 0x200000 || value == 0x400000
            || value == 0x800000 || value == 0x1000000 || value == 0x2000000 || value == 0x4000000
            || value == 0x8000000 || value == 0x10000000 || value == 0x20000000
            || value == 0x40000000 || value == 0x80000000)) by (bit_vector);
    }
    r
}

/// The count of bytes per sector recorded in the boot sector of disk `d`.
pub open spec fn spec_bytes_per_sector(d: Seq<u8>) -> int {
    spec_le16(d, 11)
}

/// The count of sectors per cluster recorded in the boot sector.
pub open spec fn spec_sectors_per_cluster(d: Seq<u8>) -> int {
    d[13] as int
}

/// The count of reserved sectors before the first File Allocation Table.
pub open spec fn spec_reserved_sectors(d: Seq<u8>) -> int {
    spec_le16(d, 14)
}

/// The count of File Allocation Tables on the volume.
pub open spec fn spec_number_of_fats(d: Seq<u8>) -> int {
    d[16] as int
}

/// The count of 32-byte entries in a legacy root directory region.
pub open spec fn spec_root_entry_count(d: Seq<u8>) -> int {
    spec_le16(d, 17)
}

/// The count of sectors per File Allocation Table: the 16-bit field when it
/// is nonzero (legacy 12/16-bit-table volumes), the 32-bit field otherwise.
pub open spec fn spec_fat_length(d: Seq<u8>) -> int {
    if spec_le16(d, 22) != 0 {
        spec_le16(d, 22)
    } else {
        spec_le32(d, 36)
    }
}

/// The cluster number at which the root directory begins, as recorded in
/// the 32-bit-table boot sector field.
pub open spec fn spec_boot_root_cluster(d: Seq<u8>) -> int {
    spec_le32(d, 44)
}

/// The base-two logarithm of the sector size, for a supported sector size.
pub open spec fn spec_bps_log2(d: Seq<u8>) -> int {
    if spec_bytes_per_sector(d) == 512 {
        9
    } else if spec_bytes_per_sector(d) == 1024 {
        10
    } else if spec_bytes_per_sector(d) == 2048 {
        11
    } else {
        12
    }
}

/// The base-two logarithm of the cluster size in sectors, for a supported
/// cluster size.
pub open spec fn spec_spc_log2(d: Seq<u8>) -> int {
    if spec_sectors_per_cluster(d) == 1 {
        0
    } else if spec_sectors_per_cluster(d) == 2 {
        1
    } else if spec_sectors_per_cluster(d) == 4 {
        2
    } else if spec_sectors_per_cluster(d) == 8 {
        3
    } else if spec_sectors_per_cluster(d) == 16 {
        4
    } else if spec_sectors_per_cluster(d) == 32 {
        5
    } else if spec_sectors_per_cluster(d) == 64 {
        6
    } else {
        7
    }
}

/// Whether the boot sector of disk `d` passes every geometry validation:
/// the sector size is a power of two of 512 to 4096 bytes, the cluster
/// size is a power of two of at most 128 sectors, the volume has one or
/// two File Allocation Tables, and the legacy root directory region is a
/// whole number of sectors.
pub open spec fn spec_boot_valid(d: Seq<u8>) -> bool {
    &&& d.len() >= 512
    &&& {
        let bps = spec_bytes_per_sector(d);
        bps == 512 || bps == 1024 || bps == 2048 || bps == 4096
    }
    &&& {
        let spc = spec_sectors_per_cluster(d);
        spc == 1 || spc == 2 || spc == 4 || spc == 8 || spc == 16 || spc == 32 || spc == 64
            || spc == 128
    }
    &&& (spec_number_of_fats(d) == 1 || spec_number_of_fats(d) == 2)
    &&& spec_root_entry_count(d) * 32 % spec_bytes_per_sector(d) == 0
}

/// The absolute byte offset of the first File Allocation Table, for a boot
/// sector that passes validation.
pub open spec fn spec_fat_offset(d: Seq<u8>) -> int {
    spec_reserved_sectors(d) * spec_bytes_per_sector(d)
}

/// The absolute byte offset of cluster index 2, the heap's first
/// addressable cluster: past the reserved region, the File Allocation
/// Tables, and the legacy root directory region.
pub open spec fn spec_cluster_heap_offset(d: Seq<u8>) -> int {
    (spec_reserved_sectors(d) + spec_fat_length(d) * spec_number_of_fats(d)
        + spec_root_entry_count(d) * 32 / spec_bytes_per_sector(d)) * spec_bytes_per_sector(d)
}

/// The absolute byte offset of the directory entry slot with heap-wide
/// slot index `index`, for a heap that begins at `heap_off`.
pub open spec fn spec_slot_base(heap_off: int, index: int) -> int {
    heap_off + index * 32
}

/// The attribute byte of the 32-byte directory entry at absolute offset
/// `base` of disk `d`.
pub open spec fn spec_slot_attr(d: Seq<u8>, base: int) -> u8 {
    d[base + 11]
}

/// The first-cluster number of the directory entry at absolute offset
/// `base`: the 16-bit low half and the 16-bit high half combined.
pub open spec fn spec_slot_first_cluster(d: Seq<u8>, base: int) -> u32 {
    (spec_le16(d, base + 26) + spec_le16(d, base + 20) * 0x10000) as u32
}

/// The recorded byte size of the directory entry at absolute offset `base`.
pub open spec fn spec_slot_size(d: Seq<u8>, base: int) -> int {
    spec_le32(d, base + 28)
}

/// Whether an attribute byte designates an ordinary file: neither the
/// directory bit nor the volume-label bit is set.
pub open spec fn spec_attr_is_file(attr: u8) -> bool {
    attr / 8 % 2 == 0 && attr / 16 % 2 == 0
}

/// Whether an attribute byte has the directory bit set.
pub open spec fn spec_attr_is_dir(attr: u8) -> bool {
    attr / 16 % 2 == 1
}

/// The `n` bytes of `d` that start at offset `base`. Unlike a subrange,
/// this is defined (with unspecified elements) even where the range runs
/// outside `d`; within bounds the two agree.
pub open spec fn spec_bytes_at(d: Seq<u8>, base: int, n: int) -> Seq<u8> {
    Seq::new(
        if n >= 0 {
            n as nat
        } else {
            0
        },
        |i: int| d[base + i],
    )
}

/// The bytes that a read of `len` bytes at logical file offset `off`
/// transfers, for a file whose cluster chain starts at cluster number `c`
/// on disk `d`: whole clusters covering `off` are skipped along the chain,
/// the first retained cluster serves the sub-cluster remainder of `off`
/// without crossing a cluster boundary, and each following cluster serves
/// one cluster-sized chunk, until the request is satisfied or the chain
/// ends. A chain that ends early simply ends the transfer: the result is
/// then shorter than `len`.
pub open spec fn spec_read_file(
    d: Seq<u8>,
    fat_off: int,
    heap_off: int,
    csize: int,
    c: u32,
    off: nat,
    len: nat,
) -> Seq<u8>
    decreases off + len,
{
    if len == 0 || csize < 1 || !spec_valid_cluster(c) {
        Seq::empty()
    } else if off >= csize {
        spec_read_file(
            d,
            fat_off,
            heap_off,
            csize,
            spec_fat_next(d, fat_off, c),
            (off - csize) as nat,
            len,
        )
    } else {
        let chunk = if len <= csize - off {
            len as int
        } else {
            csize - off
        };
        let base = heap_off + (c - 2) * csize + off;
        spec_bytes_at(d, base, chunk) + spec_read_file(
            d,
            fat_off,
            heap_off,
            csize,
            spec_fat_next(d, fat_off, c),
            0,
            (len - chunk) as nat,
        )
    }
}

/// The disk contents after a write of `data` at logical file offset `off`
/// of the file whose cluster chain starts at cluster number `c`: chunks
/// are placed exactly where `spec_read_file` would read them, in chain
/// order, each chain link being resolved against the disk as it stands
/// when the link is consulted (just before that cluster's chunk is
/// written). Data that runs past the end of the chain is silently
/// discarded: writes never extend a file.
pub open spec fn spec_write_file(
    d: Seq<u8>,
    fat_off: int,
    heap_off: int,
    csize: int,
    c: u32,
    off: nat,
    data: Seq<u8>,
) -> Seq<u8>
    decreases off + data.len(),
{
    if data.len() == 0 || csize < 1 || !spec_valid_cluster(c) {
        d
    } else if off >= csize {
        spec_write_file(
            d,
            fat_off,
            heap_off,
            csize,
            spec_fat_next(d, fat_off, c),
            (off - csize) as nat,
            data,
        )
    } else {
        let chunk = if data.len() <= csize - off {
            data.len() as int
        } else {
            csize - off
        };
        let next = spec_fat_next(d, fat_off, c);
        let base = heap_off + (c - 2) * csize + off;
        spec_write_file(
            spec_update_range(d, base, data.take(chunk)),
            fat_off,
            heap_off,
            csize,
            next,
            0,
            data.skip(chunk),
        )
    }
}

/// A read transfers at most the requested count of bytes.
pub proof fn lemma_read_file_len(
    d: Seq<u8>,
    fat_off: int,
    heap_off: int,
    csize: int,
    c: u32,
    off: nat,
    len: nat,
)
    ensures
        spec_read_file(d, fat_off, heap_off, csize, c, off, len).len() <= len,
    decreases off + len,
{
    if len == 0 || csize < 1 || !spec_valid_cluster(c) {
    } else if off >= csize {
        lemma_read_file_len(
            d,
            fat_off,
            heap_off,
            csize,
            spec_fat_next(d, fat_off, c),
            (off - csize) as nat,
            len,
        );
    } else {
        let chunk = if len <= csize - off {
            len as int
        } else {
            csize - off
        };
        lemma_read_file_len(
            d,
            fat_off,
            heap_off,
            csize,
            spec_fat_next(d, fat_off, c),
            0,
            (len - chunk) as nat,
        );
    }
}

/// The stream of directory entry slots of the directory whose cluster
/// chain starts at `c0`: each chain cluster contributes `csize / 32`
/// consecutive 32-byte slots, identified by their heap-relative byte
/// offset. The walk is bounded by the longest possible acyclic chain.
pub open spec fn spec_dir_slots(
    d: Seq<u8>,
    fat_off: int,
    heap_off: int,
    csize: int,
    c0: u32,
) -> Seq<SpecSlot> {
    let ch = spec_chain(d, fat_off, c0, CHAIN_CAP as nat);
    let spc = csize / 32;
    Seq::new(
        (ch.len() * spc) as nat,
        |i: int|
            {
                let off = ch[i / spc] * csize + (i % spc) * 32;
                SpecSlot { off, bytes: spec_bytes_at(d, heap_off + off, 32) }
            },
    )
}

/// Whether the chain from `c0` outlives the walk bound: after as many
/// links as there are cluster numbers the walk still stands on a valid
/// cluster, which only a looping chain can bring about.
pub open spec fn spec_chain_truncated(d: Seq<u8>, fat_off: int, c0: u32) -> bool {
    spec_valid_cluster(spec_cluster_at(d, fat_off, c0, CHAIN_CAP as nat))
}

/// Validated volume geometry, as decoded from a boot sector: the cluster
/// size, the byte offsets of the File Allocation Table and of the cluster
/// heap, and the root directory's first cluster.
#[derive(Clone, Copy, PartialEq, Eq, Structural, Debug)]
pub struct Geometry {
    pub bytes_per_cluster_log2: u8,
    pub fat_offset: u64,
    pub cluster_heap_offset: u64,
    pub first_cluster_of_root_directory: u32,
}

/// Decodes and validates the volume geometry recorded by a 512-byte boot
/// sector. Succeeds exactly when every documented invariant holds —
/// supported sector and cluster sizes, one or two File Allocation Tables,
/// a whole-sector legacy root directory region — and every rejection is
/// the `Inconsistent` volume error, nothing else.
pub fn decode_geometry(boot: &Vec<u8>) -> (r: Result<Geometry, Error>)
    requires
        boot@.len() == 512,
    ensures
        r is Ok <==> spec_boot_valid(boot@),
        r is Ok ==> {
            let g = r->Ok_0;
            &&& g.bytes_per_cluster_log2 as int == spec_bps_log2(boot@) + spec_spc_log2(boot@)
            &&& g.fat_offset as int == spec_fat_offset(boot@)
            &&& g.cluster_heap_offset as int == spec_cluster_heap_offset(boot@)
            &&& g.first_cluster_of_root_directory as int == spec_boot_root_cluster(boot@)
            &&& 9 <= g.bytes_per_cluster_log2 <= 19
            &&& g.fat_offset <= 0x400000000000
            &&& g.cluster_heap_offset <= 0x400000000000
        },
        r is Err ==> r->Err_0 == Error::Fs(FsError::Inconsistent),
{
    let bytes_per_sector = u16_le_at(boot, 11) as u32;
    if !is_power_of_two(bytes_per_sector) {
        return Err(Error::Fs(FsError::Inconsistent));
    }
    let bytes_per_sector_log2: u8 = if bytes_per_sector == 512 {
        9
    } else if bytes_per_sector == 1024 {
        10
    } else if bytes_per_sector == 2048 {
        11
    } else if bytes_per_sector == 4096 {
        12
    } else {
        // a power of two whose logarithm falls outside [9, 12]
        return Err(Error::Fs(FsError::Inconsistent));
    };

    let sectors_per_cluster = boot[13] as u32;
    if !is_power_of_two(sectors_per_cluster) {
        return Err(Error::Fs(FsError::Inconsistent));
    }
    let sectors_per_cluster_log2: u8 = if sectors_per_cluster == 1 {
        0
    } else if sectors_per_cluster == 2 {
        1
    } else if sectors_per_cluster == 4 {
        2
    } else if sectors_per_cluster == 8 {
        3
    } else if sectors_per_cluster == 16 {
        4
    } else if sectors_per_cluster == 32 {
        5
    } else if sectors_per_cluster == 64 {
        6
    } else if sectors_per_cluster == 128 {
        7
    } else {
        // a power of two whose logarithm exceeds 7
        return Err(Error::Fs(FsError::Inconsistent));
    };
    let bytes_per_cluster_log2 = bytes_per_sector_log2 + sectors_per_cluster_log2;

    let reserved_sectors = u16_le_at(boot, 14) as u64;
    let number_of_fats = boot[16] as u64;
    if number_of_fats != 1 && number_of_fats != 2 {
        return Err(Error::Fs(FsError::Inconsistent));
    }
    let fatsz16 = u16_le_at(boot, 22);
    let fat_length: u64 = if fatsz16 != 0 {
        fatsz16 as u64
    } else {
        u32_le_at(boot, 36) as u64
    };

    let root_directory_length: u64 = u16_le_at(boot, 17) as u64 * 32;
    if root_directory_length % (bytes_per_sector as u64) != 0 {
        return Err(Error::Fs(FsError::Inconsistent));
    }

    proof {
        assert(reserved_sectors <= 0xFFFF);
        assert(bytes_per_sector <= 4096);
        lemma_mul_bound(reserved_sectors as int, bytes_per_sector as int, 0xFFFF, 4096);
        assert(fat_length * number_of_fats <= 0x1FFFFFFFE) by (nonlinear_arith)
            requires
                fat_length <= 0xFFFFFFFF && number_of_fats <= 2,
        ;
    }
    let root_directory_offset: u64 = reserved_sectors + fat_length * number_of_fats;
    let cluster_heap_offset_sectors: u64 = root_directory_offset + root_directory_length
        / (bytes_per_sector as u64);
    proof {
        assert(cluster_heap_offset_sectors * (bytes_per_sector as u64) <= 0x400000000000)
            by (nonlinear_arith)
            requires
                cluster_heap_offset_sectors <= 0x400000000 && bytes_per_sector <= 4096,
        ;
    }

    let first_cluster_of_root_directory = u32_le_at(boot, 44);

    Ok(
        Geometry {
            bytes_per_cluster_log2,
            fat_offset: reserved_sectors * (bytes_per_sector as u64),
            cluster_heap_offset: cluster_heap_offset_sectors * (bytes_per_sector as u64),
            first_cluster_of_root_directory,
        },
    )
}

/// Decides whether a 32-byte directory entry names an ordinary file, and
/// with which first cluster: the decision behind `read` and `write`. An
/// entry carrying the directory or the volume-label attribute bit is
/// rejected, and the rejection is the `Index` filesystem error, nothing
/// else.
pub fn check_file_slot(slot: &Vec<u8>) -> (r: Result<u32, Error>)
    requires
        slot@.len() == 32,
    ensures
        r is Ok <==> spec_attr_is_file(spec_slot_attr(slot@, 0)),
        r is Ok ==> r->Ok_0 == spec_slot_first_cluster(slot@, 0),
        r is Err ==> r->Err_0 == Error::Fs(FsError::Index),
{
    let attr = slot[11];
    if attr / 8 % 2 == 1 || attr / 16 % 2 == 1 {
        return Err(Error::Fs(FsError::Index));
    }
    Ok(u16_le_at(slot, 26) as u32 + u16_le_at(slot, 20) as u32 * 0x10000)
}

/// Decides whether a 32-byte directory entry names a directory, and with
/// which first cluster: the decision behind a non-root `stat` handle. An
/// entry without the directory attribute bit is rejected, and the
/// rejection is the `Index` filesystem error, nothing else.
pub fn check_dir_slot(slot: &Vec<u8>) -> (r: Result<u32, Error>)
    requires
        slot@.len() == 32,
    ensures
        r is Ok <==> spec_attr_is_dir(spec_slot_attr(slot@, 0)),
        r is Ok ==> r->Ok_0 == spec_slot_first_cluster(slot@, 0),
        r is Err ==> r->Err_0 == Error::Fs(FsError::Index),
{
    let attr = slot[11];
    if attr / 16 % 2 == 0 {
        return Err(Error::Fs(FsError::Index));
    }
    Ok(u16_le_at(slot, 26) as u32 + u16_le_at(slot, 20) as u32 * 0x10000)
}

/// A position in the slot stream of one directory: the directory's first
/// cluster, the chain walk, the heap index of the cluster the walk last
/// yielded, and the count of slots handed out.
struct SlotCursor {
    first: u32,
    chain: ClusterChain,
    heap_idx: u32,
    walked: u64,
}

/// A mounted FAT volume: the storage provider together with the validated
/// geometry decoded from its boot sector at mount time. The geometry is
/// immutable for the volume's lifetime.
pub struct FileSystemServer<DS: DataStorage> {
    data_storage: DS,
    bytes_per_cluster_log2: u8,
    fat_offset: u64,
    cluster_heap_offset: u64,
    first_cluster_of_root_directory: u32,
}

impl<DS: DataStorage> FileSystemServer<DS> {
    /// The storage provider the volume was mounted on.
    pub closed spec fn spec_storage(&self) -> DS {
        self.data_storage
    }

    /// The bytes currently held by the underlying storage.
    pub open spec fn spec_disk(&self) -> Seq<u8> {
        self.spec_storage().contents()
    }

    /// The base-two logarithm of the cluster size in bytes.
    pub closed spec fn spec_bpc_log2(&self) -> u32 {
        self.bytes_per_cluster_log2 as u32
    }

    /// The cluster size in bytes.
    pub open spec fn spec_cluster_size(&self) -> u32 {
        1u32 << self.spec_bpc_log2()
    }

    /// The absolute byte offset of the first File Allocation Table.
    pub closed spec fn spec_fat_off(&self) -> int {
        self.fat_offset as int
    }

    /// The absolute byte offset of cluster index 2.
    pub closed spec fn spec_heap_off(&self) -> int {
        self.cluster_heap_offset as int
    }

    /// The cluster number at which the root directory begins.
    pub closed spec fn spec_root_cluster(&self) -> u32 {
        self.first_cluster_of_root_directory
    }

    /// Bounds that every mounted volume satisfies: the cluster size is
    /// between one sector of 512 bytes and 128 sectors of 4096 bytes, and
    /// both region offsets are small enough that every address computed
    /// from them fits comfortably in 64 bits.
    pub open spec fn wf(&self) -> bool {
        &&& 9 <= self.spec_bpc_log2() <= 19
        &&& 0 <= self.spec_fat_off() <= 0x400000000000
        &&& 0 <= self.spec_heap_off() <= 0x400000000000
    }

    /// Mounts a volume: reads the boot sector from `data_storage`, decodes
    /// and validates the geometry it records through `decode_geometry`,
    /// and fails on any violated invariant, so that no later operation can
    /// run against unchecked geometry. Success cannot be promised here —
    /// the storage provider decides whether the boot sector can be read at
    /// all — but `decode_geometry` pins, for every boot sector value, both
    /// the decision and the error.
    pub fn new(data_storage: DS) -> (r: Result<Self, Error>)
        ensures
            r is Ok ==> {
                let fs = r->Ok_0;
                &&& spec_boot_valid(data_storage.contents())
                &&& fs.spec_storage() == data_storage
                &&& fs.wf()
                &&& fs.spec_bpc_log2() == spec_bps_log2(data_storage.contents()) + spec_spc_log2(
                    data_storage.contents(),
                )
                &&& fs.spec_fat_off() == spec_fat_offset(data_storage.contents())
                &&& fs.spec_heap_off() == spec_cluster_heap_offset(data_storage.contents())
                &&& fs.spec_root_cluster() == spec_boot_root_cluster(data_storage.contents())
            },
    {
        let mut boot: Vec<u8> = zero_vec(512);
        match data_storage.read(0, &mut boot) {
            Ok(()) => {},
            Err(e) => {
                return Err(e);
            },
        }
        let g = match decode_geometry(&boot) {
            Ok(g) => g,
            Err(e) => {
                return Err(e);
            },
        };
        proof {
            let d = data_storage.contents();
            assert(boot@ == d.subrange(0, 512));
            assert(spec_le16(boot@, 11) == spec_le16(d, 11));
            assert(boot@[13] == d[13] && boot@[16] == d[16]);
            assert(spec_le16(boot@, 14) == spec_le16(d, 14));
            assert(spec_le16(boot@, 17) == spec_le16(d, 17));
            assert(spec_le16(boot@, 22) == spec_le16(d, 22));
            assert(spec_le32(boot@, 36) == spec_le32(d, 36));
            assert(spec_le32(boot@, 44) == spec_le32(d, 44));
            assert(spec_boot_valid(boot@) == spec_boot_valid(d));
            assert(spec_fat_offset(boot@) == spec_fat_offset(d));
            assert(spec_cluster_heap_offset(boot@) == spec_cluster_heap_offset(d));
        }
        Ok(
            FileSystemServer {
                data_storage,
                bytes_per_cluster_log2: g.bytes_per_cluster_log2,
                fat_offset: g.fat_offset,
                cluster_heap_offset: g.cluster_heap_offset,
                first_cluster_of_root_directory: g.first_cluster_of_root_directory,
            },
        )
    }

    /// Reads file data: loads the directory entry at slot `index`, requires
    /// that it names an ordinary file (neither the directory nor the
    /// volume-label attribute bit set, else `Index`), and transfers bytes
    /// of its cluster chain into `buffer`, starting at logical byte offset
    /// `offset`. A chain that ends before `buffer` is full is not an
    /// error: the operation succeeds having transferred fewer bytes, and
    /// the rest of `buffer` keeps its previous contents.
    pub fn read(&self, index: u64, offset: u64, buffer: &mut Vec<u8>) -> (r: Result<(), Error>)
        requires
            self.wf(),
            index <= 0xFFFFFFFFFFFF,
        ensures
            final(buffer)@.len() == old(buffer)@.len(),
            r is Ok ==> ({
                let d = self.spec_disk();
                let base = spec_slot_base(self.spec_heap_off(), index as int);
                let t = spec_read_file(
                    d,
                    self.spec_fat_off(),
                    self.spec_heap_off(),
                    self.spec_cluster_size() as int,
                    spec_slot_first_cluster(d, base),
                    offset as nat,
                    old(buffer)@.len() as nat,
                );
                &&& spec_attr_is_file(spec_slot_attr(d, base))
                &&& t.len() <= old(buffer)@.len()
                &&& final(buffer)@ == t + old(buffer)@.skip(t.len() as int)
            }),
    {
        let ghost d = self.spec_disk();
        let ghost fo = self.spec_fat_off();
        let ghost ho = self.spec_heap_off();
        let ghost base = spec_slot_base(self.spec_heap_off(), index as int);

        let mut slot_buf = zero_vec(32);
        match self.data_storage.read(self.cluster_heap_offset + index * 32, &mut slot_buf) {
            Ok(()) => {},
            Err(e) => {
                return Err(e);
            },
        }
        let first_cluster = match check_file_slot(&slot_buf) {
            Ok(c) => c,
            Err(e) => {
                return Err(e);
            },
        };
        proof {
            assert(slot_buf@ == d.subrange(base, base + 32));
            assert(spec_slot_attr(slot_buf@, 0) == spec_slot_attr(d, base));
            assert(spec_le16(slot_buf@, 26) == spec_le16(d, base + 26));
            assert(spec_le16(slot_buf@, 20) == spec_le16(d, base + 20));
            assert(first_cluster == spec_slot_first_cluster(d, base));
            assert(spec_attr_is_file(spec_slot_attr(d, base)));
        }

        let len0: usize = buffer.len();
        let ghost t = spec_read_file(
            d,
            fo,
            ho,
            self.spec_cluster_size() as int,
            first_cluster,
            offset as nat,
            len0 as nat,
        );
        proof {
            lemma_read_file_len(
                d,
                fo,
                ho,
                self.spec_cluster_size() as int,
                first_cluster,
                offset as nat,
                len0 as nat,
            );
        }
        if len0 == 0 {
            proof {
                assert(buffer@ =~= t + buffer@.skip(0));
            }
            return Ok(());
        }

        let csize: u32 = 1u32 << (self.bytes_per_cluster_log2 as u32);
        proof {
            let k = self.spec_bpc_log2();
            assert(9 <= k <= 19 ==> 512 <= (1u32 << k) && (1u32 << k) <= 0x80000) by (bit_vector);
        }
        let ghost cs = csize as int;

        let mut chain = ClusterChain::new(first_cluster);
        let mut remaining_off: u64 = offset;
        while remaining_off >= csize as u64
            invariant
                self.wf(),
                csize == self.spec_cluster_size(),
                512 <= csize <= 0x80000,
                cs == csize as int,
                d == self.spec_disk(),
                fo == self.spec_fat_off(),
                ho == self.spec_heap_off(),
                len0 == buffer@.len(),
                len0 > 0,
                buffer@ == old(buffer)@,
                t.len() <= len0,
                base == spec_slot_base(ho, index as int),
                spec_attr_is_file(spec_slot_attr(d, base)),
                t == spec_read_file(
                    d,
                    fo,
                    ho,
                    cs,
                    spec_slot_first_cluster(d, base),
                    offset as nat,
                    len0 as nat,
                ),
                t == spec_read_file(
                    d,
                    fo,
                    ho,
                    cs,
                    chain.spec_current(),
                    remaining_off as nat,
                    len0 as nat,
                ),
            decreases remaining_off,
        {
            match chain.next(&self.data_storage, self.fat_offset) {
                None => {
                    proof {
                        assert(buffer@ =~= t + buffer@.skip(0));
                    }
                    return Ok(());
                },
                Some(Err(e)) => {
                    return Err(e);
                },
                Some(Ok(_h)) => {
                    remaining_off = remaining_off - csize as u64;
                },
            }
        }

        let mut pos: usize = 0;
        match chain.next(&self.data_storage, self.fat_offset) {
            None => {
                proof {
                    assert(buffer@ =~= t + buffer@.skip(0));
                }
                return Ok(());
            },
            Some(Err(e)) => {
                return Err(e);
            },
            Some(Ok(h)) => {
                let avail: u64 = csize as u64 - remaining_off;
                let chunk: usize = if (len0 as u64) <= avail {
                    len0
                } else {
                    avail as usize
                };
                let mut tmp = zero_vec(chunk);
                proof {
                    lemma_mul_bound(h as int, cs, 0xFFFFFF4, 0x80000);
                }
                let addr: u64 = self.cluster_heap_offset + h as u64 * (csize as u64)
                    + remaining_off;
                match self.data_storage.read(addr, &mut tmp) {
                    Ok(()) => {},
                    Err(e) => {
                        return Err(e);
                    },
                }
                copy_into(buffer, 0, &tmp);
                pos = chunk;
                proof {
                    assert(tmp@ == d.subrange(addr as int, addr + chunk));
                    assert(tmp@ =~= spec_bytes_at(d, addr as int, chunk as int));
                    assert(buffer@.take(pos as int) =~= tmp@);
                    assert(t == tmp@ + spec_read_file(
                        d,
                        fo,
                        ho,
                        cs,
                        chain.spec_current(),
                        0,
                        (len0 - pos) as nat,
                    ));
                    assert(forall|j: int| pos <= j < len0 ==> buffer@[j] == old(buffer)@[j]);
                }
            },
        }

        while pos < len0
            invariant
                self.wf(),
                csize == self.spec_cluster_size(),
                512 <= csize <= 0x80000,
                cs == csize as int,
                d == self.spec_disk(),
                fo == self.spec_fat_off(),
                ho == self.spec_heap_off(),
                len0 == buffer@.len(),
                len0 == old(buffer)@.len(),
                pos <= len0,
                base == spec_slot_base(ho, index as int),
                spec_attr_is_file(spec_slot_attr(d, base)),
                t == spec_read_file(
                    d,
                    fo,
                    ho,
                    cs,
                    spec_slot_first_cluster(d, base),
                    offset as nat,
                    len0 as nat,
                ),
                forall|j: int| pos <= j < len0 ==> buffer@[j] == old(buffer)@[j],
                t.len() <= len0,
                t == buffer@.take(pos as int) + spec_read_file(
                    d,
                    fo,
                    ho,
                    cs,
                    chain.spec_current(),
                    0,
                    (len0 - pos) as nat,
                ),
            decreases len0 - pos,
        {
            match chain.next(&self.data_storage, self.fat_offset) {
                None => {
                    proof {
                        assert(t =~= buffer@.take(pos as int));
                        assert(buffer@ =~= t + old(buffer)@.skip(pos as int));
                    }
                    return Ok(());
                },
                Some(Err(e)) => {
                    return Err(e);
                },
                Some(Ok(h)) => {
                    let n: usize = if len0 - pos <= csize as usize {
                        len0 - pos
                    } else {
                        csize as usize
                    };
                    let mut tmp = zero_vec(n);
                    proof {
                        lemma_mul_bound(h as int, cs, 0xFFFFFF4, 0x80000);
                    }
                    let addr: u64 = self.cluster_heap_offset + h as u64 * (csize as u64);
                    match self.data_storage.read(addr, &mut tmp) {
                        Ok(()) => {},
                        Err(e) => {
                            return Err(e);
                        },
                    }
                    let ghost buf_before = buffer@;
                    copy_into(buffer, pos, &tmp);
                    proof {
                        assert(tmp@ == d.subrange(addr as int, addr + n));
                        assert(tmp@ =~= spec_bytes_at(d, addr as int, n as int));
                        assert(buffer@.take(pos + n as int) =~= buf_before.take(pos as int)
                            + tmp@);
                        assert(buffer@.take(pos as int) =~= buf_before.take(pos as int));
                        assert(t == buffer@.take(pos + n as int) + spec_read_file(
                            d,
                            fo,
                            ho,
                            cs,
                            chain.spec_current(),
                            0,
                            (len0 - pos - n) as nat,
                        ));
                    }
                    pos = pos + n;
                },
            }
        }
        proof {
            assert(spec_read_file(d, fo, ho, cs, chain.spec_current(), 0, 0) =~= Seq::<
                u8,
            >::empty());
            assert(t =~= buffer@);
            assert(old(buffer)@.skip(len0 as int) =~= Seq::<u8>::empty());
            assert(buffer@ =~= t + old(buffer)@.skip(t.len() as int));
        }
        Ok(())
    }

    /// Writes file data: loads the directory entry at slot `index`,
    /// requires that it names an ordinary file (else `Index`), and places
    /// the bytes of `data` into its existing cluster chain, starting at
    /// logical byte offset `offset`. No cluster is ever allocated: data
    /// that runs past the end of the chain is silently discarded, and the
    /// operation still succeeds.
    pub fn write(&mut self, index: u64, offset: u64, data: &Vec<u8>) -> (r: Result<(), Error>)
        requires
            old(self).wf(),
            index <= 0xFFFFFFFFFFFF,
        ensures
            final(self).wf(),
            final(self).spec_bpc_log2() == old(self).spec_bpc_log2(),
            final(self).spec_fat_off() == old(self).spec_fat_off(),
            final(self).spec_heap_off() == old(self).spec_heap_off(),
            final(self).spec_root_cluster() == old(self).spec_root_cluster(),
            final(self).spec_disk().len() == old(self).spec_disk().len(),
            r is Ok ==> ({
                let d = old(self).spec_disk();
                let base = spec_slot_base(old(self).spec_heap_off(), index as int);
                &&& spec_attr_is_file(spec_slot_attr(d, base))
                &&& final(self).spec_disk() == spec_write_file(
                    d,
                    old(self).spec_fat_off(),
                    old(self).spec_heap_off(),
                    old(self).spec_cluster_size() as int,
                    spec_slot_first_cluster(d, base),
                    offset as nat,
                    data@,
                )
            }),
            r is Err ==> exists|k: int|
                0 <= k <= data@.len() && final(self).spec_disk() == spec_write_file(
                    old(self).spec_disk(),
                    old(self).spec_fat_off(),
                    old(self).spec_heap_off(),
                    old(self).spec_cluster_size() as int,
                    spec_slot_first_cluster(
                        old(self).spec_disk(),
                        spec_slot_base(old(self).spec_heap_off(), index as int),
                    ),
                    offset as nat,
                    #[trigger] data@.take(k),
                ),
    {
        let ghost d0 = self.spec_disk();
        let ghost fo = self.spec_fat_off();
        let ghost ho = self.spec_heap_off();
        let ghost base = spec_slot_base(self.spec_heap_off(), index as int);

        let mut slot_buf = zero_vec(32);
        match self.data_storage.read(self.cluster_heap_offset + index * 32, &mut slot_buf) {
            Ok(()) => {},
            Err(e) => {
                proof {
                    assert(spec_write_file(
                        d0,
                        fo,
                        ho,
                        old(self).spec_cluster_size() as int,
                        spec_slot_first_cluster(d0, base),
                        offset as nat,
                        data@.take(0),
                    ) == d0);
                }
                return Err(e);
            },
        }
        let first_cluster = match check_file_slot(&slot_buf) {
            Ok(c) => c,
            Err(e) => {
                proof {
                    assert(spec_write_file(
                        d0,
                        fo,
                        ho,
                        old(self).spec_cluster_size() as int,
                        spec_slot_first_cluster(d0, base),
                        offset as nat,
                        data@.take(0),
                    ) == d0);
                }
                return Err(e);
            },
        };
        proof {
            assert(slot_buf@ == d0.subrange(base, base + 32));
            assert(spec_slot_attr(slot_buf@, 0) == spec_slot_attr(d0, base));
            assert(spec_le16(slot_buf@, 26) == spec_le16(d0, base + 26));
            assert(spec_le16(slot_buf@, 20) == spec_le16(d0, base + 20));
            assert(first_cluster == spec_slot_first_cluster(d0, base));
            assert(spec_attr_is_file(spec_slot_attr(d0, base)));
        }

        let len0: usize = data.len();
        let ghost t = spec_write_file(
            d0,
            fo,
            ho,
            self.spec_cluster_size() as int,
            first_cluster,
            offset as nat,
            data@,
        );
        if len0 == 0 {
            return Ok(());
        }

        let csize: u32 = 1u32 << (self.bytes_per_cluster_log2 as u32);
        proof {
            let k = self.spec_bpc_log2();
            assert(9 <= k <= 19 ==> 512 <= (1u32 << k) && (1u32 << k) <= 0x80000) by (bit_vector);
        }
        let ghost cs = csize as int;

        let mut chain = ClusterChain::new(first_cluster);
        let mut remaining_off: u64 = offset;
        while remaining_off >= csize as u64
            invariant
                self.wf(),
                csize == self.spec_cluster_size(),
                512 <= csize <= 0x80000,
                cs == csize as int,
                self.spec_bpc_log2() == old(self).spec_bpc_log2(),
                self.spec_fat_off() == old(self).spec_fat_off(),
                self.spec_heap_off() == old(self).spec_heap_off(),
                self.spec_root_cluster() == old(self).spec_root_cluster(),
                d0 == self.spec_disk(),
                d0 == old(self).spec_disk(),
                fo == self.spec_fat_off(),
                ho == self.spec_heap_off(),
                len0 == data@.len(),
                len0 > 0,
                base == spec_slot_base(ho, index as int),
                spec_attr_is_file(spec_slot_attr(d0, base)),
                t == spec_write_file(
                    d0,
                    fo,
                    ho,
                    cs,
                    spec_slot_first_cluster(d0, base),
                    offset as nat,
                    data@,
                ),
                t == spec_write_file(
                    d0,
                    fo,
                    ho,
                    cs,
                    chain.spec_current(),
                    remaining_off as nat,
                    data@,
                ),
                first_cluster == spec_slot_first_cluster(d0, base),
                forall|e: int|
                    0 <= e <= len0 ==> spec_write_file(
                        d0,
                        fo,
                        ho,
                        cs,
                        first_cluster,
                        offset as nat,
                        #[trigger] data@.take(e),
                    ) == spec_write_file(
                        d0,
                        fo,
                        ho,
                        cs,
                        chain.spec_current(),
                        remaining_off as nat,
                        data@.take(e),
                    ),
            decreases remaining_off,
        {
            let ghost cur0 = chain.spec_current();
            match chain.next(&self.data_storage, self.fat_offset) {
                None => {
                    proof {
                        assert(t =~= self.spec_disk());
                    }
                    return Ok(());
                },
                Some(Err(e)) => {
                    proof {
                        assert(spec_write_file(
                            d0,
                            fo,
                            ho,
                            cs,
                            first_cluster,
                            offset as nat,
                            data@.take(0),
                        ) == d0);
                    }
                    return Err(e);
                },
                Some(Ok(_h)) => {
                    proof {
                        assert forall|e: int| 0 <= e <= len0 implies spec_write_file(
                            d0,
                            fo,
                            ho,
                            cs,
                            first_cluster,
                            offset as nat,
                            #[trigger] data@.take(e),
                        ) == spec_write_file(
                            d0,
                            fo,
                            ho,
                            cs,
                            chain.spec_current(),
                            (remaining_off - csize) as nat,
                            data@.take(e),
                        ) by {
                            if data@.take(e).len() > 0 {
                                assert(spec_write_file(
                                    d0,
                                    fo,
                                    ho,
                                    cs,
                                    cur0,
                                    remaining_off as nat,
                                    data@.take(e),
                                ) == spec_write_file(
                                    d0,
                                    fo,
                                    ho,
                                    cs,
                                    spec_fat_next(d0, fo, cur0),
                                    (remaining_off - csize) as nat,
                                    data@.take(e),
                                ));
                            }
                        }
                    }
                    remaining_off = remaining_off - csize as u64;
                },
            }
        }

        let mut pos: usize = 0;
        let mut sub_off: u64 = remaining_off;
        proof {
            assert(data@.skip(0) =~= data@);
            assert forall|e: int| 0 <= e <= len0 implies spec_write_file(
                d0,
                fo,
                ho,
                cs,
                first_cluster,
                offset as nat,
                #[trigger] data@.take(e),
            ) == spec_write_file(
                d0,
                fo,
                ho,
                cs,
                chain.spec_current(),
                sub_off as nat,
                data@.subrange(0, e),
            ) by {
                assert(data@.subrange(0, e) =~= data@.take(e));
            }
        }
        while pos < len0
            invariant
                self.wf(),
                csize == self.spec_cluster_size(),
                512 <= csize <= 0x80000,
                cs == csize as int,
                self.spec_bpc_log2() == old(self).spec_bpc_log2(),
                self.spec_fat_off() == old(self).spec_fat_off(),
                self.spec_heap_off() == old(self).spec_heap_off(),
                self.spec_root_cluster() == old(self).spec_root_cluster(),
                self.spec_disk().len() == old(self).spec_disk().len(),
                fo == self.spec_fat_off(),
                ho == self.spec_heap_off(),
                len0 == data@.len(),
                len0 > 0,
                pos <= len0,
                sub_off < csize,
                base == spec_slot_base(ho, index as int),
                spec_attr_is_file(spec_slot_attr(old(self).spec_disk(), base)),
                t == spec_write_file(
                    old(self).spec_disk(),
                    fo,
                    ho,
                    cs,
                    spec_slot_first_cluster(old(self).spec_disk(), base),
                    offset as nat,
                    data@,
                ),
                t == spec_write_file(
                    self.spec_disk(),
                    fo,
                    ho,
                    cs,
                    chain.spec_current(),
                    sub_off as nat,
                    data@.skip(pos as int),
                ),
                first_cluster == spec_slot_first_cluster(old(self).spec_disk(), base),
                forall|e: int|
                    pos <= e <= len0 ==> spec_write_file(
                        old(self).spec_disk(),
                        fo,
                        ho,
                        cs,
                        first_cluster,
                        offset as nat,
                        #[trigger] data@.take(e),
                    ) == spec_write_file(
                        self.spec_disk(),
                        fo,
                        ho,
                        cs,
                        chain.spec_current(),
                        sub_off as nat,
                        data@.subrange(pos as int, e),
                    ),
            decreases len0 - pos,
        {
            let ghost dpre = self.spec_disk();
            let ghost cur0 = chain.spec_current();
            match chain.next(&self.data_storage, self.fat_offset) {
                None => {
                    proof {
                        assert(t =~= self.spec_disk());
                    }
                    return Ok(());
                },
                Some(Err(e)) => {
                    proof {
                        assert(data@.subrange(pos as int, pos as int).len() == 0);
                        assert(spec_write_file(
                            old(self).spec_disk(),
                            fo,
                            ho,
                            cs,
                            first_cluster,
                            offset as nat,
                            data@.take(pos as int),
                        ) == self.spec_disk());
                    }
                    return Err(e);
                },
                Some(Ok(h)) => {
                    let avail: u64 = csize as u64 - sub_off;
                    let n: usize = if ((len0 - pos) as u64) <= avail {
                        len0 - pos
                    } else {
                        avail as usize
                    };
                    let tmp = crate::bytes::sub_vec(data, pos, n);
                    proof {
                        lemma_mul_bound(h as int, cs, 0xFFFFFF4, 0x80000);
                    }
                    let addr: u64 = self.cluster_heap_offset + h as u64 * (csize as u64) + sub_off;
                    let ghost d_before = self.spec_disk();
                    match self.data_storage.write(addr, &tmp) {
                        Ok(()) => {},
                        Err(e) => {
                            proof {
                                assert(data@.subrange(pos as int, pos as int).len() == 0);
                                assert(spec_write_file(
                                    old(self).spec_disk(),
                                    fo,
                                    ho,
                                    cs,
                                    first_cluster,
                                    offset as nat,
                                    data@.take(pos as int),
                                ) == self.spec_disk());
                            }
                            return Err(e);
                        },
                    }
                    proof {
                        assert(tmp@ =~= data@.skip(pos as int).take(n as int));
                        assert(self.spec_disk() == spec_update_range(
                            d_before,
                            addr as int,
                            data@.skip(pos as int).take(n as int),
                        ));
                        assert(data@.skip(pos as int).skip(n as int) =~= data@.skip(pos + n));
                        assert(t == spec_write_file(
                            self.spec_disk(),
                            fo,
                            ho,
                            cs,
                            chain.spec_current(),
                            0,
                            data@.skip(pos + n),
                        ));
                        assert forall|e: int| pos + n <= e <= len0 implies spec_write_file(
                            old(self).spec_disk(),
                            fo,
                            ho,
                            cs,
                            first_cluster,
                            offset as nat,
                            #[trigger] data@.take(e),
                        ) == spec_write_file(
                            self.spec_disk(),
                            fo,
                            ho,
                            cs,
                            chain.spec_current(),
                            0,
                            data@.subrange(pos + n, e),
                        ) by {
                            let u = data@.subrange(pos as int, e);
                            assert(u.len() == e - pos >= n);
                            assert(if u.len() <= cs - sub_off {
                                u.len() as int
                            } else {
                                cs - sub_off
                            } == n as int);
                            assert(u.take(n as int) =~= data@.skip(pos as int).take(n as int));
                            assert(u.skip(n as int) =~= data@.subrange(pos + n, e));
                            assert(spec_write_file(dpre, fo, ho, cs, cur0, sub_off as nat, u)
                                == spec_write_file(
                                spec_update_range(dpre, ho + (cur0 - 2) * cs + sub_off, u.take(
                                    n as int,
                                )),
                                fo,
                                ho,
                                cs,
                                spec_fat_next(dpre, fo, cur0),
                                0,
                                u.skip(n as int),
                            ));
                            assert(ho + (cur0 - 2) * cs + sub_off == addr as int);
                        }
                    }
                    pos = pos + n;
                    sub_off = 0;
                },
            }
        }
        proof {
            assert(data@.skip(len0 as int) =~= Seq::<u8>::empty());
            assert(t =~= self.spec_disk());
        }
        Ok(())
    }

    /// What makes a slot cursor consistent with the walk it stands in:
    /// `walked` slots have been handed out, all within the chain's slot
    /// stream; at a cluster boundary the walk is about to resolve the next
    /// cluster, and within a cluster the walk has already resolved it and
    /// remembers its heap index.
    spec fn cursor_inv(&self, cur: SlotCursor) -> bool {
        let d = self.spec_disk();
        let fo = self.spec_fat_off();
        let cs = self.spec_cluster_size() as int;
        let spc = cs / 32;
        let ch = spec_chain(d, fo, cur.first, CHAIN_CAP as nat);
        let i = cur.walked as int;
        &&& 0 <= i <= ch.len() * spc
        &&& (i % spc == 0 ==> cur.chain.spec_current() == spec_cluster_at(
            d,
            fo,
            cur.first,
            (i / spc) as nat,
        ))
        &&& (i % spc != 0 ==> i / spc < ch.len() && cur.heap_idx == ch[i / spc]
            && cur.chain.spec_current() == spec_cluster_at(d, fo, cur.first, (i / spc + 1) as nat))
    }

    /// Hands out the next directory entry slot of the cursor's directory:
    /// its heap-relative byte offset and its 32 bytes. Yields nothing once
    /// the cluster chain has ended, and fails with `Inconsistent` if the
    /// walk outlives the longest possible acyclic chain (a looping chain).
    fn next_slot(&self, cur: &mut SlotCursor) -> (r: Result<Option<(u64, Vec<u8>)>, Error>)
        requires
            self.wf(),
            self.cursor_inv(*old(cur)),
        ensures
            final(cur).first == old(cur).first,
            r is Err ==> final(cur).walked == old(cur).walked,
            ({
                let d = self.spec_disk();
                let slots = spec_dir_slots(
                    d,
                    self.spec_fat_off(),
                    self.spec_heap_off(),
                    self.spec_cluster_size() as int,
                    old(cur).first,
                );
                &&& (r is Ok && r->Ok_0 is Some ==> {
                    let off = r->Ok_0->Some_0.0;
                    let bytes = r->Ok_0->Some_0.1;
                    &&& self.cursor_inv(*final(cur))
                    &&& final(cur).walked == old(cur).walked + 1
                    &&& old(cur).walked < slots.len()
                    &&& off as int == slots[old(cur).walked as int].off
                    &&& bytes@ == slots[old(cur).walked as int].bytes
                    &&& bytes@.len() == 32
                    &&& off <= 0x800000000000
                })
                &&& (r is Ok && r->Ok_0 is None ==> {
                    &&& *final(cur) == *old(cur)
                    &&& old(cur).walked as int == slots.len()
                    &&& !spec_chain_truncated(d, self.spec_fat_off(), old(cur).first)
                })
            }),
    {
        let csize: u32 = 1u32 << (self.bytes_per_cluster_log2 as u32);
        proof {
            let k = self.spec_bpc_log2();
            assert(9 <= k <= 19 ==> 512 <= (1u32 << k) && (1u32 << k) <= 0x80000 && (1u32 << k)
                % 32 == 0 && (1u32 << k) / 32 >= 16 && (1u32 << k) / 32 <= 0x4000)
                by (bit_vector);
        }
        let spc: u64 = (csize / 32) as u64;
        let ghost d = self.spec_disk();
        let ghost fo = self.spec_fat_off();
        let ghost ho = self.spec_heap_off();
        let ghost cs = csize as int;
        let ghost ch = spec_chain(d, fo, cur.first, CHAIN_CAP as nat);
        let ghost slots = spec_dir_slots(d, fo, ho, cs, cur.first);
        proof {
            lemma_chain_walk(d, fo, cur.first, CHAIN_CAP as nat);
            lemma_fundamental_div_mod(cur.walked as int, spc as int);
            lemma_mul_bound(ch.len() as int, spc as int, CHAIN_CAP as int, 0x4000);
        }
        let j: u64 = cur.walked % spc;
        let p: u64 = cur.walked / spc;
        let h: u32;
        if j == 0 {
            match cur.chain.next(&self.data_storage, self.fat_offset) {
                None => {
                    proof {
                        assert(!spec_valid_cluster(spec_cluster_at(d, fo, cur.first, p as nat)));
                        if (p as int) < ch.len() {
                            assert(spec_valid_cluster(spec_cluster_at(d, fo, cur.first, p as nat)));
                        }
                        lemma_mul_mono(ch.len() as int, p as int, spc as int);
                        assert(cur.walked as int == (p as int) * (spc as int));
                        assert(cur.walked as int == ch.len() * (spc as int));
                        lemma_mul_mono(ch.len() as int, CHAIN_CAP as int, spc as int);
                        assert(p as int <= CHAIN_CAP as int) by (nonlinear_arith)
                            requires
                                (p as int) * (spc as int) <= (CHAIN_CAP as int) * (spc as int)
                                    && spc >= 1,
                        ;
                        lemma_invalid_stays(d, fo, cur.first, p as nat, CHAIN_CAP as nat);
                        assert(spc as int == cs / 32);
                        assert(slots.len() == ch.len() * (cs / 32));
                    }
                    return Ok(None);
                },
                Some(Err(e)) => {
                    return Err(e);
                },
                Some(Ok(hh)) => {
                    if p >= CHAIN_CAP {
                        return Err(Error::Fs(FsError::Inconsistent));
                    }
                    proof {
                        if ch.len() <= p as int {
                            lemma_invalid_stays(d, fo, cur.first, ch.len() as nat, p as nat);
                            assert(false);
                        }
                    }
                    h = hh;
                    cur.heap_idx = hh;
                },
            }
        } else {
            h = cur.heap_idx;
        }
        proof {
            assert((p as int) < ch.len());
            assert(spec_valid_cluster(spec_cluster_at(d, fo, cur.first, p as nat)));
            assert(h == ch[p as int]);
            assert(h <= 0xFFFFFF4);
            lemma_mul_mono(p as int + 1, ch.len() as int, spc as int);
            lemma_mul_bound(h as int, cs, 0xFFFFFF4, 0x80000);
            assert((p as int) * (spc as int) + (j as int) < ch.len() * (spc as int)) by (
            nonlinear_arith)
                requires
                    (p as int) < ch.len() && 0 <= (j as int) < (spc as int) && 0 <= p && 0 <= spc,
            ;
        }
        let off_rel: u64 = h as u64 * (csize as u64) + j * 32;
        let mut b = zero_vec(32);
        match self.data_storage.read(self.cluster_heap_offset + off_rel, &mut b) {
            Ok(()) => {},
            Err(e) => {
                return Err(e);
            },
        }
        proof {
            assert(b@ == d.subrange(ho + off_rel, ho + off_rel + 32));
            assert(b@ =~= spec_bytes_at(d, ho + off_rel as int, 32));
            assert(spc as int == cs / 32);
            assert(slots.len() == ch.len() * (cs / 32));
            assert(cur.walked as int == (p as int) * (spc as int) + (j as int));
            assert((cur.walked as int) < slots.len());
            assert(slots[cur.walked as int].off == ch[p as int] * cs + (j as int) * 32);
            assert(slots[cur.walked as int].bytes == spec_bytes_at(
                d,
                ho + slots[cur.walked as int].off,
                32,
            ));
        }
        let ghost w0 = cur.walked;
        cur.walked = cur.walked + 1;
        proof {
            let spci = spc as int;
            assert((p as int + 1) * spci == (p as int) * spci + spci) by (nonlinear_arith);
            if j + 1 == spc {
                lemma_fundamental_div_mod_converse(w0 + 1, spci, p as int + 1, 0);
            } else {
                lemma_fundamental_div_mod_converse(w0 + 1, spci, p as int, j as int + 1);
            }
            assert(spec_cluster_at(d, fo, cur.first, (p + 1) as nat) == spec_fat_next(
                d,
                fo,
                spec_cluster_at(d, fo, cur.first, p as nat),
            ));
            assert(self.cursor_inv(*cur));
        }
        Ok(Some((off_rel, b)))
    }

    /// Enumerates directory entries: decodes the directory designated by
    /// `index` (0 for the root directory; otherwise a slot that must carry
    /// the directory attribute, else `Index`), skipping entries whose
    /// record group starts before byte offset `offset` of the directory
    /// (the continuation point of a paged enumeration), and writes one
    /// self-describing, 8-byte-aligned record per remaining entry into
    /// `out`, stopping without error once a record would not fit in the
    /// space that remains. Yields the count of bytes written; the rest of
    /// `out` keeps its previous contents.
    #[verifier::rlimit(100)]
    pub fn stat(&self, index: u64, offset: u64, out: &mut Vec<u8>) -> (r: Result<u64, Error>)
        requires
            self.wf(),
            index <= 0xFFFFFFFFFFFF,
        ensures
            final(out)@.len() == old(out)@.len(),
            r is Ok ==> ({
                let d = self.spec_disk();
                let base = spec_slot_base(self.spec_heap_off(), index as int);
                let c0 = if index == 0 {
                    self.spec_root_cluster()
                } else {
                    spec_slot_first_cluster(d, base)
                };
                let slots = spec_dir_slots(
                    d,
                    self.spec_fat_off(),
                    self.spec_heap_off(),
                    self.spec_cluster_size() as int,
                    c0,
                );
                let l = spec_listing(slots, 0, spec_chain_truncated(d, self.spec_fat_off(), c0));
                let filt = spec_filter_from(l.entries, offset as int);
                let k = spec_fit_count(filt, old(out)@.len() as int);
                let enc = spec_encode_entries(filt.take(k));
                &&& (index != 0 ==> spec_attr_is_dir(spec_slot_attr(d, base)))
                &&& 0 <= k <= filt.len()
                &&& r->Ok_0 == enc.len()
                &&& final(out)@ == enc + old(out)@.skip(enc.len() as int)
                &&& (k == filt.len() ==> l.status == SpecListStatus::Clean)
            }),
    {
        let ghost d = self.spec_disk();
        let ghost fo = self.spec_fat_off();
        let ghost ho = self.spec_heap_off();
        let ghost base = spec_slot_base(self.spec_heap_off(), index as int);

        let first_cluster: u32;
        if index == 0 {
            first_cluster = self.first_cluster_of_root_directory;
        } else {
            let mut slot_buf = zero_vec(32);
            match self.data_storage.read(self.cluster_heap_offset + index * 32, &mut slot_buf) {
                Ok(()) => {},
                Err(e) => {
                    return Err(e);
                },
            }
            first_cluster = match check_dir_slot(&slot_buf) {
                Ok(c) => c,
                Err(e) => {
                    return Err(e);
                },
            };
            proof {
                assert(slot_buf@ == d.subrange(base, base + 32));
                assert(spec_slot_attr(slot_buf@, 0) == spec_slot_attr(d, base));
                assert(spec_le16(slot_buf@, 26) == spec_le16(d, base + 26));
                assert(spec_le16(slot_buf@, 20) == spec_le16(d, base + 20));
                assert(first_cluster == spec_slot_first_cluster(d, base));
                assert(spec_attr_is_dir(spec_slot_attr(d, base)));
            }
        }

        let csize: u32 = 1u32 << (self.bytes_per_cluster_log2 as u32);
        proof {
            let k = self.spec_bpc_log2();
            assert(9 <= k <= 19 ==> 512 <= (1u32 << k) && (1u32 << k) <= 0x80000 && (1u32 << k)
                % 32 == 0 && (1u32 << k) / 32 >= 16) by (bit_vector);
        }
        let ghost cs = csize as int;
        let ghost c0 = first_cluster;
        let ghost slots = spec_dir_slots(d, fo, ho, cs, c0);
        let ghost tr = spec_chain_truncated(d, fo, c0);
        let ghost full = spec_listing(slots, 0, tr);
        let ghost from = offset as int;

        let mut cursor = SlotCursor {
            first: first_cluster,
            chain: ClusterChain::new(first_cluster),
            heap_idx: 0,
            walked: 0,
        };
        let cap0: usize = out.len();
        let mut written: usize = 0;
        let ghost mut done: Seq<SpecEntry> = Seq::empty();
        let ghost mut emitted: Seq<SpecEntry> = Seq::empty();

        proof {
            assert(self.cursor_inv(cursor));
            assert(full.entries =~= done + spec_listing(slots, 0, tr).entries);
            lemma_filter_from_empty(from);
            assert(spec_encode_entries(emitted) =~= Seq::<u8>::empty());
            assert(out@ =~= spec_encode_entries(emitted) + old(out)@.skip(0));
            assert(spec_filter_from(full.entries, from) =~= spec_filter_from(
                spec_listing(slots, 0, tr).entries,
                from,
            ));
        }

        loop
            invariant
                self.wf(),
                csize == self.spec_cluster_size(),
                512 <= csize <= 0x80000,
                cs == csize as int,
                d == self.spec_disk(),
                fo == self.spec_fat_off(),
                ho == self.spec_heap_off(),
                base == spec_slot_base(ho, index as int),
                index != 0 ==> spec_attr_is_dir(spec_slot_attr(d, base)) && c0
                    == spec_slot_first_cluster(d, base),
                index == 0 ==> c0 == self.spec_root_cluster(),
                from == offset as int,
                cursor.first == c0,
                self.cursor_inv(cursor),
                slots == spec_dir_slots(d, fo, ho, cs, c0),
                tr == spec_chain_truncated(d, fo, c0),
                full == spec_listing(slots, 0, tr),
                full.entries == done + spec_listing(slots, cursor.walked as int, tr).entries,
                full.status == spec_listing(slots, cursor.walked as int, tr).status,
                emitted == spec_filter_from(done, from),
                out@.len() == cap0,
                cap0 == old(out)@.len(),
                written <= cap0,
                spec_encode_entries(emitted).len() == written as int,
                out@ == spec_encode_entries(emitted) + old(out)@.skip(written as int),
                spec_fit_count(spec_filter_from(full.entries, from), cap0 as int) == emitted.len()
                    + spec_fit_count(
                    spec_filter_from(spec_listing(slots, cursor.walked as int, tr).entries, from),
                    cap0 - written,
                ),
            decreases slots.len() - cursor.walked,
        {
            let ghost i0 = cursor.walked as int;
            let ghost sub = spec_listing(slots, i0, tr);
            match self.next_slot(&mut cursor) {
                Err(e) => {
                    return Err(e);
                },
                Ok(None) => {
                    proof {
                        assert(sub.entries =~= Seq::<SpecEntry>::empty());
                        lemma_filter_from_empty(from);
                        assert(spec_filter_from(sub.entries, from) =~= Seq::<SpecEntry>::empty());
                        let filt = spec_filter_from(full.entries, from);
                        lemma_fit_count_bounds(filt, cap0 as int);
                        assert(filt =~= emitted);
                        assert(spec_fit_count(filt, cap0 as int) == emitted.len());
                        assert(filt.take(emitted.len() as int) =~= emitted);
                    }
                    return Ok(written as u64);
                },
                Ok(Some(pair)) => {
                    let (off_rel, b) = pair;
                    proof {
                        assert(b@ == slots[i0].bytes);
                    }
                    match crate::dirent::parse_dir_slot(&b) {
                        crate::dirent::DirSlot::End => {
                            proof {
                                assert(sub.entries =~= Seq::<SpecEntry>::empty());
                                assert(sub.status == SpecListStatus::Clean);
                                lemma_filter_from_empty(from);
                                assert(spec_filter_from(sub.entries, from) =~= Seq::<
                                    SpecEntry,
                                >::empty());
                                let filt = spec_filter_from(full.entries, from);
                                lemma_fit_count_bounds(filt, cap0 as int);
                                assert(filt =~= emitted);
                                assert(spec_fit_count(filt, cap0 as int) == emitted.len());
                                assert(filt.take(emitted.len() as int) =~= emitted);
                            }
                            return Ok(written as u64);
                        },
                        crate::dirent::DirSlot::Deleted => {
                            proof {
                                assert(sub == spec_listing(slots, i0 + 1, tr));
                            }
                        },
                        crate::dirent::DirSlot::Short {
                            name_raw,
                            attr: _,
                            first_cluster: _,
                            size,
                        } => {
                            let name = crate::names::decode_short_name(&name_raw);
                            let e_index: u64 = off_rel / 32;
                            let ghost e = SpecEntry {
                                start: slots[i0].off,
                                index: slots[i0].off / 32,
                                size: spec_le32(slots[i0].bytes, 28),
                                name: crate::names::spec_short_name(slots[i0].bytes.take(11)),
                            };
                            let ghost sub_next = spec_listing(slots, i0 + 1, tr);
                            proof {
                                assert(sub.entries == seq![e] + sub_next.entries);
                                assert(sub.status == sub_next.status);
                                assert(name@ == e.name);
                                assert(e_index as int == e.index);
                                assert(size as int == e.size);
                                assert(off_rel as int == e.start);
                            }
                            if off_rel >= offset {
                                let rec = crate::dirent::build_record(e_index, size as u64, &name);
                                if rec.len() > cap0 - written {
                                    proof {
                                        lemma_filter_from_concat(seq![e], sub_next.entries, from);
                                        lemma_filter_from_singleton(e, from);
                                        let filt_sub = spec_filter_from(sub.entries, from);
                                        assert(filt_sub =~= seq![e] + spec_filter_from(
                                            sub_next.entries,
                                            from,
                                        ));
                                        assert(filt_sub[0] == e);
                                        assert(spec_fit_count(filt_sub, cap0 - written) == 0);
                                        let filt = spec_filter_from(full.entries, from);
                                        lemma_fit_count_bounds(filt, cap0 as int);
                                        assert(spec_fit_count(filt, cap0 as int)
                                            == emitted.len());
                                        lemma_filter_from_concat(done, sub.entries, from);
                                        assert(filt =~= emitted + filt_sub);
                                        assert(filt.take(emitted.len() as int) =~= emitted);
                                        assert(filt.len() > emitted.len());
                                    }
                                    return Ok(written as u64);
                                }
                                copy_into(out, written, &rec);
                                proof {
                                    let filt_sub = spec_filter_from(sub.entries, from);
                                    let filt_next = spec_filter_from(sub_next.entries, from);
                                    lemma_filter_from_concat(seq![e], sub_next.entries, from);
                                    lemma_filter_from_singleton(e, from);
                                    assert(filt_sub =~= seq![e] + filt_next);
                                    assert(filt_sub[0] == e);
                                    assert(filt_sub.skip(1) =~= filt_next);
                                    assert(spec_fit_count(filt_sub, cap0 - written) == 1
                                        + spec_fit_count(
                                        filt_next,
                                        cap0 - written - rec@.len(),
                                    ));
                                    lemma_encode_push(emitted, e);
                                    done.lemma_filter_push(e, spec_from_pred(from));
                                    done = done.push(e);
                                    emitted = emitted.push(e);
                                    assert(emitted == spec_filter_from(done, from));
                                    assert(full.entries =~= done + sub_next.entries);
                                    assert(spec_encode_entries(emitted).len() == written
                                        + rec@.len());
                                    assert(out@ =~= spec_encode_entries(emitted) + old(
                                        out,
                                    )@.skip(written + rec@.len()));
                                }
                                written = written + rec.len();
                            } else {
                                proof {
                                    lemma_filter_from_concat(seq![e], sub_next.entries, from);
                                    lemma_filter_from_singleton(e, from);
                                    assert(spec_filter_from(sub.entries, from) =~= spec_filter_from(
                                        sub_next.entries,
                                        from,
                                    ));
                                    done.lemma_filter_push(e, spec_from_pred(from));
                                    done = done.push(e);
                                    assert(emitted == spec_filter_from(done, from));
                                    assert(full.entries =~= done + sub_next.entries);
                                }
                            }
                        },
                        crate::dirent::DirSlot::LongName { ord, units } => {
                            match crate::dirent::check_long_ord(ord) {
                                Ok(_count) => {},
                                Err(e) => {
                                    return Err(e);
                                },
                            }
                            match self.decode_long_group(&mut cursor, ord, &units) {
                                Err(e) => {
                                    return Err(e);
                                },
                                Ok(triple) => {
                                    let (off3, size3, name) = triple;
                                    let ghost n = (ord % 0x40) as int;
                                    let e_index: u64 = off3 / 32;
                                    let ghost e = SpecEntry {
                                        start: slots[i0].off,
                                        index: slots[i0 + n].off / 32,
                                        size: spec_le32(slots[i0 + n].bytes, 28),
                                        name: name@,
                                    };
                                    let ghost sub_next = spec_listing(slots, i0 + n + 1, tr);
                                    proof {
                                        assert(slots[i0].bytes[0] == ord);
                                        assert(sub.entries == seq![e] + sub_next.entries);
                                        assert(sub.status == sub_next.status);
                                        assert(e_index as int == e.index);
                                        assert(size3 as int == e.size);
                                        assert(off_rel as int == e.start);
                                    }
                                    if off_rel >= offset {
                                        let rec = crate::dirent::build_record(
                                            e_index,
                                            size3 as u64,
                                            &name,
                                        );
                                        if rec.len() > cap0 - written {
                                            proof {
                                                lemma_filter_from_concat(
                                                    seq![e],
                                                    sub_next.entries,
                                                    from,
                                                );
                                                lemma_filter_from_singleton(e, from);
                                                let filt_sub = spec_filter_from(sub.entries, from);
                                                assert(filt_sub =~= seq![e] + spec_filter_from(
                                                    sub_next.entries,
                                                    from,
                                                ));
                                                assert(filt_sub[0] == e);
                                                assert(spec_fit_count(filt_sub, cap0 - written)
                                                    == 0);
                                                let filt = spec_filter_from(full.entries, from);
                                                lemma_fit_count_bounds(filt, cap0 as int);
                                                assert(spec_fit_count(filt, cap0 as int)
                                                    == emitted.len());
                                                lemma_filter_from_concat(done, sub.entries, from);
                                                assert(filt =~= emitted + filt_sub);
                                                assert(filt.take(emitted.len() as int)
                                                    =~= emitted);
                                                assert(filt.len() > emitted.len());
                                            }
                                            return Ok(written as u64);
                                        }
                                        copy_into(out, written, &rec);
                                        proof {
                                            let filt_sub = spec_filter_from(sub.entries, from);
                                            let filt_next = spec_filter_from(
                                                sub_next.entries,
                                                from,
                                            );
                                            lemma_filter_from_concat(
                                                seq![e],
                                                sub_next.entries,
                                                from,
                                            );
                                            lemma_filter_from_singleton(e, from);
                                            assert(filt_sub =~= seq![e] + filt_next);
                                            assert(filt_sub[0] == e);
                                            assert(filt_sub.skip(1) =~= filt_next);
                                            assert(spec_fit_count(filt_sub, cap0 - written) == 1
                                                + spec_fit_count(
                                                filt_next,
                                                cap0 - written - rec@.len(),
                                            ));
                                            lemma_encode_push(emitted, e);
                                            done.lemma_filter_push(e, spec_from_pred(from));
                                            done = done.push(e);
                                            emitted = emitted.push(e);
                                            assert(emitted == spec_filter_from(done, from));
                                            assert(full.entries =~= done + sub_next.entries);
                                            assert(spec_encode_entries(emitted).len() == written
                                                + rec@.len());
                                            assert(out@ =~= spec_encode_entries(emitted) + old(
                                                out,
                                            )@.skip(written + rec@.len()));
                                        }
                                        written = written + rec.len();
                                    } else {
                                        proof {
                                            lemma_filter_from_concat(
                                                seq![e],
                                                sub_next.entries,
                                                from,
                                            );
                                            lemma_filter_from_singleton(e, from);
                                            assert(spec_filter_from(sub.entries, from)
                                                =~= spec_filter_from(sub_next.entries, from));
                                            done.lemma_filter_push(e, spec_from_pred(from));
                                            done = done.push(e);
                                            assert(emitted == spec_filter_from(done, from));
                                            assert(full.entries =~= done + sub_next.entries);
                                        }
                                    }
                                },
                            }
                        },
                    }
                },
            }
        }
    }

    /// Consumes the remainder of a long-name record group whose highest
    /// fragment — ordinal byte `ord`, code units `units` — the cursor has
    /// just handed out: the fragments with strictly descending ordinals
    /// down to 1, then the closing short entry. Yields the heap byte
    /// offset and recorded size of the closing entry and the
    /// reconstructed name, or fails with `Inconsistent` on any misstep in
    /// the sequence, undecodable UTF-16, or an overlong name.
    fn decode_long_group(&self, cur: &mut SlotCursor, ord: u8, units: &Vec<u16>) -> (r: Result<
        (u64, u32, Vec<u8>),
        Error,
    >)
        requires
            self.wf(),
            self.cursor_inv(*old(cur)),
            ord % 0x40 != 0,
            old(cur).walked >= 1,
            ({
                let slots = spec_dir_slots(
                    self.spec_disk(),
                    self.spec_fat_off(),
                    self.spec_heap_off(),
                    self.spec_cluster_size() as int,
                    old(cur).first,
                );
                &&& old(cur).walked - 1 < slots.len()
                &&& units@ == spec_long_units(slots[old(cur).walked - 1].bytes)
            }),
        ensures
            final(cur).first == old(cur).first,
            r is Ok ==> ({
                let slots = spec_dir_slots(
                    self.spec_disk(),
                    self.spec_fat_off(),
                    self.spec_heap_off(),
                    self.spec_cluster_size() as int,
                    old(cur).first,
                );
                let i0 = old(cur).walked - 1;
                let n = (ord % 0x40) as int;
                let off = r->Ok_0.0;
                let size = r->Ok_0.1;
                let name = r->Ok_0.2;
                &&& self.cursor_inv(*final(cur))
                &&& final(cur).walked == old(cur).walked + n
                &&& spec_group_ok(slots, i0, n)
                &&& spec_utf16_to_utf8(spec_group_units(slots, i0, n)) == Some(name@)
                &&& name@.len() <= 255
                &&& off as int == slots[i0 + n].off
                &&& size as int == spec_le32(slots[i0 + n].bytes, 28)
            }),
    {
        let ghost slots = spec_dir_slots(
            self.spec_disk(),
            self.spec_fat_off(),
            self.spec_heap_off(),
            self.spec_cluster_size() as int,
            old(cur).first,
        );
        let ghost i0 = old(cur).walked - 1;
        let n: u8 = ord % 0x40;
        let mut acc: Vec<u16> = crate::dirent::trim_long_pad(units);
        let mut m: u8 = 1;
        while m < n
            invariant
                self.wf(),
                self.cursor_inv(*cur),
                cur.first == old(cur).first,
                1 <= m <= n,
                n == ord % 0x40,
                n != 0,
                slots == spec_dir_slots(
                    self.spec_disk(),
                    self.spec_fat_off(),
                    self.spec_heap_off(),
                    self.spec_cluster_size() as int,
                    old(cur).first,
                ),
                i0 == old(cur).walked - 1,
                0 <= i0,
                cur.walked as int == i0 + m,
                acc@ == spec_group_units(slots, i0, m as int),
                forall|k: int| 1 <= k < m ==> {
                    let s = (#[trigger] slots[i0 + k]).bytes;
                    s[0] == n - k && s[11] == 0x0F
                },
            decreases n - m,
        {
            match self.next_slot(cur) {
                Err(e) => {
                    return Err(e);
                },
                Ok(None) => {
                    return Err(Error::Fs(FsError::Inconsistent));
                },
                Ok(Some(pair)) => {
                    let (_off2, b2) = pair;
                    match crate::dirent::parse_dir_slot(&b2) {
                        crate::dirent::DirSlot::LongName { ord: ord2, units: units2 } => {
                            if ord2 != n - m {
                                return Err(Error::Fs(FsError::Inconsistent));
                            }
                            proof {
                                assert(b2@ == slots[i0 + m].bytes);
                                assert(slots[i0 + m].bytes[0] == n - m);
                                assert(slots[i0 + m].bytes[11] == 0x0F);
                            }
                            let acc2 = crate::dirent::concat_u16(units2, &acc);
                            acc = acc2;
                            proof {
                                assert(acc@ == spec_group_units(slots, i0, m + 1));
                            }
                            m = m + 1;
                        },
                        _ => {
                            return Err(Error::Fs(FsError::Inconsistent));
                        },
                    }
                },
            }
        }
        match self.next_slot(cur) {
            Err(e) => {
                return Err(e);
            },
            Ok(None) => {
                return Err(Error::Fs(FsError::Inconsistent));
            },
            Ok(Some(pair)) => {
                let (off3, b3) = pair;
                match crate::dirent::parse_dir_slot(&b3) {
                    crate::dirent::DirSlot::Short { name_raw: _, attr: _, first_cluster: _, size,
                    } => {
                        match crate::names::utf16_to_utf8(&acc) {
                            None => Err(Error::Fs(FsError::Inconsistent)),
                            Some(nm) => {
                                if nm.len() > 255 {
                                    return Err(Error::Fs(FsError::Inconsistent));
                                }
                                proof {
                                    assert(b3@ == slots[i0 + n].bytes);
                                    assert(spec_group_ok(slots, i0, n as int));
                                }
                                Ok((off3, size, nm))
                            },
                        }
                    },
                    _ => Err(Error::Fs(FsError::Inconsistent)),
                }
            },
        }
    }
}

} // verus!
