use hyrax::error::{Error, FsError};
use hyrax::exfat::FileSystemServer;
use hyrax::storage::MemoryDataStorage;

fn exfat_image(
    bps_shift: u8,
    spc_shift: u8,
    fat_offset: u32,
    fat_length: u32,
    heap_offset: u32,
    nfats: u8,
    root: u32,
) -> Vec<u8> {
    let mut img = vec![0u8; 512 * 64];
    img[80..84].copy_from_slice(&fat_offset.to_le_bytes());
    img[84..88].copy_from_slice(&fat_length.to_le_bytes());
    img[88..92].copy_from_slice(&heap_offset.to_le_bytes());
    img[96..100].copy_from_slice(&root.to_le_bytes());
    img[108] = bps_shift;
    img[109] = spc_shift;
    img[110] = nfats;
    img
}

#[test]
fn exfat_mount_accepts_plain_volume() {
    let img = exfat_image(9, 0, 24, 1, 32, 1, 4);
    assert!(FileSystemServer::new(MemoryDataStorage::new(img)).is_ok());
}

#[test]
fn exfat_mount_rejects_bad_sector_shift() {
    for shift in [8u8, 13u8] {
        let img = exfat_image(shift, 0, 24, 1, 32, 1, 4);
        match FileSystemServer::new(MemoryDataStorage::new(img)) {
            Err(Error::Fs(FsError::Inconsistent)) => {},
            other => panic!("sector shift {} must be inconsistent, got {:?}", shift, other.is_ok()),
        }
    }
}

#[test]
fn exfat_mount_rejects_oversized_cluster() {
    // a 2^26-byte cluster exceeds the 2^25 limit
    let img = exfat_image(12, 14, 24, 1, 32, 1, 4);
    match FileSystemServer::new(MemoryDataStorage::new(img)) {
        Err(Error::Fs(FsError::Inconsistent)) => {},
        other => panic!("oversized clusters must be inconsistent, got {:?}", other.is_ok()),
    }
}

#[test]
fn exfat_mount_rejects_table_inside_boot_region() {
    let img = exfat_image(9, 0, 23, 1, 32, 1, 4);
    match FileSystemServer::new(MemoryDataStorage::new(img)) {
        Err(Error::Fs(FsError::Inconsistent)) => {},
        other => panic!("a table at sector 23 must be inconsistent, got {:?}", other.is_ok()),
    }
}

#[test]
fn exfat_mount_rejects_bad_table_count() {
    for nfats in [0u8, 3u8] {
        let img = exfat_image(9, 0, 24, 1, 32, nfats, 4);
        match FileSystemServer::new(MemoryDataStorage::new(img)) {
            Err(Error::Fs(FsError::Inconsistent)) => {},
            other => panic!("{} tables must be inconsistent, got {:?}", nfats, other.is_ok()),
        }
    }
}

#[test]
fn exfat_mount_rejects_heap_overlapping_tables() {
    // the heap must start at or past sector 24 + 2 * 4
    let img = exfat_image(9, 0, 24, 4, 31, 2, 4);
    match FileSystemServer::new(MemoryDataStorage::new(img)) {
        Err(Error::Fs(FsError::Inconsistent)) => {},
        other => panic!("an overlapping heap must be inconsistent, got {:?}", other.is_ok()),
    }
}

#[test]
fn exfat_operations_are_unimplemented() {
    let img = exfat_image(9, 0, 24, 1, 32, 1, 4);
    let mut fs = FileSystemServer::new(MemoryDataStorage::new(img)).unwrap();
    let mut buf = vec![0u8; 8];
    assert_eq!(fs.stat(0, 0, &mut buf), Err(Error::Unimplemented));
    assert_eq!(fs.read(0, 0, &mut buf), Err(Error::Unimplemented));
    assert_eq!(fs.write(0, 0, &vec![1u8]), Err(Error::Unimplemented));
}
