use hyrax::error::{Error, FsError};
use hyrax::fat::{is_power_of_two, FileSystemServer};
use hyrax::storage::MemoryDataStorage;

fn boot_image(
    bps: u16,
    spc: u8,
    rsvd: u16,
    nfats: u8,
    rootent: u16,
    fatsz16: u16,
    rootclus: u32,
    total: usize,
) -> Vec<u8> {
    let mut img = vec![0u8; total];
    img[11..13].copy_from_slice(&bps.to_le_bytes());
    img[13] = spc;
    img[14..16].copy_from_slice(&rsvd.to_le_bytes());
    img[16] = nfats;
    img[17..19].copy_from_slice(&rootent.to_le_bytes());
    img[22..24].copy_from_slice(&fatsz16.to_le_bytes());
    img[44..48].copy_from_slice(&rootclus.to_le_bytes());
    img
}

#[test]
fn mount_accepts_plain_volume() {
    let img = boot_image(512, 1, 1, 1, 0, 1, 2, 5120);
    let ds = MemoryDataStorage::new(img);
    assert!(FileSystemServer::new(ds).is_ok());
}

#[test]
fn mount_accepts_two_fats_and_larger_sectors() {
    let img = boot_image(4096, 8, 2, 2, 0, 3, 2, 64 * 4096);
    let ds = MemoryDataStorage::new(img);
    assert!(FileSystemServer::new(ds).is_ok());
}

#[test]
fn mount_rejects_sector_size_300() {
    // 300 is not a power of two
    let img = boot_image(300, 1, 1, 1, 0, 1, 2, 5120);
    let ds = MemoryDataStorage::new(img);
    match FileSystemServer::new(ds) {
        Err(Error::Fs(FsError::Inconsistent)) => {},
        _ => panic!("a sector size of 300 must be rejected as inconsistent"),
    }
}

#[test]
fn mount_rejects_sector_size_256() {
    // a power of two, but its logarithm falls below 9
    let img = boot_image(256, 1, 1, 1, 0, 1, 2, 5120);
    let ds = MemoryDataStorage::new(img);
    match FileSystemServer::new(ds) {
        Err(Error::Fs(FsError::Inconsistent)) => {},
        _ => panic!("a sector size of 256 must be rejected as inconsistent"),
    }
}

#[test]
fn mount_rejects_256_sectors_per_cluster() {
    // 256 sectors per cluster would need a logarithm of 8; the stored
    // byte wraps to zero, which is no power of two
    let img = boot_image(512, 0, 1, 1, 0, 1, 2, 5120);
    let ds = MemoryDataStorage::new(img);
    match FileSystemServer::new(ds) {
        Err(Error::Fs(FsError::Inconsistent)) => {},
        _ => panic!("256 sectors per cluster must be rejected as inconsistent"),
    }
}

#[test]
fn mount_rejects_three_sectors_per_cluster() {
    let img = boot_image(512, 3, 1, 1, 0, 1, 2, 5120);
    let ds = MemoryDataStorage::new(img);
    match FileSystemServer::new(ds) {
        Err(Error::Fs(FsError::Inconsistent)) => {},
        _ => panic!("3 sectors per cluster must be rejected as inconsistent"),
    }
}

#[test]
fn mount_rejects_bad_fat_count() {
    for nfats in [0u8, 3u8] {
        let img = boot_image(512, 1, 1, nfats, 0, 1, 2, 5120);
        let ds = MemoryDataStorage::new(img);
        match FileSystemServer::new(ds) {
            Err(Error::Fs(FsError::Inconsistent)) => {},
            _ => panic!("a count of {} tables must be rejected as inconsistent", nfats),
        }
    }
}

#[test]
fn mount_rejects_misaligned_root_directory() {
    // 3 entries of 32 bytes are 96 bytes: not a whole number of sectors
    let img = boot_image(512, 1, 1, 1, 3, 1, 2, 5120);
    let ds = MemoryDataStorage::new(img);
    match FileSystemServer::new(ds) {
        Err(Error::Fs(FsError::Inconsistent)) => {},
        _ => panic!("a misaligned root directory must be rejected as inconsistent"),
    }
}

#[test]
fn mount_accepts_legacy_root_directory_region() {
    // 16 entries of 32 bytes are exactly one 512-byte sector
    let img = boot_image(512, 1, 1, 1, 16, 1, 2, 5632);
    let ds = MemoryDataStorage::new(img);
    assert!(FileSystemServer::new(ds).is_ok());
}

#[test]
fn mount_rejects_truncated_volume() {
    let img = vec![0u8; 100];
    let ds = MemoryDataStorage::new(img);
    assert!(FileSystemServer::new(ds).is_err());
}

#[test]
fn power_of_two_check() {
    assert!(is_power_of_two(1));
    assert!(is_power_of_two(2));
    assert!(is_power_of_two(512));
    assert!(is_power_of_two(0x80000000));
    assert!(!is_power_of_two(0));
    assert!(!is_power_of_two(3));
    assert!(!is_power_of_two(300));
    assert!(!is_power_of_two(0xFFFFFFFF));
}

#[test]
fn decode_geometry_pins_the_error_value() {
    // every geometry rejection is exactly the Inconsistent volume error
    for (bps, spc, nfats, rootent) in [
        (300u16, 1u8, 1u8, 0u16),
        (512, 0, 1, 0),
        (512, 3, 1, 0),
        (512, 1, 0, 0),
        (512, 1, 3, 0),
        (512, 1, 1, 3),
    ] {
        let img = boot_image(bps, spc, 1, nfats, rootent, 1, 2, 512);
        assert_eq!(
            hyrax::fat::decode_geometry(&img),
            Err(Error::Fs(FsError::Inconsistent))
        );
    }
}

#[test]
fn decode_geometry_computes_the_fields() {
    let boot = boot_image(512, 2, 3, 2, 16, 5, 7, 512);
    let g = hyrax::fat::decode_geometry(&boot).unwrap();
    assert_eq!(g.bytes_per_cluster_log2, 10);
    assert_eq!(g.fat_offset, 3 * 512);
    // 3 reserved + 2 tables of 5 sectors + 1 root directory sector
    assert_eq!(g.cluster_heap_offset, (3 + 10 + 1) * 512);
    assert_eq!(g.first_cluster_of_root_directory, 7);
}

#[test]
fn slot_checks_pin_decision_and_error() {
    let mut slot = vec![0u8; 32];
    slot[0] = b'A';
    slot[11] = 0x20;
    slot[26..28].copy_from_slice(&9u16.to_le_bytes());
    slot[20..22].copy_from_slice(&1u16.to_le_bytes());
    assert_eq!(hyrax::fat::check_file_slot(&slot), Ok(0x10009));
    assert_eq!(hyrax::fat::check_dir_slot(&slot), Err(Error::Fs(FsError::Index)));
    slot[11] = 0x10;
    assert_eq!(hyrax::fat::check_dir_slot(&slot), Ok(0x10009));
    assert_eq!(hyrax::fat::check_file_slot(&slot), Err(Error::Fs(FsError::Index)));
    slot[11] = 0x08;
    assert_eq!(hyrax::fat::check_file_slot(&slot), Err(Error::Fs(FsError::Index)));
}
