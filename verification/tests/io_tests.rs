use hyrax::error::{Error, FsError};
use hyrax::fat::FileSystemServer;
use hyrax::storage::MemoryDataStorage;

const FAT: usize = 512;
const HEAP: usize = 1024;

fn cluster_base(c: u32) -> usize {
    HEAP + (c as usize - 2) * 512
}

fn set_fat(img: &mut Vec<u8>, cluster: u32, next: u32) {
    let at = FAT + cluster as usize * 4;
    img[at..at + 4].copy_from_slice(&next.to_le_bytes());
}

fn set_short_entry(img: &mut Vec<u8>, slot: usize, name: &[u8; 11], attr: u8, cluster: u16, size: u32) {
    let at = HEAP + slot * 32;
    img[at..at + 11].copy_from_slice(name);
    img[at + 11] = attr;
    img[at + 26..at + 28].copy_from_slice(&cluster.to_le_bytes());
    img[at + 28..at + 32].copy_from_slice(&size.to_le_bytes());
}

/// A small volume: 512-byte clusters, the root directory in cluster 2,
/// `HELLO.TXT` over clusters 3 and 4, a subdirectory in cluster 5, and
/// `B.BIN` in cluster 6.
fn standard_image() -> Vec<u8> {
    let mut img = vec![0u8; 5120];
    img[11..13].copy_from_slice(&512u16.to_le_bytes());
    img[13] = 1;
    img[14..16].copy_from_slice(&1u16.to_le_bytes());
    img[16] = 1;
    img[22..24].copy_from_slice(&1u16.to_le_bytes());
    img[44..48].copy_from_slice(&2u32.to_le_bytes());

    set_fat(&mut img, 2, 0x0FFFFFFF);
    set_fat(&mut img, 3, 4);
    set_fat(&mut img, 4, 0x0FFFFFFF);
    set_fat(&mut img, 5, 0x0FFFFFFF);
    set_fat(&mut img, 6, 0x0FFFFFFF);
    set_fat(&mut img, 7, 0x0FFFFFFF);

    set_short_entry(&mut img, 0, b"HELLO   TXT", 0x20, 3, 600);
    set_short_entry(&mut img, 1, b"SUB        ", 0x10, 5, 0);
    set_short_entry(&mut img, 2, b"B       BIN", 0x20, 6, 4);
    img[HEAP + 3 * 32] = 0xE5;  // a deleted entry, skipped by enumeration

    // file data: recognizable per-cluster patterns
    for i in 0..512 {
        img[cluster_base(3) + i] = i as u8;
        img[cluster_base(4) + i] = (i as u8).wrapping_add(7);
        img[cluster_base(6) + i] = (i as u8).wrapping_mul(3);
    }
    // the subdirectory: one file entry, then the end marker
    let sub = cluster_base(5);
    img[sub..sub + 11].copy_from_slice(b"A       TXT");
    img[sub + 11] = 0x20;
    img[sub + 26..sub + 28].copy_from_slice(&7u16.to_le_bytes());
    img[sub + 28..sub + 32].copy_from_slice(&10u32.to_le_bytes());
    img[cluster_base(7)..cluster_base(7) + 10].copy_from_slice(b"ABCDEFGHIJ");
    img
}

fn mount() -> FileSystemServer<MemoryDataStorage> {
    FileSystemServer::new(MemoryDataStorage::new(standard_image())).unwrap()
}

#[test]
fn read_full_single_cluster() {
    let fs = mount();
    let mut buf = vec![0u8; 512];
    fs.read(2, 0, &mut buf).unwrap();
    for i in 0..512 {
        assert_eq!(buf[i], (i as u8).wrapping_mul(3));
    }
}

#[test]
fn read_across_cluster_boundary() {
    let fs = mount();
    let mut buf = vec![0u8; 8];
    fs.read(0, 508, &mut buf).unwrap();
    // the last four bytes of cluster 3, then the first four of cluster 4
    assert_eq!(&buf[..4], &[252u8, 253, 254, 255]);
    assert_eq!(&buf[4..], &[7u8, 8, 9, 10]);
}

#[test]
fn read_at_offset_within_first_cluster() {
    let fs = mount();
    let mut buf = vec![0u8; 16];
    fs.read(0, 100, &mut buf).unwrap();
    for i in 0..16 {
        assert_eq!(buf[i], (100 + i) as u8);
    }
}

#[test]
fn read_past_chain_end_transfers_fewer_bytes() {
    let fs = mount();
    // the chain holds 1024 bytes; a read of 100 at offset 1000 gets 24
    let mut buf = vec![0xAAu8; 100];
    fs.read(0, 1000, &mut buf).unwrap();
    for i in 0..24 {
        assert_eq!(buf[i], ((1000 - 512 + i) as u8).wrapping_add(7));
    }

    for i in 24..100 {
        assert_eq!(buf[i], 0xAA, "bytes past the chain must stay untouched");
    }
}

#[test]
fn read_entirely_past_chain_end_is_not_an_error() {
    let fs = mount();
    let mut buf = vec![0x55u8; 64];
    fs.read(0, 5000, &mut buf).unwrap();
    assert_eq!(buf, vec![0x55u8; 64]);
}

#[test]
fn read_on_directory_is_an_index_error() {
    let fs = mount();
    let mut buf = vec![0u8; 8];
    match fs.read(1, 0, &mut buf) {
        Err(Error::Fs(FsError::Index)) => {},
        other => panic!("expected an index error, got {:?}", other),
    }
}

#[test]
fn write_on_directory_is_an_index_error() {
    let mut fs = mount();
    match fs.write(1, 0, &vec![1u8, 2, 3]) {
        Err(Error::Fs(FsError::Index)) => {},
        other => panic!("expected an index error, got {:?}", other),
    }
}

#[test]
fn write_then_read_round_trips_within_one_cluster() {
    let mut fs = mount();
    let data: Vec<u8> = (0u8..32).map(|i| 0xC0u8.wrapping_add(i)).collect();
    fs.write(0, 10, &data).unwrap();
    let mut buf = vec![0u8; 32];
    fs.read(0, 10, &mut buf).unwrap();
    assert_eq!(buf, data);
}

#[test]
fn write_then_read_round_trips_across_clusters() {
    let mut fs = mount();
    let data: Vec<u8> = (0u8..40).map(|i| 0x80u8 ^ i).collect();
    fs.write(0, 500, &data).unwrap();
    let mut buf = vec![0u8; 40];
    fs.read(0, 500, &mut buf).unwrap();
    assert_eq!(buf, data);
    // bytes around the written range keep their old values
    let mut before = vec![0u8; 4];
    fs.read(0, 496, &mut before).unwrap();
    assert_eq!(before, vec![240u8, 241, 242, 243]);
    let mut after = vec![0u8; 4];
    fs.read(0, 540, &mut after).unwrap();
    assert_eq!(after, vec![35u8, 36, 37, 38]);
}

#[test]
fn write_past_chain_end_silently_stops() {
    let mut fs = mount();
    let data = vec![0x11u8; 100];
    // the chain holds 1024 bytes: only 24 of the 100 can land
    fs.write(0, 1000, &data).unwrap();
    let mut buf = vec![0u8; 24];
    fs.read(0, 1000, &mut buf).unwrap();
    assert_eq!(buf, vec![0x11u8; 24]);
}

#[test]
fn storage_access_succeeds_exactly_in_range() {
    let mut ds = MemoryDataStorage::new(vec![7u8; 100]);
    let mut buf = vec![0u8; 10];
    assert_eq!(ds.read(90, &mut buf), Ok(()));
    assert_eq!(buf, vec![7u8; 10]);
    let mut buf = vec![0xABu8; 10];
    assert_eq!(ds.read(91, &mut buf), Err(Error::Fs(FsError::Inconsistent)));
    assert_eq!(buf, vec![0xABu8; 10], "a failed read leaves the buffer untouched");
    assert_eq!(ds.write(90, &vec![1u8; 10]), Ok(()));
    assert_eq!(ds.write(91, &vec![1u8; 10]), Err(Error::Fs(FsError::Inconsistent)));
    assert_eq!(ds.data()[99], 1u8);
    assert_eq!(ds.data()[89], 7u8, "a failed write leaves the bytes unchanged");
}
