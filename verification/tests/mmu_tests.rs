use hyrax::error::Error;
use hyrax::mapping::Mapping;
use hyrax::mmu::{
    AddressSpace, SegmentDescriptor, SEG_ACCESS_A, SEG_ACCESS_E, SEG_ACCESS_P, SEG_ACCESS_RW,
    SEG_ACCESS_S, SEG_FLAGS_DB, SEG_FLAGS_G,
};
use hyrax::mmu_x86::PageTableEntryX86;
use hyrax::storage::MemoryDataStorage;

#[test]
fn kernel_code_descriptor_packs_exactly() {
    let access = SEG_ACCESS_A | SEG_ACCESS_RW | SEG_ACCESS_E | SEG_ACCESS_S | SEG_ACCESS_P;
    let d = SegmentDescriptor::new(0x00000000, 0xFFFFF, access, 0, SEG_FLAGS_DB | SEG_FLAGS_G);
    assert_eq!(d.limit_0_15, 0xFFFF);
    assert_eq!(d.base_0_15, 0);
    assert_eq!(d.base_16_23, 0);
    assert_eq!(d.access, 0x9B);
    assert_eq!(d.flags_and_limit_16_19, 0xCF);
    assert_eq!(d.base_24_31, 0);
}

#[test]
fn user_data_descriptor_carries_privilege_level() {
    let access = SEG_ACCESS_A | SEG_ACCESS_RW | SEG_ACCESS_S | SEG_ACCESS_P;
    let d = SegmentDescriptor::new(0x00000000, 0xFFFFF, access, 3, SEG_FLAGS_DB | SEG_FLAGS_G);
    assert_eq!(d.access, 0x93 + 0x60);
}

#[test]
fn descriptor_splits_base_over_three_fields() {
    let d = SegmentDescriptor::new(0x12345678, 0xABCDE, SEG_ACCESS_P, 0, 0);
    assert_eq!(d.base_0_15, 0x5678);
    assert_eq!(d.base_16_23, 0x34);
    assert_eq!(d.base_24_31, 0x12);
    assert_eq!(d.limit_0_15, 0xBCDE);
    assert_eq!(d.flags_and_limit_16_19, 0x0A);
}

#[test]
fn zeroed_descriptor_is_all_zero() {
    let d = SegmentDescriptor::zeroed();
    assert_eq!(d.limit_0_15, 0);
    assert_eq!(d.base_0_15, 0);
    assert_eq!(d.base_16_23, 0);
    assert_eq!(d.access, 0);
    assert_eq!(d.flags_and_limit_16_19, 0);
    assert_eq!(d.base_24_31, 0);
}

#[test]
fn supervisor_descriptor_matches_kernel_descriptor() {
    let access = hyrax::x86::ACCESS_A | hyrax::x86::ACCESS_RW | hyrax::x86::ACCESS_E
        | hyrax::x86::ACCESS_S | hyrax::x86::ACCESS_P;
    let d = hyrax::x86::SegmentDescriptor::new(
        0,
        0xFFFFF,
        access,
        0,
        hyrax::x86::FLAGS_DB | hyrax::x86::FLAGS_G,
    );
    assert_eq!(d.access, 0x9B);
    assert_eq!(d.flags_and_limit_16_19, 0xCF);
}

#[test]
fn page_table_entry_fields() {
    let e = PageTableEntryX86(0x12345679);
    assert_eq!(e.address(), 0x12345000);
    assert!(e.is_valid());
    assert!(e.is_table());

    let large = PageTableEntryX86(0x12345000 | 0x80 | 0x1);
    assert!(large.is_valid());
    assert!(!large.is_table());

    let absent = PageTableEntryX86(0x12345000);
    assert!(!absent.is_valid());
    assert!(!absent.is_table());
}

#[test]
fn address_space_iteration_is_empty() {
    let space = AddressSpace(0);
    let mut iter = space.iter(0, 0x1000);
    assert!(iter.next().is_none());
    let mut space = AddressSpace(0);
    let mut iter = space.iter_mut(0, 0x1000);
    assert!(iter.next().is_none());
}

#[test]
fn mapping_iteration_is_empty() {
    let mapping = Mapping {};
    let mut iter = mapping.iter(0, 0x1000);
    assert!(iter.next().is_none());
    let mut iter = mapping.iter_mut(0, 0x1000);
    assert!(iter.next().is_none());
}

#[test]
fn cdfs_operations_are_unimplemented() {
    let ds = MemoryDataStorage::new(vec![0u8; 64]);
    let mut fs = hyrax::cdfs::FileSystemServer::new(ds).unwrap();
    let mut buf = vec![0u8; 8];
    assert_eq!(fs.stat(0, 0, &mut buf), Err(Error::Unimplemented));
    assert_eq!(fs.read(0, 0, &mut buf), Err(Error::Unimplemented));
    assert_eq!(fs.write(0, 0, &vec![1u8]), Err(Error::Unimplemented));
}

#[test]
fn ntfs_operations_are_unimplemented() {
    let ds = MemoryDataStorage::new(vec![0u8; 64]);
    let mut fs = hyrax::ntfs::FileSystemServer::new(ds).unwrap();
    let mut buf = vec![0u8; 8];
    assert_eq!(fs.stat(0, 0, &mut buf), Err(Error::Unimplemented));
    assert_eq!(fs.read(0, 0, &mut buf), Err(Error::Unimplemented));
    assert_eq!(fs.write(0, 0, &vec![1u8]), Err(Error::Unimplemented));
}

#[test]
fn client_operations_are_unimplemented() {
    let client = hyrax::fs::FileSystemClient {};
    let mut buf = vec![0u8; 8];
    assert_eq!(client.stat(0, 0, &mut buf), Err(Error::Unimplemented));
    assert_eq!(client.read(0, 0, &mut buf), Err(Error::Unimplemented));
    assert_eq!(client.write(0, 0, &vec![1u8]), Err(Error::Unimplemented));
}
