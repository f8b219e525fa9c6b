use hyrax::chain::ClusterChain;
use hyrax::storage::MemoryDataStorage;

const FAT_OFFSET: u64 = 512;

fn image_with_fat(entries: &[(u32, u32)]) -> MemoryDataStorage {
    // a bare image: 512 reserved bytes, then a table large enough for
    // small cluster numbers
    let mut img = vec![0u8; 2048];
    for &(cluster, next) in entries {
        let at = (FAT_OFFSET + cluster as u64 * 4) as usize;
        img[at..at + 4].copy_from_slice(&next.to_le_bytes());
    }
    MemoryDataStorage::new(img)
}

#[test]
fn walker_yields_chain_in_order() {
    // 5 -> 7 -> 9 -> end: exactly three items, heap indices 3, 5, 7
    let ds = image_with_fat(&[(5, 7), (7, 9), (9, 0x0FFFFFFF)]);
    let mut chain = ClusterChain::new(5);
    assert_eq!(chain.next(&ds, FAT_OFFSET), Some(Ok(3)));
    assert_eq!(chain.next(&ds, FAT_OFFSET), Some(Ok(5)));
    assert_eq!(chain.next(&ds, FAT_OFFSET), Some(Ok(7)));
    assert_eq!(chain.next(&ds, FAT_OFFSET), None);
    // and the step after stays ended
    assert_eq!(chain.next(&ds, FAT_OFFSET), None);
}

#[test]
fn walker_yields_nothing_for_empty_chain() {
    let ds = image_with_fat(&[]);
    // cluster number 0 is free, 1 is reserved: both end the chain at once
    let mut chain = ClusterChain::new(0);
    assert_eq!(chain.next(&ds, FAT_OFFSET), None);
    let mut chain = ClusterChain::new(1);
    assert_eq!(chain.next(&ds, FAT_OFFSET), None);
}

#[test]
fn walker_stops_on_every_sentinel() {
    for sentinel in [0u32, 1, 0xFFFFFF7, 0xFFFFFF8, 0x0FFFFFFF, 0xFFFFFFFF] {
        let ds = image_with_fat(&[(4, sentinel)]);
        let mut chain = ClusterChain::new(4);
        assert_eq!(chain.next(&ds, FAT_OFFSET), Some(Ok(2)));
        assert_eq!(chain.next(&ds, FAT_OFFSET), None);
    }
}

#[test]
fn walker_surfaces_table_read_failure() {
    // the table entry of cluster 400 lies past the end of this image, so
    // the step must yield an error rather than silently ending the chain
    let ds = image_with_fat(&[]);
    let mut chain = ClusterChain::new(400);
    match chain.next(&ds, FAT_OFFSET) {
        Some(Err(_)) => {},
        other => panic!("expected a surfaced read failure, got {:?}", other),
    }
}
