use hyrax::mapping::Mapping;
use hyrax::memory::{ProcessMemory, SystemMemory};

#[test]
fn fresh_bookkeeping_has_no_memory() {
    let mut m = SystemMemory::new();
    assert_eq!(m.allocate(None, 1), None);
    assert_eq!(m.allocate(Some(0), 1), None);
}

#[test]
fn deallocate_makes_memory_available() {
    let mut m = SystemMemory::new();
    m.deallocate(1000, 100);
    // anywhere-allocation takes the top of the chunk
    assert_eq!(m.allocate(None, 40), Some(1060));
    assert_eq!(m.allocate(None, 60), Some(1000));
    assert_eq!(m.allocate(None, 1), None);
}

#[test]
fn allocate_at_claims_exactly_the_requested_range() {
    let mut m = SystemMemory::new();
    m.deallocate(4096, 4096);
    assert_eq!(m.allocate(Some(5000), 100), Some(5000));
    // the claimed bytes are gone
    assert_eq!(m.allocate(Some(5000), 1), None);
    assert_eq!(m.allocate(Some(5099), 1), None);
    // the remnants on both sides stay available
    assert_eq!(m.allocate(Some(4096), 904), Some(4096));
    assert_eq!(m.allocate(Some(5100), 3092), Some(5100));
    assert_eq!(m.allocate(None, 1), None);
}

#[test]
fn allocate_at_rejects_ranges_that_are_not_fully_free() {
    let mut m = SystemMemory::new();
    m.deallocate(100, 50);
    assert_eq!(m.allocate(Some(90), 20), None);
    assert_eq!(m.allocate(Some(140), 20), None);
    assert_eq!(m.allocate(Some(200), 10), None);
    // the failures left everything in place
    assert_eq!(m.allocate(Some(100), 50), Some(100));
}

#[test]
fn deallocate_coalesces_neighbouring_chunks() {
    let mut m = SystemMemory::new();
    m.deallocate(0, 10);
    m.deallocate(20, 10);
    // the middle piece joins both neighbours into one chunk
    m.deallocate(10, 10);
    assert_eq!(m.allocate(Some(0), 30), Some(0));
    assert_eq!(m.allocate(None, 1), None);
}

#[test]
fn anywhere_allocation_is_first_fit() {
    let mut m = SystemMemory::new();
    m.deallocate(100, 50);
    m.deallocate(300, 200);
    // the low chunk is too small: the next one serves the request
    assert_eq!(m.allocate(None, 100), Some(400));
    // a small request still comes from the low chunk
    assert_eq!(m.allocate(None, 50), Some(100));
}

#[test]
fn process_memory_is_not_wired_up() {
    let mut m = ProcessMemory { mapping: Mapping {} };
    assert_eq!(m.allocate(None, 10), None);
    assert_eq!(m.allocate(Some(0), 10), None);
    m.deallocate(0, 10);
}
