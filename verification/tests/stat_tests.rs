use hyrax::error::{Error, FsError};
use hyrax::fat::FileSystemServer;
use hyrax::storage::MemoryDataStorage;

const FAT: usize = 512;
const HEAP: usize = 1024;

fn cluster_base(c: u32) -> usize {
    HEAP + (c as usize - 2) * 512
}

fn set_fat(img: &mut Vec<u8>, cluster: u32, next: u32) {
    let at = FAT + cluster as usize * 4;
    img[at..at + 4].copy_from_slice(&next.to_le_bytes());
}

fn short_entry(name: &[u8; 11], attr: u8, cluster: u16, size: u32) -> [u8; 32] {
    let mut s = [0u8; 32];
    s[..11].copy_from_slice(name);
    s[11] = attr;
    s[26..28].copy_from_slice(&cluster.to_le_bytes());
    s[28..32].copy_from_slice(&size.to_le_bytes());
    s
}

fn long_frag(ord: u8, units: &[u16; 13]) -> [u8; 32] {
    let mut s = [0u8; 32];
    s[0] = ord;
    s[11] = 0x0F;
    let offs = [1, 3, 5, 7, 9, 14, 16, 18, 20, 22, 24, 28, 30];
    for (k, &off) in offs.iter().enumerate() {
        s[off..off + 2].copy_from_slice(&units[k].to_le_bytes());
    }
    s
}

fn name_units(text: &str) -> Vec<u16> {
    text.encode_utf16().collect()
}

fn frag_units(units: &[u16], frag: usize) -> [u16; 13] {
    let mut out = [0xFFFFu16; 13];
    let lo = frag * 13;
    for k in 0..13 {
        let i = lo + k;
        if i < units.len() {
            out[k] = units[i];
        } else if i == units.len() {
            out[k] = 0x0000;
        }
    }
    out
}

fn put(img: &mut Vec<u8>, cluster: u32, slot: usize, bytes: &[u8; 32]) {
    let at = cluster_base(cluster) + slot * 32;
    img[at..at + 32].copy_from_slice(bytes);
}

/// A volume whose root directory holds a short-name file, a subdirectory,
/// a second file, a deleted entry, and a two-fragment long-name file.
fn listing_image() -> Vec<u8> {
    let mut img = vec![0u8; 6144];
    img[11..13].copy_from_slice(&512u16.to_le_bytes());
    img[13] = 1;
    img[14..16].copy_from_slice(&1u16.to_le_bytes());
    img[16] = 1;
    img[22..24].copy_from_slice(&1u16.to_le_bytes());
    img[44..48].copy_from_slice(&2u32.to_le_bytes());

    for c in 2..=9u32 {
        set_fat(&mut img, c, 0x0FFFFFFF);
    }

    put(&mut img, 2, 0, &short_entry(b"HELLO   TXT", 0x20, 3, 600));
    put(&mut img, 2, 1, &short_entry(b"SUB        ", 0x10, 5, 0));
    put(&mut img, 2, 2, &short_entry(b"B       BIN", 0x20, 6, 4));
    let mut deleted = short_entry(b"GONE    TXT", 0x20, 7, 1);
    deleted[0] = 0xE5;
    put(&mut img, 2, 3, &deleted);
    // the long name: twenty characters over two fragments, stored highest
    // fragment first
    let units = name_units("try another one long");
    assert_eq!(units.len(), 20);
    put(&mut img, 2, 4, &long_frag(0x42, &frag_units(&units, 1)));
    put(&mut img, 2, 5, &long_frag(0x01, &frag_units(&units, 0)));
    put(&mut img, 2, 6, &short_entry(b"TRYANO~1   ", 0x20, 8, 20));

    // the subdirectory: a single short entry, then the end marker
    put(&mut img, 5, 0, &short_entry(b"A       TXT", 0x20, 9, 10));
    img
}

struct Rec {
    index: u64,
    size: u64,
    name: Vec<u8>,
}

fn parse_records(buf: &[u8], written: usize) -> Vec<Rec> {
    let mut out = Vec::new();
    let mut p = 0usize;
    while p < written {
        let index = u64::from_le_bytes(buf[p..p + 8].try_into().unwrap());
        let size = u64::from_le_bytes(buf[p + 8..p + 16].try_into().unwrap());
        let name_len = buf[p + 16] as usize;
        let name = buf[p + 17..p + 17 + name_len].to_vec();
        out.push(Rec { index, size, name });
        p += (17 + name_len + 7) / 8 * 8;
    }
    assert_eq!(p, written, "records must tile the written bytes exactly");
    out
}

fn mount(img: Vec<u8>) -> FileSystemServer<MemoryDataStorage> {
    FileSystemServer::new(MemoryDataStorage::new(img)).unwrap()
}

#[test]
fn stat_lists_root_entries_in_order() {
    let fs = mount(listing_image());
    let mut out = vec![0u8; 512];
    let written = fs.stat(0, 0, &mut out).unwrap() as usize;
    let recs = parse_records(&out, written);
    assert_eq!(recs.len(), 4);
    assert_eq!(recs[0].name, b"HELLO.TXT");
    assert_eq!(recs[0].index, 0);
    assert_eq!(recs[0].size, 600);
    assert_eq!(recs[1].name, b"SUB");
    assert_eq!(recs[1].index, 1);
    assert_eq!(recs[2].name, b"B.BIN");
    assert_eq!(recs[2].index, 2);
    assert_eq!(recs[2].size, 4);
    // the deleted entry is skipped; the long name follows, reconstructed
    // in natural reading order, and its handle is the closing short slot
    assert_eq!(recs[3].name, b"try another one long");
    assert_eq!(recs[3].index, 6);
    assert_eq!(recs[3].size, 20);
}

#[test]
fn stat_on_subdirectory_and_continuation() {
    let fs = mount(listing_image());
    let mut out = vec![0u8; 256];
    let written = fs.stat(1, 0, &mut out).unwrap() as usize;
    let recs = parse_records(&out, written);
    assert_eq!(recs.len(), 1);
    assert_eq!(recs[0].name, b"A.TXT");
    // the subdirectory sits in cluster 5: its first slot is heap slot 48
    assert_eq!(recs[0].index, 48);
    assert_eq!(recs[0].size, 10);

    // a continuation past that entry yields nothing and re-emits nothing
    let mut out2 = vec![0xEEu8; 256];
    let written2 = fs.stat(1, (recs[0].index + 1) * 32, &mut out2).unwrap();
    assert_eq!(written2, 0);
    assert_eq!(out2, vec![0xEEu8; 256]);
}

#[test]
fn stat_continuation_within_root() {
    let fs = mount(listing_image());
    let mut out = vec![0u8; 512];
    // skip the first two entries: enumeration resumes at slot 2
    let written = fs.stat(0, 64, &mut out).unwrap() as usize;
    let recs = parse_records(&out, written);
    assert_eq!(recs.len(), 2);
    assert_eq!(recs[0].name, b"B.BIN");
    assert_eq!(recs[1].name, b"try another one long");
}

#[test]
fn stat_on_file_is_an_index_error() {
    let fs = mount(listing_image());
    let mut out = vec![0u8; 64];
    match fs.stat(2, 0, &mut out) {
        Err(Error::Fs(FsError::Index)) => {},
        other => panic!("expected an index error, got {:?}", other),
    }
}

#[test]
fn stat_stops_when_a_record_does_not_fit() {
    let fs = mount(listing_image());
    // HELLO.TXT encodes to 32 bytes; the next record would need 24 more
    let mut out = vec![0u8; 40];
    let written = fs.stat(0, 0, &mut out).unwrap() as usize;
    let recs = parse_records(&out, written);
    assert_eq!(written, 32);
    assert_eq!(recs.len(), 1);
    assert_eq!(recs[0].name, b"HELLO.TXT");
}

#[test]
fn stat_decodes_non_ascii_long_name() {
    let mut img = listing_image();
    // replace the long-name group with a non-ASCII name of 16 characters
    let text = "m\u{FC}nchen \u{FC}bung 16";
    let units = name_units(text);
    assert_eq!(units.len(), 16);
    put(&mut img, 2, 4, &long_frag(0x42, &frag_units(&units, 1)));
    put(&mut img, 2, 5, &long_frag(0x01, &frag_units(&units, 0)));
    let fs = mount(img);
    let mut out = vec![0u8; 512];
    let written = fs.stat(0, 0, &mut out).unwrap() as usize;
    let recs = parse_records(&out, written);
    assert_eq!(recs[3].name, text.as_bytes());
}

#[test]
fn stat_rejects_long_name_without_last_flag() {
    let mut img = listing_image();
    // the opening fragment lacks the terminal bit
    let units = name_units("try another one long");
    put(&mut img, 2, 4, &long_frag(0x02, &frag_units(&units, 1)));
    let fs = mount(img);
    let mut out = vec![0u8; 512];
    match fs.stat(0, 0, &mut out) {
        Err(Error::Fs(FsError::Inconsistent)) => {},
        other => panic!("expected an inconsistency, got {:?}", other),
    }
}

#[test]
fn stat_rejects_long_name_out_of_order() {
    let mut img = listing_image();
    // the second fragment carries the wrong ordinal
    let units = name_units("try another one long");
    put(&mut img, 2, 5, &long_frag(0x03, &frag_units(&units, 0)));
    let fs = mount(img);
    let mut out = vec![0u8; 512];
    match fs.stat(0, 0, &mut out) {
        Err(Error::Fs(FsError::Inconsistent)) => {},
        other => panic!("expected an inconsistency, got {:?}", other),
    }
}

#[test]
fn stat_rejects_group_cut_off_by_chain_end() {
    let mut img = listing_image();
    // an opening fragment in the very last slot of the directory's only
    // cluster: the chain ends before the group can close
    let units = name_units("try another one long");
    put(&mut img, 2, 4, &short_entry(b"FILL1      ", 0x20, 6, 0));
    put(&mut img, 2, 5, &short_entry(b"FILL2      ", 0x20, 6, 0));
    put(&mut img, 2, 6, &short_entry(b"FILL3      ", 0x20, 6, 0));
    for slot in 7..15 {
        put(&mut img, 2, slot, &short_entry(b"FILLX      ", 0x20, 6, 0));
    }
    put(&mut img, 2, 15, &long_frag(0x41, &frag_units(&units, 0)));
    let fs = mount(img);
    let mut out = vec![0u8; 2048];
    match fs.stat(0, 0, &mut out) {
        Err(Error::Fs(FsError::Inconsistent)) => {},
        other => panic!("expected an inconsistency, got {:?}", other),
    }
}

#[test]
fn stat_follows_directory_chain_across_clusters() {
    let mut img = listing_image();
    // the root directory grows into cluster 4: the end marker moves there
    set_fat(&mut img, 2, 4);
    set_fat(&mut img, 4, 0x0FFFFFFF);
    let mut deleted = short_entry(b"GONE    TXT", 0x20, 7, 1);
    deleted[0] = 0xE5;
    for slot in 7..16 {
        put(&mut img, 2, slot, &deleted);
    }
    put(&mut img, 4, 0, &short_entry(b"MORE    DAT", 0x20, 7, 99));
    let fs = mount(img);
    let mut out = vec![0u8; 1024];
    let written = fs.stat(0, 0, &mut out).unwrap() as usize;
    let recs = parse_records(&out, written);
    // the seventeenth slot of the directory sits in cluster 4: heap slot 32
    let last = recs.last().unwrap();
    assert_eq!(last.name, b"MORE.DAT");
    assert_eq!(last.index, 32);
    assert_eq!(last.size, 99);
}

#[test]
fn long_ordinal_check_pins_decision_and_error() {
    assert_eq!(hyrax::dirent::check_long_ord(0x42), Ok(2));
    assert_eq!(hyrax::dirent::check_long_ord(0x41), Ok(1));
    // no last-entry bit, or an empty group
    assert_eq!(hyrax::dirent::check_long_ord(0x02), Err(Error::Fs(FsError::Inconsistent)));
    assert_eq!(hyrax::dirent::check_long_ord(0x40), Err(Error::Fs(FsError::Inconsistent)));
}
