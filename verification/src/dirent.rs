use crate::bytes::{spec_le16, spec_le32, spec_le64_bytes, push_u64_le, u16_le_at, u32_le_at};
use crate::names::{spec_short_name, spec_utf16_to_utf8};
use vstd::prelude::*;

verus! {

/// How a 32-byte directory entry slot is classified, and what its fixed
/// fields hold. A slot whose first name byte is zero ends enumeration; one
/// whose first name byte is `0xE5` is deleted and skipped; one whose
/// attribute byte is exactly the long-name marker carries thirteen UTF-16
/// code units of a long name; everything else is a short (8.3) entry.
pub enum DirSlot {
    End,
    Deleted,
    LongName { ord: u8, units: Vec<u16> },
    Short { name_raw: Vec<u8>, attr: u8, first_cluster: u32, size: u32 },
}

/// Whether the slot bytes `s` mark the end of a directory.
pub open spec fn spec_slot_is_end(s: Seq<u8>) -> bool {
    s[0] == 0
}

/// Whether the slot bytes `s` are a deleted entry.
pub open spec fn spec_slot_is_deleted(s: Seq<u8>) -> bool {
    s[0] == 0xE5
}

/// Whether the slot bytes `s` are a long-name fragment: the attribute byte
/// holds exactly the long-name marker (read-only, hidden, system and
/// volume-label bits together).
pub open spec fn spec_slot_is_long(s: Seq<u8>) -> bool {
    s[11] == 0x0F
}

/// The byte offset, within a long-name fragment slot, of the `i`-th of its
/// thirteen UTF-16 code units: five units follow the ordinal byte, six more
/// sit past the attribute area, and the last two close the slot.
pub open spec fn spec_long_unit_off(i: int) -> int {
    if i < 5 {
        1 + 2 * i
    } else if i < 11 {
        14 + 2 * (i - 5)
    } else {
        28 + 2 * (i - 11)
    }
}

/// The thirteen UTF-16 code units held by the long-name fragment `s`.
pub open spec fn spec_long_units(s: Seq<u8>) -> Seq<u16> {
    Seq::new(13, |i: int| spec_le16(s, spec_long_unit_off(i)) as u16)
}

/// `u` with every trailing padding unit removed: long names are terminated
/// with a zero unit and padded with `0xFFFF` units, and both count as
/// padding.
pub open spec fn spec_trim_long_pad(u: Seq<u16>) -> Seq<u16>
    decreases u.len(),
{
    if u.len() == 0 || !(u.last() == 0x0000 || u.last() == 0xFFFF) {
        u
    } else {
        spec_trim_long_pad(u.drop_last())
    }
}

/// A unit sequence whose units from `l` on are all padding, and whose unit
/// just before `l` (if any) is not, trims to exactly its first `l` units.
pub proof fn lemma_trim_long_pad_characterize(u: Seq<u16>, l: int)
    requires
        0 <= l <= u.len(),
        forall|j: int| l <= j < u.len() ==> u[j] == 0x0000 || u[j] == 0xFFFF,
        l > 0 ==> !(u[l - 1] == 0x0000 || u[l - 1] == 0xFFFF),
    ensures
        spec_trim_long_pad(u) == u.take(l),
    decreases u.len(),
{
    if u.len() == 0 {
        assert(u.take(l) =~= u);
    } else if l == u.len() {
        assert(u.take(l) =~= u);
    } else {
        lemma_trim_long_pad_characterize(u.drop_last(), l);
        assert(u.drop_last().take(l) =~= u.take(l));
    }
}

/// Parses one 32-byte directory entry slot.
pub fn parse_dir_slot(s: &Vec<u8>) -> (r: DirSlot)
    requires
        s@.len() == 32,
    ensures
        match r {
            DirSlot::End => spec_slot_is_end(s@),
            DirSlot::Deleted => !spec_slot_is_end(s@) && spec_slot_is_deleted(s@),
            DirSlot::LongName { ord, units } => {
                &&& !spec_slot_is_end(s@)
                &&& !spec_slot_is_deleted(s@)
                &&& spec_slot_is_long(s@)
                &&& ord == s@[0]
                &&& units@ == spec_long_units(s@)
            },
            DirSlot::Short { name_raw, attr, first_cluster, size } => {
                &&& !spec_slot_is_end(s@)
                &&& !spec_slot_is_deleted(s@)
                &&& !spec_slot_is_long(s@)
                &&& name_raw@ == s@.take(11)
                &&& attr == s@[11]
                &&& first_cluster as int == spec_le16(s@, 26) + spec_le16(s@, 20) * 0x10000
                &&& size as int == spec_le32(s@, 28)
            },
        },
{
    let first = s[0];
    if first == 0 {
        return DirSlot::End;
    }
    if first == 0xE5 {
        return DirSlot::Deleted;
    }
    let attr = s[11];
    if attr == 0x0F {
        let mut units: Vec<u16> = Vec::new();
        let mut i: usize = 0;
        while i < 13
            invariant
                i <= 13,
                s@.len() == 32,
                units@.len() == i,
                forall|j: int| 0 <= j < i ==> units@[j] == spec_long_units(s@)[j],
            decreases 13 - i,
        {
            let off: usize = if i < 5 {
                1 + 2 * i
            } else if i < 11 {
                14 + 2 * (i - 5)
            } else {
                28 + 2 * (i - 11)
            };
            let u = u16_le_at(s, off);
            units.push(u);
            i = i + 1;
        }
        proof {
            assert(units@ =~= spec_long_units(s@));
        }
        DirSlot::LongName { ord: first, units }
    } else {
        let mut name_raw: Vec<u8> = Vec::new();
        let mut i: usize = 0;
        while i < 11
            invariant
                i <= 11,
                s@.len() == 32,
                name_raw@ == s@.take(11).take(i as int),
            decreases 11 - i,
        {
            let b = s[i];
            name_raw.push(b);
            proof {
                assert(name_raw@ =~= s@.take(11).take(i + 1));
            }
            i = i + 1;
        }
        proof {
            assert(name_raw@ =~= s@.take(11));
        }
        let first_cluster = u16_le_at(s, 26) as u32 + u16_le_at(s, 20) as u32 * 0x10000;
        let size = u32_le_at(s, 28);
        DirSlot::Short { name_raw, attr, first_cluster, size }
    }
}

/// Decides whether an ordinal byte may open a long-name record group: the
/// "last entry" bit must be set and the fragment count must be nonzero,
/// and the count is handed back. A fragment that cannot open a group is
/// rejected, and the rejection is the `Inconsistent` volume error,
/// nothing else.
pub fn check_long_ord(ord: u8) -> (r: Result<u8, crate::error::Error>)
    ensures
        r is Ok <==> (ord / 0x40 % 2 == 1 && ord % 0x40 != 0),
        r is Ok ==> r->Ok_0 == ord % 0x40,
        r is Err ==> r->Err_0 == crate::error::Error::Fs(crate::error::FsError::Inconsistent),
{
    if ord / 0x40 % 2 == 0 || ord % 0x40 == 0 {
        return Err(crate::error::Error::Fs(crate::error::FsError::Inconsistent));
    }
    Ok(ord % 0x40)
}

/// Concatenates two UTF-16 unit vectors: `a` followed by `b`.
pub fn concat_u16(a: Vec<u16>, b: &Vec<u16>) -> (r: Vec<u16>)
    ensures
        r@ == a@ + b@,
{
    let mut out = a;
    let ghost a0 = out@;
    let mut i: usize = 0;
    while i < b.len()
        invariant
            i <= b@.len(),
            out@ == a0 + b@.take(i as int),
        decreases b@.len() - i,
    {
        let w = b[i];
        out.push(w);
        proof {
            assert(out@ =~= a0 + b@.take(i + 1));
        }
        i = i + 1;
    }
    proof {
        assert(out@ =~= a0 + b@);
    }
    out
}

/// Removes trailing padding units from a long-name unit vector.
pub fn trim_long_pad(u: &Vec<u16>) -> (r: Vec<u16>)
    ensures
        r@ == spec_trim_long_pad(u@),
{
    let mut l: usize = u.len();
    while l > 0 && (u[l - 1] == 0x0000 || u[l - 1] == 0xFFFF)
        invariant
            l <= u@.len(),
            forall|j: int| l <= j < u@.len() ==> u@[j] == 0x0000 || u@[j] == 0xFFFF,
        decreases l,
    {
        l = l - 1;
    }
    let mut out: Vec<u16> = Vec::new();
    let mut i: usize = 0;
    while i < l
        invariant
            i <= l <= u@.len(),
            out@ == u@.take(l as int).take(i as int),
        decreases l - i,
    {
        let w = u[i];
        out.push(w);
        proof {
            assert(out@ =~= u@.take(l as int).take(i + 1));
        }
        i = i + 1;
    }
    proof {
        lemma_trim_long_pad_characterize(u@, l as int);
        assert(out@ =~= u@.take(l as int));
    }
    out
}

/// A decoded directory listing entry, at specification level: the heap
/// byte offset of the first slot of its record group, the slot index that
/// serves as the entry's handle, its recorded data length, and its
/// reconstructed name, as UTF-8 bytes.
pub ghost struct SpecEntry {
    pub start: int,
    pub index: int,
    pub size: int,
    pub name: Seq<u8>,
}

/// How decoding a directory's slots ends: cleanly (an end marker, or a
/// chain that ends), by overrunning the walk bound (a chain longer than
/// any acyclic chain can be), or on a malformed record group.
pub ghost enum SpecListStatus {
    Clean,
    Overrun,
    Bad,
}

/// The outcome of decoding a directory's slots: the entries decoded before
/// the end (or before the fault), and how decoding ended.
pub ghost struct SpecListing {
    pub entries: Seq<SpecEntry>,
    pub status: SpecListStatus,
}

/// One directory slot at specification level: its heap-relative byte
/// offset and its 32 bytes.
pub ghost struct SpecSlot {
    pub off: int,
    pub bytes: Seq<u8>,
}

/// Whether slots `i + 1 .. i + n` continue the long-name group opened at
/// slot `i` with strictly descending ordinals down to 1, and slot `i + n`
/// is the short entry that closes the group.
pub open spec fn spec_group_ok(slots: Seq<SpecSlot>, i: int, n: int) -> bool {
    &&& i + n < slots.len()
    &&& forall|k: int| 1 <= k < n ==> {
        let s = (#[trigger] slots[i + k]).bytes;
        s[0] == n - k && s[11] == 0x0F
    }
    &&& {
        let s = slots[i + n].bytes;
        s[0] != 0 && s[0] != 0xE5 && s[11] != 0x0F
    }
}

/// The UTF-16 units of the `k` long-name fragments held by slots
/// `i .. i + k`, concatenated in ascending ordinal order (natural reading
/// order): the fragment in the later slot carries the earlier part of the
/// name, and only the highest fragment — slot `i`, the one encountered
/// first — has its trailing padding trimmed.
pub open spec fn spec_group_units(slots: Seq<SpecSlot>, i: int, k: int) -> Seq<u16>
    decreases k,
{
    if k <= 0 {
        Seq::empty()
    } else if k == 1 {
        spec_trim_long_pad(spec_long_units(slots[i].bytes))
    } else {
        spec_long_units(slots[i + k - 1].bytes) + spec_group_units(slots, i, k - 1)
    }
}

/// The thirteen code units of the `j`-th fragment synthesized for the
/// name `u`: the name's units in order, a zero terminator right after the
/// last one, and `0xFFFF` filler to the end of the fragment.
pub open spec fn spec_synth_frag(u: Seq<u16>, j: int) -> Seq<u16> {
    Seq::new(
        13,
        |k: int|
            if 13 * j + k < u.len() {
                u[13 * j + k]
            } else if 13 * j + k == u.len() {
                0x0000u16
            } else {
                0xFFFFu16
            },
    )
}

/// Whether the fragment with ordinal `j` of an `n`-fragment group that
/// opens at slot `i` carries exactly the `j`-th synthesized fragment of
/// the name `u`. Fragments are stored in descending ordinal order, so
/// ordinal `j` sits at slot `i + n - j`.
pub open spec fn spec_frag_holds(slots: Seq<SpecSlot>, i: int, n: int, j: int, u: Seq<u16>) -> bool {
    spec_long_units(slots[i + n - j].bytes) == spec_synth_frag(u, j - 1)
}

/// Law: a long name split into fragments the way volumes store it — the
/// fragment with ordinal `j` holding units `13 (j - 1) .. 13 j`, the last
/// one zero-terminated and filled, and fragments laid out in descending
/// ordinal order from slot `i` — decodes back to exactly the original
/// unit sequence, reassembled in ascending ordinal order.
pub proof fn lemma_long_name_round_trip(slots: Seq<SpecSlot>, i: int, n: int, u: Seq<u16>)
    requires
        1 <= n,
        13 * (n - 1) < u.len() <= 13 * n,
        !(u.last() == 0x0000 || u.last() == 0xFFFF),
        forall|j: int| 1 <= j <= n ==> #[trigger] spec_frag_holds(slots, i, n, j, u),
    ensures
        spec_group_units(slots, i, n) == u,
{
    lemma_group_units_suffix(slots, i, n, u, n);
    assert(u.skip(0) =~= u);
}

/// The group units collected after `k` fragments are the name's last
/// `k` fragments' worth of units.
proof fn lemma_group_units_suffix(slots: Seq<SpecSlot>, i: int, n: int, u: Seq<u16>, k: int)
    requires
        1 <= k <= n,
        13 * (n - 1) < u.len() <= 13 * n,
        !(u.last() == 0x0000 || u.last() == 0xFFFF),
        forall|j: int| 1 <= j <= n ==> #[trigger] spec_frag_holds(slots, i, n, j, u),
    ensures
        spec_group_units(slots, i, k) == u.skip(13 * (n - k)),
    decreases k,
{
    if k == 1 {
        // the highest fragment: trimming the padding leaves the name's
        // tail, whose last unit is no padding
        assert(spec_frag_holds(slots, i, n, n, u));
        assert(spec_long_units(slots[i].bytes) == spec_synth_frag(u, n - 1));
        let frag = spec_synth_frag(u, n - 1);
        let l = u.len() - 13 * (n - 1);
        assert(0 < l <= 13);
        assert(frag[l - 1] == u.last());
        lemma_trim_long_pad_characterize(frag, l);
        assert(frag.take(l) =~= u.skip(13 * (n - 1)));
    } else {
        lemma_group_units_suffix(slots, i, n, u, k - 1);
        let j = n - k + 1;
        assert(spec_frag_holds(slots, i, n, j, u));
        assert(spec_long_units(slots[i + k - 1].bytes) == spec_synth_frag(u, j - 1));
        // a non-final fragment is entirely within the name
        assert(13 * (j - 1) + 13 <= u.len());
        assert(spec_synth_frag(u, j - 1) + u.skip(13 * (n - k + 1)) =~= u.skip(13 * (n - k)));
    }
}

/// The directory listing decoded from `slots`, beginning at slot `i`.
///
/// Enumeration walks slot by slot: an end marker ends it cleanly, deleted
/// slots are skipped, a short entry yields one listing entry, and a
/// long-name group must open with its highest fragment (the "last entry"
/// bit set and a nonzero fragment count), continue with strictly
/// descending ordinals down to 1, and close with exactly one short entry;
/// anything else — including a chain that ends in the middle of a group,
/// undecodable UTF-16, or a name longer than 255 bytes — is malformed.
/// Running out of slots is clean for a chain that really ended and an
/// overrun for a truncated walk.
pub open spec fn spec_listing(slots: Seq<SpecSlot>, i: int, truncated: bool) -> SpecListing
    decreases slots.len() - i,
{
    if i < 0 || i >= slots.len() {
        SpecListing {
            entries: Seq::empty(),
            status: if truncated {
                SpecListStatus::Overrun
            } else {
                SpecListStatus::Clean
            },
        }
    } else {
        let s = slots[i].bytes;
        if spec_slot_is_end(s) {
            SpecListing { entries: Seq::empty(), status: SpecListStatus::Clean }
        } else if spec_slot_is_deleted(s) {
            spec_listing(slots, i + 1, truncated)
        } else if spec_slot_is_long(s) {
            let ord = s[0];
            if !(ord / 0x40 % 2 == 1) || ord % 0x40 == 0 {
                SpecListing { entries: Seq::empty(), status: SpecListStatus::Bad }
            } else {
                let n = (ord % 0x40) as int;
                if !spec_group_ok(slots, i, n) {
                    SpecListing { entries: Seq::empty(), status: SpecListStatus::Bad }
                } else {
                    match spec_utf16_to_utf8(spec_group_units(slots, i, n)) {
                        None => SpecListing {
                            entries: Seq::empty(),
                            status: SpecListStatus::Bad,
                        },
                        Some(nm) => {
                            if nm.len() > 255 {
                                SpecListing { entries: Seq::empty(), status: SpecListStatus::Bad }
                            } else {
                                let e = SpecEntry {
                                    start: slots[i].off,
                                    index: slots[i + n].off / 32,
                                    size: spec_le32(slots[i + n].bytes, 28),
                                    name: nm,
                                };
                                let rest = spec_listing(slots, i + n + 1, truncated);
                                SpecListing {
                                    entries: seq![e] + rest.entries,
                                    status: rest.status,
                                }
                            }
                        },
                    }
                }
            }
        } else {
            let e = SpecEntry {
                start: slots[i].off,
                index: slots[i].off / 32,
                size: spec_le32(s, 28),
                name: spec_short_name(s.take(11)),
            };
            let rest = spec_listing(slots, i + 1, truncated);
            SpecListing { entries: seq![e] + rest.entries, status: rest.status }
        }
    }
}

/// The predicate that keeps a listing entry whose record group starts at
/// or past byte offset `from` of the directory.
pub open spec fn spec_from_pred(from: int) -> spec_fn(SpecEntry) -> bool {
    |e: SpecEntry| e.start >= from
}

/// The entries of `entries` whose record group starts at or past byte
/// offset `from` of the directory: the continuation point of a paged
/// enumeration.
pub open spec fn spec_filter_from(entries: Seq<SpecEntry>, from: int) -> Seq<SpecEntry> {
    entries.filter(spec_from_pred(from))
}

/// Filtering an empty sequence yields an empty sequence.
pub proof fn lemma_filter_from_empty(from: int)
    ensures
        spec_filter_from(Seq::empty(), from) == Seq::<SpecEntry>::empty(),
{
    Seq::<SpecEntry>::empty().lemma_filter_len(spec_from_pred(from));
    assert(spec_filter_from(Seq::empty(), from) =~= Seq::<SpecEntry>::empty());
}

/// The continuation filter distributes over concatenation.
pub proof fn lemma_filter_from_concat(a: Seq<SpecEntry>, b: Seq<SpecEntry>, from: int)
    ensures
        spec_filter_from(a + b, from) == spec_filter_from(a, from) + spec_filter_from(b, from),
{
    Seq::filter_distributes_over_add(a, b, spec_from_pred(from));
}

/// Filtering a single entry keeps it exactly when its group start lies at
/// or past the continuation offset.
pub proof fn lemma_filter_from_singleton(e: SpecEntry, from: int)
    ensures
        spec_filter_from(seq![e], from) == if e.start >= from {
            seq![e]
        } else {
            Seq::<SpecEntry>::empty()
        },
{
    let p = spec_from_pred(from);
    lemma_filter_from_empty(from);
    Seq::<SpecEntry>::empty().lemma_filter_push(e, p);
    assert(Seq::<SpecEntry>::empty().push(e) =~= seq![e]);
    if p(e) {
        assert(spec_filter_from(seq![e], from) =~= seq![e]);
    } else {
        assert(spec_filter_from(seq![e], from) =~= Seq::<SpecEntry>::empty());
    }
}

/// The byte length of the listing record for a name of `name_len` bytes:
/// a 17-byte header (slot index, data length, name length) plus the name,
/// rounded up to 8-byte alignment.
pub open spec fn spec_record_len(name_len: int) -> int {
    (17 + name_len + 7) / 8 * 8
}

/// The encoded listing record for one entry: the slot index and the data
/// length as little-endian 64-bit values, the name length byte, the name
/// bytes, and zero padding up to 8-byte alignment.
#[verifier::opaque]
pub open spec fn spec_record_bytes(index: u64, size: u64, name: Seq<u8>) -> Seq<u8> {
    let header = spec_le64_bytes(index) + spec_le64_bytes(size) + seq![(name.len() as u8)] + name;
    header + Seq::new((spec_record_len(name.len() as int) - header.len()) as nat, |i: int| 0u8)
}

/// The concatenation of the encoded records of `entries`, in order.
pub open spec fn spec_encode_entries(entries: Seq<SpecEntry>) -> Seq<u8>
    decreases entries.len(),
{
    if entries.len() == 0 {
        Seq::empty()
    } else {
        spec_record_bytes(
            entries[0].index as u64,
            entries[0].size as u64,
            entries[0].name,
        ) + spec_encode_entries(entries.skip(1))
    }
}

/// How many leading entries of `entries` fit into `cap` output bytes:
/// records are placed in order, and the first record that does not fit in
/// the space that remains stops the count.
pub open spec fn spec_fit_count(entries: Seq<SpecEntry>, cap: int) -> int
    decreases entries.len(),
{
    if entries.len() == 0 {
        0
    } else if spec_record_len(entries[0].name.len() as int) <= cap {
        1 + spec_fit_count(entries.skip(1), cap - spec_record_len(entries[0].name.len() as int))
    } else {
        0
    }
}

/// The fit count never exceeds the entry count.
pub proof fn lemma_fit_count_bounds(entries: Seq<SpecEntry>, cap: int)
    ensures
        0 <= spec_fit_count(entries, cap) <= entries.len(),
    decreases entries.len(),
{
    if entries.len() == 0 {
    } else if spec_record_len(entries[0].name.len() as int) <= cap {
        lemma_fit_count_bounds(
            entries.skip(1),
            cap - spec_record_len(entries[0].name.len() as int),
        );
    }
}

/// Appending one entry extends the encoding by that entry's record.
pub proof fn lemma_encode_push(entries: Seq<SpecEntry>, e: SpecEntry)
    ensures
        spec_encode_entries(entries.push(e)) == spec_encode_entries(entries) + spec_record_bytes(
            e.index as u64,
            e.size as u64,
            e.name,
        ),
    decreases entries.len(),
{
    let rec_e = spec_record_bytes(e.index as u64, e.size as u64, e.name);
    if entries.len() == 0 {
        assert(entries.push(e)[0] == e);
        assert(entries.push(e).skip(1) =~= entries);
        assert(spec_encode_entries(entries.push(e)) == rec_e + spec_encode_entries(entries));
        assert(rec_e + spec_encode_entries(entries) =~= spec_encode_entries(entries) + rec_e);
    } else {
        lemma_encode_push(entries.skip(1), e);
        assert(entries.push(e).skip(1) =~= entries.skip(1).push(e));
        assert(entries.push(e)[0] == entries[0]);
        let rec_0 = spec_record_bytes(
            entries[0].index as u64,
            entries[0].size as u64,
            entries[0].name,
        );
        assert(spec_encode_entries(entries.push(e)) == rec_0 + (spec_encode_entries(
            entries.skip(1),
        ) + rec_e));
        assert(rec_0 + (spec_encode_entries(entries.skip(1)) + rec_e) =~= (rec_0
            + spec_encode_entries(entries.skip(1))) + rec_e);
    }
}

/// Builds the encoded listing record for one entry.
pub fn build_record(index: u64, size: u64, name: &Vec<u8>) -> (r: Vec<u8>)
    requires
        name@.len() <= 255,
    ensures
        r@ == spec_record_bytes(index, size, name@),
        r@.len() == spec_record_len(name@.len() as int),
        24 <= r@.len() <= 280,
{
    proof {
        reveal(spec_record_bytes);
    }
    let mut out: Vec<u8> = Vec::new();
    push_u64_le(&mut out, index);
    push_u64_le(&mut out, size);
    out.push(name.len() as u8);
    let mut i: usize = 0;
    while i < name.len()
        invariant
            i <= name@.len() <= 255,
            out@ == spec_le64_bytes(index) + spec_le64_bytes(size) + seq![(name@.len() as u8)]
                + name@.take(i as int),
        decreases name@.len() - i,
    {
        let b = name[i];
        out.push(b);
        proof {
            assert(out@ =~= spec_le64_bytes(index) + spec_le64_bytes(size) + seq![(name@.len()
                as u8)] + name@.take(i + 1));
        }
        i = i + 1;
    }
    proof {
        assert(name@.take(name@.len() as int) =~= name@);
    }
    let header_len: usize = 17 + name.len();
    let target: usize = (header_len + 7) / 8 * 8;
    while out.len() < target
        invariant
            out@.len() >= 17 + name@.len(),
            out@.len() <= target,
            target == spec_record_len(name@.len() as int),
            out@.take(17 + name@.len() as int) == spec_le64_bytes(index) + spec_le64_bytes(size)
                + seq![(name@.len() as u8)] + name@,
            forall|j: int| 17 + name@.len() <= j < out@.len() ==> out@[j] == 0u8,
        decreases target - out@.len(),
    {
        out.push(0u8);
    }
    proof {
        assert(out@ =~= spec_record_bytes(index, size, name@));
    }
    out
}

} // verus!
