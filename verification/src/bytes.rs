use vstd::prelude::*;

verus! {

/// The little-endian 16-bit value stored at byte offset `i` of `d`.
pub open spec fn spec_le16(d: Seq<u8>, i: int) -> int {
    d[i] + d[i + 1] * 0x100
}

/// The little-endian 32-bit value stored at byte offset `i` of `d`.
pub open spec fn spec_le32(d: Seq<u8>, i: int) -> int {
    d[i] + d[i + 1] * 0x100 + d[i + 2] * 0x10000 + d[i + 3] * 0x1000000
}

/// The eight little-endian bytes of `x`.
pub open spec fn spec_le64_bytes(x: u64) -> Seq<u8> {
    seq![
        (x as int % 0x100) as u8,
        (x as int / 0x100 % 0x100) as u8,
        (x as int / 0x10000 % 0x100) as u8,
        (x as int / 0x1000000 % 0x100) as u8,
        (x as int / 0x100000000 % 0x100) as u8,
        (x as int / 0x10000000000 % 0x100) as u8,
        (x as int / 0x1000000000000 % 0x100) as u8,
        (x as int / 0x100000000000000 % 0x100) as u8,
    ]
}

/// `s` with the bytes at `addr .. addr + data.len()` replaced by `data`.
pub open spec fn spec_update_range(s: Seq<u8>, addr: int, data: Seq<u8>) -> Seq<u8> {
    Seq::new(s.len(), |i: int| if addr <= i < addr + data.len() { data[i - addr] } else { s[i] })
}

/// A vector of `n` zero bytes.
pub fn zero_vec(n: usize) -> (r: Vec<u8>)
    ensures
        r@.len() == n,
        forall|j: int| 0 <= j < n ==> r@[j] == 0u8,
{
    let mut out: Vec<u8> = Vec::new();
    let mut i: usize = 0;
    while i < n
        invariant
            i <= n,
            out@.len() == i,
            forall|j: int| 0 <= j < i ==> out@[j] == 0u8,
        decreases n - i,
    {
        out.push(0u8);
        i = i + 1;
    }
    out
}

/// Reads the little-endian 16-bit value at offset `i` of `b`.
pub fn u16_le_at(b: &Vec<u8>, i: usize) -> (r: u16)
    requires
        i + 2 <= b@.len(),
    ensures
        r as int == spec_le16(b@, i as int),
{
    let _n: usize = b.len();
    b[i] as u16 + b[i + 1] as u16 * 0x100
}

/// Reads the little-endian 32-bit value at offset `i` of `b`.
pub fn u32_le_at(b: &Vec<u8>, i: usize) -> (r: u32)
    requires
        i + 4 <= b@.len(),
    ensures
        r as int == spec_le32(b@, i as int),
{
    let _n: usize = b.len();
    b[i] as u32 + b[i + 1] as u32 * 0x100 + b[i + 2] as u32 * 0x10000
        + b[i + 3] as u32 * 0x1000000
}

/// Appends the eight little-endian bytes of `x` to `dst`.
pub fn push_u64_le(dst: &mut Vec<u8>, x: u64)
    ensures
        final(dst)@ == old(dst)@ + spec_le64_bytes(x),
{
    let ghost d0 = dst@;
    dst.push((x % 0x100) as u8);
    dst.push((x / 0x100 % 0x100) as u8);
    dst.push((x / 0x10000 % 0x100) as u8);
    dst.push((x / 0x1000000 % 0x100) as u8);
    dst.push((x / 0x100000000 % 0x100) as u8);
    dst.push((x / 0x10000000000 % 0x100) as u8);
    dst.push((x / 0x1000000000000 % 0x100) as u8);
    dst.push((x / 0x100000000000000 % 0x100) as u8);
    proof {
        assert(dst@ =~= d0 + spec_le64_bytes(x));
    }
}

/// Copies `src[start .. start + n]` into a fresh vector.
pub fn sub_vec(src: &Vec<u8>, start: usize, n: usize) -> (r: Vec<u8>)
    requires
        start + n <= src@.len(),
    ensures
        r@ == src@.subrange(start as int, start + n),
{
    let mut out: Vec<u8> = Vec::new();
    let slen: usize = src.len();
    let mut i: usize = 0;
    while i < n
        invariant
            i <= n,
            start + n <= src@.len(),
            slen == src@.len(),
            out@ == src@.subrange(start as int, start + i),
        decreases n - i,
    {
        let b = src[start + i];
        out.push(b);
        proof {
            assert(out@ =~= src@.subrange(start as int, start + i + 1));
        }
        i = i + 1;
    }
    out
}

/// Overwrites `dst[at .. at + src.len()]` with `src`, leaving the rest of
/// `dst` unchanged.
pub fn copy_into(dst: &mut Vec<u8>, at: usize, src: &Vec<u8>)
    requires
        at + src@.len() <= old(dst)@.len(),
    ensures
        final(dst)@ == spec_update_range(old(dst)@, at as int, src@),
{
    let ghost d0 = dst@;
    let dlen: usize = dst.len();
    let mut i: usize = 0;
    while i < src.len()
        invariant
            i <= src@.len(),
            at + src@.len() <= d0.len(),
            dst@.len() == d0.len(),
            dlen == d0.len(),
            forall|j: int| 0 <= j < d0.len() && !(at <= j < at + i) ==> dst@[j] == d0[j],
            forall|j: int| at <= j < at + i ==> dst@[j] == src@[j - at],
        decreases src@.len() - i,
    {
        dst.set(at + i, src[i]);
        i = i + 1;
    }
    proof {
        assert(dst@ =~= spec_update_range(d0, at as int, src@));
    }
}

} // verus!
