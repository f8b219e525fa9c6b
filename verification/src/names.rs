use vstd::prelude::*;

verus! {

/// `s` with every trailing `pad` byte removed.
pub open spec fn spec_trim_trailing(s: Seq<u8>, pad: u8) -> Seq<u8>
    decreases s.len(),
{
    if s.len() == 0 || s.last() != pad {
        s
    } else {
        spec_trim_trailing(s.drop_last(), pad)
    }
}

/// A sequence whose bytes from `l` on are all `pad`, and whose byte just
/// before `l` (if any) is not, trims to exactly its first `l` bytes.
proof fn lemma_trim_characterize(s: Seq<u8>, pad: u8, l: int)
    requires
        0 <= l <= s.len(),
        forall|j: int| l <= j < s.len() ==> s[j] == pad,
        l > 0 ==> s[l - 1] != pad,
    ensures
        spec_trim_trailing(s, pad) == s.take(l),
    decreases s.len(),
{
    if s.len() == 0 {
        assert(s.take(l) =~= s);
    } else if l == s.len() {
        assert(s.take(l) =~= s);
    } else {
        lemma_trim_characterize(s.drop_last(), pad, l);
        assert(s.drop_last().take(l) =~= s.take(l));
    }
}

/// The name encoded by an 11-byte short (8.3) directory entry name field:
/// the 8-byte base and the 3-byte extension are each stripped of trailing
/// space padding, and a non-empty extension is appended to the base after a
/// dot, in natural left-to-right order.
pub open spec fn spec_short_name(raw: Seq<u8>) -> Seq<u8> {
    let base = spec_trim_trailing(raw.take(8), 0x20);
    let ext = spec_trim_trailing(raw.skip(8), 0x20);
    if ext.len() == 0 {
        base
    } else {
        base + seq![0x2Eu8] + ext
    }
}

/// Decodes the 11-byte name field of a short directory entry.
///
/// The result keeps the stored character order: the base characters come
/// first, from the first byte of the field on, then the dot and the
/// extension, with no reversal and no dropped leading character.
pub fn decode_short_name(raw: &Vec<u8>) -> (r: Vec<u8>)
    requires
        raw@.len() == 11,
    ensures
        r@ == spec_short_name(raw@),
        r@.len() <= 12,
{
    let mut bl: usize = 8;
    while bl > 0 && raw[bl - 1] == 0x20
        invariant
            bl <= 8,
            raw@.len() == 11,
            forall|j: int| bl <= j < 8 ==> raw@[j] == 0x20,
        decreases bl,
    {
        bl = bl - 1;
    }
    let mut el: usize = 11;
    while el > 8 && raw[el - 1] == 0x20
        invariant
            8 <= el <= 11,
            raw@.len() == 11,
            forall|j: int| el <= j < 11 ==> raw@[j] == 0x20,
        decreases el,
    {
        el = el - 1;
    }
    let mut out: Vec<u8> = Vec::new();
    let mut i: usize = 0;
    while i < bl
        invariant
            i <= bl,
            bl <= 8,
            raw@.len() == 11,
            out@ == raw@.subrange(0, i as int),
        decreases bl - i,
    {
        let b = raw[i];
        out.push(b);
        proof {
            assert(out@ =~= raw@.subrange(0, i + 1));
        }
        i = i + 1;
    }
    if el > 8 {
        out.push(0x2E);
        let mut k: usize = 8;
        while k < el
            invariant
                8 <= k <= el <= 11,
                raw@.len() == 11,
                out@ == raw@.subrange(0, bl as int) + seq![0x2Eu8] + raw@.subrange(8, k as int),
            decreases el - k,
        {
            let b = raw[k];
            out.push(b);
            proof {
                assert(out@ =~= raw@.subrange(0, bl as int) + seq![0x2Eu8] + raw@.subrange(
                    8,
                    k + 1,
                ));
            }
            k = k + 1;
        }
    }
    proof {
        lemma_trim_characterize(raw@.take(8), 0x20, bl as int);
        lemma_trim_characterize(raw@.skip(8), 0x20, el - 8);
        assert(raw@.take(8).take(bl as int) =~= raw@.subrange(0, bl as int));
        assert(raw@.skip(8).take(el - 8) =~= raw@.subrange(8, el as int));
        if el == 8 {
            assert(out@ =~= spec_short_name(raw@));
        } else {
            assert(out@ =~= spec_short_name(raw@));
        }
    }
    out
}

/// The UTF-8 encoding of the Unicode scalar value `c`.
pub open spec fn spec_utf8_bytes(c: int) -> Seq<u8> {
    if c < 0x80 {
        seq![c as u8]
    } else if c < 0x800 {
        seq![(0xC0 + c / 0x40) as u8, (0x80 + c % 0x40) as u8]
    } else if c < 0x10000 {
        seq![(0xE0 + c / 0x1000) as u8, (0x80 + c / 0x40 % 0x40) as u8, (0x80 + c % 0x40) as u8]
    } else {
        seq![
            (0xF0 + c / 0x40000) as u8,
            (0x80 + c / 0x1000 % 0x40) as u8,
            (0x80 + c / 0x40 % 0x40) as u8,
            (0x80 + c % 0x40) as u8,
        ]
    }
}

/// The UTF-8 encoding of the character sequence encoded by the UTF-16 code
/// units `u`: a unit outside the surrogate range stands for itself, a high
/// surrogate followed by a low surrogate combines into one supplementary
/// scalar, and an unpaired surrogate makes the whole sequence undecodable.
pub open spec fn spec_utf16_to_utf8(u: Seq<u16>) -> Option<Seq<u8>>
    decreases u.len(),
{
    if u.len() == 0 {
        Some(Seq::empty())
    } else if u[0] < 0xD800 || u[0] >= 0xE000 {
        match spec_utf16_to_utf8(u.skip(1)) {
            Some(t) => Some(spec_utf8_bytes(u[0] as int) + t),
            None => None,
        }
    } else if u[0] < 0xDC00 {
        if u.len() >= 2 && 0xDC00 <= u[1] && u[1] < 0xE000 {
            let c = 0x10000 + (u[0] - 0xD800) * 0x400 + (u[1] - 0xDC00);
            match spec_utf16_to_utf8(u.skip(2)) {
                Some(t) => Some(spec_utf8_bytes(c) + t),
                None => None,
            }
        } else {
            None
        }
    } else {
        None
    }
}

/// Appends the UTF-8 bytes of the scalar value `c` to `out`.
fn push_utf8(out: &mut Vec<u8>, c: u32)
    requires
        c < 0x110000,
    ensures
        final(out)@ == old(out)@ + spec_utf8_bytes(c as int),
        final(out)@.len() <= old(out)@.len() + 4,
{
    let ghost o0 = out@;
    if c < 0x80 {
        out.push(c as u8);
    } else if c < 0x800 {
        out.push((0xC0 + c / 0x40) as u8);
        out.push((0x80 + c % 0x40) as u8);
    } else if c < 0x10000 {
        out.push((0xE0 + c / 0x1000) as u8);
        out.push((0x80 + c / 0x40 % 0x40) as u8);
        out.push((0x80 + c % 0x40) as u8);
    } else {
        out.push((0xF0 + c / 0x40000) as u8);
        out.push((0x80 + c / 0x1000 % 0x40) as u8);
        out.push((0x80 + c / 0x40 % 0x40) as u8);
        out.push((0x80 + c % 0x40) as u8);
    }
    proof {
        assert(out@ =~= o0 + spec_utf8_bytes(c as int));
    }
}

/// Encodes the UTF-16 code units `u` as UTF-8 bytes, in unit order. Yields
/// nothing when `u` contains an unpaired surrogate.
pub fn utf16_to_utf8(u: &Vec<u16>) -> (r: Option<Vec<u8>>)
    ensures
        match r {
            Some(v) => spec_utf16_to_utf8(u@) == Some(v@),
            None => spec_utf16_to_utf8(u@) is None,
        },
{
    let len: usize = u.len();
    let mut out: Vec<u8> = Vec::new();
    let mut i: usize = 0;
    proof {
        assert(u@.skip(0) =~= u@);
        match spec_utf16_to_utf8(u@) {
            Some(t) => {
                assert(out@ + t =~= t);
            },
            None => {},
        }
    }
    while i < len
        invariant
            i <= len,
            len == u@.len(),
            spec_utf16_to_utf8(u@) == match spec_utf16_to_utf8(u@.skip(i as int)) {
                Some(t) => Some(out@ + t),
                None => None::<Seq<u8>>,
            },
        decreases len - i,
    {
        let ghost rest = u@.skip(i as int);
        let w = u[i];
        if w < 0xD800 || w >= 0xE000 {
            push_utf8(&mut out, w as u32);
            proof {
                assert(rest.skip(1) =~= u@.skip(i + 1));
                assert(rest[0] == w);
            }
            i = i + 1;
        } else if w < 0xDC00 {
            if i + 1 < len {
                let w2 = u[i + 1];
                if 0xDC00 <= w2 && w2 < 0xE000 {
                    let c: u32 = 0x10000 + (w as u32 - 0xD800) * 0x400 + (w2 as u32 - 0xDC00);
                    push_utf8(&mut out, c);
                    proof {
                        assert(rest.skip(2) =~= u@.skip(i + 2));
                        assert(rest[0] == w && rest[1] == w2);
                    }
                    i = i + 2;
                } else {
                    return None;
                }
            } else {
                return None;
            }
        } else {
            return None;
        }
    }
    proof {
        assert(u@.skip(len as int) =~= Seq::<u16>::empty());
    }
    Some(out)
}

} // verus!
