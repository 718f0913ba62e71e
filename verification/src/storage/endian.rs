//! Big-endian encoding of fixed-width unsigned integers.
//!
//! Every multi-byte integer the storage layer writes is big-endian: the most
//! significant byte comes first.
use vstd::prelude::*;

verus! {

/// The big-endian `u16` stored at `off` in `b`.
pub open spec fn be16_at(b: Seq<u8>, off: int) -> int {
    b[off] * 256 + b[off + 1]
}

/// The big-endian `u32` stored at `off` in `b`.
pub open spec fn be32_at(b: Seq<u8>, off: int) -> int {
    be16_at(b, off) * 65536 + be16_at(b, off + 2)
}

/// The big-endian `u64` stored at `off` in `b`.
pub open spec fn be64_at(b: Seq<u8>, off: int) -> int {
    be32_at(b, off) * 0x1_0000_0000 + be32_at(b, off + 4)
}

/// The two big-endian bytes of `v`.
pub open spec fn be16_bytes(v: u16) -> Seq<u8> {
    seq![(v / 256) as u8, (v % 256) as u8]
}

/// The four big-endian bytes of `v`.
pub open spec fn be32_bytes(v: u32) -> Seq<u8> {
    be16_bytes((v / 65536) as u16) + be16_bytes((v % 65536) as u16)
}

/// The eight big-endian bytes of `v`.
pub open spec fn be64_bytes(v: u64) -> Seq<u8> {
    be32_bytes((v / 0x1_0000_0000) as u32) + be32_bytes((v % 0x1_0000_0000) as u32)
}

/// Reading back the bytes of a `u16` gives the `u16`.
pub proof fn lemma_be16_roundtrip(v: u16)
    ensures
        be16_bytes(v).len() == 2,
        be16_at(be16_bytes(v), 0) == v,
{
}

/// Reading back the bytes of a `u32` gives the `u32`.
pub proof fn lemma_be32_roundtrip(v: u32)
    ensures
        be32_bytes(v).len() == 4,
        be32_at(be32_bytes(v), 0) == v,
{
    let hi = (v / 65536) as u16;
    let lo = (v % 65536) as u16;
    lemma_be16_roundtrip(hi);
    lemma_be16_roundtrip(lo);
    let s = be32_bytes(v);
    assert(s[0] == be16_bytes(hi)[0] && s[1] == be16_bytes(hi)[1]);
    assert(s[2] == be16_bytes(lo)[0] && s[3] == be16_bytes(lo)[1]);
}

/// Reading back the bytes of a `u64` gives the `u64`.
pub proof fn lemma_be64_roundtrip(v: u64)
    ensures
        be64_bytes(v).len() == 8,
        be64_at(be64_bytes(v), 0) == v,
{
    let hi = (v / 0x1_0000_0000) as u32;
    let lo = (v % 0x1_0000_0000) as u32;
    lemma_be32_roundtrip(hi);
    lemma_be32_roundtrip(lo);
    let s = be64_bytes(v);
    let h = be32_bytes(hi);
    let l = be32_bytes(lo);
    assert(s[0] == h[0] && s[1] == h[1] && s[2] == h[2] && s[3] == h[3]);
    assert(s[4] == l[0] && s[5] == l[1] && s[6] == l[2] && s[7] == l[3]);
}

/// A big-endian value read at `off` only depends on the bytes at `off..off + n`.
pub proof fn lemma_be_at_window(a: Seq<u8>, b: Seq<u8>, ia: int, ib: int, n: int)
    requires
        0 <= ia,
        0 <= ib,
        ia + n <= a.len(),
        ib + n <= b.len(),
        a.subrange(ia, ia + n) == b.subrange(ib, ib + n),
    ensures
        n >= 2 ==> be16_at(a, ia) == be16_at(b, ib),
        n >= 4 ==> be32_at(a, ia) == be32_at(b, ib),
        n >= 8 ==> be64_at(a, ia) == be64_at(b, ib),
{
    let sa = a.subrange(ia, ia + n);
    let sb = b.subrange(ib, ib + n);
    assert(forall|k: int| 0 <= k < n ==> #[trigger] sa[k] == a[ia + k] && sb[k] == b[ib + k]);
    assert(forall|k: int| 0 <= k < n ==> #[trigger] sa[k] == sb[k]);
    if n >= 2 {
        assert(sa[0] == sb[0] && sa[1] == sb[1]);
    }
    if n >= 4 {
        assert(sa[2] == sb[2] && sa[3] == sb[3]);
    }
    if n >= 8 {
        assert(sa[4] == sb[4] && sa[5] == sb[5] && sa[6] == sb[6] && sa[7] == sb[7]);
    }
}

/// Reads the big-endian `u16` at `pos`.
pub fn read_u16(bytes: &[u8], pos: usize) -> (r: u16)
    requires
        pos + 2 <= bytes.len(),
    ensures
        r == be16_at(bytes@, pos as int),
{
    (bytes[pos] as u16) * 256 + (bytes[pos + 1] as u16)
}

/// Reads the big-endian `u32` at `pos`.
pub fn read_u32(bytes: &[u8], pos: usize) -> (r: u32)
    requires
        pos + 4 <= bytes.len(),
    ensures
        r == be32_at(bytes@, pos as int),
{
    let hi = read_u16(bytes, pos);
    let lo = read_u16(bytes, pos + 2);
    (hi as u32) * 65536 + (lo as u32)
}

/// Reads the big-endian `u64` at `pos`.
pub fn read_u64(bytes: &[u8], pos: usize) -> (r: u64)
    requires
        pos + 8 <= bytes.len(),
    ensures
        r == be64_at(bytes@, pos as int),
{
    let hi = read_u32(bytes, pos);
    let lo = read_u32(bytes, pos + 4);
    (hi as u64) * 0x1_0000_0000 + (lo as u64)
}

/// Writes the big-endian bytes of `v` at `pos`.
pub fn write_u16(bytes: &mut Vec<u8>, pos: usize, v: u16)
    requires
        pos + 2 <= old(bytes).len(),
    ensures
        final(bytes)@ == old(bytes)@.update(pos as int, (v / 256) as u8).update(
            pos + 1,
            (v % 256) as u8,
        ),
{
    bytes.set(pos, (v / 256) as u8);
    bytes.set(pos + 1, (v % 256) as u8);
}

/// Writes the big-endian bytes of `v` at `pos`.
pub fn write_u32(bytes: &mut Vec<u8>, pos: usize, v: u32)
    requires
        pos + 4 <= old(bytes).len(),
    ensures
        final(bytes)@.len() == old(bytes)@.len(),
        forall|k: int|
            0 <= k < final(bytes)@.len() && !(pos <= k < pos + 4) ==> final(bytes)@[k]
                == old(bytes)@[k],
        forall|k: int| 0 <= k < 4 ==> final(bytes)@[pos + k] == be32_bytes(v)[k],
{
    write_u16(bytes, pos, (v / 65536) as u16);
    write_u16(bytes, pos + 2, (v % 65536) as u16);
}

/// Appends the big-endian bytes of `v`.
pub fn push_u16(out: &mut Vec<u8>, v: u16)
    ensures
        final(out)@ == old(out)@ + be16_bytes(v),
{
    out.push((v / 256) as u8);
    out.push((v % 256) as u8);
    assert(final(out)@ =~= old(out)@ + be16_bytes(v));
}

/// Appends the big-endian bytes of `v`.
pub fn push_u32(out: &mut Vec<u8>, v: u32)
    ensures
        final(out)@ == old(out)@ + be32_bytes(v),
{
    push_u16(out, (v / 65536) as u16);
    push_u16(out, (v % 65536) as u16);
    assert(final(out)@ =~= old(out)@ + be32_bytes(v));
}

/// Appends the big-endian bytes of `v`.
pub fn push_u64(out: &mut Vec<u8>, v: u64)
    ensures
        final(out)@ == old(out)@ + be64_bytes(v),
{
    push_u32(out, (v / 0x1_0000_0000) as u32);
    push_u32(out, (v % 0x1_0000_0000) as u32);
    assert(final(out)@ =~= old(out)@ + be64_bytes(v));
}

} // verus!
