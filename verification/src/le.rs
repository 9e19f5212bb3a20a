//! Little-endian integer layout in byte sequences.
use vstd::prelude::*;

verus! {

/// The two bytes of `v`, least significant first.
pub open spec fn le16(v: u16) -> Seq<u8> {
    seq![(v % 256) as u8, (v / 256) as u8]
}

/// The four bytes of `v`, least significant first.
pub open spec fn le32(v: u32) -> Seq<u8> {
    seq![(v % 256) as u8, ((v / 256) % 256) as u8, ((v / 65536) % 256) as u8, (v / 16777216) as u8]
}

/// The unsigned 16-bit value stored little-endian at `pos`.
pub open spec fn u16_at(s: Seq<u8>, pos: int) -> u16 {
    (s[pos] + 256 * s[pos + 1]) as u16
}

/// The unsigned 32-bit value stored little-endian at `pos`.
pub open spec fn u32_at(s: Seq<u8>, pos: int) -> u32 {
    (s[pos] + 256 * s[pos + 1] + 65536 * s[pos + 2] + 16777216 * s[pos + 3]) as u32
}

/// Reads the little-endian `u16` at `pos`.
pub fn read_u16(buf: &[u8], pos: usize) -> (v: u16)
    requires
        pos + 2 <= buf@.len(),
    ensures
        v == u16_at(buf@, pos as int),
{
    buf[pos] as u16 + (buf[pos + 1] as u16) * 256
}

/// Reads the little-endian `u32` at `pos`.
pub fn read_u32(buf: &[u8], pos: usize) -> (v: u32)
    requires
        pos + 4 <= buf@.len(),
    ensures
        v == u32_at(buf@, pos as int),
{
    buf[pos] as u32 + (buf[pos + 1] as u32) * 256 + (buf[pos + 2] as u32) * 65536 + (buf[pos
        + 3] as u32) * 16777216
}

/// Appends the little-endian bytes of `v`.
pub fn write_le_u16(out: &mut Vec<u8>, v: u16)
    ensures
        final(out)@ == old(out)@ + le16(v),
{
    out.push((v % 256) as u8);
    out.push((v / 256) as u8);
}

/// Appends the little-endian bytes of `v`.
pub fn write_le_u32(out: &mut Vec<u8>, v: u32)
    ensures
        final(out)@ == old(out)@ + le32(v),
{
    out.push((v % 256) as u8);
    out.push(((v / 256) % 256) as u8);
    out.push(((v / 65536) % 256) as u8);
    out.push((v / 16777216) as u8);
}

/// Reading back the two bytes written for `v` gives `v`.
pub proof fn lemma_le16_roundtrip(v: u16)
    ensures
        le16(v).len() == 2,
        u16_at(le16(v), 0) == v,
{
}

/// Reading back the four bytes written for `v` gives `v`.
pub proof fn lemma_le32_roundtrip(v: u32)
    ensures
        le32(v).len() == 4,
        u32_at(le32(v), 0) == v,
{
}

/// Appending bytes leaves the values already stored in the prefix unchanged.
pub proof fn lemma_fields_extend(q: Seq<u8>, y: Seq<u8>)
    ensures
        forall|pos: int|
            0 <= pos && pos + 4 <= q.len() ==> #[trigger] u32_at(q + y, pos) == u32_at(q, pos),
        forall|pos: int|
            0 <= pos && pos + 2 <= q.len() ==> #[trigger] u16_at(q + y, pos) == u16_at(q, pos),
        forall|pos: int|
            0 <= pos && pos + 4 <= q.len() ==> #[trigger] (q + y).subrange(pos, pos + 4) == q.subrange(
                pos,
                pos + 4,
            ),
{
    assert forall|pos: int| 0 <= pos && pos + 4 <= q.len() implies #[trigger] (q + y).subrange(
        pos,
        pos + 4,
    ) == q.subrange(pos, pos + 4) by {
        assert((q + y).subrange(pos, pos + 4) =~= q.subrange(pos, pos + 4));
    }
}

/// The `u32` appended last is read back at the old end.
pub proof fn lemma_u32_at_end(q: Seq<u8>, v: u32)
    ensures
        (q + le32(v)).len() == q.len() + 4,
        u32_at(q + le32(v), q.len() as int) == v,
{
    lemma_le32_roundtrip(v);
    let s = q + le32(v);
    assert(s[q.len() as int] == le32(v)[0]);
    assert(s[q.len() as int + 1] == le32(v)[1]);
    assert(s[q.len() as int + 2] == le32(v)[2]);
    assert(s[q.len() as int + 3] == le32(v)[3]);
}

/// The `u16` appended last is read back at the old end.
pub proof fn lemma_u16_at_end(q: Seq<u8>, v: u16)
    ensures
        (q + le16(v)).len() == q.len() + 2,
        u16_at(q + le16(v), q.len() as int) == v,
{
    lemma_le16_roundtrip(v);
    let s = q + le16(v);
    assert(s[q.len() as int] == le16(v)[0]);
    assert(s[q.len() as int + 1] == le16(v)[1]);
}

/// The four bytes appended last are found at the old end.
pub proof fn lemma_tag_at_end(q: Seq<u8>, t: Seq<u8>)
    requires
        t.len() == 4,
    ensures
        (q + t).len() == q.len() + 4,
        (q + t).subrange(q.len() as int, q.len() as int + 4) == t,
{
    assert((q + t).subrange(q.len() as int, q.len() as int + 4) =~= t);
}

/// Values stored in an appended block are found shifted by the length of what precedes it.
pub proof fn lemma_fields_append(q: Seq<u8>, c: Seq<u8>)
    ensures
        forall|k: int|
            0 <= k && k + 4 <= c.len() ==> #[trigger] u32_at(c, k) == u32_at(q + c, q.len() + k),
        forall|k: int|
            0 <= k && k + 2 <= c.len() ==> #[trigger] u16_at(c, k) == u16_at(q + c, q.len() + k),
        forall|k: int|
            0 <= k && k + 4 <= c.len() ==> #[trigger] c.subrange(k, k + 4) == (q + c).subrange(
                q.len() + k,
                q.len() + k + 4,
            ),
{
    assert forall|k: int| 0 <= k && k + 4 <= c.len() implies #[trigger] c.subrange(k, k + 4) == (q
        + c).subrange(q.len() + k, q.len() + k + 4) by {
        assert(c.subrange(k, k + 4) =~= (q + c).subrange(q.len() + k, q.len() + k + 4));
    }
}

} // verus!
