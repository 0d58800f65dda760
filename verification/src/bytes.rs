//! Little-endian integers inside byte sequences.
use vstd::prelude::*;
use vstd::slice::slice_subrange;

verus! {

/// The 16-bit little-endian number at `s[o .. o + 2]`.
pub open spec fn le16(s: Seq<u8>, o: int) -> int {
    s[o] as int + 256 * (s[o + 1] as int)
}

/// The 32-bit little-endian number at `s[o .. o + 4]`.
pub open spec fn le32(s: Seq<u8>, o: int) -> int {
    le16(s, o) + 65536 * le16(s, o + 2)
}

/// The 64-bit little-endian number at `s[o .. o + 8]`.
pub open spec fn le64(s: Seq<u8>, o: int) -> int {
    le32(s, o) + 0x1_0000_0000 * le32(s, o + 4)
}

/// The two bytes of `v`, lowest first.
pub open spec fn u16_bytes(v: int) -> Seq<u8> {
    seq![(v % 256) as u8, (v / 256 % 256) as u8]
}

/// The four bytes of `v`, lowest first.
pub open spec fn u32_bytes(v: int) -> Seq<u8> {
    u16_bytes(v % 65536) + u16_bytes(v / 65536)
}

/// The eight bytes of `v`, lowest first.
pub open spec fn u64_bytes(v: int) -> Seq<u8> {
    u32_bytes(v % 0x1_0000_0000) + u32_bytes(v / 0x1_0000_0000)
}

/// Reading two bytes gives a value in range, and writing it gives them back.
pub proof fn lemma_le16(s: Seq<u8>, o: int)
    requires
        0 <= o,
        o + 2 <= s.len(),
    ensures
        0 <= le16(s, o) < 65536,
        u16_bytes(le16(s, o)) == s.subrange(o, o + 2),
{
    assert(u16_bytes(le16(s, o)) =~= s.subrange(o, o + 2));
}

/// Reading four bytes gives a value in range, and writing it gives them back.
pub proof fn lemma_le32(s: Seq<u8>, o: int)
    requires
        0 <= o,
        o + 4 <= s.len(),
    ensures
        0 <= le32(s, o) < 0x1_0000_0000,
        u32_bytes(le32(s, o)) == s.subrange(o, o + 4),
{
    lemma_le16(s, o);
    lemma_le16(s, o + 2);
    assert(u32_bytes(le32(s, o)) =~= s.subrange(o, o + 2) + s.subrange(o + 2, o + 4));
    assert(s.subrange(o, o + 2) + s.subrange(o + 2, o + 4) =~= s.subrange(o, o + 4));
}

/// Two 32-bit words joined and written are the two words written.
proof fn lemma_join_words(lo: int, hi: int)
    requires
        0 <= lo < 0x1_0000_0000,
        0 <= hi < 0x1_0000_0000,
    ensures
        u64_bytes(lo + 0x1_0000_0000 * hi) == u32_bytes(lo) + u32_bytes(hi),
{
    let v = lo + 0x1_0000_0000 * hi;
    assert(v % 0x1_0000_0000 == lo);
    assert(v / 0x1_0000_0000 == hi);
}

/// Reading eight bytes gives a value in range, and writing it gives them back.
pub proof fn lemma_le64(s: Seq<u8>, o: int)
    requires
        0 <= o,
        o + 8 <= s.len(),
    ensures
        0 <= le64(s, o) < 0x1_0000_0000_0000_0000,
        u64_bytes(le64(s, o)) == s.subrange(o, o + 8),
{
    lemma_le32(s, o);
    lemma_le32(s, o + 4);
    lemma_join_words(le32(s, o), le32(s, o + 4));
    assert(s.subrange(o, o + 4) + s.subrange(o + 4, o + 8) =~= s.subrange(o, o + 8));
}

/// Two written bytes read back as the value they were written from.
pub proof fn lemma_u16_bytes(v: int)
    requires
        0 <= v < 65536,
    ensures
        u16_bytes(v).len() == 2,
        le16(u16_bytes(v), 0) == v,
{
}

/// Four written bytes read back as the value they were written from.
pub proof fn lemma_u32_bytes(v: int)
    requires
        0 <= v < 0x1_0000_0000,
    ensures
        u32_bytes(v).len() == 4,
        le32(u32_bytes(v), 0) == v,
{
    lemma_u16_bytes(v % 65536);
    lemma_u16_bytes(v / 65536);
    let b = u32_bytes(v);
    assert(le16(b, 0) == le16(u16_bytes(v % 65536), 0));
    assert(le16(b, 2) == le16(u16_bytes(v / 65536), 0));
}

/// Eight written bytes read back as the value they were written from.
pub proof fn lemma_u64_bytes(v: int)
    requires
        0 <= v < 0x1_0000_0000_0000_0000,
    ensures
        u64_bytes(v).len() == 8,
        le64(u64_bytes(v), 0) == v,
{
    lemma_u32_bytes(v % 0x1_0000_0000);
    lemma_u32_bytes(v / 0x1_0000_0000);
    let b = u64_bytes(v);
    let lo = u32_bytes(v % 0x1_0000_0000);
    let hi = u32_bytes(v / 0x1_0000_0000);
    assert(le32(b, 0) == le32(lo, 0));
    assert(le32(b, 4) == le32(hi, 0));
}

/// A number read out of a window of a sequence is the number at the shifted
/// position of the sequence.
pub proof fn lemma_le_window(s: Seq<u8>, from: int, to: int, o: int)
    requires
        0 <= from <= to <= s.len(),
        0 <= o,
    ensures
        o + 2 <= to - from ==> le16(s.subrange(from, to), o) == le16(s, from + o),
        o + 4 <= to - from ==> le32(s.subrange(from, to), o) == le32(s, from + o),
        o + 8 <= to - from ==> le64(s.subrange(from, to), o) == le64(s, from + o),
{
}

/// `s` with the bytes from `at` on replaced by `part`.
pub open spec fn splice(s: Seq<u8>, at: int, part: Seq<u8>) -> Seq<u8> {
    Seq::new(
        s.len(),
        |i: int|
            if at <= i < at + part.len() {
                part[i - at]
            } else {
                s[i]
            },
    )
}

/// Numbers outside a replaced part are unchanged.
pub proof fn lemma_splice_elsewhere(s: Seq<u8>, at: int, part: Seq<u8>, o: int)
    requires
        0 <= o,
    ensures
        o + 2 <= s.len() && (o + 2 <= at || at + part.len() <= o) ==> le16(splice(s, at, part), o)
            == le16(s, o),
        o + 4 <= s.len() && (o + 4 <= at || at + part.len() <= o) ==> le32(splice(s, at, part), o)
            == le32(s, o),
        o + 8 <= s.len() && (o + 8 <= at || at + part.len() <= o) ==> le64(splice(s, at, part), o)
            == le64(s, o),
{
}

/// Numbers inside a replaced part are those of the part.
pub proof fn lemma_splice_inside(s: Seq<u8>, at: int, part: Seq<u8>, o: int)
    requires
        0 <= at,
        0 <= o,
        at + part.len() <= s.len(),
    ensures
        o + 2 <= part.len() ==> le16(splice(s, at, part), at + o) == le16(part, o),
        o + 4 <= part.len() ==> le32(splice(s, at, part), at + o) == le32(part, o),
        o + 8 <= part.len() ==> le64(splice(s, at, part), at + o) == le64(part, o),
{
}

/// Windows that a replaced part does not touch are unchanged, and the part's own
/// window is the part.
pub proof fn lemma_splice_window(s: Seq<u8>, at: int, part: Seq<u8>, from: int, to: int)
    requires
        0 <= from <= to <= s.len(),
        0 <= at,
        at + part.len() <= s.len(),
    ensures
        to <= at || at + part.len() <= from ==> splice(s, at, part).subrange(from, to)
            == s.subrange(from, to),
        from <= at && at + part.len() <= to ==> splice(s, at, part).subrange(from, to) == splice(
            s.subrange(from, to),
            at - from,
            part,
        ),
        splice(s, at, part).subrange(at, at + part.len()) == part,
{
    let t = splice(s, at, part);
    if to <= at || at + part.len() <= from {
        assert(t.subrange(from, to) =~= s.subrange(from, to));
    }
    if from <= at && at + part.len() <= to {
        assert(t.subrange(from, to) =~= splice(s.subrange(from, to), at - from, part));
    }
    assert(t.subrange(at, at + part.len()) =~= part);
}

/// Replace the bytes of `buf` from `at` on by `part`.
pub fn write_at(buf: &mut Vec<u8>, at: usize, part: &[u8])
    requires
        at + part@.len() <= old(buf)@.len(),
    ensures
        final(buf)@ == splice(old(buf)@, at as int, part@),
{
    let mut i: usize = 0;
    assert(at + part.len() <= buf.len());
    while i < part.len()
        invariant
            i <= part@.len(),
            at + part@.len() <= buf@.len(),
            buf@.len() == old(buf)@.len() <= usize::MAX,
            buf@ == splice(old(buf)@, at as int, part@.subrange(0, i as int)),
        decreases part@.len() - i,
    {
        let b: u8 = part[i];
        buf[at + i] = b;
        i += 1;
        assert(buf@ =~= splice(old(buf)@, at as int, part@.subrange(0, i as int)));
    }
    assert(part@.subrange(0, part@.len() as int) =~= part@);
}

/// Write the two bytes of `v` at `at`.
pub fn write_u16(buf: &mut Vec<u8>, at: usize, v: u16)
    requires
        at + 2 <= old(buf)@.len(),
    ensures
        final(buf)@ == splice(old(buf)@, at as int, u16_bytes(v as int)),
{
    let mut part: Vec<u8> = Vec::new();
    push_u16(&mut part, v);
    assert(part@ =~= u16_bytes(v as int));
    write_at(buf, at, part.as_slice());
}

/// Write the four bytes of `v` at `at`.
pub fn write_u32(buf: &mut Vec<u8>, at: usize, v: u32)
    requires
        at + 4 <= old(buf)@.len(),
    ensures
        final(buf)@ == splice(old(buf)@, at as int, u32_bytes(v as int)),
{
    let mut part: Vec<u8> = Vec::new();
    push_u32(&mut part, v);
    proof {
        lemma_u32_bytes(v as int);
    }
    assert(part@ =~= u32_bytes(v as int));
    write_at(buf, at, part.as_slice());
}

/// Write the eight bytes of `v` at `at`.
pub fn write_u64(buf: &mut Vec<u8>, at: usize, v: u64)
    requires
        at + 8 <= old(buf)@.len(),
    ensures
        final(buf)@ == splice(old(buf)@, at as int, u64_bytes(v as int)),
{
    let mut part: Vec<u8> = Vec::new();
    push_u64(&mut part, v);
    proof {
        lemma_u64_bytes(v as int);
    }
    assert(part@ =~= u64_bytes(v as int));
    write_at(buf, at, part.as_slice());
}

/// Read the 16-bit number at `s[o .. o + 2]`.
pub fn read_u16(s: &[u8], o: usize) -> (v: u16)
    requires
        o + 2 <= s@.len(),
    ensures
        v == le16(s@, o as int),
{
    (s[o] as u16) + 256 * (s[o + 1] as u16)
}

/// Read the 32-bit number at `s[o .. o + 4]`.
pub fn read_u32(s: &[u8], o: usize) -> (v: u32)
    requires
        o + 4 <= s@.len(),
    ensures
        v == le32(s@, o as int),
{
    assert(o + 4 <= s.len());
    (read_u16(s, o) as u32) + 65536 * (read_u16(s, o + 2) as u32)
}

/// Read the 64-bit number at `s[o .. o + 8]`.
pub fn read_u64(s: &[u8], o: usize) -> (v: u64)
    requires
        o + 8 <= s@.len(),
    ensures
        v == le64(s@, o as int),
{
    assert(o + 8 <= s.len());
    (read_u32(s, o) as u64) + 0x1_0000_0000 * (read_u32(s, o + 4) as u64)
}

/// Append the bytes of `src`.
pub fn push_slice(out: &mut Vec<u8>, src: &[u8])
    ensures
        final(out)@ == old(out)@ + src@,
{
    out.extend_from_slice(src);
    assert(out@ =~= old(out)@ + src@);
}

/// Append the two bytes of `v`.
pub fn push_u16(out: &mut Vec<u8>, v: u16)
    ensures
        final(out)@ == old(out)@ + u16_bytes(v as int),
{
    out.push((v % 256) as u8);
    out.push((v / 256) as u8);
    assert(out@ =~= old(out)@ + u16_bytes(v as int));
}

/// Append the four bytes of `v`.
pub fn push_u32(out: &mut Vec<u8>, v: u32)
    ensures
        final(out)@ == old(out)@ + u32_bytes(v as int),
{
    push_u16(out, (v % 65536) as u16);
    push_u16(out, (v / 65536) as u16);
    assert(out@ =~= old(out)@ + u32_bytes(v as int));
}

/// Append the eight bytes of `v`.
pub fn push_u64(out: &mut Vec<u8>, v: u64)
    ensures
        final(out)@ == old(out)@ + u64_bytes(v as int),
{
    push_u32(out, (v % 0x1_0000_0000) as u32);
    push_u32(out, (v / 0x1_0000_0000) as u32);
    assert(out@ =~= old(out)@ + u64_bytes(v as int));
}

/// Whether two slices hold the same bytes.
pub fn same_bytes(a: &[u8], b: &[u8]) -> (same: bool)
    ensures
        same == (a@ == b@),
{
    if a.len() != b.len() {
        return false;
    }
    let mut i: usize = 0;
    while i < a.len()
        invariant
            a@.len() == b@.len(),
            i <= a@.len(),
            forall|j: int| 0 <= j < i ==> a@[j] == b@[j],
        decreases a@.len() - i,
    {
        if a[i] != b[i] {
            return false;
        }
        i += 1;
    }
    assert(a@ =~= b@);
    true
}

/// Whether `s` begins with `prefix`.
pub fn starts_with(s: &[u8], prefix: &[u8]) -> (yes: bool)
    ensures
        yes == prefix@.is_prefix_of(s@),
{
    if prefix.len() > s.len() {
        return false;
    }
    same_bytes(slice_subrange(s, 0, prefix.len()), prefix)
}

/// Numbers are stored with the lowest byte first.
pub proof fn numbers_are_little_endian(s: Seq<u8>, o: int)
    requires
        0 <= o,
        o + 8 <= s.len(),
    ensures
        le16(s, o) == s[o] + 0x100 * s[o + 1],
        le32(s, o) == s[o] + 0x100 * s[o + 1] + 0x1_0000 * s[o + 2] + 0x100_0000 * s[o + 3],
        le64(s, o) == s[o] + 0x100 * s[o + 1] + 0x1_0000 * s[o + 2] + 0x100_0000 * s[o + 3]
            + 0x1_0000_0000 * s[o + 4] + 0x100_0000_0000 * s[o + 5] + 0x1_0000_0000_0000 * s[o + 6]
            + 0x100_0000_0000_0000 * s[o + 7],
{
}

/// A replaced part is there, and every other byte is as it was.
pub proof fn a_splice_replaces_one_part(s: Seq<u8>, at: int, part: Seq<u8>, i: int)
    requires
        0 <= at,
        at + part.len() <= s.len(),
        0 <= i < s.len(),
    ensures
        splice(s, at, part).len() == s.len(),
        splice(s, at, part).subrange(at, at + part.len()) == part,
        i < at || i >= at + part.len() ==> splice(s, at, part)[i] == s[i],
{
    assert(splice(s, at, part).subrange(at, at + part.len()) =~= part);
}

} // verus!
