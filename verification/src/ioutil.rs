//! Fixed-width integer packing into byte buffers, in both endiannesses,
//! together with zero-terminated byte strings and bulk byte copies.

use vstd::prelude::*;

verus! {

/// The two bytes of a 16-bit value in little-endian order.
pub open spec fn u16_le_bytes(v: u16) -> Seq<u8> {
    seq![v as u8, (v >> 8) as u8]
}

/// The two bytes of a 16-bit value in big-endian order.
pub open spec fn u16_be_bytes(v: u16) -> Seq<u8> {
    seq![(v >> 8) as u8, v as u8]
}

/// The four bytes of a 32-bit value in little-endian order.
pub open spec fn u32_le_bytes(v: u32) -> Seq<u8> {
    seq![v as u8, (v >> 8) as u8, (v >> 16) as u8, (v >> 24) as u8]
}

/// The four bytes of a 32-bit value in big-endian order.
pub open spec fn u32_be_bytes(v: u32) -> Seq<u8> {
    seq![(v >> 24) as u8, (v >> 16) as u8, (v >> 8) as u8, v as u8]
}

/// The eight bytes of a 64-bit value in little-endian order.
pub open spec fn u64_le_bytes(v: u64) -> Seq<u8> {
    seq![
        v as u8,
        (v >> 8) as u8,
        (v >> 16) as u8,
        (v >> 24) as u8,
        (v >> 32) as u8,
        (v >> 40) as u8,
        (v >> 48) as u8,
        (v >> 56) as u8,
    ]
}

/// The eight bytes of a 64-bit value in big-endian order.
pub open spec fn u64_be_bytes(v: u64) -> Seq<u8> {
    seq![
        (v >> 56) as u8,
        (v >> 48) as u8,
        (v >> 40) as u8,
        (v >> 32) as u8,
        (v >> 24) as u8,
        (v >> 16) as u8,
        (v >> 8) as u8,
        v as u8,
    ]
}

/// The 16-bit value read from two little-endian bytes.
pub open spec fn le16_of(b0: u8, b1: u8) -> u16 {
    (b0 as u16) | ((b1 as u16) << 8)
}

/// The 16-bit value read from two big-endian bytes.
pub open spec fn be16_of(b0: u8, b1: u8) -> u16 {
    ((b0 as u16) << 8) | (b1 as u16)
}

/// The 32-bit value read from four little-endian bytes.
pub open spec fn le32_of(b0: u8, b1: u8, b2: u8, b3: u8) -> u32 {
    (b0 as u32) | ((b1 as u32) << 8) | ((b2 as u32) << 16) | ((b3 as u32) << 24)
}

/// The 32-bit value read from four big-endian bytes.
pub open spec fn be32_of(b0: u8, b1: u8, b2: u8, b3: u8) -> u32 {
    ((b0 as u32) << 24) | ((b1 as u32) << 16) | ((b2 as u32) << 8) | (b3 as u32)
}

/// The 32-bit little-endian value at `off` in a byte sequence.
pub open spec fn le32_at(s: Seq<u8>, off: int) -> u32 {
    le32_of(s[off], s[off + 1], s[off + 2], s[off + 3])
}

/// The 16-bit little-endian value at `off` in a byte sequence.
pub open spec fn le16_at(s: Seq<u8>, off: int) -> u16 {
    le16_of(s[off], s[off + 1])
}

/// The 64-bit value read from eight little-endian bytes.
pub open spec fn le64_of(s: Seq<u8>) -> u64 {
    (s[0] as u64) | ((s[1] as u64) << 8) | ((s[2] as u64) << 16) | ((s[3] as u64) << 24)
        | ((s[4] as u64) << 32) | ((s[5] as u64) << 40) | ((s[6] as u64) << 48)
        | ((s[7] as u64) << 56)
}

/// The 64-bit value read from eight big-endian bytes.
pub open spec fn be64_of(s: Seq<u8>) -> u64 {
    ((s[0] as u64) << 56) | ((s[1] as u64) << 48) | ((s[2] as u64) << 40) | ((s[3] as u64) << 32)
        | ((s[4] as u64) << 24) | ((s[5] as u64) << 16) | ((s[6] as u64) << 8) | (s[7] as u64)
}

/// Packing bytes `bs` at `off` leaves the buffer equal everywhere else.
pub open spec fn spliced(old: Seq<u8>, off: int, bs: Seq<u8>) -> Seq<u8> {
    old.take(off) + bs + old.skip(off + bs.len() as int)
}

/// Reading the little-endian bytes of a 16-bit value gives the value back.
pub proof fn lemma_u16_le_roundtrip(v: u16)
    ensures
        le16_of(u16_le_bytes(v)[0], u16_le_bytes(v)[1]) == v,
{
    assert(((v as u8) as u16) | ((((v >> 8) as u8) as u16) << 8) == v) by (bit_vector);
}

/// Reading the little-endian bytes of a 32-bit value gives the value back.
pub proof fn lemma_u32_le_roundtrip(v: u32)
    ensures
        le32_of(v as u8, (v >> 8) as u8, (v >> 16) as u8, (v >> 24) as u8) == v,
{
    assert(((v as u8) as u32) | ((((v >> 8) as u8) as u32) << 8) | ((((v >> 16) as u8) as u32)
        << 16) | ((((v >> 24) as u8) as u32) << 24) == v) by (bit_vector);
}

/// Writing back the 32-bit value read from four little-endian bytes
/// reproduces those bytes.
pub proof fn lemma_u32_le_bytes_of(b0: u8, b1: u8, b2: u8, b3: u8)
    ensures
        u32_le_bytes(le32_of(b0, b1, b2, b3)) == seq![b0, b1, b2, b3],
{
    let v = le32_of(b0, b1, b2, b3);
    assert((((b0 as u32) | ((b1 as u32) << 8) | ((b2 as u32) << 16) | ((b3 as u32) << 24)) as u8)
        == b0) by (bit_vector);
    assert(((((b0 as u32) | ((b1 as u32) << 8) | ((b2 as u32) << 16) | ((b3 as u32) << 24)) >> 8)
        as u8) == b1) by (bit_vector);
    assert(((((b0 as u32) | ((b1 as u32) << 8) | ((b2 as u32) << 16) | ((b3 as u32) << 24)) >> 16)
        as u8) == b2) by (bit_vector);
    assert(((((b0 as u32) | ((b1 as u32) << 8) | ((b2 as u32) << 16) | ((b3 as u32) << 24)) >> 24)
        as u8) == b3) by (bit_vector);
    assert(u32_le_bytes(v) =~= seq![b0, b1, b2, b3]);
}

/// Pack a u8 into a byte buffer.
pub fn pack_u8(buf: &mut Vec<u8>, offset: usize, value: u8) -> (r: usize)
    requires
        offset < old(buf).len(),
    ensures
        r == offset + 1,
        final(buf)@ == spliced(old(buf)@, offset as int, seq![value]),
{
    buf.set(offset, value);
    assert(final(buf)@ =~= spliced(old(buf)@, offset as int, seq![value]));
    offset + 1
}

/// Unpack a u8 from a byte buffer.
pub fn unpack_u8(buf: &Vec<u8>, offset: usize) -> (r: u8)
    requires
        offset < buf.len(),
    ensures
        r == buf@[offset as int],
{
    buf[offset]
}

/// Pack a u16 into a byte buffer in big-endian (network order).
pub fn pack_u16_be(buf: &mut Vec<u8>, offset: usize, value: u16) -> (r: usize)
    requires
        offset + 2 <= old(buf).len(),
    ensures
        r == offset + 2,
        final(buf)@ == spliced(old(buf)@, offset as int, u16_be_bytes(value)),
{
    buf.set(offset, (value >> 8) as u8);
    buf.set(offset + 1, value as u8);
    assert(final(buf)@ =~= spliced(old(buf)@, offset as int, u16_be_bytes(value)));
    offset + 2
}

/// Unpack a u16 from a byte buffer in big-endian (network order).
pub fn unpack_u16_be(buf: &Vec<u8>, offset: usize) -> (r: u16)
    requires
        offset + 2 <= buf.len(),
    ensures
        r == be16_of(buf@[offset as int], buf@[offset as int + 1]),
{
    ((buf[offset] as u16) << 8) | (buf[offset + 1] as u16)
}

/// Pack a u32 into a byte buffer in big-endian (network order).
pub fn pack_u32_be(buf: &mut Vec<u8>, offset: usize, value: u32) -> (r: usize)
    requires
        offset + 4 <= old(buf).len(),
    ensures
        r == offset + 4,
        final(buf)@ == spliced(old(buf)@, offset as int, u32_be_bytes(value)),
{
    buf.set(offset, (value >> 24) as u8);
    buf.set(offset + 1, (value >> 16) as u8);
    buf.set(offset + 2, (value >> 8) as u8);
    buf.set(offset + 3, value as u8);
    assert(final(buf)@ =~= spliced(old(buf)@, offset as int, u32_be_bytes(value)));
    offset + 4
}

/// Unpack a u32 from a byte buffer in big-endian (network order).
pub fn unpack_u32_be(buf: &Vec<u8>, offset: usize) -> (r: u32)
    requires
        offset + 4 <= buf.len(),
    ensures
        r == be32_of(
            buf@[offset as int],
            buf@[offset as int + 1],
            buf@[offset as int + 2],
            buf@[offset as int + 3],
        ),
{
    ((buf[offset] as u32) << 24) | ((buf[offset + 1] as u32) << 16) | ((buf[offset + 2] as u32)
        << 8) | (buf[offset + 3] as u32)
}

/// Pack a u64 into a byte buffer in big-endian (network order).
pub fn pack_u64_be(buf: &mut Vec<u8>, offset: usize, value: u64) -> (r: usize)
    requires
        offset + 8 <= old(buf).len(),
    ensures
        r == offset + 8,
        final(buf)@ == spliced(old(buf)@, offset as int, u64_be_bytes(value)),
{
    buf.set(offset, (value >> 56) as u8);
    buf.set(offset + 1, (value >> 48) as u8);
    buf.set(offset + 2, (value >> 40) as u8);
    buf.set(offset + 3, (value >> 32) as u8);
    buf.set(offset + 4, (value >> 24) as u8);
    buf.set(offset + 5, (value >> 16) as u8);
    buf.set(offset + 6, (value >> 8) as u8);
    buf.set(offset + 7, value as u8);
    assert(final(buf)@ =~= spliced(old(buf)@, offset as int, u64_be_bytes(value)));
    offset + 8
}

/// Unpack a u64 from a byte buffer in big-endian (network order).
pub fn unpack_u64_be(buf: &Vec<u8>, offset: usize) -> (r: u64)
    requires
        offset + 8 <= buf.len(),
    ensures
        r == be64_of(buf@.subrange(offset as int, offset as int + 8)),
{
    let r = ((buf[offset] as u64) << 56) | ((buf[offset + 1] as u64) << 48) | ((buf[offset + 2]
        as u64) << 40) | ((buf[offset + 3] as u64) << 32) | ((buf[offset + 4] as u64) << 24) | ((
    buf[offset + 5] as u64) << 16) | ((buf[offset + 6] as u64) << 8) | (buf[offset + 7] as u64);
    proof {
        let s = buf@.subrange(offset as int, offset as int + 8);
        assert(s[0] == buf@[offset as int] && s[1] == buf@[offset as int + 1] && s[2] == buf@[
            offset as int + 2] && s[3] == buf@[offset as int + 3] && s[4] == buf@[offset as int + 4]
            && s[5] == buf@[offset as int + 5] && s[6] == buf@[offset as int + 6] && s[7] == buf@[
            offset as int + 7]);
    }
    r
}

/// Pack a u16 into a byte buffer in little-endian.
pub fn pack_u16_le(buf: &mut Vec<u8>, offset: usize, value: u16) -> (r: usize)
    requires
        offset + 2 <= old(buf).len(),
    ensures
        r == offset + 2,
        final(buf)@ == spliced(old(buf)@, offset as int, u16_le_bytes(value)),
{
    buf.set(offset, value as u8);
    buf.set(offset + 1, (value >> 8) as u8);
    assert(final(buf)@ =~= spliced(old(buf)@, offset as int, u16_le_bytes(value)));
    offset + 2
}

/// Unpack a u16 from a byte buffer in little-endian.
pub fn unpack_u16_le(buf: &Vec<u8>, offset: usize) -> (r: u16)
    requires
        offset + 2 <= buf.len(),
    ensures
        r == le16_at(buf@, offset as int),
{
    (buf[offset] as u16) | ((buf[offset + 1] as u16) << 8)
}

/// Pack a u32 into a byte buffer in little-endian.
pub fn pack_u32_le(buf: &mut Vec<u8>, offset: usize, value: u32) -> (r: usize)
    requires
        offset + 4 <= old(buf).len(),
    ensures
        r == offset + 4,
        final(buf)@ == spliced(old(buf)@, offset as int, u32_le_bytes(value)),
{
    buf.set(offset, value as u8);
    buf.set(offset + 1, (value >> 8) as u8);
    buf.set(offset + 2, (value >> 16) as u8);
    buf.set(offset + 3, (value >> 24) as u8);
    assert(final(buf)@ =~= spliced(old(buf)@, offset as int, u32_le_bytes(value)));
    offset + 4
}

/// Unpack a u32 from a byte buffer in little-endian.
pub fn unpack_u32_le(buf: &Vec<u8>, offset: usize) -> (r: u32)
    requires
        offset + 4 <= buf.len(),
    ensures
        r == le32_at(buf@, offset as int),
{
    (buf[offset] as u32) | ((buf[offset + 1] as u32) << 8) | ((buf[offset + 2] as u32) << 16) | ((
    buf[offset + 3] as u32) << 24)
}

/// Pack a u64 into a byte buffer in little-endian.
pub fn pack_u64_le(buf: &mut Vec<u8>, offset: usize, value: u64) -> (r: usize)
    requires
        offset + 8 <= old(buf).len(),
    ensures
        r == offset + 8,
        final(buf)@ == spliced(old(buf)@, offset as int, u64_le_bytes(value)),
{
    buf.set(offset, value as u8);
    buf.set(offset + 1, (value >> 8) as u8);
    buf.set(offset + 2, (value >> 16) as u8);
    buf.set(offset + 3, (value >> 24) as u8);
    buf.set(offset + 4, (value >> 32) as u8);
    buf.set(offset + 5, (value >> 40) as u8);
    buf.set(offset + 6, (value >> 48) as u8);
    buf.set(offset + 7, (value >> 56) as u8);
    assert(final(buf)@ =~= spliced(old(buf)@, offset as int, u64_le_bytes(value)));
    offset + 8
}

/// Unpack a u64 from a byte buffer in little-endian.
pub fn unpack_u64_le(buf: &Vec<u8>, offset: usize) -> (r: u64)
    requires
        offset + 8 <= buf.len(),
    ensures
        r == le64_of(buf@.subrange(offset as int, offset as int + 8)),
{
    let r = (buf[offset] as u64) | ((buf[offset + 1] as u64) << 8) | ((buf[offset + 2] as u64)
        << 16) | ((buf[offset + 3] as u64) << 24) | ((buf[offset + 4] as u64) << 32) | ((buf[offset
        + 5] as u64) << 40) | ((buf[offset + 6] as u64) << 48) | ((buf[offset + 7] as u64) << 56);
    proof {
        let s = buf@.subrange(offset as int, offset as int + 8);
        assert(s[0] == buf@[offset as int] && s[1] == buf@[offset as int + 1] && s[2] == buf@[
            offset as int + 2] && s[3] == buf@[offset as int + 3] && s[4] == buf@[offset as int + 4]
            && s[5] == buf@[offset as int + 5] && s[6] == buf@[offset as int + 6] && s[7] == buf@[
            offset as int + 7]);
    }
    r
}

/// Pack the bytes of a string into a byte buffer.
pub fn pack_str(buf: &mut Vec<u8>, offset: usize, str_bytes: &Vec<u8>) -> (r: usize)
    requires
        offset + str_bytes.len() <= old(buf).len(),
    ensures
        r == offset + str_bytes.len(),
        final(buf)@ == spliced(old(buf)@, offset as int, str_bytes@),
{
    copy_bytes(buf, offset, str_bytes, 0, str_bytes.len())
}

/// A byte string followed by a single terminating zero byte.
pub open spec fn strz_bytes(s: Seq<u8>) -> Seq<u8> {
    s + seq![0u8]
}

/// Copy a byte string into a fresh buffer with a terminating zero appended.
pub fn to_strz(str_bytes: &Vec<u8>) -> (r: Vec<u8>)
    ensures
        r@ == strz_bytes(str_bytes@),
{
    let mut buf: Vec<u8> = Vec::new();
    let mut i: usize = 0;
    while i < str_bytes.len()
        invariant
            i <= str_bytes.len(),
            buf@ == str_bytes@.take(i as int),
        decreases str_bytes.len() - i,
    {
        buf.push(str_bytes[i]);
        i = i + 1;
        assert(buf@ =~= str_bytes@.take(i as int));
    }
    buf.push(0u8);
    assert(buf@ =~= strz_bytes(str_bytes@));
    buf
}

/// Copy `len` bytes from one buffer into another.
pub fn copy_bytes(
    to_buf: &mut Vec<u8>,
    to_offset: usize,
    from_buf: &Vec<u8>,
    from_offset: usize,
    len: usize,
) -> (r: usize)
    requires
        to_offset + len <= old(to_buf).len(),
        from_offset + len <= from_buf.len(),
    ensures
        r == to_offset + len,
        final(to_buf)@ == spliced(
            old(to_buf)@,
            to_offset as int,
            from_buf@.subrange(from_offset as int, from_offset as int + len as int),
        ),
{
    let mut i: usize = 0;
    while i < len
        invariant
            i <= len,
            to_offset + len <= to_buf.len(),
            from_offset + len <= from_buf.len(),
            to_buf@.len() == old(to_buf)@.len(),
            forall|j: int|
                0 <= j < to_buf@.len() && !(to_offset <= j < to_offset + i) ==> to_buf@[j] == old(
                    to_buf,
                )@[j],
            forall|j: int|
                0 <= j < i ==> #[trigger] to_buf@[to_offset + j] == from_buf@[from_offset + j],
        decreases len - i,
    {
        to_buf.set(to_offset + i, from_buf[from_offset + i]);
        i = i + 1;
    }
    proof {
        assert forall|j: int| to_offset <= j < to_offset + len implies to_buf@[j] == from_buf@[
            from_offset + (j - to_offset)] by {
            assert(to_buf@[to_offset + (j - to_offset)] == from_buf@[from_offset + (j
                - to_offset)]);
        }
        assert(to_buf@ =~= spliced(
            old(to_buf)@,
            to_offset as int,
            from_buf@.subrange(from_offset as int, from_offset as int + len as int),
        ));
    }
    to_offset + len
}

/// Read the first four bytes of a buffer as a big-endian 32-bit value.
pub fn trunc_bytes(bytes: &Vec<u8>) -> (r: u32)
    requires
        bytes.len() >= 4,
    ensures
        r == be32_of(bytes@[0], bytes@[1], bytes@[2], bytes@[3]),
{
    unpack_u32_be(bytes, 0)
}

} // verus!
