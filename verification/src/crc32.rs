//! The IEEE 802.3 CRC-32 used by gzip and zip: reversed polynomial
//! 0xEDB88320, table-driven one byte at a time, with the pre and post
//! ones-complement.

use vstd::prelude::*;

verus! {

/// One shift-and-conditionally-xor round of the table recurrence.
pub open spec fn crc_round(c: u32) -> u32 {
    if c & 1 == 1 {
        0xEDB88320u32 ^ (c >> 1)
    } else {
        c >> 1
    }
}

/// `n` rounds of the table recurrence.
pub open spec fn crc_rounds(c: u32, n: nat) -> u32
    decreases n,
{
    if n == 0 {
        c
    } else {
        crc_round(crc_rounds(c, (n - 1) as nat))
    }
}

/// The table entry for index `i`: eight rounds applied to `i`.
pub open spec fn crc_table_entry(i: int) -> u32 {
    crc_rounds(i as u32, 8)
}

/// Folding one byte into a running (complemented) CRC.
pub open spec fn crc_push_byte(crc: u32, b: u8) -> u32 {
    crc_table_entry(((crc ^ (b as u32)) & 0xff) as int) ^ (crc >> 8)
}

/// Folding a byte sequence into a running (complemented) CRC.
pub open spec fn crc_fold(crc: u32, s: Seq<u8>) -> u32
    decreases s.len(),
{
    if s.len() == 0 {
        crc
    } else {
        crc_fold(crc_push_byte(crc, s[0]), s.skip(1))
    }
}

/// Updating a finished CRC value with more bytes: pre ones-complement,
/// fold the bytes, post ones-complement.
pub open spec fn crc32_update(crc: u32, s: Seq<u8>) -> u32 {
    crc_fold(crc ^ 0xFFFFFFFFu32, s) ^ 0xFFFFFFFFu32
}

/// The CRC-32 of a byte sequence.
pub open spec fn crc32_of(s: Seq<u8>) -> u32 {
    crc32_update(0, s)
}

proof fn lemma_fold_append(crc: u32, a: Seq<u8>, b: Seq<u8>)
    ensures
        crc_fold(crc_fold(crc, a), b) == crc_fold(crc, a + b),
    decreases a.len(),
{
    if a.len() == 0 {
        assert(a + b =~= b);
    } else {
        lemma_fold_append(crc_push_byte(crc, a[0]), a.skip(1), b);
        assert(a.skip(1) + b =~= (a + b).skip(1));
    }
}

/// Chunked updates compose: updating with `a` and then with `b` equals
/// updating with `a + b` in one call.
pub proof fn lemma_crc32_update_append(crc: u32, a: Seq<u8>, b: Seq<u8>)
    ensures
        crc32_update(crc32_update(crc, a), b) == crc32_update(crc, a + b),
{
    let inner = crc_fold(crc ^ 0xFFFFFFFFu32, a);
    assert((inner ^ 0xFFFFFFFFu32) ^ 0xFFFFFFFFu32 == inner) by (bit_vector);
    lemma_fold_append(crc ^ 0xFFFFFFFFu32, a, b);
}

/// Build the 256-entry CRC table.
pub fn make_crc_table() -> (table: Vec<u32>)
    ensures
        table@.len() == 256,
        forall|i: int| 0 <= i < 256 ==> table@[i] == crc_table_entry(i),
{
    let mut table: Vec<u32> = Vec::new();
    let mut n: usize = 0;
    while n < 256
        invariant
            n <= 256,
            table@.len() == n,
            forall|i: int| 0 <= i < n ==> table@[i] == crc_table_entry(i),
        decreases 256 - n,
    {
        let mut c: u32 = n as u32;
        let mut k: usize = 0;
        while k < 8
            invariant
                k <= 8,
                c == crc_rounds(n as u32, k as nat),
            decreases 8 - k,
        {
            if c & 1 == 1 {
                c = 0xEDB88320u32 ^ (c >> 1);
            } else {
                c = c >> 1;
            }
            k = k + 1;
        }
        table.push(c);
        n = n + 1;
    }
    table
}

/// Update a running CRC-32 with the bytes `buf[from..to]`.
///
/// Because the pre and post ones-complements cancel between calls,
/// feeding a byte sequence in chunks gives the same value as one call.
pub fn update_crc(crc: u32, buf: &Vec<u8>, from: usize, to: usize) -> (r: u32)
    requires
        from <= to <= buf.len(),
    ensures
        r == crc32_update(crc, buf@.subrange(from as int, to as int)),
{
    let table = make_crc_table();
    let mut c: u32 = crc ^ 0xFFFFFFFFu32;
    let mut n: usize = from;
    while n < to
        invariant
            from <= n <= to <= buf.len(),
            table@.len() == 256,
            forall|i: int| 0 <= i < 256 ==> table@[i] == crc_table_entry(i),
            crc_fold(c, buf@.subrange(n as int, to as int)) == crc_fold(
                crc ^ 0xFFFFFFFFu32,
                buf@.subrange(from as int, to as int),
            ),
        decreases to - n,
    {
        let ghost pre = buf@.subrange(n as int, to as int);
        let b = buf[n];
        let idx = (c ^ (b as u32)) & 0xff;
        proof {
            assert((c ^ (b as u32)) & 0xff < 256) by (bit_vector);
        }
        c = table[idx as usize] ^ (c >> 8);
        n = n + 1;
        proof {
            assert(pre.skip(1) =~= buf@.subrange(n as int, to as int));
        }
    }
    proof {
        assert(buf@.subrange(to as int, to as int) =~= Seq::<u8>::empty());
    }
    c ^ 0xFFFFFFFFu32
}

/// The CRC-32 of the bytes `buf[from..to]`, seeded with zero.
pub fn compute_crc(buf: &Vec<u8>, from: usize, to: usize) -> (r: u32)
    requires
        from <= to <= buf.len(),
    ensures
        r == crc32_of(buf@.subrange(from as int, to as int)),
{
    update_crc(0, buf, from, to)
}

/// The ASCII digit for one hexadecimal nibble.
fn hex_digit(d: u32) -> (r: u8)
    requires
        d < 16,
    ensures
        48 <= r <= 57 || 65 <= r <= 70,
{
    if d < 10 {
        48 + (d as u8)
    } else {
        55 + (d as u8)
    }
}

/// Append one table entry as hexadecimal text, such as `0xEDB88320, `.
fn push_entry_text(out: &mut Vec<u8>, entry: u32)
    requires
        forall|i: int| 0 <= i < old(out)@.len() ==> old(out)@[i] < 128,
    ensures
        final(out)@.len() > old(out)@.len(),
        forall|i: int| 0 <= i < final(out)@.len() ==> final(out)@[i] < 128,
{
    out.push(48);
    out.push(120);
    let mut shift: usize = 32;
    while shift > 0
        invariant
            shift <= 32,
            shift % 4 == 0,
            out@.len() > old(out)@.len(),
            forall|i: int| 0 <= i < out@.len() ==> out@[i] < 128,
        decreases shift,
    {
        shift = shift - 4;
        let nib = if shift == 0 {
            entry & 0xF
        } else {
            (entry >> (shift as u32)) & 0xF
        };
        proof {
            assert((entry >> (shift as u32)) & 0xF < 16) by (bit_vector);
            assert(entry & 0xF < 16) by (bit_vector);
        }
        out.push(hex_digit(nib));
    }
    out.push(44);
    out.push(32);
}

/// Render the CRC table as hexadecimal source text, eight entries per
/// line, for embedding the precomputed constants elsewhere.
pub fn generate_crc_table() -> (out: String)
    ensures
        out@.len() > 0,
{
    let table = make_crc_table();
    let mut text: Vec<u8> = Vec::new();
    let mut n: usize = 0;
    while n < 256
        invariant
            table@.len() == 256,
            n > 0 ==> text@.len() > 0,
            forall|i: int| 0 <= i < text@.len() ==> text@[i] < 128,
        decreases 256 - n,
    {
        if n % 8 == 0 {
            text.push(10);
            text.push(32);
            text.push(32);
            text.push(32);
            text.push(32);
        }
        push_entry_text(&mut text, table[n]);
        n = n + 1;
    }
    let r = crate::bitstream::ascii_to_string_pub(text);
    proof {
        assert(r@.len() > 0);
    }
    r
}

} // verus!
