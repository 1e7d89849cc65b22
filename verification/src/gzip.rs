//! The gzip framer: member header and trailer parsing and emission, a
//! running CRC-32 over the plaintext, and streaming, reader-adapter and
//! writer-adapter shapes around the Deflator and Inflator.
//!
//! A gzip member is the 10-byte fixed header, the optional sections
//! selected by the flag byte, one raw DEFLATE stream, and an 8-byte
//! trailer holding the CRC-32 of the plaintext and its length modulo
//! 2^32, all little-endian.

use vstd::prelude::*;

use crate::crc32::crc32_of;
use crate::crc32::lemma_crc32_update_append;
use crate::crc32::update_crc;
use crate::deflate::Deflator;
use crate::deflate::Inflator;
use crate::deflate::clamped_level;
use crate::engine::Deflate_Status;
use crate::engine::Inflate_Status;
use crate::engine::deflate_of;
use crate::engine::inflate_complete;
use crate::engine::inflate_of;
use crate::engine::stream_prefix_free;
use crate::ioutil::le16_at;
use crate::ioutil::le32_at;
use crate::ioutil::u16_le_bytes;
use crate::ioutil::u32_le_bytes;
use crate::stream::ByteReader;
use crate::stream::ByteWriter;
use crate::stream::read_upto;

verus! {

/// Header flag: the file is text.
pub const FTEXT: u8 = 1;

/// Header flag: a 16-bit header CRC follows the optional sections.
pub const FHCRC: u8 = 2;

/// Header flag: an extra field follows the fixed header.
pub const FEXTRA: u8 = 4;

/// Header flag: a zero-terminated file name follows.
pub const FNAME: u8 = 8;

/// Header flag: a zero-terminated comment follows.
pub const FCOMMENT: u8 = 16;

/// Length of the fixed part of the member header.
pub const HEADER_FIXED_LEN: usize = 10;

/// Length of the member trailer: CRC-32 and ISIZE.
pub const END_LENGTH: usize = 8;

/// The IO buffer size in bytes for a size factor: 1024 * 2^factor.
pub fn calc_buf_size(buf_size_factor: usize) -> (r: usize)
    requires
        buf_size_factor <= 20,
    ensures
        r == 1024 * vstd::arithmetic::power2::pow2(buf_size_factor as nat),
{
    crate::calc_buf_size(buf_size_factor)
}

/// Errors of the gzip framer.
#[derive(Clone, Copy, Debug, PartialEq, Eq, Structural)]
pub enum GzipError {
    /// Too few bytes for a member header.
    TooFewData,
    /// The two signature bytes are wrong.
    BadSignature,
    /// The compression method is not DEFLATE.
    BadMethod,
    /// Fewer than eight bytes follow the compressed stream.
    TrailerTooShort,
    /// The computed CRC-32 of the plaintext does not match the stored one.
    CrcMismatch,
    /// The writer asked for cancellation.
    Aborted,
    /// Writing was attempted after the stream was finalized.
    Finalized,
    /// The engine reported a decompression failure.
    DecompressFailed,
}

impl GzipError {
    /// A short description of the error.
    pub fn text(&self) -> (r: &'static str) {
        match self {
            GzipError::TooFewData => "too few data to be a valid gzip format",
            GzipError::BadSignature => "invalid gzip signature",
            GzipError::BadMethod => "unsupported compression method",
            GzipError::TrailerTooShort => "not enough data in gzip end section",
            GzipError::CrcMismatch => "the computed crc does not match the stored crc",
            GzipError::Aborted => "the writer cancelled the operation",
            GzipError::Finalized => "the compression stream has been closed",
            GzipError::DecompressFailed => "failed to decompress data",
        }
    }
}

/// Tracking state for one gzip member: the header fields, the trailer
/// fields, and the running CRC-32 computed over the plaintext.
#[derive(Clone)]
pub struct GZip {
    pub id1: u8,
    pub id2: u8,
    pub compression: u8,
    pub flags: u8,
    pub mtime: u32,
    pub xflags: u8,
    pub os: u8,
    pub xfield: Option<Vec<u8>>,
    pub filename: Option<Vec<u8>>,
    pub comment: Option<Vec<u8>>,
    pub header_crc: Option<u16>,
    pub crc32: u32,
    pub original_size: u32,
    pub cmp_crc32: u32,
}

/// The optional header sections are present exactly as the flag byte
/// demands, and the extra field fits its 16-bit length.
pub open spec fn header_wf(g: GZip) -> bool {
    &&& (g.flags & FEXTRA == FEXTRA) ==> (g.xfield is Some && g.xfield.unwrap()@.len() <= 0xFFFF)
    &&& (g.flags & FNAME == FNAME) ==> (g.filename is Some && (forall|i: int|
        0 <= i < g.filename.unwrap()@.len() ==> g.filename.unwrap()@[i] != 0))
    &&& (g.flags & FCOMMENT == FCOMMENT) ==> (g.comment is Some && (forall|i: int|
        0 <= i < g.comment.unwrap()@.len() ==> g.comment.unwrap()@[i] != 0))
    &&& (g.flags & FHCRC == FHCRC) ==> g.header_crc is Some
}

/// The bytes of the fixed ten-byte header.
pub open spec fn header_fixed_bytes(g: GZip) -> Seq<u8> {
    seq![g.id1, g.id2, g.compression, g.flags] + u32_le_bytes(g.mtime) + seq![g.xflags, g.os]
}

/// The bytes of the extra-field section, when the flag selects it.
pub open spec fn sec_extra(g: GZip) -> Seq<u8> {
    if g.flags & FEXTRA == FEXTRA {
        u16_le_bytes(g.xfield.unwrap()@.len() as u16) + g.xfield.unwrap()@
    } else {
        Seq::<u8>::empty()
    }
}

/// The bytes of the zero-terminated file-name section.
pub open spec fn sec_name(g: GZip) -> Seq<u8> {
    if g.flags & FNAME == FNAME {
        g.filename.unwrap()@ + seq![0u8]
    } else {
        Seq::<u8>::empty()
    }
}

/// The bytes of the zero-terminated comment section.
pub open spec fn sec_comment(g: GZip) -> Seq<u8> {
    if g.flags & FCOMMENT == FCOMMENT {
        g.comment.unwrap()@ + seq![0u8]
    } else {
        Seq::<u8>::empty()
    }
}

/// The bytes of the header-CRC section.
pub open spec fn sec_hcrc(g: GZip) -> Seq<u8> {
    if g.flags & FHCRC == FHCRC {
        u16_le_bytes(g.header_crc.unwrap())
    } else {
        Seq::<u8>::empty()
    }
}

/// The bytes of the optional header sections, in the order the format
/// fixes: extra field, file name, comment, header CRC.
pub open spec fn header_extra_bytes(g: GZip) -> Seq<u8> {
    sec_extra(g) + sec_name(g) + sec_comment(g) + sec_hcrc(g)
}

/// The bytes of the whole member header.
pub open spec fn header_bytes(g: GZip) -> Seq<u8> {
    header_fixed_bytes(g) + header_extra_bytes(g)
}

/// The eight trailer bytes: CRC-32 of the plaintext and its length
/// modulo 2^32, both little-endian.
pub open spec fn trailer_bytes(crc: u32, isize_mod: u32) -> Seq<u8> {
    u32_le_bytes(crc) + u32_le_bytes(isize_mod)
}

/// The bytes of a whole gzip member holding the plaintext `x`,
/// compressed at `level`, between the header of `g` and the trailer.
pub open spec fn gzip_member_bytes(g: GZip, x: Seq<u8>, level: u8) -> Seq<u8> {
    header_bytes(g) + deflate_of(x, level, false, false) + trailer_bytes(
        crc32_of(x),
        (x.len() % 0x100000000) as u32,
    )
}


/// A zero-free byte string laid down with its terminator at the front
/// of a stream scans back to exactly that string.
proof fn lemma_parse_strz(nm: Seq<u8>, x: Seq<u8>)
    requires
        forall|i: int| 0 <= i < nm.len() ==> nm[i] != 0,
        nm.len() < x.len(),
        forall|i: int| 0 <= i < nm.len() ==> x[i] == #[trigger] nm[i],
        x[nm.len() as int] == 0,
    ensures
        crate::stream::zpos(x) == nm.len(),
        x.take(crate::stream::zpos(x)) == nm,
{
    assert(x =~= nm + (seq![0u8] + x.skip(nm.len() as int + 1)));
    crate::stream::lemma_zpos_concat(nm, seq![0u8] + x.skip(nm.len() as int + 1));
    assert(x.take(crate::stream::zpos(x)) =~= nm);
}

/// Parsing the extra-field and file-name sections back from a stream
/// that begins with their encoding recovers them exactly.
#[verifier::rlimit(100)]
#[verifier::spinoff_prover]
proof fn lemma_parse_front(
    g: GZip,
    h: GZip,
    x0: Seq<u8>,
    x1: Seq<u8>,
    x2: Seq<u8>,
    lb: Seq<u8>,
    xfl: int,
)
    requires
        h.flags == g.flags,
        header_wf(g),
        header_extra_bytes(g).is_prefix_of(x0),
        g.flags & FEXTRA == FEXTRA ==> {
            &&& lb == x0.take(
                if x0.len() < 2 {
                    x0.len() as int
                } else {
                    2
                },
            )
            &&& (lb.len() == 2 ==> xfl == le16_at(lb, 0) as int)
            &&& h.xfield is Some
            &&& h.xfield.unwrap()@ == x0.skip(lb.len() as int).take(
                h.xfield.unwrap()@.len() as int,
            )
            &&& h.xfield.unwrap()@.len() == (if xfl <= x0.len() - lb.len() {
                xfl
            } else {
                x0.len() - lb.len()
            })
            &&& x1 == x0.skip(lb.len() as int + h.xfield.unwrap()@.len() as int)
        },
        g.flags & FEXTRA != FEXTRA ==> x1 == x0,
        g.flags & FNAME == FNAME ==> {
            &&& h.filename is Some
            &&& h.filename.unwrap()@ == x1.take(crate::stream::zpos(x1))
            &&& x2 == x1.skip(
                if crate::stream::zpos(x1) < x1.len() {
                    crate::stream::zpos(x1) + 1
                } else {
                    crate::stream::zpos(x1)
                },
            )
        },
        g.flags & FNAME != FNAME ==> x2 == x1,
    ensures
        x2 == x0.skip(sec_extra(g).len() as int + sec_name(g).len() as int),
        (sec_comment(g) + sec_hcrc(g)).is_prefix_of(x2),
        g.flags & FEXTRA == FEXTRA ==> h.xfield is Some && h.xfield.unwrap()@
            == g.xfield.unwrap()@,
        g.flags & FNAME == FNAME ==> h.filename is Some && h.filename.unwrap()@
            == g.filename.unwrap()@,
{
    let a = sec_extra(g);
    let b = sec_name(g);
    let c = sec_comment(g);
    let d = sec_hcrc(g);
    let e = header_extra_bytes(g);
    assert(e =~= a + b + c + d);
    assert(e =~= x0.take(e.len() as int));
    if g.flags & FEXTRA == FEXTRA {
        let n = g.xfield.unwrap()@.len() as int;
        assert(a =~= u16_le_bytes(n as u16) + g.xfield.unwrap()@);
        assert(a.len() == 2 + n);
        assert(x0.len() >= e.len() >= a.len() >= 2);
        assert(lb =~= x0.take(2));
        assert(lb[0] == a[0] && lb[1] == a[1]) by {
            assert(x0.take(2)[0] == e[0] && x0.take(2)[1] == e[1]);
            assert(e[0] == a[0] && e[1] == a[1]);
        };
        assert(a[0] == u16_le_bytes(n as u16)[0] && a[1] == u16_le_bytes(n as u16)[1]);
        crate::ioutil::lemma_u16_le_roundtrip(n as u16);
        assert(xfl == n);
        assert(h.xfield.unwrap()@ =~= g.xfield.unwrap()@) by {
            assert(h.xfield.unwrap()@.len() == n);
            assert forall|i: int| 0 <= i < n implies x0.skip(2)[i] == g.xfield.unwrap()@[i] by {
                assert(x0[2 + i] == e[2 + i]);
                assert(e[2 + i] == a[2 + i]);
            };
        };
        assert(x1 =~= x0.skip(a.len() as int));
    } else {
        assert(a =~= Seq::<u8>::empty());
        assert(x1 =~= x0.skip(a.len() as int));
    }
    assert(b + c + d =~= e.skip(a.len() as int));
    assert(b + c + d =~= x1.take((b + c + d).len() as int));
    if g.flags & FNAME == FNAME {
        let nm = g.filename.unwrap()@;
        assert(b =~= nm + seq![0u8]);
        assert forall|i: int| 0 <= i < b.len() implies x1[i] == b[i] by {
            assert((b + c + d)[i] == b[i]);
            assert(x1.take((b + c + d).len() as int)[i] == x1[i]);
        };
        lemma_parse_strz(nm, x1);
        assert(h.filename.unwrap()@ =~= nm);
        assert(x2 =~= x1.skip(b.len() as int));
    } else {
        assert(b =~= Seq::<u8>::empty());
        assert(x2 =~= x1.skip(b.len() as int));
    }
    assert(x2 =~= x0.skip(a.len() as int + b.len() as int));
    assert(c + d =~= (b + c + d).skip(b.len() as int));
    assert(c + d =~= x2.take((c + d).len() as int));
}

/// Parsing the comment and header-CRC sections back from a stream that
/// begins with their encoding recovers them exactly.
#[verifier::rlimit(100)]
#[verifier::spinoff_prover]
proof fn lemma_parse_back(g: GZip, h: GZip, x2: Seq<u8>, x3: Seq<u8>, xf: Seq<u8>, cb: Seq<u8>)
    requires
        h.flags == g.flags,
        header_wf(g),
        (sec_comment(g) + sec_hcrc(g)).is_prefix_of(x2),
        g.flags & FCOMMENT == FCOMMENT ==> {
            &&& h.comment is Some
            &&& h.comment.unwrap()@ == x2.take(crate::stream::zpos(x2))
            &&& x3 == x2.skip(
                if crate::stream::zpos(x2) < x2.len() {
                    crate::stream::zpos(x2) + 1
                } else {
                    crate::stream::zpos(x2)
                },
            )
        },
        g.flags & FCOMMENT != FCOMMENT ==> x3 == x2,
        g.flags & FHCRC == FHCRC ==> {
            &&& cb == x3.take(
                if x3.len() < 2 {
                    x3.len() as int
                } else {
                    2
                },
            )
            &&& h.header_crc is Some
            &&& (cb.len() == 2 ==> h.header_crc.unwrap() == le16_at(cb, 0))
            &&& xf == x3.skip(cb.len() as int)
        },
        g.flags & FHCRC != FHCRC ==> xf == x3,
    ensures
        xf == x2.skip(sec_comment(g).len() as int + sec_hcrc(g).len() as int),
        g.flags & FCOMMENT == FCOMMENT ==> h.comment is Some && h.comment.unwrap()@
            == g.comment.unwrap()@,
        g.flags & FHCRC == FHCRC ==> h.header_crc == Some(g.header_crc.unwrap()),
{
    let c = sec_comment(g);
    let d = sec_hcrc(g);
    assert(c + d =~= x2.take((c + d).len() as int));
    if g.flags & FCOMMENT == FCOMMENT {
        let cm = g.comment.unwrap()@;
        assert(c =~= cm + seq![0u8]);
        assert forall|i: int| 0 <= i < c.len() implies x2[i] == c[i] by {
            assert((c + d)[i] == c[i]);
            assert(x2.take((c + d).len() as int)[i] == x2[i]);
        };
        lemma_parse_strz(cm, x2);
        assert(h.comment.unwrap()@ =~= cm);
        assert(x3 =~= x2.skip(c.len() as int));
    } else {
        assert(c =~= Seq::<u8>::empty());
        assert(x3 =~= x2.skip(c.len() as int));
    }
    assert(d =~= (c + d).skip(c.len() as int));
    assert(d =~= x3.take(d.len() as int));
    if g.flags & FHCRC == FHCRC {
        let hv = g.header_crc.unwrap();
        assert(d =~= u16_le_bytes(hv));
        assert(x3.len() >= 2);
        assert(cb =~= x3.take(2));
        assert(cb[0] == d[0] && cb[1] == d[1]) by {
            assert(x3.take(2) =~= x3.take(d.len() as int));
        };
        crate::ioutil::lemma_u16_le_roundtrip(hv);
        assert(h.header_crc == Some(hv));
        assert(xf =~= x3.skip(d.len() as int));
    } else {
        assert(d =~= Seq::<u8>::empty());
        assert(xf =~= x3.skip(d.len() as int));
    }
    assert(xf =~= x2.skip(c.len() as int + d.len() as int));
}

/// Parsing the optional header sections back from a stream that begins
/// with the encoded sections of a well-formed header recovers exactly
/// those sections and consumes exactly their bytes.
#[verifier::rlimit(100)]
#[verifier::spinoff_prover]
proof fn lemma_parse_sections(
    g: GZip,
    flags0: u8,
    h: GZip,
    x0: Seq<u8>,
    x1: Seq<u8>,
    x2: Seq<u8>,
    x3: Seq<u8>,
    xf: Seq<u8>,
    lb: Seq<u8>,
    xfl: int,
    cb: Seq<u8>,
)
    requires
        h.flags == flags0,
        header_wf(g),
        g.flags == flags0,
        header_extra_bytes(g).is_prefix_of(x0),
        flags0 & FEXTRA == FEXTRA ==> {
            &&& lb == x0.take(
                if x0.len() < 2 {
                    x0.len() as int
                } else {
                    2
                },
            )
            &&& (lb.len() == 2 ==> xfl == le16_at(lb, 0) as int)
            &&& h.xfield is Some
            &&& h.xfield.unwrap()@ == x0.skip(lb.len() as int).take(
                h.xfield.unwrap()@.len() as int,
            )
            &&& h.xfield.unwrap()@.len() == (if xfl <= x0.len() - lb.len() {
                xfl
            } else {
                x0.len() - lb.len()
            })
            &&& x1 == x0.skip(lb.len() as int + h.xfield.unwrap()@.len() as int)
        },
        flags0 & FEXTRA != FEXTRA ==> x1 == x0,
        flags0 & FNAME == FNAME ==> {
            &&& h.filename is Some
            &&& h.filename.unwrap()@ == x1.take(crate::stream::zpos(x1))
            &&& x2 == x1.skip(
                if crate::stream::zpos(x1) < x1.len() {
                    crate::stream::zpos(x1) + 1
                } else {
                    crate::stream::zpos(x1)
                },
            )
        },
        flags0 & FNAME != FNAME ==> x2 == x1,
        flags0 & FCOMMENT == FCOMMENT ==> {
            &&& h.comment is Some
            &&& h.comment.unwrap()@ == x2.take(crate::stream::zpos(x2))
            &&& x3 == x2.skip(
                if crate::stream::zpos(x2) < x2.len() {
                    crate::stream::zpos(x2) + 1
                } else {
                    crate::stream::zpos(x2)
                },
            )
        },
        flags0 & FCOMMENT != FCOMMENT ==> x3 == x2,
        flags0 & FHCRC == FHCRC ==> {
            &&& cb == x3.take(
                if x3.len() < 2 {
                    x3.len() as int
                } else {
                    2
                },
            )
            &&& h.header_crc is Some
            &&& (cb.len() == 2 ==> h.header_crc.unwrap() == le16_at(cb, 0))
            &&& xf == x3.skip(cb.len() as int)
        },
        flags0 & FHCRC != FHCRC ==> xf == x3,
    ensures
        xf == x0.skip(header_extra_bytes(g).len() as int),
        g.flags & FEXTRA == FEXTRA ==> h.xfield is Some && h.xfield.unwrap()@
            == g.xfield.unwrap()@,
        g.flags & FNAME == FNAME ==> h.filename is Some && h.filename.unwrap()@
            == g.filename.unwrap()@,
        g.flags & FCOMMENT == FCOMMENT ==> h.comment is Some && h.comment.unwrap()@
            == g.comment.unwrap()@,
        g.flags & FHCRC == FHCRC ==> h.header_crc == Some(g.header_crc.unwrap()),
{
    lemma_parse_front(g, h, x0, x1, x2, lb, xfl);
    lemma_parse_back(g, h, x2, x3, xf, cb);
    assert(header_extra_bytes(g) =~= sec_extra(g) + sec_name(g) + sec_comment(g) + sec_hcrc(g));
    assert(xf =~= x0.skip(header_extra_bytes(g).len() as int));
}

impl GZip {
    /// A GZip with default header fields and zeroed counters.
    pub fn new() -> (r: GZip)
        ensures
            r.id1 == 0x1f && r.id2 == 0x8b && r.compression == 8,
            r.flags == 0 && r.mtime == 0 && r.xflags == 0 && r.os == 0,
            r.xfield is None && r.filename is None && r.comment is None && r.header_crc is None,
            r.crc32 == 0 && r.original_size == 0 && r.cmp_crc32 == 0,
    {
        GZip {
            id1: 0x1f,
            id2: 0x8b,
            compression: 8,
            flags: 0,
            mtime: 0,
            xflags: 0,
            os: 0,
            xfield: None,
            filename: None,
            comment: None,
            header_crc: None,
            crc32: 0,
            original_size: 0,
            cmp_crc32: 0,
        }
    }

    /// Emit the fixed ten-byte header.
    fn write_header<W: ByteWriter>(&self, writer: &mut W)
        ensures
            final(writer).never_cancels() == old(writer).never_cancels(),
            old(writer).never_cancels() ==> final(writer).sink() == old(writer).sink()
                + header_fixed_bytes(*self),
    {
        let mut buf = crate::deflate::zero_buf(HEADER_FIXED_LEN);
        crate::ioutil::pack_u8(&mut buf, 0, self.id1);
        crate::ioutil::pack_u8(&mut buf, 1, self.id2);
        crate::ioutil::pack_u8(&mut buf, 2, self.compression);
        crate::ioutil::pack_u8(&mut buf, 3, self.flags);
        crate::ioutil::pack_u32_le(&mut buf, 4, self.mtime);
        crate::ioutil::pack_u8(&mut buf, 8, self.xflags);
        crate::ioutil::pack_u8(&mut buf, 9, self.os);
        proof {
            assert(buf@ =~= header_fixed_bytes(*self));
        }
        let _ = writer.write(&buf, HEADER_FIXED_LEN, false);
        proof {
            assert(buf@.take(HEADER_FIXED_LEN as int) =~= buf@);
        }
    }

    /// Emit the optional header sections selected by the flag byte, in
    /// the order the format fixes.
    fn write_header_extra<W: ByteWriter>(&self, writer: &mut W)
        requires
            header_wf(*self),
        ensures
            final(writer).never_cancels() == old(writer).never_cancels(),
            old(writer).never_cancels() ==> final(writer).sink() == old(writer).sink()
                + header_extra_bytes(*self),
    {
        let ghost s0 = writer.sink();
        if self.flags & FEXTRA == FEXTRA {
            match &self.xfield {
                Some(xf) => {
                    let mut lenbuf = crate::deflate::zero_buf(2);
                    crate::ioutil::pack_u16_le(&mut lenbuf, 0, xf.len() as u16);
                    proof {
                        assert(lenbuf@ =~= u16_le_bytes(self.xfield.unwrap()@.len() as u16));
                    }
                    let _ = writer.write(&lenbuf, 2, false);
                    let _ = writer.write(xf, xf.len(), false);
                    proof {
                        assert(lenbuf@.take(2) =~= lenbuf@);
                        assert(xf@.take(xf@.len() as int) =~= xf@);
                    }
                },
                None => {},
            }
        }
        if self.flags & FNAME == FNAME {
            match &self.filename {
                Some(name) => {
                    let z = crate::ioutil::to_strz(name);
                    let _ = writer.write(&z, z.len(), false);
                    proof {
                        assert(z@.take(z@.len() as int) =~= z@);
                    }
                },
                None => {},
            }
        }
        if self.flags & FCOMMENT == FCOMMENT {
            match &self.comment {
                Some(cm) => {
                    let z = crate::ioutil::to_strz(cm);
                    let _ = writer.write(&z, z.len(), false);
                    proof {
                        assert(z@.take(z@.len() as int) =~= z@);
                    }
                },
                None => {},
            }
        }
        if self.flags & FHCRC == FHCRC {
            match self.header_crc {
                Some(hc) => {
                    let mut crcbuf = crate::deflate::zero_buf(2);
                    crate::ioutil::pack_u16_le(&mut crcbuf, 0, hc);
                    proof {
                        assert(crcbuf@ =~= u16_le_bytes(self.header_crc.unwrap()));
                    }
                    let _ = writer.write(&crcbuf, 2, false);
                    proof {
                        assert(crcbuf@.take(2) =~= crcbuf@);
                    }
                },
                None => {},
            }
        }
        proof {
            if old(writer).never_cancels() {
                assert(writer.sink() =~= s0 + header_extra_bytes(*self));
            }
        }
    }

    /// Emit the eight trailer bytes from the tracked CRC-32 and size.
    fn write_end_section<W: ByteWriter>(&self, writer: &mut W)
        ensures
            final(writer).never_cancels() == old(writer).never_cancels(),
            old(writer).never_cancels() ==> final(writer).sink() == old(writer).sink()
                + trailer_bytes(self.crc32, self.original_size),
    {
        let mut buf = crate::deflate::zero_buf(END_LENGTH);
        crate::ioutil::pack_u32_le(&mut buf, 0, self.crc32);
        crate::ioutil::pack_u32_le(&mut buf, 4, self.original_size);
        proof {
            assert(buf@ =~= trailer_bytes(self.crc32, self.original_size));
        }
        writer.flush();
        let _ = writer.write(&buf, END_LENGTH, false);
        writer.flush();
        proof {
            assert(buf@.take(END_LENGTH as int) =~= buf@);
        }
    }

    /// Start a compression member: set the header fields from the file
    /// name and modification time and write the whole header out.
    pub fn compress_init<W: ByteWriter>(
        writer: &mut W,
        file_name: &Vec<u8>,
        mtime: u32,
        file_size: u32,
    ) -> (r: Result<GZip, GzipError>)
        requires
            forall|i: int| 0 <= i < file_name@.len() ==> file_name@[i] != 0,
        ensures
            final(writer).never_cancels() == old(writer).never_cancels(),
            r is Ok,
            ({
                let g = r.unwrap();
                &&& header_wf(g)
                &&& g.id1 == 0x1f && g.id2 == 0x8b && g.compression == 8
                &&& g.mtime == mtime
                &&& g.xflags == 0 && g.os == 0
                &&& g.xfield is None && g.comment is None && g.header_crc is None
                &&& g.original_size == file_size
                &&& g.cmp_crc32 == 0
                &&& g.flags == if file_name.len() > 0 {
                    FNAME
                } else {
                    0u8
                }
                &&& (file_name@.len() > 0 ==> (g.filename is Some && g.filename.unwrap()@
                    == file_name@))
                &&& (file_name@.len() == 0 ==> g.filename is None)
                &&& (old(writer).never_cancels() ==> final(writer).sink() == old(writer).sink()
                    + header_bytes(g))
            }),
    {
        let mut gzip = GZip::new();
        gzip.mtime = mtime;
        if file_name.len() > 0 {
            gzip.filename = Some(file_name.clone());
            gzip.flags = FNAME;
        }
        gzip.original_size = file_size;
        proof {
            assert(FNAME & FEXTRA != FEXTRA && FNAME & FNAME == FNAME && FNAME & FCOMMENT
                != FCOMMENT && FNAME & FHCRC != FHCRC) by (bit_vector);
            assert(0u8 & FEXTRA != FEXTRA && 0u8 & FNAME != FNAME && 0u8 & FCOMMENT != FCOMMENT
                && 0u8 & FHCRC != FHCRC) by (bit_vector);
        }
        gzip.write_header(writer);
        gzip.write_header_extra(writer);
        proof {
            if old(writer).never_cancels() {
                assert(writer.sink() =~= old(writer).sink() + header_bytes(gzip));
            }
        }
        Ok(gzip)
    }

    /// Read and check the fixed ten-byte header, filling in the fixed
    /// fields. Fails exactly on a short header, a wrong signature, or a
    /// method other than DEFLATE.
    fn read_header<R: ByteReader>(&mut self, reader: &mut R) -> (r: Result<(), GzipError>)
        ensures
            final(reader).stream() == old(reader).stream().skip(
                if old(reader).stream().len() < 10 {
                    old(reader).stream().len() as int
                } else {
                    10int
                },
            ),
            (r == Result::<(), GzipError>::Err(GzipError::TooFewData)) <==> old(
                reader,
            ).stream().len() < 10,
            ({
                let s = old(reader).stream();
                s.len() >= 10 ==> {
                    &&& final(self).id1 == s[0] && final(self).id2 == s[1]
                    &&& final(self).compression == s[2] && final(self).flags == s[3]
                    &&& final(self).mtime == le32_at(s, 4)
                    &&& final(self).xflags == s[8] && final(self).os == s[9]
                    &&& ((r == Result::<(), GzipError>::Err(GzipError::BadSignature)) <==> (s[0]
                        != 0x1f || s[1] != 0x8b))
                    &&& ((r == Result::<(), GzipError>::Err(GzipError::BadMethod)) <==> (s[0]
                        == 0x1f && s[1] == 0x8b && s[2] != 8))
                    &&& (r is Ok <==> (s[0] == 0x1f && s[1] == 0x8b && s[2] == 8))
                }
            }),
            final(self).xfield == old(self).xfield,
            final(self).filename == old(self).filename,
            final(self).comment == old(self).comment,
            final(self).header_crc == old(self).header_crc,
            final(self).crc32 == old(self).crc32,
            final(self).cmp_crc32 == old(self).cmp_crc32,
            final(self).original_size == old(self).original_size,
    {
        let buf = read_upto(reader, HEADER_FIXED_LEN);
        if buf.len() != HEADER_FIXED_LEN {
            return Err(GzipError::TooFewData);
        }
        self.id1 = buf[0];
        self.id2 = buf[1];
        self.compression = buf[2];
        self.flags = buf[3];
        self.mtime = crate::ioutil::unpack_u32_le(&buf, 4);
        self.xflags = buf[8];
        self.os = buf[9];
        if self.id1 != 0x1f || self.id2 != 0x8b {
            return Err(GzipError::BadSignature);
        }
        if self.compression != 8 {
            return Err(GzipError::BadMethod);
        }
        Ok(())
    }

    /// Read the optional header sections selected by the flag byte, in
    /// the order the format fixes. Short streams are tolerated: each
    /// section takes what the stream still holds.
    fn read_header_extra<R: ByteReader>(&mut self, reader: &mut R)
        ensures
            final(self).id1 == old(self).id1 && final(self).id2 == old(self).id2,
            final(self).compression == old(self).compression,
            final(self).flags == old(self).flags,
            final(self).mtime == old(self).mtime,
            final(self).xflags == old(self).xflags && final(self).os == old(self).os,
            final(self).crc32 == old(self).crc32,
            final(self).cmp_crc32 == old(self).cmp_crc32,
            final(self).original_size == old(self).original_size,
            forall|g: GZip|
                (header_wf(g) && g.flags == old(self).flags && #[trigger] header_extra_bytes(
                    g,
                ).is_prefix_of(old(reader).stream())) ==> {
                    &&& final(reader).stream() == old(reader).stream().skip(
                        header_extra_bytes(g).len() as int,
                    )
                    &&& (g.flags & FEXTRA == FEXTRA ==> final(self).xfield is Some
                        && final(self).xfield.unwrap()@ == g.xfield.unwrap()@)
                    &&& (g.flags & FNAME == FNAME ==> final(self).filename is Some
                        && final(self).filename.unwrap()@ == g.filename.unwrap()@)
                    &&& (g.flags & FCOMMENT == FCOMMENT ==> final(self).comment is Some
                        && final(self).comment.unwrap()@ == g.comment.unwrap()@)
                    &&& (g.flags & FHCRC == FHCRC ==> final(self).header_crc == Some(
                        g.header_crc.unwrap(),
                    ))
                },
    {
        let ghost x0 = reader.stream();
        let ghost flags0 = self.flags;
        let ghost mut lb: Seq<u8> = Seq::empty();
        let ghost mut xfl: int = 0;
        if self.flags & FEXTRA == FEXTRA {
            let lenbuf = read_upto(reader, 2);
            let xf_len: usize = if lenbuf.len() == 2 {
                crate::ioutil::unpack_u16_le(&lenbuf, 0) as usize
            } else {
                0
            };
            proof {
                lb = lenbuf@;
                xfl = xf_len as int;
            }
            let ghost xmid = reader.stream();
            let payload = read_upto(reader, xf_len);
            proof {
                assert(reader.stream() =~= x0.skip(lb.len() as int + payload@.len() as int)) by {
                    assert(xmid =~= x0.skip(lb.len() as int));
                };
            }
            self.xfield = Some(payload);
        }
        let ghost x1 = reader.stream();
        if self.flags & FNAME == FNAME {
            let name = crate::stream::read_strz(reader);
            self.filename = Some(name);
        }
        let ghost x2 = reader.stream();
        if self.flags & FCOMMENT == FCOMMENT {
            let comment = crate::stream::read_strz(reader);
            self.comment = Some(comment);
        }
        let ghost x3 = reader.stream();
        let ghost mut cb: Seq<u8> = Seq::empty();
        if self.flags & FHCRC == FHCRC {
            let crcbuf = read_upto(reader, 2);
            let hc: u16 = if crcbuf.len() == 2 {
                crate::ioutil::unpack_u16_le(&crcbuf, 0)
            } else {
                0
            };
            proof {
                cb = crcbuf@;
            }
            self.header_crc = Some(hc);
        }
        proof {
            let h = *self;
            let xfin = reader.stream();
            assert forall|g: GZip|
                (header_wf(g) && g.flags == flags0 && #[trigger] header_extra_bytes(
                    g,
                ).is_prefix_of(x0)) implies ({
                &&& xfin == x0.skip(header_extra_bytes(g).len() as int)
                &&& (g.flags & FEXTRA == FEXTRA ==> h.xfield is Some && h.xfield.unwrap()@
                    == g.xfield.unwrap()@)
                &&& (g.flags & FNAME == FNAME ==> h.filename is Some && h.filename.unwrap()@
                    == g.filename.unwrap()@)
                &&& (g.flags & FCOMMENT == FCOMMENT ==> h.comment is Some && h.comment.unwrap()@
                    == g.comment.unwrap()@)
                &&& (g.flags & FHCRC == FHCRC ==> h.header_crc == Some(g.header_crc.unwrap()))
            }) by {
                lemma_parse_sections(g, flags0, h, x0, x1, x2, x3, xfin, lb, xfl, cb);
            }
        }
    }

    /// Start a decompression member: read and check the whole header.
    /// Fails exactly on a short fixed header, a wrong signature, or a
    /// method other than DEFLATE; a stream that begins with a
    /// well-formed header is accepted with its fields recovered exactly.
    pub fn decompress_init<R: ByteReader>(reader: &mut R) -> (r: Result<GZip, GzipError>)
        ensures
            (r == Result::<GZip, GzipError>::Err(GzipError::TooFewData)) <==> old(
                reader,
            ).stream().len() < 10,
            ({
                let s = old(reader).stream();
                s.len() >= 10 ==> {
                    &&& ((r == Result::<GZip, GzipError>::Err(GzipError::BadSignature)) <==> (s[0]
                        != 0x1f || s[1] != 0x8b))
                    &&& ((r == Result::<GZip, GzipError>::Err(GzipError::BadMethod)) <==> (s[0]
                        == 0x1f && s[1] == 0x8b && s[2] != 8))
                    &&& (r is Ok <==> (s[0] == 0x1f && s[1] == 0x8b && s[2] == 8))
                    &&& (r is Ok ==> {
                        let h = r.unwrap();
                        &&& h.id1 == s[0] && h.id2 == s[1] && h.compression == s[2]
                        &&& h.flags == s[3] && h.mtime == le32_at(s, 4)
                        &&& h.xflags == s[8] && h.os == s[9]
                        &&& h.cmp_crc32 == 0
                    })
                }
            }),
            forall|g: GZip|
                (header_wf(g) && g.id1 == 0x1f && g.id2 == 0x8b && g.compression == 8
                    && #[trigger] header_bytes(g).is_prefix_of(old(reader).stream())) ==> {
                    &&& r is Ok
                    &&& final(reader).stream() == old(reader).stream().skip(
                        header_bytes(g).len() as int,
                    )
                    &&& ({
                        let h = r.unwrap();
                        &&& h.flags == g.flags && h.mtime == g.mtime
                        &&& (g.flags & FNAME == FNAME ==> h.filename is Some
                            && h.filename.unwrap()@ == g.filename.unwrap()@)
                        &&& (g.flags & FEXTRA == FEXTRA ==> h.xfield is Some
                            && h.xfield.unwrap()@ == g.xfield.unwrap()@)
                        &&& (g.flags & FCOMMENT == FCOMMENT ==> h.comment is Some
                            && h.comment.unwrap()@ == g.comment.unwrap()@)
                        &&& (g.flags & FHCRC == FHCRC ==> h.header_crc == Some(
                            g.header_crc.unwrap(),
                        ))
                    })
                },
    {
        let ghost x0 = reader.stream();
        let mut gzip = GZip::new();
        let head = gzip.read_header(reader);
        match head {
            Ok(()) => {},
            Err(e) => {
                proof {
                    assert forall|g: GZip|
                        (header_wf(g) && g.id1 == 0x1f && g.id2 == 0x8b && g.compression == 8
                            && #[trigger] header_bytes(g).is_prefix_of(x0)) implies false by {
                        assert(header_bytes(g).len() >= 10) by {
                            assert(header_fixed_bytes(g).len() == 10);
                        };
                        assert(x0[0] == header_bytes(g)[0] && x0[1] == header_bytes(g)[1] && x0[2]
                            == header_bytes(g)[2]) by {
                            assert(header_bytes(g) =~= x0.take(header_bytes(g).len() as int));
                        };
                        assert(header_bytes(g)[0] == 0x1f && header_bytes(g)[1] == 0x8b
                            && header_bytes(g)[2] == 8);
                    };
                }
                return Err(e);
            },
        }
        let ghost x10 = reader.stream();
        gzip.read_header_extra(reader);
        proof {
            assert forall|g: GZip|
                (header_wf(g) && g.id1 == 0x1f && g.id2 == 0x8b && g.compression == 8
                    && #[trigger] header_bytes(g).is_prefix_of(x0)) implies ({
                &&& reader.stream() == x0.skip(header_bytes(g).len() as int)
                &&& gzip.flags == g.flags && gzip.mtime == g.mtime
                &&& (g.flags & FNAME == FNAME ==> gzip.filename is Some && gzip.filename.unwrap()@
                    == g.filename.unwrap()@)
                &&& (g.flags & FEXTRA == FEXTRA ==> gzip.xfield is Some && gzip.xfield.unwrap()@
                    == g.xfield.unwrap()@)
                &&& (g.flags & FCOMMENT == FCOMMENT ==> gzip.comment is Some
                    && gzip.comment.unwrap()@ == g.comment.unwrap()@)
                &&& (g.flags & FHCRC == FHCRC ==> gzip.header_crc == Some(g.header_crc.unwrap()))
            }) by {
                let hb = header_bytes(g);
                let fixed = header_fixed_bytes(g);
                assert(fixed.len() == 10);
                assert(hb =~= fixed + header_extra_bytes(g));
                assert(hb =~= x0.take(hb.len() as int));
                assert forall|i: int| 0 <= i < 10 implies x0[i] == fixed[i] by {
                    assert(hb[i] == fixed[i]);
                };
                assert(gzip.flags == g.flags) by {
                    assert(fixed[3] == g.flags);
                };
                assert(gzip.mtime == g.mtime) by {
                    assert(x0[4] == fixed[4] && x0[5] == fixed[5] && x0[6] == fixed[6] && x0[7]
                        == fixed[7]);
                    assert(fixed[4] == u32_le_bytes(g.mtime)[0] && fixed[5] == u32_le_bytes(
                        g.mtime,
                    )[1] && fixed[6] == u32_le_bytes(g.mtime)[2] && fixed[7] == u32_le_bytes(
                        g.mtime,
                    )[3]);
                    crate::ioutil::lemma_u32_le_roundtrip(g.mtime);
                };
                assert(header_extra_bytes(g).is_prefix_of(x10)) by {
                    assert(x10 =~= x0.skip(10));
                    assert forall|i: int|
                        0 <= i < header_extra_bytes(g).len() implies x10[i]
                        == #[trigger] header_extra_bytes(g)[i] by {
                        assert(x0[10 + i] == hb[10 + i]);
                        assert(hb[10 + i] == header_extra_bytes(g)[i]);
                    };
                    assert(header_extra_bytes(g) =~= x10.take(header_extra_bytes(g).len() as int));
                };
                assert(reader.stream() =~= x0.skip(hb.len() as int)) by {
                    assert(reader.stream() =~= x10.skip(header_extra_bytes(g).len() as int));
                    assert(x10 =~= x0.skip(10));
                };
            };
        }
        Ok(gzip)
    }

    /// Take the trailer fields out of the captured end bytes. Fails
    /// exactly when fewer than eight bytes were captured.
    pub fn read_end_section(&mut self, end_buf: &Vec<u8>, end_len: usize) -> (r: Result<
        (),
        GzipError,
    >)
        requires
            end_len <= end_buf.len(),
        ensures
            (r is Ok) <==> end_len >= END_LENGTH,
            r is Err ==> r == Result::<(), GzipError>::Err(GzipError::TrailerTooShort),
            r is Ok ==> final(self).crc32 == le32_at(end_buf@, 0) && final(self).original_size
                == le32_at(end_buf@, 4),
            final(self).cmp_crc32 == old(self).cmp_crc32,
            final(self).flags == old(self).flags && final(self).mtime == old(self).mtime,
            final(self).filename == old(self).filename,
            final(self).xfield == old(self).xfield,
            final(self).comment == old(self).comment,
            final(self).header_crc == old(self).header_crc,
            final(self).id1 == old(self).id1 && final(self).id2 == old(self).id2,
            final(self).compression == old(self).compression,
            final(self).xflags == old(self).xflags && final(self).os == old(self).os,
            r is Err ==> *final(self) == *old(self),
    {
        if end_len < END_LENGTH {
            return Err(GzipError::TrailerTooShort);
        }
        self.crc32 = crate::ioutil::unpack_u32_le(end_buf, 0);
        self.original_size = crate::ioutil::unpack_u32_le(end_buf, 4);
        Ok(())
    }

    /// Compare the computed CRC-32 of the plaintext with the stored one.
    pub fn check_crc(&self) -> (r: Result<(), GzipError>)
        ensures
            (r is Ok) <==> self.crc32 == self.cmp_crc32,
            r is Err ==> r == Result::<(), GzipError>::Err(GzipError::CrcMismatch),
    {
        if self.crc32 != self.cmp_crc32 {
            return Err(GzipError::CrcMismatch);
        }
        Ok(())
    }

    /// Compress the whole stream of `reader` into `writer` as the body
    /// of this member: the raw DEFLATE stream followed by the trailer
    /// with the CRC-32 of the plaintext and its length modulo 2^32.
    /// The header must already have been written by `compress_init`.
    #[verifier::rlimit(100)]
    pub fn compress_pipe<R: ByteReader, W: ByteWriter>(
        &mut self,
        reader: &mut R,
        writer: &mut W,
        compress_level: usize,
        buf_size_factor: usize,
    ) -> (r: Result<usize, GzipError>)
        ensures
            final(writer).never_cancels() == old(writer).never_cancels(),
            old(writer).never_cancels() ==> r is Ok,
            r is Err ==> r == Result::<usize, GzipError>::Err(GzipError::Aborted),
            r is Ok ==> ({
                let x = old(reader).stream();
                &&& final(reader).stream().len() == 0
                &&& final(self).crc32 == crc32_of(x)
                &&& final(self).cmp_crc32 == crc32_of(x)
                &&& final(self).original_size == x.len() % 0x100000000
                &&& (old(writer).never_cancels() ==> final(writer).sink() == old(writer).sink()
                    + deflate_of(x, clamped_level(compress_level), false, false) + trailer_bytes(
                    crc32_of(x),
                    (x.len() % 0x100000000) as u32,
                ))
            }),
    {
        let ghost x0 = reader.stream();
        let ghost s0 = writer.sink();
        let mut deflator = Deflator::with_size_factor(buf_size_factor);
        deflator.init(compress_level, false, false);
        let chunk_len = crate::calc_buf_size(crate::deflate::clamp_factor(buf_size_factor));
        let mut crc: u32 = 0;
        let mut size_acc: u32 = 0;
        proof {
            assert(crc32_of(Seq::<u8>::empty()) == 0) by {
                assert(crate::crc32::crc_fold(0xFFFFFFFFu32, Seq::<u8>::empty())
                    == 0xFFFFFFFFu32);
                assert(0xFFFFFFFFu32 ^ 0xFFFFFFFFu32 == 0) by (bit_vector);
                assert(0u32 ^ 0xFFFFFFFFu32 == 0xFFFFFFFFu32) by (bit_vector);
            };
        }
        loop
            invariant
                x0 == old(reader).stream(),
                s0 == old(writer).sink(),
                0 < chunk_len <= 0x40000000,
                deflator.wf(),
                deflator.ready(),
                !deflator.is_freed(),
                deflator.level() == clamped_level(compress_level),
                !deflator.zlib_flag() && !deflator.adler_flag(),
                deflator.accepted().len() <= x0.len(),
                deflator.accepted() == x0.take(deflator.accepted().len() as int),
                reader.stream() == x0.skip(deflator.accepted().len() as int),
                crc == crc32_of(deflator.accepted()),
                size_acc == deflator.accepted().len() % 0x100000000,
                old(writer).never_cancels() ==> writer.sink() == s0 + deflator.delivered(),
                writer.never_cancels() == old(writer).never_cancels(),
            decreases reader.stream().len(),
        {
            let ghost acc_pre = deflator.accepted();
            let chunk = reader.read(chunk_len);
            if chunk.len() == 0 {
                let empty_buf: Vec<u8> = Vec::new();
                let status = deflator.compress_write(&empty_buf, true, writer);
                match status {
                    Deflate_Status::Done => {
                        proof {
                            assert(deflator.accepted() =~= acc_pre + empty_buf@);
                            assert(deflator.accepted() =~= x0);
                        }
                        self.cmp_crc32 = crc;
                        self.crc32 = crc;
                        self.original_size = size_acc;
                        self.write_end_section(writer);
                        proof {
                            if old(writer).never_cancels() {
                                assert(writer.sink() =~= s0 + deflate_of(
                                    x0,
                                    clamped_level(compress_level),
                                    false,
                                    false,
                                ) + trailer_bytes(crc32_of(x0), (x0.len() % 0x100000000) as u32));
                            }
                        }
                        return Ok(0);
                    },
                    _ => {
                        return Err(GzipError::Aborted);
                    },
                }
            }
            let clen = chunk.len();
            crc = update_crc(crc, &chunk, 0, clen);
            proof {
                assert(chunk@.subrange(0, clen as int) =~= chunk@);
                lemma_crc32_update_append(0, acc_pre, chunk@);
            }
            size_acc = (((size_acc as u64) + (clen as u64)) % 0x100000000) as u32;
            proof {
                vstd::arithmetic::div_mod::lemma_add_mod_noop(
                    acc_pre.len() as int,
                    clen as int,
                    0x100000000,
                );
                vstd::arithmetic::div_mod::lemma_small_mod(clen as nat, 0x100000000);
            }
            let status = deflator.compress_write(&chunk, false, writer);
            match status {
                Deflate_Status::Okay => {
                    proof {
                        assert(deflator.accepted() =~= x0.take(deflator.accepted().len() as int));
                        assert(reader.stream() =~= x0.skip(deflator.accepted().len() as int));
                    }
                },
                _ => {
                    return Err(GzipError::Aborted);
                },
            }
        }
    }

    /// Decompress the body of this member from `reader` into `writer`,
    /// keeping a running CRC-32 over the plaintext, then capture the
    /// eight trailer bytes that follow the compressed stream and verify
    /// the CRC. Input bytes read past the trailer are returned.
    /// The header must already have been read by `decompress_init`.
    #[verifier::rlimit(100)]
    pub fn decompress_pipe<R: ByteReader, W: ByteWriter>(
        &mut self,
        reader: &mut R,
        writer: &mut W,
        buf_size_factor: usize,
    ) -> (r: Result<Vec<u8>, GzipError>)
        ensures
            final(writer).never_cancels() == old(writer).never_cancels(),
            r is Ok ==> final(self).crc32 == final(self).cmp_crc32,
            r matches Ok(extra) ==> (exists|c: Seq<u8>|
                {
                    &&& inflate_complete(c)
                    &&& stream_prefix_free(c)
                    &&& #[trigger] c.is_prefix_of(old(reader).stream())
                    &&& old(reader).stream() == c + u32_le_bytes(final(self).crc32)
                        + u32_le_bytes(final(self).original_size) + extra@ + final(reader).stream()
                    &&& final(self).crc32 == crc32_of(inflate_of(c))
                    &&& (old(writer).never_cancels() ==> final(writer).sink() == old(writer).sink()
                        + inflate_of(c))
                }),
            forall|c: Seq<u8>|
                (inflate_complete(c) && stream_prefix_free(c) && (#[trigger] (c + trailer_bytes(
                    crc32_of(inflate_of(c)),
                    (inflate_of(c).len() % 0x100000000) as u32,
                ))).is_prefix_of(old(reader).stream()) && old(writer).never_cancels()) ==> {
                    &&& r is Ok
                    &&& final(writer).sink() == old(writer).sink() + inflate_of(c)
                    &&& final(self).crc32 == crc32_of(inflate_of(c))
                    &&& final(self).cmp_crc32 == crc32_of(inflate_of(c))
                    &&& final(self).original_size == (inflate_of(c).len() % 0x100000000) as u32
                    &&& r.unwrap()@ + final(reader).stream() == old(reader).stream().skip(
                        c.len() as int + 8,
                    )
                },
    {
        let ghost x0 = reader.stream();
        let ghost s0 = writer.sink();
        let mut inflator = Inflator::with_size_factor(buf_size_factor);
        let chunk_len = crate::calc_buf_size(crate::deflate::clamp_factor(buf_size_factor));
        let mut crc: u32 = 0;
        proof {
            assert(crc32_of(Seq::<u8>::empty()) == 0) by {
                assert(crate::crc32::crc_fold(0xFFFFFFFFu32, Seq::<u8>::empty())
                    == 0xFFFFFFFFu32);
                assert(0xFFFFFFFFu32 ^ 0xFFFFFFFFu32 == 0) by (bit_vector);
                assert(0u32 ^ 0xFFFFFFFFu32 == 0xFFFFFFFFu32) by (bit_vector);
            };
        }
        loop
            invariant
                x0 == old(reader).stream(),
                s0 == old(writer).sink(),
                chunk_len > 0,
                inflator.wf(),
                inflator.resting(),
                !inflator.is_freed(),
                !inflator.is_failed(),
                inflator.compressed() + inflator.staged() + reader.stream() == x0,
                crc == crc32_of(inflator.delivered()),
                forall|t: Seq<u8>|
                    inflator.compressed().is_prefix_of(t) ==> inflator.delivered().is_prefix_of(
                        #[trigger] inflate_of(t),
                    ),
                forall|k: int|
                    0 <= k < inflator.compressed().len() ==> !inflate_complete(
                        #[trigger] inflator.compressed().take(k),
                    ),
                inflator.done_flag() ==> (inflate_complete(inflator.compressed())
                    && inflator.produced() == inflate_of(inflator.compressed())),
                old(writer).never_cancels() ==> writer.sink() == s0 + inflator.delivered(),
                writer.never_cancels() == old(writer).never_cancels(),
            ensures
                inflator.done_flag(),
                inflator.delivered() == inflate_of(inflator.compressed()),
            decreases
                    inflator.staged().len() + reader.stream().len(),
                    inflate_of(inflator.compressed()).len() - inflator.delivered().len(),
        {
            let ghost pre_inf = inflator;
            let ghost rpre = reader.stream();
            let res = inflator.decompress_read(reader, chunk_len);
            proof {
                assert(inflator.compressed() + inflator.staged() + reader.stream() =~= x0) by {
                    assert(pre_inf.compressed() + (pre_inf.staged() + rpre) =~= x0);
                    assert(inflator.compressed() =~= pre_inf.compressed()
                        + inflator.compressed().skip(pre_inf.compressed().len() as int));
                    assert(pre_inf.compressed() + (inflator.compressed().skip(
                        pre_inf.compressed().len() as int,
                    ) + inflator.staged() + reader.stream()) =~= pre_inf.compressed() + (
                    pre_inf.staged() + rpre));
                    assert(pre_inf.compressed() + inflator.compressed().skip(
                        pre_inf.compressed().len() as int,
                    ) + inflator.staged() + reader.stream() =~= pre_inf.compressed() + (
                    inflator.compressed().skip(pre_inf.compressed().len() as int)
                        + inflator.staged() + reader.stream()));
                };
            }
            match res {
                Ok(v) => {
                    if v.len() == 0 {
                        break ;
                    }
                    let vlen = v.len();
                    crc = update_crc(crc, &v, 0, vlen);
                    proof {
                        assert(v@.subrange(0, vlen as int) =~= v@);
                        lemma_crc32_update_append(0, pre_inf.delivered(), v@);
                    }
                    let cancel = writer.write(&v, vlen, false);
                    proof {
                        assert(v@.take(vlen as int) =~= v@);
                    }
                    if cancel {
                        return Err(GzipError::Aborted);
                    }
                    proof {
                        if old(writer).never_cancels() {
                            assert(writer.sink() =~= s0 + inflator.delivered()) by {
                                assert(s0 + pre_inf.delivered() + v@ =~= s0 + (pre_inf.delivered()
                                    + v@));
                            };
                        }
                        let dlen = inflator.compressed().len() - pre_inf.compressed().len();
                        assert(dlen + inflator.staged().len() + reader.stream().len()
                            == pre_inf.staged().len() + rpre.len());
                        if inflator.staged().len() + reader.stream().len() == pre_inf.staged().len()
                            + rpre.len() {
                            assert(inflator.compressed() =~= pre_inf.compressed());
                        }
                    }
                },
                Err(_) => {
                    proof {
                        assert forall|c: Seq<u8>|
                            (inflate_complete(c) && stream_prefix_free(c) && (#[trigger] (c
                                + trailer_bytes(
                                crc32_of(inflate_of(c)),
                                (inflate_of(c).len() % 0x100000000) as u32,
                            ))).is_prefix_of(x0)) implies false by {
                            assert(c.is_prefix_of(x0)) by {
                                let ct = c + trailer_bytes(
                                    crc32_of(inflate_of(c)),
                                    (inflate_of(c).len() % 0x100000000) as u32,
                                );
                                assert(ct =~= x0.take(ct.len() as int));
                                assert(c =~= x0.take(c.len() as int));
                            };
                            if c.len() < pre_inf.compressed().len() {
                                assert(pre_inf.compressed() =~= x0.take(
                                    pre_inf.compressed().len() as int,
                                )) by {
                                    assert(pre_inf.compressed() + (pre_inf.staged() + rpre) =~= x0);
                                };
                                assert(c =~= pre_inf.compressed().take(c.len() as int));
                                assert(!inflate_complete(pre_inf.compressed().take(c.len() as int)));
                                assert(false);
                            } else {
                                assert(pre_inf.compressed().is_prefix_of(c)) by {
                                    assert(pre_inf.compressed() + (pre_inf.staged() + rpre) =~= x0);
                                    assert(pre_inf.compressed() =~= x0.take(
                                        pre_inf.compressed().len() as int,
                                    ));
                                    assert(pre_inf.compressed() =~= c.take(
                                        pre_inf.compressed().len() as int,
                                    ));
                                };
                                assert(c.is_prefix_of(
                                    pre_inf.compressed() + pre_inf.staged() + rpre,
                                )) by {
                                    assert(pre_inf.compressed() + pre_inf.staged() + rpre =~= x0);
                                };
                                assert(false);
                            }
                        };
                    }
                    return Err(GzipError::DecompressFailed);
                },
            }
        }
        // the compressed stream has ended: capture the eight trailer
        // bytes, topping up from the reader if fewer were staged
        self.cmp_crc32 = crc;
        let ghost crest = inflator.compressed();
        let ghost staged0 = inflator.staged();
        let ghost rs0 = reader.stream();
        let rest = inflator.get_rest();
        let mut end_buf: Vec<u8>;
        let mut extra_buf: Vec<u8>;
        if rest.len() >= END_LENGTH {
            end_buf = crate::deflate::copy_range(&rest, 0, END_LENGTH);
            extra_buf = crate::deflate::copy_range(&rest, END_LENGTH, rest.len());
            proof {
                assert(x0 =~= crest + end_buf@ + extra_buf@ + reader.stream()) by {
                    assert(end_buf@ + extra_buf@ =~= staged0);
                };
            }
        } else {
            let top = read_upto(reader, END_LENGTH - rest.len());
            end_buf = rest;
            let mut top2 = top;
            end_buf.append(&mut top2);
            extra_buf = Vec::new();
            proof {
                assert(x0 =~= crest + end_buf@ + extra_buf@ + reader.stream()) by {
                    assert(end_buf@ + reader.stream() =~= staged0 + rs0);
                };
            }
        }
        proof {
            lemma_gzip_end(x0, crest, staged0, rs0, end_buf@, extra_buf@, reader.stream());
        }
        let end_len = end_buf.len();
        match self.read_end_section(&end_buf, end_len) {
            Ok(()) => {},
            Err(e) => {
                return Err(e);
            },
        }
        match self.check_crc() {
            Ok(()) => {},
            Err(e) => {
                return Err(e);
            },
        }
        proof {
            assert forall|c: Seq<u8>|
                (inflate_complete(c) && stream_prefix_free(c) && (#[trigger] (c + trailer_bytes(
                    crc32_of(inflate_of(c)),
                    (inflate_of(c).len() % 0x100000000) as u32,
                ))).is_prefix_of(x0) && old(writer).never_cancels()) implies ({
                &&& writer.sink() == s0 + inflate_of(c)
                &&& self.crc32 == crc32_of(inflate_of(c))
                &&& self.cmp_crc32 == crc32_of(inflate_of(c))
                &&& self.original_size == (inflate_of(c).len() % 0x100000000) as u32
                &&& extra_buf@ + reader.stream() == x0.skip(c.len() as int + 8)
            }) by {
                assert(crest == c);
            };
            // the consumed stream itself witnesses the decomposition
            crate::ioutil::lemma_u32_le_bytes_of(end_buf@[0], end_buf@[1], end_buf@[2], end_buf@[3]);
            crate::ioutil::lemma_u32_le_bytes_of(end_buf@[4], end_buf@[5], end_buf@[6], end_buf@[7]);
            assert(end_buf@ =~= u32_le_bytes(self.crc32) + u32_le_bytes(self.original_size)) by {
                assert(u32_le_bytes(le32_at(end_buf@, 0)) =~= end_buf@.subrange(0, 4));
                assert(u32_le_bytes(le32_at(end_buf@, 4)) =~= end_buf@.subrange(4, 8));
                assert(end_buf@.subrange(0, 4) + end_buf@.subrange(4, 8) =~= end_buf@);
            };
            assert(x0 =~= crest + u32_le_bytes(self.crc32) + u32_le_bytes(self.original_size)
                + extra_buf@ + reader.stream()) by {
                assert(crest + end_buf@ + extra_buf@ + reader.stream() =~= crest + u32_le_bytes(
                    self.crc32,
                ) + u32_le_bytes(self.original_size) + extra_buf@ + reader.stream());
            };
            assert(crest.is_prefix_of(x0)) by {
                assert(crest =~= x0.take(crest.len() as int));
            };
            assert(self.crc32 == crc32_of(inflate_of(crest)));
        }
        Ok(extra_buf)
    }
}

/// After the compressed stream has ended, under the hypothesis that the
/// input began with a whole prefix-free stream followed by its encoded
/// trailer, the consumed stream is exactly that stream, the captured
/// end bytes are exactly the trailer, and the bytes beyond it split
/// between the returned extra bytes and the unread reader stream.
#[verifier::rlimit(100)]
#[verifier::spinoff_prover]
proof fn lemma_gzip_end(
    x0: Seq<u8>,
    cc: Seq<u8>,
    staged: Seq<u8>,
    rs0: Seq<u8>,
    end: Seq<u8>,
    extra: Seq<u8>,
    rs1: Seq<u8>,
)
    requires
        inflate_complete(cc),
        forall|k: int| 0 <= k < cc.len() ==> !inflate_complete(#[trigger] cc.take(k)),
        cc + staged + rs0 == x0,
        staged.len() >= 8 ==> (end == staged.take(8) && extra == staged.skip(8) && rs1 == rs0),
        staged.len() < 8 ==> {
            &&& end == staged + rs0.take(
                if 8 - staged.len() <= rs0.len() {
                    8 - staged.len() as int
                } else {
                    rs0.len() as int
                },
            )
            &&& extra == Seq::<u8>::empty()
            &&& rs1 == rs0.skip(
                if 8 - staged.len() <= rs0.len() {
                    8 - staged.len() as int
                } else {
                    rs0.len() as int
                },
            )
        },
    ensures
        forall|c: Seq<u8>|
            (inflate_complete(c) && stream_prefix_free(c) && (#[trigger] (c + trailer_bytes(
                crc32_of(inflate_of(c)),
                (inflate_of(c).len() % 0x100000000) as u32,
            ))).is_prefix_of(x0)) ==> {
                &&& cc == c
                &&& end.len() == 8
                &&& le32_at(end, 0) == crc32_of(inflate_of(c))
                &&& le32_at(end, 4) == (inflate_of(c).len() % 0x100000000) as u32
                &&& extra + rs1 == x0.skip(c.len() as int + 8)
            },
{
    assert forall|c: Seq<u8>|
        (inflate_complete(c) && stream_prefix_free(c) && (#[trigger] (c + trailer_bytes(
            crc32_of(inflate_of(c)),
            (inflate_of(c).len() % 0x100000000) as u32,
        ))).is_prefix_of(x0)) implies ({
        &&& cc == c
        &&& end.len() == 8
        &&& le32_at(end, 0) == crc32_of(inflate_of(c))
        &&& le32_at(end, 4) == (inflate_of(c).len() % 0x100000000) as u32
        &&& extra + rs1 == x0.skip(c.len() as int + 8)
    }) by {
        let tr = trailer_bytes(
            crc32_of(inflate_of(c)),
            (inflate_of(c).len() % 0x100000000) as u32,
        );
        let ct = c + tr;
        assert(tr.len() == 8);
        assert(ct =~= x0.take(ct.len() as int));
        assert(c =~= x0.take(c.len() as int)) by {
            assert forall|i: int| 0 <= i < c.len() implies x0[i] == c[i] by {
                assert(ct[i] == c[i]);
                assert(x0.take(ct.len() as int)[i] == x0[i]);
            };
        };
        assert(cc =~= x0.take(cc.len() as int)) by {
            assert(cc + (staged + rs0) =~= x0);
        };
        if c.len() < cc.len() {
            assert(c =~= cc.take(c.len() as int));
            assert(!inflate_complete(cc.take(c.len() as int)));
            assert(false);
        } else if cc.len() < c.len() {
            assert(cc =~= c.take(cc.len() as int));
            assert(!inflate_complete(c.take(cc.len() as int)));
            assert(false);
        }
        assert(cc =~= c);
        let tail = x0.skip(c.len() as int);
        assert(staged + rs0 =~= tail) by {
            assert(cc + (staged + rs0) =~= x0);
        };
        assert(tail.len() >= 8);
        assert forall|j: int| 0 <= j < 8 implies tail[j] == tr[j] by {
            assert(x0[c.len() + j] == ct[c.len() + j]);
            assert(ct[c.len() + j] == tr[j]);
        };
        if staged.len() >= 8 {
            assert(end =~= tail.take(8)) by {
                assert(forall|j: int| 0 <= j < 8 ==> staged[j] == #[trigger] tail[j]);
            };
            assert(extra + rs1 =~= tail.skip(8));
        } else {
            assert(8 - staged.len() <= rs0.len());
            assert(end =~= tail.take(8));
            assert(extra + rs1 =~= tail.skip(8)) by {
                assert(rs0 =~= tail.skip(staged.len() as int));
            };
        }
        assert(x0.skip(c.len() as int + 8) =~= tail.skip(8));
        assert(end.len() == 8);
        crate::ioutil::lemma_u32_le_roundtrip(crc32_of(inflate_of(c)));
        crate::ioutil::lemma_u32_le_roundtrip((inflate_of(c).len() % 0x100000000) as u32);
        assert(le32_at(end, 0) == crc32_of(inflate_of(c))) by {
            assert(end[0] == tr[0] && end[1] == tr[1] && end[2] == tr[2] && end[3] == tr[3]) by {
                assert(forall|j: int| 0 <= j < 8 ==> end[j] == #[trigger] tail.take(8)[j]);
            };
            assert(tr[0] == u32_le_bytes(crc32_of(inflate_of(c)))[0] && tr[1] == u32_le_bytes(
                crc32_of(inflate_of(c)),
            )[1] && tr[2] == u32_le_bytes(crc32_of(inflate_of(c)))[2] && tr[3] == u32_le_bytes(
                crc32_of(inflate_of(c)),
            )[3]);
        };
        assert(le32_at(end, 4) == (inflate_of(c).len() % 0x100000000) as u32) by {
            assert(end[4] == tr[4] && end[5] == tr[5] && end[6] == tr[6] && end[7] == tr[7]) by {
                assert(forall|j: int| 0 <= j < 8 ==> end[j] == #[trigger] tail.take(8)[j]);
            };
            assert(tr[4] == u32_le_bytes((inflate_of(c).len() % 0x100000000) as u32)[0] && tr[5]
                == u32_le_bytes((inflate_of(c).len() % 0x100000000) as u32)[1] && tr[6]
                == u32_le_bytes((inflate_of(c).len() % 0x100000000) as u32)[2] && tr[7]
                == u32_le_bytes((inflate_of(c).len() % 0x100000000) as u32)[3]);
        };
    };
}

/// The writer-adapter and pipe forms produce byte-identical output:
/// both emit exactly the member bytes of the same plaintext, header and
/// level, so two sinks fed from the same start agree.
pub proof fn lemma_pipe_adapter_equivalence(
    g: GZip,
    x: Seq<u8>,
    level: u8,
    base: Seq<u8>,
    pipe_sink: Seq<u8>,
    adapter_sink: Seq<u8>,
)
    requires
        pipe_sink == base + gzip_member_bytes(g, x, level),
        adapter_sink == base + gzip_member_bytes(g, x, level),
    ensures
        pipe_sink == adapter_sink,
{
}

/// After the compressed stream has ended, under the hypothesis that the
/// input began with a whole prefix-free stream followed by its CRC-32
/// and at least four more bytes, the consumed stream is exactly that
/// stream and the captured end bytes begin with the encoded CRC.
#[verifier::rlimit(100)]
#[verifier::spinoff_prover]
proof fn lemma_reader_end(
    x0: Seq<u8>,
    cc: Seq<u8>,
    staged: Seq<u8>,
    rs0: Seq<u8>,
    end: Seq<u8>,
    rs1: Seq<u8>,
)
    requires
        inflate_complete(cc),
        forall|k: int| 0 <= k < cc.len() ==> !inflate_complete(#[trigger] cc.take(k)),
        cc + staged + rs0 == x0,
        staged.len() >= 8 ==> (end == staged.take(8) && rs1 == rs0),
        staged.len() < 8 ==> {
            &&& end == staged + rs0.take(
                if 8 - staged.len() <= rs0.len() {
                    8 - staged.len() as int
                } else {
                    rs0.len() as int
                },
            )
            &&& rs1 == rs0.skip(
                if 8 - staged.len() <= rs0.len() {
                    8 - staged.len() as int
                } else {
                    rs0.len() as int
                },
            )
        },
    ensures
        forall|c: Seq<u8>|
            (inflate_complete(c) && stream_prefix_free(c) && (#[trigger] (c + u32_le_bytes(
                crc32_of(inflate_of(c)),
            ))).is_prefix_of(x0) && x0.len() >= c.len() + 8) ==> {
                &&& cc == c
                &&& end.len() == 8
                &&& le32_at(end, 0) == crc32_of(inflate_of(c))
            },
{
    assert forall|c: Seq<u8>|
        (inflate_complete(c) && stream_prefix_free(c) && (#[trigger] (c + u32_le_bytes(
            crc32_of(inflate_of(c)),
        ))).is_prefix_of(x0) && x0.len() >= c.len() + 8) implies ({
        &&& cc == c
        &&& end.len() == 8
        &&& le32_at(end, 0) == crc32_of(inflate_of(c))
    }) by {
        let tr = u32_le_bytes(crc32_of(inflate_of(c)));
        let ct = c + tr;
        assert(tr.len() == 4);
        assert(ct =~= x0.take(ct.len() as int));
        assert(c =~= x0.take(c.len() as int)) by {
            assert forall|i: int| 0 <= i < c.len() implies x0[i] == c[i] by {
                assert(ct[i] == c[i]);
                assert(x0.take(ct.len() as int)[i] == x0[i]);
            };
        };
        assert(cc =~= x0.take(cc.len() as int)) by {
            assert(cc + (staged + rs0) =~= x0);
        };
        if c.len() < cc.len() {
            assert(c =~= cc.take(c.len() as int));
            assert(!inflate_complete(cc.take(c.len() as int)));
            assert(false);
        } else if cc.len() < c.len() {
            assert(cc =~= c.take(cc.len() as int));
            assert(!inflate_complete(c.take(cc.len() as int)));
            assert(false);
        }
        assert(cc =~= c);
        let tail = x0.skip(c.len() as int);
        assert(staged + rs0 =~= tail) by {
            assert(cc + (staged + rs0) =~= x0);
        };
        assert(tail.len() >= 8);
        assert forall|j: int| 0 <= j < 4 implies tail[j] == tr[j] by {
            assert(x0[c.len() + j] == ct[c.len() + j]);
            assert(ct[c.len() + j] == tr[j]);
        };
        if staged.len() >= 8 {
            assert(end =~= tail.take(8)) by {
                assert(forall|j: int| 0 <= j < 8 ==> staged[j] == #[trigger] tail[j]);
            };
        } else {
            assert(8 - staged.len() <= rs0.len());
            assert(end =~= tail.take(8));
        }
        assert(end.len() == 8);
        crate::ioutil::lemma_u32_le_roundtrip(crc32_of(inflate_of(c)));
        assert(le32_at(end, 0) == crc32_of(inflate_of(c))) by {
            assert(end[0] == tr[0] && end[1] == tr[1] && end[2] == tr[2] && end[3] == tr[3]) by {
                assert(forall|j: int| 0 <= j < 8 ==> end[j] == #[trigger] tail.take(8)[j]);
            };
            assert(tr[0] == u32_le_bytes(crc32_of(inflate_of(c)))[0] && tr[1] == u32_le_bytes(
                crc32_of(inflate_of(c)),
            )[1] && tr[2] == u32_le_bytes(crc32_of(inflate_of(c)))[2] && tr[3] == u32_le_bytes(
                crc32_of(inflate_of(c)),
            )[3]);
        };
    };
}

/// A reader that decompresses one gzip member from an inner reader in
/// caller-sized chunks, and verifies the trailer when the compressed
/// stream ends.
pub struct GZipReader<R> {
    pub gzip: GZip,
    inner_reader: R,
    inflator: Inflator,
    is_eof: bool,
}

impl<R: ByteReader> GZipReader<R> {
    /// Structural well-formedness: the Inflator is usable and the
    /// running CRC-32 covers exactly the bytes handed out so far.
    pub closed spec fn wf(&self) -> bool {
        &&& self.inflator.wf()
        &&& self.inflator.resting()
        &&& !self.inflator.is_freed()
        &&& self.gzip.cmp_crc32 == crc32_of(self.inflator.delivered())
        &&& forall|t: Seq<u8>|
            self.inflator.compressed().is_prefix_of(t) ==> self.inflator.delivered().is_prefix_of(
                #[trigger] inflate_of(t),
            )
        &&& forall|k: int|
            0 <= k < self.inflator.compressed().len() ==> !inflate_complete(
                #[trigger] self.inflator.compressed().take(k),
            )
        &&& (self.is_eof ==> (inflate_complete(self.inflator.compressed())
            && self.inflator.delivered() == inflate_of(self.inflator.compressed())))
    }

    /// The plaintext bytes handed out so far.
    pub closed spec fn delivered(&self) -> Seq<u8> {
        self.inflator.delivered()
    }

    /// The compressed bytes the engine has consumed so far.
    pub closed spec fn compressed(&self) -> Seq<u8> {
        self.inflator.compressed()
    }

    /// The input bytes read from the inner reader but not yet consumed
    /// by the engine.
    pub closed spec fn staged_bytes(&self) -> Seq<u8> {
        self.inflator.staged()
    }

    /// The bytes the inner reader has yet to deliver.
    pub closed spec fn inner_stream(&self) -> Seq<u8> {
        self.inner_reader.stream()
    }

    /// The parsed header fields of the member.
    pub closed spec fn header(&self) -> GZip {
        self.gzip
    }

    /// The plaintext length modulo 2^32 stored in the trailer, once
    /// captured.
    pub closed spec fn stored_isize(&self) -> u32 {
        self.gzip.original_size
    }

    /// Whether the end of the member has been reached and verified.
    pub closed spec fn at_eof(&self) -> bool {
        self.is_eof
    }

    /// The running CRC-32 computed over the bytes handed out.
    pub closed spec fn computed_crc(&self) -> u32 {
        self.gzip.cmp_crc32
    }

    /// The CRC-32 stored in the member trailer, once captured.
    pub closed spec fn stored_crc(&self) -> u32 {
        self.gzip.crc32
    }

    /// Whether the engine has reported a failure.
    pub closed spec fn is_failed(&self) -> bool {
        self.inflator.is_failed()
    }

    /// Create a reader over a gzip member with the default buffer size;
    /// the header is read and checked immediately.
    pub fn new(inner_reader: R) -> (r: Result<GZipReader<R>, GzipError>)
        ensures
            r matches Ok(gr) ==> gr.wf() && !gr.at_eof() && !gr.is_failed() && gr.delivered().len()
                == 0 && gr.compressed().len() == 0 && gr.staged_bytes().len() == 0,
            (r == Result::<GZipReader<R>, GzipError>::Err(GzipError::TooFewData)) <==> inner_reader.stream().len() < 10,
            inner_reader.stream().len() >= 10 ==> (r is Ok <==> (inner_reader.stream()[0] == 0x1f
                && inner_reader.stream()[1] == 0x8b && inner_reader.stream()[2] == 8)),
            forall|g: GZip|
                (header_wf(g) && g.id1 == 0x1f && g.id2 == 0x8b && g.compression == 8
                    && #[trigger] header_bytes(g).is_prefix_of(inner_reader.stream())) ==> (
                r is Ok && {
                    let gr = r.unwrap();
                    &&& gr.header().flags == g.flags && gr.header().mtime == g.mtime
                    &&& (g.flags & FNAME == FNAME ==> gr.header().filename is Some
                        && gr.header().filename.unwrap()@ == g.filename.unwrap()@)
                    &&& gr.inner_stream() == inner_reader.stream().skip(
                        header_bytes(g).len() as int,
                    )
                }),
    {
        GZipReader::with_size_factor(inner_reader, crate::deflate::DEFAULT_SIZE_FACTOR)
    }

    /// Create a reader over a gzip member with the given buffer size
    /// factor; the header is read and checked immediately. The member
    /// header is read from the inner reader and its fields recovered
    /// exactly; the same error cases as `decompress_init` apply.
    pub fn with_size_factor(inner_reader: R, buf_size_factor: usize) -> (r: Result<
        GZipReader<R>,
        GzipError,
    >)
        ensures
            r matches Ok(gr) ==> gr.wf() && !gr.at_eof() && !gr.is_failed() && gr.delivered().len()
                == 0 && gr.compressed().len() == 0 && gr.staged_bytes().len() == 0,
            (r == Result::<GZipReader<R>, GzipError>::Err(GzipError::TooFewData)) <==> inner_reader.stream().len() < 10,
            inner_reader.stream().len() >= 10 ==> {
                &&& ((r == Result::<GZipReader<R>, GzipError>::Err(GzipError::BadSignature)) <==> (
                inner_reader.stream()[0] != 0x1f || inner_reader.stream()[1] != 0x8b))
                &&& ((r == Result::<GZipReader<R>, GzipError>::Err(GzipError::BadMethod)) <==> (
                inner_reader.stream()[0] == 0x1f && inner_reader.stream()[1] == 0x8b
                    && inner_reader.stream()[2] != 8))
                &&& (r is Ok <==> (inner_reader.stream()[0] == 0x1f && inner_reader.stream()[1]
                    == 0x8b && inner_reader.stream()[2] == 8))
            },
            forall|g: GZip|
                (header_wf(g) && g.id1 == 0x1f && g.id2 == 0x8b && g.compression == 8
                    && #[trigger] header_bytes(g).is_prefix_of(inner_reader.stream())) ==> (
                r is Ok && {
                    let gr = r.unwrap();
                    &&& gr.header().flags == g.flags && gr.header().mtime == g.mtime
                    &&& (g.flags & FNAME == FNAME ==> gr.header().filename is Some
                        && gr.header().filename.unwrap()@ == g.filename.unwrap()@)
                    &&& (g.flags & FEXTRA == FEXTRA ==> gr.header().xfield is Some
                        && gr.header().xfield.unwrap()@ == g.xfield.unwrap()@)
                    &&& (g.flags & FCOMMENT == FCOMMENT ==> gr.header().comment is Some
                        && gr.header().comment.unwrap()@ == g.comment.unwrap()@)
                    &&& gr.inner_stream() == inner_reader.stream().skip(
                        header_bytes(g).len() as int,
                    )
                }),
    {
        let mut inner = inner_reader;
        let gzip = match GZip::decompress_init(&mut inner) {
            Ok(g) => g,
            Err(e) => {
                return Err(e);
            },
        };
        let r = GZipReader {
            gzip,
            inner_reader: inner,
            inflator: Inflator::with_size_factor(buf_size_factor),
            is_eof: false,
        };
        proof {
            assert(crc32_of(Seq::<u8>::empty()) == 0) by {
                assert(crate::crc32::crc_fold(0xFFFFFFFFu32, Seq::<u8>::empty())
                    == 0xFFFFFFFFu32);
                assert(0xFFFFFFFFu32 ^ 0xFFFFFFFFu32 == 0) by (bit_vector);
                assert(0u32 ^ 0xFFFFFFFFu32 == 0xFFFFFFFFu32) by (bit_vector);
            };
        }
        Ok(r)
    }

    /// Read up to `out_len` decompressed bytes. When the compressed
    /// stream ends, the eight trailer bytes are captured from the
    /// unconsumed input (topped up from the inner reader if needed) and
    /// the CRC is verified; from then on every read returns an empty
    /// chunk.
    pub fn read(&mut self, out_len: usize) -> (r: Result<Vec<u8>, GzipError>)
        requires
            old(self).wf(),
            !old(self).is_failed(),
        ensures
            r is Ok ==> final(self).wf() && !final(self).is_failed(),
            r matches Ok(v) ==> {
                &&& v@.len() <= out_len
                &&& final(self).delivered() == old(self).delivered() + v@
                &&& final(self).computed_crc() == crc32_of(final(self).delivered())
            },
            old(self).compressed().is_prefix_of(final(self).compressed()),
            forall|t: Seq<u8>|
                final(self).compressed().is_prefix_of(t) ==> final(self).delivered().is_prefix_of(
                    #[trigger] inflate_of(t),
                ),
            (r matches Ok(v) && v@.len() > 0) ==> final(self).compressed().skip(
                old(self).compressed().len() as int,
            ) + final(self).staged_bytes() + final(self).inner_stream() == old(self).staged_bytes()
                + old(self).inner_stream(),
            (r matches Ok(v) && v@.len() == 0 && out_len > 0) ==> final(self).at_eof(),
            old(self).at_eof() ==> (r matches Ok(v) && v@.len() == 0 && *final(self) == *old(self)),
            (r is Ok && final(self).at_eof() && !old(self).at_eof()) ==> {
                let tail = (old(self).staged_bytes() + old(self).inner_stream()).skip(
                    final(self).compressed().len() as int - old(self).compressed().len() as int,
                );
                &&& inflate_complete(final(self).compressed())
                &&& final(self).delivered() == inflate_of(final(self).compressed())
                &&& final(self).stored_crc() == final(self).computed_crc()
                &&& final(self).stored_crc() == crc32_of(inflate_of(final(self).compressed()))
                &&& tail.len() >= 8
                &&& final(self).stored_crc() == le32_at(tail, 0)
                &&& final(self).stored_isize() == le32_at(tail, 4)
            },
            forall|c: Seq<u8>|
                (inflate_complete(c) && stream_prefix_free(c) && old(self).compressed().is_prefix_of(
                    c,
                ) && (#[trigger] (c.skip(old(self).compressed().len() as int) + u32_le_bytes(
                    crc32_of(inflate_of(c)),
                ))).is_prefix_of(old(self).staged_bytes() + old(self).inner_stream()) && old(
                    self,
                ).compressed().len() + old(self).staged_bytes().len() + old(
                    self,
                ).inner_stream().len() >= c.len() + 8 && !old(self).at_eof() && out_len > 0) ==> r
                    is Ok,
    {
        let ghost oc = old(self).compressed();
        let ghost xtotal = old(self).compressed() + old(self).staged_bytes() + old(
            self,
        ).inner_stream();
        if self.is_eof {
            let v: Vec<u8> = Vec::new();
            proof {
                assert(self.delivered() =~= old(self).delivered() + v@);
            }
            return Ok(v);
        }
        if out_len == 0 {
            let v: Vec<u8> = Vec::new();
            proof {
                assert(self.delivered() =~= old(self).delivered() + v@);
            }
            return Ok(v);
        }
        let res = self.inflator.decompress_read(&mut self.inner_reader, out_len);
        proof {
            // conservation of the upstream bytes at the reader level
            assert(self.compressed() + self.staged_bytes() + self.inner_stream() =~= xtotal) by {
                assert(oc + (old(self).staged_bytes() + old(self).inner_stream()) =~= xtotal);
                assert(self.compressed() =~= oc + self.compressed().skip(oc.len() as int));
                assert(oc + (self.compressed().skip(oc.len() as int) + self.staged_bytes()
                    + self.inner_stream()) =~= oc + (old(self).staged_bytes() + old(
                    self,
                ).inner_stream()));
                assert(oc + self.compressed().skip(oc.len() as int) + self.staged_bytes()
                    + self.inner_stream() =~= oc + (self.compressed().skip(oc.len() as int)
                    + self.staged_bytes() + self.inner_stream()));
            };
        }
        let v = match res {
            Ok(v) => v,
            Err(_) => {
                proof {
                    assert forall|c: Seq<u8>|
                        (inflate_complete(c) && stream_prefix_free(c) && oc.is_prefix_of(c) && (
                        #[trigger] (c.skip(oc.len() as int) + u32_le_bytes(
                            crc32_of(inflate_of(c)),
                        ))).is_prefix_of(old(self).staged_bytes() + old(self).inner_stream())
                            && oc.len() + old(self).staged_bytes().len() + old(
                            self,
                        ).inner_stream().len() >= c.len() + 8) implies false by {
                        assert(c.is_prefix_of(
                            oc + (old(self).staged_bytes() + old(self).inner_stream()),
                        )) by {
                            assert(c =~= oc + c.skip(oc.len() as int));
                            assert forall|i: int|
                                0 <= i < c.len() implies (oc + (old(self).staged_bytes() + old(
                                self,
                            ).inner_stream()))[i] == c[i] by {
                                if i >= oc.len() {
                                    let rem = c.skip(oc.len() as int) + u32_le_bytes(
                                        crc32_of(inflate_of(c)),
                                    );
                                    assert(rem =~= (old(self).staged_bytes() + old(
                                        self,
                                    ).inner_stream()).take(rem.len() as int));
                                    assert(rem[i - oc.len()] == c[i]);
                                }
                            };
                            assert(c =~= (oc + (old(self).staged_bytes() + old(
                                self,
                            ).inner_stream())).take(c.len() as int));
                        };
                    };
                }
                return Err(GzipError::DecompressFailed);
            },
        };
        if v.len() > 0 {
            let vlen = v.len();
            let ghost d_pre = old(self).delivered();
            self.gzip.cmp_crc32 = update_crc(self.gzip.cmp_crc32, &v, 0, vlen);
            proof {
                assert(v@.subrange(0, vlen as int) =~= v@);
                lemma_crc32_update_append(0, d_pre, v@);
            }
            return Ok(v);
        }
        // End of the compressed stream: capture and verify the trailer.
        let ghost crest = self.compressed();
        let ghost staged0 = self.staged_bytes();
        let ghost rs0 = self.inner_stream();
        let rest = self.inflator.get_rest();
        let mut end_buf: Vec<u8>;
        if rest.len() >= END_LENGTH {
            end_buf = crate::deflate::copy_range(&rest, 0, END_LENGTH);
        } else {
            let top = read_upto(&mut self.inner_reader, END_LENGTH - rest.len());
            end_buf = rest;
            let mut top2 = top;
            end_buf.append(&mut top2);
        }
        proof {
            lemma_reader_end(xtotal, crest, staged0, rs0, end_buf@, self.inner_stream());
            // under the happy hypothesis the lemma pins the captured bytes
            assert forall|c: Seq<u8>|
                (inflate_complete(c) && stream_prefix_free(c) && oc.is_prefix_of(c) && (#[trigger] (
                c.skip(oc.len() as int) + u32_le_bytes(crc32_of(inflate_of(c))))).is_prefix_of(
                    old(self).staged_bytes() + old(self).inner_stream(),
                ) && oc.len() + old(self).staged_bytes().len() + old(self).inner_stream().len()
                    >= c.len() + 8) implies (crest == c && end_buf@.len() == 8 && le32_at(
                end_buf@,
                0,
            ) == crc32_of(inflate_of(c))) by {
                let k = crc32_of(inflate_of(c));
                let rem = c.skip(oc.len() as int) + u32_le_bytes(k);
                assert((c + u32_le_bytes(k)).is_prefix_of(xtotal)) by {
                    assert(rem =~= (old(self).staged_bytes() + old(self).inner_stream()).take(
                        rem.len() as int,
                    ));
                    assert(c + u32_le_bytes(k) =~= xtotal.take(c.len() as int + 4)) by {
                        assert forall|i: int|
                            0 <= i < c.len() + 4 implies (c + u32_le_bytes(k))[i] == xtotal[i] by {
                            if i >= oc.len() {
                                assert((c + u32_le_bytes(k))[i] == rem[i - oc.len()]);
                                assert(xtotal[i] == (old(self).staged_bytes() + old(
                                    self,
                                ).inner_stream())[i - oc.len()]);
                            } else {
                                assert((c + u32_le_bytes(k))[i] == c[i]);
                                assert(c[i] == oc[i]) by {
                                    assert(oc =~= c.take(oc.len() as int));
                                };
                            }
                        };
                    };
                };
                assert(xtotal.len() >= c.len() + 8);
            };
        }
        let end_len = end_buf.len();
        match self.gzip.read_end_section(&end_buf, end_len) {
            Ok(()) => {},
            Err(e) => {
                return Err(e);
            },
        }
        match self.gzip.check_crc() {
            Ok(()) => {},
            Err(e) => {
                proof {
                    assert forall|c: Seq<u8>|
                        (inflate_complete(c) && stream_prefix_free(c) && oc.is_prefix_of(c) && (
                        #[trigger] (c.skip(oc.len() as int) + u32_le_bytes(
                            crc32_of(inflate_of(c)),
                        ))).is_prefix_of(old(self).staged_bytes() + old(self).inner_stream())
                            && oc.len() + old(self).staged_bytes().len() + old(
                            self,
                        ).inner_stream().len() >= c.len() + 8) implies false by {
                        assert(crest == c);
                        assert(self.gzip.crc32 == crc32_of(inflate_of(c)));
                        assert(self.gzip.cmp_crc32 == crc32_of(inflate_of(c)));
                    };
                }
                return Err(e);
            },
        }
        self.is_eof = true;
        proof {
            assert(self.delivered() =~= old(self).delivered() + Seq::<u8>::empty());
            // the captured trailer is the next eight upstream bytes after
            // the compressed stream
            let tail = (old(self).staged_bytes() + old(self).inner_stream()).skip(
                crest.len() as int - oc.len() as int,
            );
            assert(staged0 + rs0 =~= tail) by {
                assert(crest + (staged0 + rs0) =~= xtotal);
                assert(oc + (old(self).staged_bytes() + old(self).inner_stream()) =~= xtotal);
            };
            assert(end_buf@ =~= tail.take(8)) by {
                if staged0.len() >= 8 {
                    assert(end_buf@ =~= staged0.take(8));
                } else {
                    assert(8 - staged0.len() <= rs0.len());
                }
            };
            assert forall|i: int| 0 <= i < 8 implies end_buf@[i] == tail[i] by {
                assert(end_buf@[i] == tail.take(8)[i]);
            };
            assert(le32_at(end_buf@, 0) == le32_at(tail, 0));
            assert(le32_at(end_buf@, 4) == le32_at(tail, 4));
        }
        Ok(Vec::new())
    }

    /// Whether the end of the member has been reached.
    pub fn eof(&self) -> (r: bool)
        ensures
            r == self.at_eof(),
    {
        self.is_eof
    }

    /// Give the inner reader back.
    pub fn inner(self) -> R {
        self.inner_reader
    }
}

/// A writer that compresses what is written into one gzip member on an
/// inner writer; `finalize` ends the DEFLATE stream and writes the
/// trailer, after which further writes fail.
pub struct GZipWriter<W> {
    pub gzip: GZip,
    inner_writer: W,
    deflator: Deflator,
    finalized: bool,
    size_acc: u32,
}

impl<W: ByteWriter> GZipWriter<W> {
    /// Structural well-formedness: the Deflator is mid-stream with raw
    /// framing, the running CRC-32 and length counter cover exactly the
    /// plaintext accepted so far.
    pub closed spec fn wf(&self) -> bool {
        &&& self.deflator.wf()
        &&& (!self.finalized ==> self.deflator.ready())
        &&& !self.deflator.is_freed()
        &&& !self.deflator.zlib_flag() && !self.deflator.adler_flag()
        &&& self.gzip.cmp_crc32 == crc32_of(self.deflator.accepted())
        &&& self.size_acc == self.deflator.accepted().len() % 0x100000000
    }

    /// The plaintext bytes accepted so far.
    pub closed spec fn accepted(&self) -> Seq<u8> {
        self.deflator.accepted()
    }

    /// The compressed bytes handed to the inner writer so far (after
    /// the header).
    pub closed spec fn delivered(&self) -> Seq<u8> {
        self.deflator.delivered()
    }

    /// Whether the member has been finalized.
    pub closed spec fn is_finalized(&self) -> bool {
        self.finalized
    }

    /// The CRC-32 written to the trailer, once finalized.
    pub closed spec fn stored_crc(&self) -> u32 {
        self.gzip.crc32
    }

    /// The plaintext length modulo 2^32 written to the trailer, once
    /// finalized.
    pub closed spec fn stored_isize(&self) -> u32 {
        self.gzip.original_size
    }

    /// The header fields of this member.
    pub closed spec fn header(&self) -> GZip {
        self.gzip
    }

    /// The compression level in effect.
    pub closed spec fn level(&self) -> u8 {
        self.deflator.level()
    }

    /// The bytes the inner writer has accepted.
    pub closed spec fn sink(&self) -> Seq<u8> {
        self.inner_writer.sink()
    }

    /// Whether the inner writer never cancels.
    pub closed spec fn never_cancels(&self) -> bool {
        self.inner_writer.never_cancels()
    }

    /// Create a writer for one gzip member with the default level and
    /// buffer size; the header is written immediately.
    pub fn new(inner_writer: W, file_name: &Vec<u8>, mtime: u32, file_size: u32) -> (r: Result<
        GZipWriter<W>,
        GzipError,
    >)
        requires
            forall|i: int| 0 <= i < file_name@.len() ==> file_name@[i] != 0,
        ensures
            r matches Ok(gw) ==> gw.wf() && !gw.is_finalized() && gw.accepted().len() == 0
                && gw.delivered().len() == 0 && gw.level() == clamped_level(
                crate::deflate::DEFAULT_COMPRESS_LEVEL,
            ),
    {
        GZipWriter::with_size_factor(
            inner_writer,
            file_name,
            mtime,
            file_size,
            crate::deflate::DEFAULT_COMPRESS_LEVEL,
            crate::deflate::DEFAULT_SIZE_FACTOR,
        )
    }

    /// Create a writer for one gzip member at the given level and
    /// buffer size factor; the header is written immediately.
    pub fn with_size_factor(
        inner_writer: W,
        file_name: &Vec<u8>,
        mtime: u32,
        file_size: u32,
        compress_level: usize,
        buf_size_factor: usize,
    ) -> (r: Result<GZipWriter<W>, GzipError>)
        requires
            forall|i: int| 0 <= i < file_name@.len() ==> file_name@[i] != 0,
        ensures
            r matches Ok(gw) ==> {
                &&& gw.wf()
                &&& !gw.is_finalized()
                &&& gw.accepted().len() == 0
                &&& gw.delivered().len() == 0
                &&& gw.level() == clamped_level(compress_level)
                &&& gw.never_cancels() == inner_writer.never_cancels()
                &&& ({
                    let g = gw.header();
                    &&& header_wf(g)
                    &&& g.id1 == 0x1f && g.id2 == 0x8b && g.compression == 8
                    &&& g.mtime == mtime
                    &&& g.xflags == 0 && g.os == 0
                    &&& g.xfield is None && g.comment is None && g.header_crc is None
                    &&& g.flags == (if file_name@.len() > 0 {
                        FNAME
                    } else {
                        0u8
                    })
                    &&& (file_name@.len() > 0 ==> (g.filename is Some && g.filename.unwrap()@
                        == file_name@))
                    &&& (file_name@.len() == 0 ==> g.filename is None)
                    &&& (inner_writer.never_cancels() ==> gw.sink() == inner_writer.sink()
                        + header_bytes(g))
                })
            },
    {
        let mut inner = inner_writer;
        let gzip = match GZip::compress_init(&mut inner, file_name, mtime, file_size) {
            Ok(g) => g,
            Err(e) => {
                return Err(e);
            },
        };
        let mut deflator = Deflator::with_size_factor(buf_size_factor);
        deflator.init(compress_level, false, false);
        let r = GZipWriter { gzip, inner_writer: inner, deflator, finalized: false, size_acc: 0 };
        proof {
            assert(crc32_of(Seq::<u8>::empty()) == 0) by {
                assert(crate::crc32::crc_fold(0xFFFFFFFFu32, Seq::<u8>::empty())
                    == 0xFFFFFFFFu32);
                assert(0xFFFFFFFFu32 ^ 0xFFFFFFFFu32 == 0) by (bit_vector);
                assert(0u32 ^ 0xFFFFFFFFu32 == 0xFFFFFFFFu32) by (bit_vector);
            };
        }
        Ok(r)
    }

    /// Feed one batch of plaintext to the member, updating the running
    /// CRC-32 and length; with `final_write` the member is finished and
    /// the trailer written.
    fn do_write(&mut self, output_buf: &Vec<u8>, final_write: bool) -> (r: Result<(), GzipError>)
        requires
            old(self).wf(),
        ensures
            old(self).is_finalized() ==> (r == Result::<(), GzipError>::Err(GzipError::Finalized)
                && *final(self) == *old(self)),
            final(self).never_cancels() == old(self).never_cancels(),
            r is Ok ==> final(self).wf(),
            r is Ok ==> final(self).accepted() == old(self).accepted() + output_buf@,
            r is Ok ==> final(self).level() == old(self).level(),
            r is Ok ==> old(self).delivered().is_prefix_of(final(self).delivered()),
            (r is Ok && !final_write) ==> (!final(self).is_finalized() && (old(self).never_cancels() ==> final(self).sink() == old(self).sink() + final(self).delivered().skip(old(self).delivered().len() as int))),
            (r is Ok && final_write) ==> ({
                let x = old(self).accepted() + output_buf@;
                &&& final(self).is_finalized()
                &&& final(self).stored_crc() == crc32_of(x)
                &&& final(self).stored_isize() == x.len() % 0x100000000
                &&& (old(self).never_cancels() ==> final(self).sink() == old(self).sink()
                    + deflate_of(x, old(self).level(), false, false).skip(
                    old(self).delivered().len() as int,
                ) + trailer_bytes(crc32_of(x), (x.len() % 0x100000000) as u32))
            }),
            (!old(self).is_finalized() && old(self).never_cancels()) ==> r is Ok,
            r is Err ==> (r == Result::<(), GzipError>::Err(GzipError::Finalized) || r
                == Result::<(), GzipError>::Err(GzipError::Aborted)),
            (!old(self).is_finalized() && r is Err) ==> r == Result::<(), GzipError>::Err(
                GzipError::Aborted,
            ),
            (r == Result::<(), GzipError>::Err(GzipError::Aborted)) ==> (final(self).is_finalized()
                && !old(self).never_cancels()),
    {
        if self.finalized {
            return Err(GzipError::Finalized);
        }
        let ghost acc_pre = self.deflator.accepted();
        let blen = output_buf.len();
        self.gzip.cmp_crc32 = update_crc(self.gzip.cmp_crc32, output_buf, 0, blen);
        proof {
            assert(output_buf@.subrange(0, blen as int) =~= output_buf@);
            lemma_crc32_update_append(0, acc_pre, output_buf@);
        }
        let bm = (blen as u64) % 0x100000000;
        self.size_acc = (((self.size_acc as u64) + bm) % 0x100000000) as u32;
        proof {
            vstd::arithmetic::div_mod::lemma_add_mod_noop(
                acc_pre.len() as int,
                blen as int,
                0x100000000,
            );
        }
        let status = self.deflator.compress_write(output_buf, final_write, &mut self.inner_writer);
        match status {
            Deflate_Status::Okay => Ok(()),
            Deflate_Status::Done => {
                self.gzip.crc32 = self.gzip.cmp_crc32;
                self.gzip.original_size = self.size_acc;
                self.gzip.write_end_section(&mut self.inner_writer);
                self.finalized = true;
                proof {
                    if old(self).never_cancels() {
                        assert(self.sink() =~= old(self).sink() + deflate_of(
                            old(self).accepted() + output_buf@,
                            old(self).level(),
                            false,
                            false,
                        ).skip(old(self).delivered().len() as int) + trailer_bytes(
                            crc32_of(old(self).accepted() + output_buf@),
                            ((old(self).accepted() + output_buf@).len() % 0x100000000) as u32,
                        ));
                    }
                }
                Ok(())
            },
            _ => {
                // the inner writer asked to cancel: the member is dead
                self.finalized = true;
                Err(GzipError::Aborted)
            },
        }
    }

    /// Feed one batch of plaintext to the member.
    pub fn write(&mut self, output_buf: &Vec<u8>) -> (r: Result<(), GzipError>)
        requires
            old(self).wf(),
        ensures
            old(self).is_finalized() ==> r == Result::<(), GzipError>::Err(GzipError::Finalized),
            (!old(self).is_finalized() && old(self).never_cancels()) ==> r is Ok,
            r is Err ==> (r == Result::<(), GzipError>::Err(GzipError::Finalized) || r
                == Result::<(), GzipError>::Err(GzipError::Aborted)),
            final(self).never_cancels() == old(self).never_cancels(),
            r is Ok ==> {
                &&& final(self).wf()
                &&& !final(self).is_finalized()
                &&& final(self).accepted() == old(self).accepted() + output_buf@
                &&& final(self).level() == old(self).level()
                &&& old(self).delivered().is_prefix_of(final(self).delivered())
                &&& (old(self).never_cancels() ==> final(self).sink() == old(self).sink() + final(self).delivered().skip(old(self).delivered().len() as int))
            },
    {
        self.do_write(output_buf, false)
    }

    /// Finish the member: drive the engine to the end of the stream,
    /// flush everything, and write the trailer. After this, writes fail;
    /// calling finalize again is a no-op.
    pub fn finalize(&mut self) -> (r: Result<(), GzipError>)
        requires
            old(self).wf(),
        ensures
            final(self).never_cancels() == old(self).never_cancels(),
            old(self).is_finalized() ==> (r is Ok && *final(self) == *old(self)),
            old(self).never_cancels() ==> r is Ok,
            r is Err ==> (r == Result::<(), GzipError>::Err(GzipError::Aborted) && final(self).is_finalized()),
            r is Ok ==> final(self).is_finalized(),
            (r is Ok && !old(self).is_finalized()) ==> ({
                let x = old(self).accepted();
                &&& final(self).stored_crc() == crc32_of(x)
                &&& final(self).stored_isize() == x.len() % 0x100000000
                &&& (old(self).never_cancels() ==> final(self).sink() == old(self).sink()
                    + deflate_of(x, old(self).level(), false, false).skip(
                    old(self).delivered().len() as int,
                ) + trailer_bytes(crc32_of(x), (x.len() % 0x100000000) as u32))
            }),
    {
        if self.finalized {
            return Ok(());
        }
        let empty_buf: Vec<u8> = Vec::new();
        let r = self.do_write(&empty_buf, true);
        proof {
            if r is Ok {
                assert(old(self).accepted() + empty_buf@ =~= old(self).accepted());
            }
        }
        r
    }

    /// Push buffered bytes of the inner writer onward.
    pub fn flush(&mut self)
        requires
            old(self).wf(),
        ensures
            final(self).wf(),
            final(self).sink() == old(self).sink(),
            final(self).never_cancels() == old(self).never_cancels(),
            final(self).accepted() == old(self).accepted(),
            final(self).is_finalized() == old(self).is_finalized(),
    {
        self.inner_writer.flush();
    }

    /// Give the inner writer back.
    pub fn inner(self) -> (r: W)
        ensures
            r.sink() == self.sink(),
    {
        self.inner_writer
    }
}

impl GZip {
    /// Inspect a member cheaply: parse the header from the reader and
    /// take the trailer fields from the last eight bytes of the file,
    /// which the caller supplies. Assumes a single-member file.
    pub fn read_info<R: ByteReader>(reader: &mut R, end_buf: &Vec<u8>) -> (r: Result<
        GZip,
        GzipError,
    >)
        requires
            end_buf@.len() == 8,
        ensures
            r matches Ok(g) ==> g.crc32 == le32_at(end_buf@, 0) && g.original_size == le32_at(
                end_buf@,
                4,
            ),
            (r == Result::<GZip, GzipError>::Err(GzipError::TooFewData)) <==> old(
                reader,
            ).stream().len() < 10,
            old(reader).stream().len() >= 10 ==> (r is Ok <==> (old(reader).stream()[0] == 0x1f
                && old(reader).stream()[1] == 0x8b && old(reader).stream()[2] == 8)),
            forall|g: GZip|
                (header_wf(g) && g.id1 == 0x1f && g.id2 == 0x8b && g.compression == 8
                    && #[trigger] header_bytes(g).is_prefix_of(old(reader).stream())) ==> (
                r is Ok && r.unwrap().flags == g.flags && r.unwrap().mtime == g.mtime && (g.flags
                    & FNAME == FNAME ==> r.unwrap().filename is Some
                    && r.unwrap().filename.unwrap()@ == g.filename.unwrap()@)),
    {
        let mut gzip = match GZip::decompress_init(reader) {
            Ok(g) => g,
            Err(e) => {
                return Err(e);
            },
        };
        match gzip.read_end_section(end_buf, end_buf.len()) {
            Ok(()) => {},
            Err(e) => {
                return Err(e);
            },
        }
        Ok(gzip)
    }
}

} // verus!