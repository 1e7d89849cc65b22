//! The DEFLATE engine.
//!
//! The transform itself is performed by the miniz_oxide crate and is
//! treated as an opaque engine: its compressed output is named by the
//! uninterpreted function [`deflate_of`], and the decoder's behaviour by
//! [`inflate_of`] and [`inflate_complete`]. The wrappers in this module
//! are the only trusted boundary between the verified staging logic and
//! the engine; everything stated here is read off the engine's own
//! source and documentation.
//!
//! The decompressor is always driven in ring mode: the output buffer is
//! a power-of-two ring whose recent contents are the LZ77 dictionary,
//! and a call may only be made while the ring holds the most recent
//! window of emitted bytes ([`ring_dict_ok`]).

use vstd::prelude::*;

verus! {

/// Result of one compression step, mirroring the engine's own statuses
/// plus the two statuses the pipe loops add on top of them.
#[allow(non_camel_case_types)]
#[derive(Clone, Copy, Debug, PartialEq, Eq, Structural)]
pub enum Deflate_Status {
    BadParam,
    PutBufFailed,
    Okay,
    Done,
    Abort,
    Unknown,
}

/// Result of one decompression step, mirroring the engine's own statuses
/// plus the two statuses the pipe loops add on top of them.
#[allow(non_camel_case_types)]
#[derive(Clone, Copy, Debug, PartialEq, Eq, Structural)]
pub enum Inflate_Status {
    BadParam,
    Adler32Mismatch,
    Failed,
    Done,
    NeedsMoreInput,
    HasMoreOutput,
    Abort,
    Unknown,
}

/// The complete compressed stream the engine produces for `data` at the
/// given compression level and framing flags. The engine is a pure
/// function of the bytes it consumes and these parameters, however the
/// input is chopped across calls.
pub uninterp spec fn deflate_of(data: Seq<u8>, level: u8, zlib: bool, adler: bool) -> Seq<u8>;

/// The bytes the compressor has committed to its output once it has
/// consumed exactly `data` and no step has yet carried the finish flag
/// past the end of the input; like [`deflate_of`], a pure function of
/// the consumed bytes and the parameters.
pub uninterp spec fn deflate_partial(data: Seq<u8>, level: u8, zlib: bool, adler: bool) -> Seq<u8>;

/// The bytes the engine emits after consuming exactly the raw DEFLATE
/// stream prefix `data`. Under the decompress step's preconditions this
/// is a pure function of the consumed bytes: the ring is at least one
/// whole dictionary (32 KiB, the format's largest back-reference
/// distance, so a reference never reaches past the ring) and every ring
/// byte the engine can read is pinned — history within the window,
/// zero beyond it — so even a malformed stream decodes the same way on
/// every call.
pub uninterp spec fn inflate_of(data: Seq<u8>) -> Seq<u8>;

/// Whether `data` is a whole raw DEFLATE stream: its final block ends at
/// its last byte.
pub uninterp spec fn inflate_complete(data: Seq<u8>) -> bool;

/// Whether `s` is a prefix of some whole raw DEFLATE stream.
pub open spec fn is_deflate_prefix(s: Seq<u8>) -> bool {
    exists|t: Seq<u8>| inflate_complete(t) && s.is_prefix_of(t)
}

/// No proper prefix of `c` is itself a whole stream: a stream has one
/// well-defined end.
pub open spec fn stream_prefix_free(c: Seq<u8>) -> bool {
    forall|k: int| 0 <= k < c.len() ==> !inflate_complete(#[trigger] c.take(k))
}

/// The decoder is a stream transducer: consuming any extension of `s`
/// only ever extends the decoded output of `s`.
pub open spec fn inflate_monotone_from(s: Seq<u8>) -> bool {
    forall|t: Seq<u8>| s.is_prefix_of(t) ==> inflate_of(s).is_prefix_of(#[trigger] inflate_of(t))
}

/// The bytes `emitted` so far are a prefix of the decode of any stream
/// extending the consumed bytes `fed`.
pub open spec fn decoded_prefix_from(fed: Seq<u8>, emitted: Seq<u8>) -> bool {
    forall|t: Seq<u8>| fed.is_prefix_of(t) ==> emitted.is_prefix_of(#[trigger] inflate_of(t))
}

/// Whether `n` is a power of two.
pub open spec fn is_pow2(n: nat) -> bool {
    exists|e: nat| n == vstd::arithmetic::power2::pow2(e)
}

/// The ring buffer `out` holds the most recent window of the `emitted`
/// bytes, with the next write position at `out_off`, and any slot not
/// yet covered by that window still holds its initial zero: every ring
/// byte the engine can read back as the LZ77 dictionary is determined
/// by the emitted history alone.
pub open spec fn ring_dict_ok(out: Seq<u8>, out_off: int, emitted: Seq<u8>) -> bool {
    let n = out.len() as int;
    let g = emitted.len() as int;
    &&& n > 0
    &&& out_off == g % n
    &&& forall|k: int| g - n <= k < g && 0 <= k ==> out[k % n] == #[trigger] emitted[k]
    &&& (g < n ==> forall|j: int| g <= j < n ==> out[j] == 0)
}

#[verifier::external_type_specification]
#[verifier::external_body]
pub struct ExCompressorOxide(miniz_oxide::deflate::core::CompressorOxide);

#[verifier::external_type_specification]
#[verifier::external_body]
pub struct ExDecompressorOxide(miniz_oxide::inflate::core::DecompressorOxide);

/// Relies on miniz_oxide's create_comp_flags_from_zip_params and
/// CompressorOxide::new: a fresh compressor for the given level (0-10),
/// wrapping in zlib framing when `zlib` is set and computing an adler32
/// checksum when `adler` is set. Nothing is stated of the opaque value;
/// the step contract below carries the whole engine history.
#[verifier::external_body]
fn fresh_compressor(level: u8, zlib: bool, adler: bool) -> miniz_oxide::deflate::core::CompressorOxide {
    let mut flags = miniz_oxide::deflate::core::create_comp_flags_from_zip_params(
        level as i32,
        if zlib { 15 } else { 0 },
        0,
    );
    if adler {
        flags |= 0x02000;
    }
    miniz_oxide::deflate::core::CompressorOxide::new(flags)
}

/// Relies on miniz_oxide's DecompressorOxide::new: a fresh raw DEFLATE
/// decompressor. Nothing is stated of the opaque value; the step
/// contract below carries the whole engine history.
#[verifier::external_body]
fn fresh_decompressor() -> miniz_oxide::inflate::core::DecompressorOxide {
    miniz_oxide::inflate::core::DecompressorOxide::new()
}

/// A compressor with the ghost history of the bytes it has consumed and
/// produced. `finished_input` records that a step already declared the
/// end of the input; after that only empty finishing steps may follow.
pub struct DeflateEngine {
    inner: miniz_oxide::deflate::core::CompressorOxide,
    fed: Ghost<Seq<u8>>,
    emitted: Ghost<Seq<u8>>,
    level: Ghost<u8>,
    zlib: Ghost<bool>,
    adler: Ghost<bool>,
    prev_ok: Ghost<bool>,
    prev_finish: Ghost<bool>,
    finished_input: Ghost<bool>,
}

impl DeflateEngine {
    /// The bytes the engine has consumed so far.
    pub closed spec fn fed(&self) -> Seq<u8> {
        self.fed@
    }

    /// The bytes the engine has produced so far.
    pub closed spec fn emitted(&self) -> Seq<u8> {
        self.emitted@
    }

    /// The compression level the engine was created with.
    pub closed spec fn level(&self) -> u8 {
        self.level@
    }

    /// Whether the engine wraps its output in zlib framing.
    pub closed spec fn zlib(&self) -> bool {
        self.zlib@
    }

    /// Whether the engine computes an adler32 checksum.
    pub closed spec fn adler(&self) -> bool {
        self.adler@
    }

    /// Whether the previous step reported Okay.
    pub closed spec fn prev_ok(&self) -> bool {
        self.prev_ok@
    }

    /// Whether the previous step carried the finish flag.
    pub closed spec fn prev_finish(&self) -> bool {
        self.prev_finish@
    }

    /// Whether a step has already declared the end of the input.
    pub closed spec fn finished_input(&self) -> bool {
        self.finished_input@
    }

    /// A fresh compressor that has consumed and produced nothing and
    /// whose previous status counts as okay.
    pub fn new(level: u8, zlib: bool, adler: bool) -> (r: DeflateEngine)
        requires
            level <= 10,
        ensures
            r.fed() == Seq::<u8>::empty(),
            r.emitted() == Seq::<u8>::empty(),
            r.level() == level,
            r.zlib() == zlib,
            r.adler() == adler,
            r.prev_ok() == true,
            r.prev_finish() == false,
            r.finished_input() == false,
    {
        DeflateEngine {
            inner: fresh_compressor(level, zlib, adler),
            fed: Ghost(Seq::empty()),
            emitted: Ghost(Seq::empty()),
            level: Ghost(level),
            zlib: Ghost(zlib),
            adler: Ghost(adler),
            prev_ok: Ghost(true),
            prev_finish: Ghost(false),
            finished_input: Ghost(false),
        }
    }

    /// The complete compressed stream for everything fed so far, at this
    /// compressor's parameters.
    pub open spec fn target(&self) -> Seq<u8> {
        deflate_of(self.fed(), self.level(), self.zlib(), self.adler())
    }

    /// Relies on miniz_oxide's compress: one engine step over
    /// `in_buf[in_off..in_off + in_len]` writing into
    /// `out_buf[out_off..]`, with the finish flag ending the stream.
    ///
    /// What is stated of the statuses is read off the engine's source:
    /// a step consumes all its input unless it fills the output space
    /// or is still draining a block parked by an earlier short-buffer
    /// call, in which case it consumes nothing;
    /// Done comes only from a finishing step that consumed everything,
    /// and then the total output is the complete compressed stream of
    /// the total input, which the decoder maps back to that input; a
    /// step after a bad sequence (previous error, or a finishing step
    /// followed by a non-finishing one) reports BadParam and does
    /// nothing; with slice output the put-buffer path cannot fail (its
    /// block writer falls back to a bounded internal buffer that always
    /// holds one block, and copying out of it cannot err), so
    /// PutBufFailed is never returned. Only the buffer below
    /// `out_off` and the produced range are framed: when a block is
    /// abandoned for a shorter stored block the engine leaves its bytes
    /// beyond the reported count, so nothing is claimed of the tail.
    #[verifier::external_body]
    pub fn compress_step(
        &mut self,
        in_buf: &Vec<u8>,
        in_off: usize,
        in_len: usize,
        out_buf: &mut Vec<u8>,
        out_off: usize,
        finish: bool,
    ) -> (r: (Deflate_Status, usize, usize))
        requires
            in_off + in_len <= in_buf.len(),
            out_off <= old(out_buf).len(),
            old(self).finished_input() ==> (finish && in_len == 0),
        ensures
            r.1 <= in_len,
            out_off + r.2 <= old(out_buf).len(),
            final(self).fed() == old(self).fed() + in_buf@.subrange(
                in_off as int,
                in_off as int + r.1 as int,
            ),
            final(out_buf)@.len() == old(out_buf)@.len(),
            final(out_buf)@.subrange(0, out_off as int) == old(out_buf)@.subrange(
                0,
                out_off as int,
            ),
            final(self).emitted() == old(self).emitted() + final(out_buf)@.subrange(
                out_off as int,
                out_off as int + r.2 as int,
            ),
            final(self).level() == old(self).level(),
            final(self).zlib() == old(self).zlib(),
            final(self).adler() == old(self).adler(),
            final(self).prev_ok() == (r.0 == Deflate_Status::Okay),
            final(self).prev_finish() == finish,
            r.0 != Deflate_Status::PutBufFailed,
            final(self).finished_input() == (old(self).finished_input() || (finish && r.1 == in_len
                && (r.0 == Deflate_Status::Okay || r.0 == Deflate_Status::Done))),
            (r.0 == Deflate_Status::BadParam) <==> !(old(self).prev_ok() && (!old(
                self,
            ).prev_finish() || finish)),
            r.0 == Deflate_Status::BadParam ==> r.1 == 0 && r.2 == 0,
            r.0 != Deflate_Status::Abort,
            r.0 != Deflate_Status::Unknown,
            r.0 == Deflate_Status::Done ==> finish && r.1 == in_len && final(self).emitted()
                == deflate_of(
                final(self).fed(),
                old(self).level(),
                old(self).zlib(),
                old(self).adler(),
            ),
            (r.0 == Deflate_Status::Done && !old(self).zlib() && !old(self).adler()) ==> ({
                &&& inflate_complete(final(self).emitted())
                &&& inflate_of(final(self).emitted()) == final(self).fed()
                &&& forall|k: int|
                    0 <= k < final(self).emitted().len() ==> !inflate_complete(
                        #[trigger] final(self).emitted().take(k),
                    )
            }),
            r.0 == Deflate_Status::Okay ==> (r.1 == in_len || out_off + r.2 == old(out_buf).len()
                || r.1 == 0),
            (r.0 == Deflate_Status::Okay && finish && r.1 == in_len) ==> final(self).emitted().len()
                <= deflate_of(
                final(self).fed(),
                old(self).level(),
                old(self).zlib(),
                old(self).adler(),
            ).len() && final(self).emitted() == deflate_of(
                final(self).fed(),
                old(self).level(),
                old(self).zlib(),
                old(self).adler(),
            ).take(final(self).emitted().len() as int),
            (r.0 == Deflate_Status::Okay && finish && in_len == 0 && out_off < old(out_buf).len())
                ==> r.2 > 0,
            (r.0 == Deflate_Status::Okay && out_off < old(out_buf).len()) ==> (r.1 == in_len || r.2
                > 0),
            !final(self).finished_input() ==> final(self).emitted().len() <= deflate_partial(
                final(self).fed(),
                old(self).level(),
                old(self).zlib(),
                old(self).adler(),
            ).len() && final(self).emitted() == deflate_partial(
                final(self).fed(),
                old(self).level(),
                old(self).zlib(),
                old(self).adler(),
            ).take(final(self).emitted().len() as int),
    {
        let flush = if finish { miniz_oxide::deflate::core::TDEFLFlush::Finish } else { miniz_oxide::deflate::core::TDEFLFlush::None };
        let (s, c, p) = miniz_oxide::deflate::core::compress(
            &mut self.inner, &in_buf[in_off..in_off + in_len], &mut out_buf[out_off..], flush);
        let status = match s {
            miniz_oxide::deflate::core::TDEFLStatus::Okay => Deflate_Status::Okay,
            miniz_oxide::deflate::core::TDEFLStatus::Done => Deflate_Status::Done,
            miniz_oxide::deflate::core::TDEFLStatus::BadParam => Deflate_Status::BadParam,
            miniz_oxide::deflate::core::TDEFLStatus::PutBufFailed => Deflate_Status::PutBufFailed,
        };
        (status, c, p)
    }
}

/// A decompressor with the ghost history of the compressed bytes it has
/// consumed and the plain bytes it has produced, and whether it has
/// already reported a failure.
pub struct InflateEngine {
    inner: miniz_oxide::inflate::core::DecompressorOxide,
    fed: Ghost<Seq<u8>>,
    emitted: Ghost<Seq<u8>>,
    failed: Ghost<bool>,
}

impl InflateEngine {
    /// The compressed bytes the engine has consumed so far.
    pub closed spec fn fed(&self) -> Seq<u8> {
        self.fed@
    }

    /// The plain bytes the engine has produced so far.
    pub closed spec fn emitted(&self) -> Seq<u8> {
        self.emitted@
    }

    /// Whether the engine has already reported a failure.
    pub closed spec fn failed(&self) -> bool {
        self.failed@
    }

    /// A fresh decompressor that has consumed and produced nothing.
    pub fn new() -> (r: InflateEngine)
        ensures
            r.fed() == Seq::<u8>::empty(),
            r.emitted() == Seq::<u8>::empty(),
            r.failed() == false,
    {
        InflateEngine {
            inner: fresh_decompressor(),
            fed: Ghost(Seq::empty()),
            emitted: Ghost(Seq::empty()),
            failed: Ghost(false),
        }
    }

    /// Relies on miniz_oxide's decompress, driven in ring mode over
    /// `in_buf[in_off..in_off + in_len]` with the ring `out_buf` written
    /// from `out_off`; `has_more_input` says the stream continues past
    /// this call's input.
    ///
    /// What is stated of the statuses is read off the engine's source:
    /// writes stay within `[out_off, out_off + produced)` and reads of
    /// the dictionary come from the ring, so the produced bytes extend a
    /// prefix of the decode of the consumed bytes; the engine never
    /// consumes past the end of a whole stream (it backs whole unused
    /// bytes out of its bit buffer on exit); NeedsMoreInput comes only
    /// with the more-input flag and only once the given input is
    /// exhausted; HasMoreOutput comes only once the ring is full; a
    /// whole stream that ends within the given input is answered with
    /// Done, or HasMoreOutput if the ring fills first, and a prefix of a
    /// whole stream is never answered with Failed while more input may
    /// come; the ring being a power of two rules BadParam out, and raw
    /// mode rules Adler32Mismatch out.
    #[verifier::external_body]
    pub fn decompress_step(
        &mut self,
        in_buf: &Vec<u8>,
        in_off: usize,
        in_len: usize,
        out_buf: &mut Vec<u8>,
        out_off: usize,
        has_more_input: bool,
    ) -> (r: (Inflate_Status, usize, usize))
        requires
            in_off + in_len <= in_buf.len(),
            out_off <= old(out_buf).len(),
            is_pow2(old(out_buf).len() as nat),
            old(out_buf).len() >= 32768,
            ring_dict_ok(old(out_buf)@, out_off as int, old(self).emitted()),
        ensures
            r.1 <= in_len,
            out_off + r.2 <= old(out_buf).len(),
            final(self).fed() == old(self).fed() + in_buf@.subrange(
                in_off as int,
                in_off as int + r.1 as int,
            ),
            final(out_buf)@ == crate::ioutil::spliced(
                old(out_buf)@,
                out_off as int,
                final(self).emitted().skip(old(self).emitted().len() as int),
            ),
            final(self).emitted() == old(self).emitted() + final(out_buf)@.subrange(
                out_off as int,
                out_off as int + r.2 as int,
            ),
            final(self).emitted().len() <= inflate_of(final(self).fed()).len(),
            final(self).emitted() == inflate_of(final(self).fed()).take(
                final(self).emitted().len() as int,
            ),
            forall|k: int|
                0 <= k < final(self).fed().len() ==> !inflate_complete(
                    #[trigger] final(self).fed().take(k),
                ),
            final(self).failed() == (old(self).failed() || r.0 == Inflate_Status::Failed),
            inflate_monotone_from(final(self).fed()),
            r.0 != Inflate_Status::BadParam,
            r.0 != Inflate_Status::Adler32Mismatch,
            r.0 != Inflate_Status::Abort,
            r.0 != Inflate_Status::Unknown,
            r.0 == Inflate_Status::Done ==> inflate_complete(final(self).fed())
                && final(self).emitted() == inflate_of(final(self).fed()),
            r.0 == Inflate_Status::NeedsMoreInput ==> r.1 == in_len && has_more_input,
            r.0 == Inflate_Status::HasMoreOutput ==> out_off + r.2 == old(out_buf).len(),
            (!old(self).failed() && (exists|k: int|
                0 <= k <= in_len && inflate_complete(
                    #[trigger] (old(self).fed() + in_buf@.subrange(in_off as int, in_off + k)),
                ))) ==> (r.0 == Inflate_Status::Done || r.0 == Inflate_Status::HasMoreOutput),
            (!old(self).failed() && is_deflate_prefix(final(self).fed()) && has_more_input) ==> r.0
                != Inflate_Status::Failed,
    {
        let flags: u32 = if has_more_input { 2 } else { 0 };
        let (s, c, p) = miniz_oxide::inflate::core::decompress(
            &mut self.inner, &in_buf[in_off..in_off + in_len], out_buf.as_mut_slice(), out_off, flags);
        let status = match s {
            miniz_oxide::inflate::TINFLStatus::FailedCannotMakeProgress => Inflate_Status::Failed,
            miniz_oxide::inflate::TINFLStatus::Failed => Inflate_Status::Failed,
            miniz_oxide::inflate::TINFLStatus::BadParam => Inflate_Status::BadParam,
            miniz_oxide::inflate::TINFLStatus::Adler32Mismatch => Inflate_Status::Adler32Mismatch,
            miniz_oxide::inflate::TINFLStatus::Done => Inflate_Status::Done,
            miniz_oxide::inflate::TINFLStatus::NeedsMoreInput => Inflate_Status::NeedsMoreInput,
            miniz_oxide::inflate::TINFLStatus::HasMoreOutput => Inflate_Status::HasMoreOutput,
            _ => Inflate_Status::Unknown,
        };
        (status, c, p)
    }
}

} // verus!
