//! Caller-driven and streaming DEFLATE compression and decompression
//! around the opaque engine, with owned staging buffers.
//!
//! A [`Deflator`] stages input and output around the compressor: input
//! is accepted in caller-sized batches, handed to the engine in staging
//! chunks, and compressed bytes are delivered to a writer whenever the
//! staging output fills or the stream ends.

use vstd::prelude::*;

use crate::engine::DeflateEngine;
use crate::engine::InflateEngine;
use crate::engine::Inflate_Status;
use crate::engine::Deflate_Status;
use crate::engine::deflate_of;
use crate::engine::deflate_partial;
use crate::engine::inflate_complete;
use crate::engine::inflate_of;
use crate::stream::ByteReader;
use crate::stream::ByteWriter;

verus! {

/// The smallest accepted buffer size factor: 2^5 KiB = 32 KiB.
pub const MIN_SIZE_FACTOR: usize = 5;

/// The default buffer size factor: 2^8 KiB = 256 KiB.
pub const DEFAULT_SIZE_FACTOR: usize = 8;

/// The largest accepted buffer size factor, a machine limit.
pub const MAX_SIZE_FACTOR: usize = 20;

/// The highest compression level; higher requests are clamped to it.
pub const MAX_COMPRESS_LEVEL: usize = 9;

/// The default compression level.
pub const DEFAULT_COMPRESS_LEVEL: usize = 6;

/// The size of the LZ77 dictionary, and so the least decompression ring
/// size and the slack added to the compressor's staging output buffer.
pub const MIN_DECOMPRESS_BUF_SIZE: usize = 32768;

/// The IO buffer size in bytes for a size factor: 1024 * 2^factor.
pub fn calc_buf_size(buf_size_factor: usize) -> (r: usize)
    requires
        buf_size_factor <= 20,
    ensures
        r == 1024 * vstd::arithmetic::power2::pow2(buf_size_factor as nat),
{
    crate::calc_buf_size(buf_size_factor)
}

/// A size factor clamped into the accepted range.
pub open spec fn clamped_factor(f: usize) -> usize {
    if f < MIN_SIZE_FACTOR {
        MIN_SIZE_FACTOR
    } else if f > MAX_SIZE_FACTOR {
        MAX_SIZE_FACTOR
    } else {
        f
    }
}

/// A compression level clamped to the highest accepted one.
pub open spec fn clamped_level(level: usize) -> u8 {
    if level <= MAX_COMPRESS_LEVEL {
        level as u8
    } else {
        MAX_COMPRESS_LEVEL as u8
    }
}

pub(crate) fn clamp_factor(f: usize) -> (r: usize)
    ensures
        r == clamped_factor(f),
        MIN_SIZE_FACTOR <= r <= MAX_SIZE_FACTOR,
{
    if f < MIN_SIZE_FACTOR {
        MIN_SIZE_FACTOR
    } else if f > MAX_SIZE_FACTOR {
        MAX_SIZE_FACTOR
    } else {
        f
    }
}

/// A zero-filled byte buffer of the given length.
pub(crate) fn zero_buf(len: usize) -> (r: Vec<u8>)
    ensures
        r@.len() == len,
        forall|i: int| 0 <= i < len ==> r@[i] == 0,
{
    let mut r: Vec<u8> = Vec::new();
    let mut i: usize = 0;
    while i < len
        invariant
            i <= len,
            r@.len() == i,
            forall|j: int| 0 <= j < i ==> r@[j] == 0,
        decreases len - i,
    {
        r.push(0u8);
        i = i + 1;
    }
    r
}

/// Compression over an engine with owned input and output staging.
pub struct Deflator {
    engine: DeflateEngine,
    in_buf: Vec<u8>,
    out_buf: Vec<u8>,
    in_offset: usize,
    in_buf_total: usize,
    out_offset: usize,
    delivered: Ghost<Seq<u8>>,
    initialized: bool,
    freed: bool,
}

impl Deflator {
    /// Structural well-formedness: cursor ordering, the sizing relation
    /// between the staging buffers, and the accounting between the
    /// engine's output and what has been delivered downstream.
    pub closed spec fn wf(&self) -> bool {
        &&& self.in_offset <= self.in_buf_total <= self.in_buf@.len()
        &&& self.out_offset <= self.out_buf@.len()
        &&& self.in_buf@.len() >= 32768
        &&& self.in_buf@.len() + 32768 == self.out_buf@.len()
        &&& self.engine.emitted() == self.delivered@ + self.out_buf@.subrange(
            0,
            self.out_offset as int,
        )
        &&& (self.engine.prev_ok() && !self.engine.finished_input())
            ==> self.engine.emitted().is_prefix_of(
            deflate_partial(
                self.engine.fed(),
                self.engine.level(),
                self.engine.zlib(),
                self.engine.adler(),
            ),
        )
        &&& (self.engine.prev_ok() && self.engine.finished_input())
            ==> self.engine.emitted().is_prefix_of(
            deflate_of(
                self.engine.fed(),
                self.engine.level(),
                self.engine.zlib(),
                self.engine.adler(),
            ),
        )
    }

    /// The input bytes accepted but not yet handed to the engine.
    pub closed spec fn staged(&self) -> Seq<u8> {
        self.in_buf@.subrange(self.in_offset as int, self.in_buf_total as int)
    }

    /// All input bytes accepted so far in this stream.
    pub closed spec fn accepted(&self) -> Seq<u8> {
        self.engine.fed() + self.staged()
    }

    /// All compressed bytes handed downstream so far.
    pub closed spec fn delivered(&self) -> Seq<u8> {
        self.delivered@
    }

    /// The size of the staging input buffer.
    pub closed spec fn buf_size(&self) -> nat {
        self.in_buf@.len()
    }

    /// Whether the underlying engine state has been freed.
    pub closed spec fn is_freed(&self) -> bool {
        self.freed
    }

    /// The compression level in effect.
    pub closed spec fn level(&self) -> u8 {
        self.engine.level()
    }

    /// Whether the stream carries a zlib wrapper.
    pub closed spec fn zlib_flag(&self) -> bool {
        self.engine.zlib()
    }

    /// Whether the engine computes an adler32 checksum.
    pub closed spec fn adler_flag(&self) -> bool {
        self.engine.adler()
    }

    /// Ready to accept input: initialized, not freed, and the engine is
    /// mid-stream with no error and no finish yet.
    pub closed spec fn ready(&self) -> bool {
        &&& self.initialized
        &&& !self.freed
        &&& self.engine.prev_ok()
        &&& !self.engine.prev_finish()
        &&& !self.engine.finished_input()
        &&& self.out_offset < self.out_buf@.len()
    }

    /// Freshly initialized: ready, with nothing accepted or delivered.
    pub open spec fn is_reset(&self) -> bool {
        &&& self.ready()
        &&& self.accepted() == Seq::<u8>::empty()
        &&& self.delivered() == Seq::<u8>::empty()
    }

    /// Create a Deflator with the default size factor.
    pub fn new() -> (r: Deflator)
        ensures
            r.wf(),
            !r.is_freed(),
            r.buf_size() == 32768,
            r.accepted() == Seq::<u8>::empty(),
            r.delivered() == Seq::<u8>::empty(),
            r.staged().len() == 0,
            r.staged_out().len() == 0,
    {
        proof {
            vstd::arithmetic::power2::lemma2_to64();
        }
        Deflator::with_size_factor(1)
    }

    /// Create a Deflator whose staging buffers hold `1024 * 2^factor`
    /// bytes (the output side with one dictionary of slack on top); the
    /// factor is clamped into the accepted range. The engine must still
    /// be initialized with `init` before compressing.
    pub fn with_size_factor(buf_size_factor: usize) -> (r: Deflator)
        ensures
            r.wf(),
            !r.is_freed(),
            r.buf_size() == 1024 * vstd::arithmetic::power2::pow2(
                clamped_factor(buf_size_factor) as nat,
            ),
            r.accepted() == Seq::<u8>::empty(),
            r.delivered() == Seq::<u8>::empty(),
            r.staged().len() == 0,
            r.staged_out().len() == 0,
    {
        let f = clamp_factor(buf_size_factor);
        let size = crate::calc_buf_size(f);
        proof {
            vstd::arithmetic::power2::lemma_pow2_adds(5, (f - 5) as nat);
            vstd::arithmetic::power2::lemma_pow2_pos((f - 5) as nat);
            vstd::arithmetic::power2::lemma2_to64();
        }
        Deflator {
            engine: DeflateEngine::new(0, false, false),
            in_buf: zero_buf(size),
            out_buf: zero_buf(size + MIN_DECOMPRESS_BUF_SIZE),
            in_offset: 0,
            in_buf_total: 0,
            out_offset: 0,
            delivered: Ghost(Seq::empty()),
            initialized: false,
            freed: false,
        }
    }

    /// Drop the engine state. The first call makes the Deflator
    /// unusable; calling free again is a no-op.
    pub fn free(&mut self)
        ensures
            final(self).is_freed(),
            old(self).is_freed() ==> *final(self) == *old(self),
            final(self).wf() == old(self).wf(),
            final(self).accepted() == old(self).accepted(),
            final(self).delivered() == old(self).delivered(),
            final(self).buf_size() == old(self).buf_size(),
    {
        self.freed = true;
    }

    /// Start (or restart) a compression stream: reset the engine at the
    /// clamped level and framing flags, and reset all cursors.
    pub fn init(&mut self, compress_level: usize, add_zlib_header: bool, add_crc32: bool) -> (r:
        Deflate_Status)
        requires
            old(self).wf(),
            !old(self).is_freed(),
        ensures
            final(self).wf(),
            final(self).is_reset(),
            !final(self).is_freed(),
            final(self).level() == clamped_level(compress_level),
            final(self).zlib_flag() == add_zlib_header,
            final(self).adler_flag() == add_crc32,
            final(self).buf_size() == old(self).buf_size(),
            forall|f: bool, n: int| final(self).can_step(f, n),
            final(self).staged_out().len() == 0,
            r == Deflate_Status::Okay,
    {
        let lvl: u8 = if compress_level > MAX_COMPRESS_LEVEL {
            MAX_COMPRESS_LEVEL as u8
        } else {
            compress_level as u8
        };
        self.engine = DeflateEngine::new(lvl, add_zlib_header, add_crc32);
        self.in_offset = 0;
        self.in_buf_total = 0;
        self.out_offset = 0;
        self.delivered = Ghost(Seq::empty());
        self.initialized = true;
        proof {
            assert(self.staged() =~= Seq::<u8>::empty());
            assert(self.accepted() =~= Seq::<u8>::empty());
            assert(self.out_buf@.subrange(0, 0) =~= Seq::<u8>::empty());
            assert(self.engine.emitted() =~= self.delivered@ + self.out_buf@.subrange(0, 0));
        }
        Deflate_Status::Okay
    }

    /// Compress one batch of input. The batch is fully accepted before
    /// returning; compressed bytes go to `writer` whenever the staging
    /// output fills. With `final_write` the stream is finished: the
    /// engine is driven to Done and everything is flushed, so that the
    /// writer has then received exactly the engine's complete compressed
    /// stream for all input accepted since `init`. A writer that asks to
    /// cancel aborts the batch.
    #[verifier::rlimit(80)]
    pub fn compress_write<W: ByteWriter>(
        &mut self,
        input_buf: &Vec<u8>,
        final_write: bool,
        writer: &mut W,
    ) -> (r: Deflate_Status)
        requires
            old(self).wf(),
            old(self).ready(),
        ensures
            final(self).wf(),
            final(writer).never_cancels() == old(writer).never_cancels(),
            !final(self).is_freed(),
            final(self).buf_size() == old(self).buf_size(),
            final(self).level() == old(self).level(),
            final(self).zlib_flag() == old(self).zlib_flag(),
            final(self).adler_flag() == old(self).adler_flag(),
            r == Deflate_Status::Done || r == Deflate_Status::Okay || r == Deflate_Status::Abort,
            old(writer).never_cancels() ==> r != Deflate_Status::Abort,
            (final_write && r != Deflate_Status::Abort) ==> r == Deflate_Status::Done,
            (!final_write && r != Deflate_Status::Abort) ==> r == Deflate_Status::Okay,
            (r == Deflate_Status::Okay && !final_write) ==> final(self).ready(),
            (r == Deflate_Status::Okay || r == Deflate_Status::Done) ==> {
                &&& final(self).accepted() == old(self).accepted() + input_buf@
                &&& old(self).delivered().is_prefix_of(final(self).delivered())
                &&& (old(writer).never_cancels() ==> final(writer).sink() == old(writer).sink()
                    + final(self).delivered().skip(old(self).delivered().len() as int))
            },
            r == Deflate_Status::Done ==> final(self).delivered() == deflate_of(
                old(self).accepted() + input_buf@,
                old(self).level(),
                old(self).zlib_flag(),
                old(self).adler_flag(),
            ),
            (r == Deflate_Status::Done && !old(self).zlib_flag() && !old(self).adler_flag()) ==> {
                &&& inflate_complete(final(self).delivered())
                &&& inflate_of(final(self).delivered()) == old(self).accepted() + input_buf@
                &&& forall|k: int|
                    0 <= k < final(self).delivered().len() ==> !inflate_complete(
                        #[trigger] final(self).delivered().take(k),
                    )
            },
    {
        let ghost a0 = old(self).accepted();
        let ghost d0 = old(self).delivered();
        let ghost s0 = old(writer).sink();
        let ghost lvl = old(self).level();
        let ghost zl = old(self).zlib_flag();
        let ghost ad = old(self).adler_flag();
        let input_total = input_buf.len();
        let mut input_offset: usize = 0;
        loop
            invariant
                a0 == old(self).accepted(),
                d0 == old(self).delivered(),
                s0 == old(writer).sink(),
                lvl == old(self).level(),
                zl == old(self).zlib_flag(),
                ad == old(self).adler_flag(),
                self.wf(),
                self.initialized,
                !self.freed,
                self.engine.prev_ok(),
                self.engine.level() == lvl,
                self.engine.zlib() == zl,
                self.engine.adler() == ad,
                self.buf_size() == old(self).buf_size(),
                input_total == input_buf@.len(),
                input_offset <= input_total,
                self.engine.prev_finish() ==> (final_write && input_offset == input_total),
                self.engine.finished_input() ==> (final_write && input_offset == input_total
                    && self.staged().len() == 0),
                self.accepted() == a0 + input_buf@.take(input_offset as int),
                d0.is_prefix_of(self.delivered@),
                old(writer).never_cancels() ==> writer.sink() == s0 + self.delivered@.skip(
                    d0.len() as int,
                ),
                writer.never_cancels() == old(writer).never_cancels(),
                self.out_offset < self.out_buf@.len(),
            decreases
                    (input_total - input_offset) + (self.in_buf_total - self.in_offset),
                    (if self.engine.finished_input() {
                        0int
                    } else {
                        1int
                    }),
                    (if self.engine.finished_input() {
                        deflate_of(self.engine.fed(), lvl, zl, ad).len() as int
                            - self.engine.emitted().len() as int
                    } else {
                        deflate_partial(self.engine.fed(), lvl, zl, ad).len() as int
                            - self.engine.emitted().len() as int
                    }),
        {
            // Refill the staging input from the batch when it is empty.
            if self.in_offset == self.in_buf_total {
                let room = self.in_buf.len();
                let rest = input_total - input_offset;
                let copy_len = if room < rest {
                    room
                } else {
                    rest
                };
                let ghost fed_now = self.engine.fed();
                crate::ioutil::copy_bytes(&mut self.in_buf, 0, input_buf, input_offset, copy_len);
                input_offset = input_offset + copy_len;
                self.in_offset = 0;
                self.in_buf_total = copy_len;
                proof {
                    assert(self.staged() =~= input_buf@.subrange(
                        input_offset - copy_len,
                        input_offset as int,
                    ));
                    assert(fed_now + self.staged() =~= a0 + input_buf@.take(input_offset as int));
                }
            }
            let in_len = self.in_buf_total - self.in_offset;
            let final_input = final_write && input_offset == input_total;
            let ghost pre = *self;
            let (status, c, p) = self.engine.compress_step(
                &self.in_buf,
                self.in_offset,
                in_len,
                &mut self.out_buf,
                self.out_offset,
                final_input,
            );
            self.in_offset = self.in_offset + c;
            self.out_offset = self.out_offset + p;
            proof {
                // the staging output grew by exactly the new engine output
                let delta = self.engine.emitted().skip(pre.engine.emitted().len() as int);
                assert(self.engine.emitted() =~= pre.engine.emitted() + delta);
                assert(self.out_buf@.subrange(0, self.out_offset as int) =~= pre.out_buf@.subrange(
                    0,
                    pre.out_offset as int,
                ) + delta);
                assert(self.engine.emitted() =~= self.delivered@ + self.out_buf@.subrange(
                    0,
                    self.out_offset as int,
                ));
                // the engine consumed a prefix of the staged bytes
                assert(pre.staged().take(c as int) =~= pre.in_buf@.subrange(
                    pre.in_offset as int,
                    pre.in_offset as int + c as int,
                ));
                assert(self.staged() =~= pre.staged().skip(c as int));
                assert(self.accepted() =~= pre.accepted()) by {
                    assert(pre.staged().take(c as int) + pre.staged().skip(c as int)
                        =~= pre.staged());
                    assert((pre.engine.fed() + pre.staged().take(c as int)) + pre.staged().skip(
                        c as int,
                    ) =~= pre.engine.fed() + pre.staged());
                };
            }
            match status {
                Deflate_Status::Okay => {
                    if self.out_offset == self.out_buf.len() {
                        let ghost pending = self.out_buf@.subrange(0, self.out_offset as int);
                        let cancel = writer.write(&self.out_buf, self.out_offset, false);
                        proof {
                            if old(writer).never_cancels() {
                                assert(s0 + self.delivered@.skip(d0.len() as int) + pending =~= s0
                                    + (self.delivered@ + pending).skip(d0.len() as int));
                            }
                        }
                        self.delivered = Ghost(self.delivered@ + pending);
                        self.out_offset = 0;
                        proof {
                            assert(self.engine.emitted() =~= self.delivered@
                                + self.out_buf@.subrange(0, 0));
                        }
                        if cancel {
                            return Deflate_Status::Abort;
                        }
                    }
                    if !final_write && input_offset == input_total {
                        return Deflate_Status::Okay;
                    }
                },
                Deflate_Status::Done => {
                    let ghost pending = self.out_buf@.subrange(0, self.out_offset as int);
                    let cancel = writer.write(&self.out_buf, self.out_offset, true);
                    proof {
                        if old(writer).never_cancels() {
                            assert(s0 + self.delivered@.skip(d0.len() as int) + pending =~= s0 + (
                            self.delivered@ + pending).skip(d0.len() as int));
                        }
                    }
                    self.delivered = Ghost(self.delivered@ + pending);
                    self.out_offset = 0;
                    proof {
                        assert(self.engine.emitted() =~= self.delivered@ + self.out_buf@.subrange(
                            0,
                            0,
                        ));
                        assert(input_buf@.take(input_offset as int) =~= input_buf@);
                        assert(self.delivered@ =~= self.engine.emitted());
                    }
                    if cancel {
                        return Deflate_Status::Abort;
                    }
                    return Deflate_Status::Done;
                },
                _ => {
                    return status;
                },
            }
        }
    }

    /// Whether a single-step call with these arguments respects the
    /// engine's protocol: initialized, not freed, no earlier error, a
    /// finishing step never followed by a non-finishing one, and only
    /// empty finishing steps once the end of the input was declared.
    pub closed spec fn can_step(&self, final_input: bool, in_bytes: int) -> bool {
        &&& self.initialized
        &&& !self.freed
        &&& self.engine.prev_ok()
        &&& (self.engine.prev_finish() ==> final_input)
        &&& (self.engine.finished_input() ==> (final_input && in_bytes == 0))
    }

    /// Compressed bytes sitting in the staging output buffer, not yet
    /// handed to a writer.
    pub closed spec fn staged_out(&self) -> Seq<u8> {
        self.out_buf@.subrange(0, self.out_offset as int)
    }

    /// One engine step over caller-supplied buffers: compress
    /// `in_buf[in_offset..in_offset + in_bytes]` into
    /// `out_buf[out_offset..]`, returning the status with the counts of
    /// bytes consumed and produced. The staging buffers are bypassed, so
    /// this form must not be mixed with a batch whose input is still
    /// staged. On Done the bytes produced across all calls form exactly
    /// the engine's complete compressed stream for all input consumed.
    pub fn compress_buf(
        &mut self,
        in_buf: &Vec<u8>,
        in_offset: usize,
        in_bytes: usize,
        out_buf: &mut Vec<u8>,
        out_offset: usize,
        final_input: bool,
    ) -> (r: (Deflate_Status, usize, usize))
        requires
            old(self).wf(),
            old(self).can_step(final_input, in_bytes as int),
            old(self).staged().len() == 0,
            old(self).staged_out().len() == 0,
            in_offset + in_bytes <= in_buf.len(),
            out_offset <= old(out_buf).len(),
        ensures
            final(self).wf(),
            !final(self).is_freed(),
            final(self).buf_size() == old(self).buf_size(),
            final(self).level() == old(self).level(),
            final(self).zlib_flag() == old(self).zlib_flag(),
            final(self).adler_flag() == old(self).adler_flag(),
            final(self).staged().len() == 0,
            final(self).staged_out().len() == 0,
            r.1 <= in_bytes,
            out_offset + r.2 <= old(out_buf).len(),
            final(out_buf)@.len() == old(out_buf)@.len(),
            final(out_buf)@.subrange(0, out_offset as int) == old(out_buf)@.subrange(
                0,
                out_offset as int,
            ),
            final(self).accepted() == old(self).accepted() + in_buf@.subrange(
                in_offset as int,
                in_offset as int + r.1 as int,
            ),
            final(self).delivered() == old(self).delivered() + final(out_buf)@.subrange(
                out_offset as int,
                out_offset as int + r.2 as int,
            ),
            r.0 == Deflate_Status::Okay || r.0 == Deflate_Status::Done,
            r.0 == Deflate_Status::Done ==> final_input,
            r.0 == Deflate_Status::Okay ==> (r.1 == in_bytes || out_offset + r.2 == old(
                out_buf,
            ).len() || r.1 == 0),
            r.0 == Deflate_Status::Okay ==> final(self).can_step(true, 0),
            (r.0 == Deflate_Status::Okay && !final_input) ==> final(self).ready(),
            (r.0 == Deflate_Status::Okay && out_offset < old(out_buf).len()) ==> (r.1 == in_bytes
                || r.2 > 0),
            (r.0 == Deflate_Status::Okay && final_input && in_bytes == 0 && out_offset < old(
                out_buf,
            ).len()) ==> r.2 > 0,
            r.0 == Deflate_Status::Done ==> r.1 == in_bytes && final(self).delivered()
                == deflate_of(
                final(self).accepted(),
                old(self).level(),
                old(self).zlib_flag(),
                old(self).adler_flag(),
            ),
            (r.0 == Deflate_Status::Done && !old(self).zlib_flag() && !old(self).adler_flag())
                ==> inflate_complete(final(self).delivered()) && inflate_of(final(self).delivered())
                == final(self).accepted(),
    {
        let ghost emi0 = self.engine.emitted();
        let (status, c, p) = self.engine.compress_step(
            in_buf,
            in_offset,
            in_bytes,
            out_buf,
            out_offset,
            final_input,
        );
        let ghost delta = self.engine.emitted().skip(emi0.len() as int);
        proof {
            assert(self.engine.emitted() =~= emi0 + delta);
        }
        self.delivered = Ghost(self.delivered@ + delta);
        proof {
            assert(self.staged() =~= Seq::<u8>::empty());
            assert(self.accepted() =~= self.engine.fed());
            assert(old(self).accepted() =~= old(self).engine.fed()) by {
                assert(old(self).engine.fed() + old(self).staged() =~= old(self).engine.fed());
            };
            assert(self.engine.emitted() =~= self.delivered@ + self.out_buf@.subrange(
                0,
                self.out_offset as int,
            )) by {
                assert(old(self).out_buf@.subrange(0, old(self).out_offset as int) =~= Seq::<
                    u8,
                >::empty());
                assert(emi0 =~= old(self).delivered());
                assert(self.out_buf@.subrange(0, self.out_offset as int) =~= Seq::<u8>::empty());
                assert(self.delivered@ + Seq::<u8>::empty() =~= self.delivered@);
            };
        }
        (status, c, p)
    }

    /// Drive a whole compression internally: read plain bytes from
    /// `reader` until end of stream, and hand compressed bytes to
    /// `writer` whenever the staging output fills and once more at the
    /// end. A cancelling writer aborts the pipe.
    #[verifier::rlimit(80)]
    pub fn compress_pipe<R: ByteReader, W: ByteWriter>(
        &mut self,
        reader: &mut R,
        writer: &mut W,
    ) -> (r: Deflate_Status)
        requires
            old(self).wf(),
            old(self).ready(),
        ensures
            final(self).wf(),
            final(writer).never_cancels() == old(writer).never_cancels(),
            !final(self).is_freed(),
            final(self).buf_size() == old(self).buf_size(),
            final(self).level() == old(self).level(),
            final(self).zlib_flag() == old(self).zlib_flag(),
            final(self).adler_flag() == old(self).adler_flag(),
            r == Deflate_Status::Done || r == Deflate_Status::Abort,
            old(writer).never_cancels() ==> r == Deflate_Status::Done,
            r == Deflate_Status::Done ==> {
                &&& final(reader).stream().len() == 0
                &&& final(self).accepted() == old(self).accepted() + old(reader).stream()
                &&& old(self).delivered().is_prefix_of(final(self).delivered())
                &&& (old(writer).never_cancels() ==> final(writer).sink() == old(writer).sink()
                    + final(self).delivered().skip(old(self).delivered().len() as int))
                &&& final(self).delivered() == deflate_of(
                    old(self).accepted() + old(reader).stream(),
                    old(self).level(),
                    old(self).zlib_flag(),
                    old(self).adler_flag(),
                )
            },
            (r == Deflate_Status::Done && !old(self).zlib_flag() && !old(self).adler_flag()) ==> {
                &&& inflate_complete(final(self).delivered())
                &&& inflate_of(final(self).delivered()) == old(self).accepted() + old(
                    reader,
                ).stream()
                &&& forall|k: int|
                    0 <= k < final(self).delivered().len() ==> !inflate_complete(
                        #[trigger] final(self).delivered().take(k),
                    )
            },
    {
        let ghost a0 = old(self).accepted();
        let ghost d0 = old(self).delivered();
        let ghost s0 = old(writer).sink();
        let ghost x0 = old(reader).stream();
        let ghost lvl = old(self).level();
        let ghost zl = old(self).zlib_flag();
        let ghost ad = old(self).adler_flag();
        loop
            invariant
                a0 == old(self).accepted(),
                d0 == old(self).delivered(),
                s0 == old(writer).sink(),
                x0 == old(reader).stream(),
                lvl == old(self).level(),
                zl == old(self).zlib_flag(),
                ad == old(self).adler_flag(),
                self.wf(),
                self.initialized,
                !self.freed,
                self.engine.prev_ok(),
                self.engine.level() == lvl,
                self.engine.zlib() == zl,
                self.engine.adler() == ad,
                self.buf_size() == old(self).buf_size(),
                a0.len() <= self.accepted().len(),
                self.accepted().len() - a0.len() <= x0.len(),
                self.accepted() == a0 + x0.take(self.accepted().len() - a0.len()),
                reader.stream() == x0.skip(self.accepted().len() - a0.len()),
                self.engine.prev_finish() ==> (reader.stream().len() == 0 && self.in_buf_total
                    == 0),
                self.engine.finished_input() ==> (reader.stream().len() == 0 && self.in_buf_total
                    == 0),
                d0.is_prefix_of(self.delivered@),
                old(writer).never_cancels() ==> writer.sink() == s0 + self.delivered@.skip(
                    d0.len() as int,
                ),
                writer.never_cancels() == old(writer).never_cancels(),
                self.out_offset < self.out_buf@.len(),
            decreases
                    reader.stream().len() + (self.in_buf_total - self.in_offset),
                    (if self.engine.finished_input() {
                        0int
                    } else {
                        1int
                    }),
                    (if self.engine.finished_input() {
                        deflate_of(self.engine.fed(), lvl, zl, ad).len() as int
                            - self.engine.emitted().len() as int
                    } else {
                        deflate_partial(self.engine.fed(), lvl, zl, ad).len() as int
                            - self.engine.emitted().len() as int
                    }),
        {
            // Refill the staging input from the reader when it is empty.
            if self.in_offset == self.in_buf_total {
                let ghost fed_now = self.engine.fed();
                let ghost stream_now = reader.stream();
                let chunk = reader.read(self.in_buf.len());
                let got = chunk.len();
                crate::ioutil::copy_bytes(&mut self.in_buf, 0, &chunk, 0, got);
                self.in_offset = 0;
                self.in_buf_total = got;
                proof {
                    let k = fed_now.len() - a0.len();
                    assert(fed_now =~= a0 + x0.take(k)) by {
                        assert(fed_now + Seq::<u8>::empty() =~= fed_now);
                    };
                    assert(0 <= k <= x0.len());
                    assert(got <= x0.len() - k);
                    assert(self.staged() =~= chunk@);
                    assert(chunk@ =~= x0.skip(k).take(got as int));
                    assert(x0.take(k) + x0.skip(k).take(got as int) =~= x0.take(k + got));
                    assert(self.accepted() =~= a0 + x0.take(k + got));
                    assert(self.accepted().len() - a0.len() == k + got);
                    assert(x0.skip(k).skip(got as int) =~= x0.skip(k + got));
                    assert(reader.stream() =~= x0.skip(k + got));
                }
            }
            let in_len = self.in_buf_total - self.in_offset;
            let final_input = self.in_buf_total == 0;
            let ghost pre = *self;
            let (status, c, p) = self.engine.compress_step(
                &self.in_buf,
                self.in_offset,
                in_len,
                &mut self.out_buf,
                self.out_offset,
                final_input,
            );
            self.in_offset = self.in_offset + c;
            self.out_offset = self.out_offset + p;
            proof {
                let delta = self.engine.emitted().skip(pre.engine.emitted().len() as int);
                assert(self.engine.emitted() =~= pre.engine.emitted() + delta);
                assert(self.out_buf@.subrange(0, self.out_offset as int) =~= pre.out_buf@.subrange(
                    0,
                    pre.out_offset as int,
                ) + delta);
                assert(self.engine.emitted() =~= self.delivered@ + self.out_buf@.subrange(
                    0,
                    self.out_offset as int,
                ));
                assert(pre.staged().take(c as int) =~= pre.in_buf@.subrange(
                    pre.in_offset as int,
                    pre.in_offset as int + c as int,
                ));
                assert(self.staged() =~= pre.staged().skip(c as int));
                assert(self.accepted() =~= pre.accepted()) by {
                    assert(pre.staged().take(c as int) + pre.staged().skip(c as int)
                        =~= pre.staged());
                    assert((pre.engine.fed() + pre.staged().take(c as int)) + pre.staged().skip(
                        c as int,
                    ) =~= pre.engine.fed() + pre.staged());
                };
            }
            match status {
                Deflate_Status::Okay => {
                    if self.out_offset == self.out_buf.len() {
                        let ghost pending = self.out_buf@.subrange(0, self.out_offset as int);
                        let cancel = writer.write(&self.out_buf, self.out_offset, false);
                        if cancel {
                            return Deflate_Status::Abort;
                        }
                        proof {
                            assert(s0 + self.delivered@.skip(d0.len() as int) + pending =~= s0 + (
                            self.delivered@ + pending).skip(d0.len() as int));
                        }
                        self.delivered = Ghost(self.delivered@ + pending);
                        self.out_offset = 0;
                        proof {
                            assert(self.engine.emitted() =~= self.delivered@
                                + self.out_buf@.subrange(0, 0));
                        }
                    }
                },
                Deflate_Status::Done => {
                    let ghost pending = self.out_buf@.subrange(0, self.out_offset as int);
                    let _ = writer.write(&self.out_buf, self.out_offset, true);
                    proof {
                        if old(writer).never_cancels() {
                            assert(s0 + self.delivered@.skip(d0.len() as int) + pending =~= s0 + (
                            self.delivered@ + pending).skip(d0.len() as int));
                        }
                    }
                    self.delivered = Ghost(self.delivered@ + pending);
                    self.out_offset = 0;
                    proof {
                        assert(self.engine.emitted() =~= self.delivered@ + self.out_buf@.subrange(
                            0,
                            0,
                        ));
                        assert(self.delivered@ =~= self.engine.emitted());
                        assert(x0.take(self.accepted().len() - a0.len()) =~= x0);
                        assert(self.accepted() =~= a0 + x0);
                    }
                    return Deflate_Status::Done;
                },
                _ => {
                    return status;
                },
            }
        }
    }

    /// Adapter form of the compression pipe over a reader and a writer.
    pub fn compress_pipe_rw<R: ByteReader, W: ByteWriter>(
        &mut self,
        in_reader: &mut R,
        out_writer: &mut W,
    ) -> (r: Deflate_Status)
        requires
            old(self).wf(),
            old(self).ready(),
        ensures
            final(self).wf(),
            final(out_writer).never_cancels() == old(out_writer).never_cancels(),
            r == Deflate_Status::Done || r == Deflate_Status::Abort,
            old(out_writer).never_cancels() ==> r == Deflate_Status::Done,
            r == Deflate_Status::Done ==> {
                &&& final(in_reader).stream().len() == 0
                &&& final(self).accepted() == old(self).accepted() + old(in_reader).stream()
                &&& (old(out_writer).never_cancels() ==> final(out_writer).sink() == old(
                    out_writer,
                ).sink() + final(self).delivered().skip(old(self).delivered().len() as int))
                &&& final(self).delivered() == deflate_of(
                    old(self).accepted() + old(in_reader).stream(),
                    old(self).level(),
                    old(self).zlib_flag(),
                    old(self).adler_flag(),
                )
            },
    {
        self.compress_pipe(in_reader, out_writer)
    }
}

/// The ring window of recently emitted bytes survives one engine write:
/// if the ring held the last window of `emi0` before `delta` was written
/// at `off`, it holds the last window of `emi0 + delta` afterwards.
proof fn lemma_ring_window_step(out0: Seq<u8>, out1: Seq<u8>, off: int, delta: Seq<u8>, emi0: Seq<
    u8,
>, q: int)
    requires
        out0.len() > 0,
        out1.len() == out0.len(),
        0 <= off,
        off + delta.len() <= out0.len(),
        q >= 0,
        emi0.len() == q * out0.len() + off,
        forall|k: int|
            emi0.len() - out0.len() <= k < emi0.len() && 0 <= k ==> out0[k % out0.len() as int]
                == #[trigger] emi0[k],
        out1 == crate::ioutil::spliced(out0, off, delta),
    ensures
        forall|k: int|
            emi0.len() + delta.len() - out0.len() <= k < emi0.len() + delta.len() && 0 <= k
                ==> out1[k % out0.len() as int] == #[trigger] (emi0 + delta)[k],
{
    let n = out0.len() as int;
    let g = emi0.len() as int;
    let p = delta.len() as int;
    assert forall|k: int| g + p - n <= k < g + p && 0 <= k implies out1[k % n] == (emi0 + delta)[k]
        by {
        if k >= g {
            let j = k - g;
            assert(k == q * n + (off + j));
            vstd::arithmetic::div_mod::lemma_fundamental_div_mod_converse_mod(k, n, q, off + j);
            assert(out1[off + j] == delta[j]);
        } else {
            let d = g - k;
            assert(emi0[k] == (emi0 + delta)[k]);
            if off - d >= 0 {
                assert(k == q * n + (off - d));
                vstd::arithmetic::div_mod::lemma_fundamental_div_mod_converse_mod(k, n, q, off - d);
                assert(out1[off - d] == out0[off - d]);
                assert(out0[k % n] == emi0[k]);
            } else {
                assert((q - 1) * n == q * n - n) by (nonlinear_arith);
                assert(k == (q - 1) * n + (off - d + n));
                vstd::arithmetic::div_mod::lemma_fundamental_div_mod_converse_mod(
                    k,
                    n,
                    q - 1,
                    off - d + n,
                );
                assert(off - d + n >= off + p);
                assert(out1[off - d + n] == out0[off - d + n]);
                assert(out0[k % n] == emi0[k]);
            }
        }
    }
}

/// Dictionary preservation: the decompressed output is a function of
/// the consumed compressed bytes alone, so two runs that consume the
/// same stream produce byte-identical output however their input was
/// chopped across calls and however their rings were drained.
pub proof fn lemma_dictionary_preservation(c: Seq<u8>, out1: Seq<u8>, out2: Seq<u8>)
    requires
        out1 == inflate_of(c),
        out2 == inflate_of(c),
    ensures
        out1 == out2,
{
}

/// Copy `buf[from..to]` into a fresh vector.
pub(crate) fn copy_range(buf: &Vec<u8>, from: usize, to: usize) -> (r: Vec<u8>)
    requires
        from <= to <= buf.len(),
    ensures
        r@ == buf@.subrange(from as int, to as int),
{
    let mut r: Vec<u8> = Vec::new();
    let mut i: usize = from;
    while i < to
        invariant
            from <= i <= to <= buf.len(),
            r@ == buf@.subrange(from as int, i as int),
        decreases to - i,
    {
        r.push(buf[i]);
        i = i + 1;
        assert(r@ =~= buf@.subrange(from as int, i as int));
    }
    r
}

/// Decompression over an engine with an input staging buffer and a
/// power-of-two output ring that preserves the LZ77 dictionary across
/// calls: the ring is drained from `out_begin` to `out_offset` and only
/// reset once fully drained and either full or finished.
pub struct Inflator {
    engine: InflateEngine,
    in_buf: Vec<u8>,
    out_buf: Vec<u8>,
    in_offset: usize,
    in_buf_total: usize,
    out_begin: usize,
    out_offset: usize,
    decomp_done: bool,
    cycles: Ghost<nat>,
    delivered: Ghost<Seq<u8>>,
    freed: bool,
}

impl Inflator {
    /// Structural well-formedness: cursor ordering, the power-of-two
    /// ring holding the most recent window of engine output, and the
    /// accounting between engine output, the undrained ring backlog, and
    /// what has been delivered.
    pub closed spec fn wf(&self) -> bool {
        let n = self.out_buf@.len() as int;
        let g = self.engine.emitted().len() as int;
        &&& self.in_offset <= self.in_buf_total <= self.in_buf@.len()
        &&& self.in_buf@.len() >= 32768
        &&& self.out_begin <= self.out_offset <= self.out_buf@.len()
        &&& self.out_buf@.len() >= 65536
        &&& crate::engine::is_pow2(self.out_buf@.len() as nat)
        &&& g == (self.cycles@ as int) * n + self.out_offset
        &&& forall|k: int|
            g - n <= k < g && 0 <= k ==> self.out_buf@[k % n] == #[trigger] self.engine.emitted()[k]
        &&& (g < n ==> forall|j: int| g <= j < n ==> self.out_buf@[j] == 0)
        &&& self.engine.emitted() == self.delivered@ + self.out_buf@.subrange(
            self.out_begin as int,
            self.out_offset as int,
        )
        &&& crate::engine::decoded_prefix_from(self.engine.fed(), self.engine.emitted())
        &&& forall|k: int|
            0 <= k < self.engine.fed().len() ==> !inflate_complete(
                #[trigger] self.engine.fed().take(k),
            )
        &&& self.decomp_done ==> (inflate_complete(self.engine.fed()) && self.engine.emitted()
            == inflate_of(self.engine.fed()))
    }

    /// At rest between calls, an unfinished ring is either untouched or
    /// completely full; it is partially filled only while the engine is
    /// being driven.
    pub closed spec fn resting(&self) -> bool {
        !self.decomp_done ==> (self.out_offset == 0 || self.out_offset == self.out_buf@.len())
    }

    /// The compressed bytes consumed by the engine so far.
    pub closed spec fn compressed(&self) -> Seq<u8> {
        self.engine.fed()
    }

    /// The plain bytes produced by the engine so far.
    pub closed spec fn produced(&self) -> Seq<u8> {
        self.engine.emitted()
    }

    /// The plain bytes already drained to the caller.
    pub closed spec fn delivered(&self) -> Seq<u8> {
        self.delivered@
    }

    /// The input bytes read from upstream but not yet consumed by the
    /// engine.
    pub closed spec fn staged(&self) -> Seq<u8> {
        self.in_buf@.subrange(self.in_offset as int, self.in_buf_total as int)
    }

    /// Whether the engine has reached the end of the compressed stream.
    pub closed spec fn done_flag(&self) -> bool {
        self.decomp_done
    }

    /// Whether the engine has reported a failure.
    pub closed spec fn is_failed(&self) -> bool {
        self.engine.failed()
    }

    /// Whether the underlying engine state has been freed.
    pub closed spec fn is_freed(&self) -> bool {
        self.freed
    }

    /// The size of the staging input buffer.
    pub closed spec fn buf_size(&self) -> nat {
        self.in_buf@.len()
    }

    /// The size of the output ring.
    pub closed spec fn ring_size(&self) -> nat {
        self.out_buf@.len()
    }

    /// A fresh Inflator: nothing consumed, produced, staged, delivered,
    /// failed, or finished.
    pub open spec fn pristine(&self) -> bool {
        &&& self.compressed() == Seq::<u8>::empty()
        &&& self.produced() == Seq::<u8>::empty()
        &&& self.delivered() == Seq::<u8>::empty()
        &&& self.staged() == Seq::<u8>::empty()
        &&& !self.done_flag()
        &&& !self.is_failed()
        &&& !self.is_freed()
    }

    /// Create an Inflator with the default size factor.
    pub fn new() -> (r: Inflator)
        ensures
            r.wf(),
            r.resting(),
            r.pristine(),
            r.buf_size() == 32768,
            r.ring_size() == 65536,
    {
        proof {
            vstd::arithmetic::power2::lemma2_to64();
        }
        Inflator::with_size_factor(1)
    }

    /// Create an Inflator whose staging input buffer holds
    /// `1024 * 2^factor` bytes and whose output ring holds twice that;
    /// the factor is clamped into the accepted range.
    pub fn with_size_factor(buf_size_factor: usize) -> (r: Inflator)
        ensures
            r.wf(),
            r.resting(),
            r.pristine(),
            r.buf_size() == 1024 * vstd::arithmetic::power2::pow2(
                clamped_factor(buf_size_factor) as nat,
            ),
            r.ring_size() == 2 * r.buf_size(),
    {
        let f = clamp_factor(buf_size_factor);
        let size = crate::calc_buf_size(f);
        proof {
            vstd::arithmetic::power2::lemma_pow2_adds(5, (f - 5) as nat);
            vstd::arithmetic::power2::lemma_pow2_pos((f - 5) as nat);
            vstd::arithmetic::power2::lemma_pow2_adds(10, f as nat);
            vstd::arithmetic::power2::lemma_pow2_adds(11, f as nat);
            vstd::arithmetic::power2::lemma_pow2_adds(1, (10 + f) as nat);
            vstd::arithmetic::power2::lemma2_to64();
        }
        let r = Inflator {
            engine: InflateEngine::new(),
            in_buf: zero_buf(size),
            out_buf: zero_buf(2 * size),
            in_offset: 0,
            in_buf_total: 0,
            out_begin: 0,
            out_offset: 0,
            decomp_done: false,
            cycles: Ghost(0nat),
            delivered: Ghost(Seq::empty()),
            freed: false,
        };
        proof {
            assert(r.out_buf@.len() == vstd::arithmetic::power2::pow2((11 + f) as nat));
            assert(crate::engine::is_pow2(r.out_buf@.len() as nat));
            assert(r.engine.emitted() =~= r.delivered@ + r.out_buf@.subrange(0, 0));
            assert(r.staged() =~= Seq::<u8>::empty());
            assert(crate::engine::decoded_prefix_from(r.engine.fed(), r.engine.emitted())) by {
                assert forall|t: Seq<u8>|
                    r.engine.fed().is_prefix_of(t) implies r.engine.emitted().is_prefix_of(
                    #[trigger] inflate_of(t),
                ) by {
                    assert(r.engine.emitted() =~= inflate_of(t).take(0));
                };
            };
            assert(r.in_offset <= r.in_buf_total <= r.in_buf@.len());
            assert(r.in_buf@.len() >= 32768);
            assert(r.out_begin <= r.out_offset <= r.out_buf@.len());
            assert(r.out_buf@.len() >= 65536);
            assert(crate::engine::is_pow2(r.out_buf@.len() as nat));
            assert(r.engine.emitted().len() as int == (r.cycles@ as int) * (r.out_buf@.len() as int)
                + r.out_offset) by {
                assert((0int) * (r.out_buf@.len() as int) == 0) by (nonlinear_arith);
            };
            assert(forall|k: int|
                r.engine.emitted().len() - r.out_buf@.len() <= k < r.engine.emitted().len() && 0
                    <= k ==> r.out_buf@[k % (r.out_buf@.len() as int)]
                    == #[trigger] r.engine.emitted()[k]);
            assert(forall|k: int|
                0 <= k < r.engine.fed().len() ==> !inflate_complete(
                    #[trigger] r.engine.fed().take(k),
                ));
            assert(r.wf());
        }
        r
    }

    /// Drop the engine state. The first call makes the Inflator
    /// unusable; calling free again is a no-op.
    pub fn free(&mut self)
        ensures
            final(self).is_freed(),
            old(self).is_freed() ==> *final(self) == *old(self),
            final(self).wf() == old(self).wf(),
            final(self).resting() == old(self).resting(),
            final(self).compressed() == old(self).compressed(),
            final(self).delivered() == old(self).delivered(),
    {
        self.freed = true;
    }

    /// The number of input bytes read from upstream but not consumed by
    /// the engine; after the end of the stream these are the bytes that
    /// follow it.
    pub fn get_rest_len(&self) -> (r: usize)
        requires
            self.wf(),
        ensures
            r == self.staged().len(),
    {
        self.in_buf_total - self.in_offset
    }

    /// The input bytes read from upstream but not consumed by the
    /// engine; after the end of the stream these are the bytes that
    /// follow it.
    pub fn get_rest(&self) -> (r: Vec<u8>)
        requires
            self.wf(),
        ensures
            r@ == self.staged(),
    {
        copy_range(&self.in_buf, self.in_offset, self.in_buf_total)
    }

    /// Read one caller-sized chunk of decompressed bytes. Buffered bytes
    /// in the ring are drained first; only when the ring is fully
    /// drained is the engine run to refill it, which may read from
    /// `reader` repeatedly. An empty chunk is returned exactly when the
    /// end of the compressed stream has been reached (or the request was
    /// for zero bytes), and on every call after that.
    #[verifier::rlimit(100)]
    pub fn decompress_read<R: ByteReader>(&mut self, reader: &mut R, out_len: usize) -> (r: Result<
        Vec<u8>,
        Inflate_Status,
    >)
        requires
            old(self).wf(),
            old(self).resting(),
            !old(self).is_freed(),
            !old(self).is_failed(),
        ensures
            final(self).wf(),
            r is Ok ==> final(self).resting(),
            !final(self).is_freed(),
            final(self).buf_size() == old(self).buf_size(),
            final(self).ring_size() == old(self).ring_size(),
            old(self).compressed().is_prefix_of(final(self).compressed()),
            old(self).delivered().is_prefix_of(final(self).delivered()),
            final(reader).stream().len() <= old(reader).stream().len(),
            final(self).compressed().skip(old(self).compressed().len() as int) + final(self).staged() + final(reader).stream() == old(self).staged() + old(reader).stream(),
            old(self).done_flag() ==> (final(self).done_flag() && final(self).compressed() == old(self).compressed() && final(self).staged() == old(self).staged()),
            forall|k: int|
                0 <= k < final(self).compressed().len() ==> !inflate_complete(
                    #[trigger] final(self).compressed().take(k),
                ),
            forall|t: Seq<u8>|
                final(self).compressed().is_prefix_of(t) ==> final(self).delivered().is_prefix_of(
                    #[trigger] inflate_of(t),
                ),
            final(self).done_flag() ==> (inflate_complete(final(self).compressed()) && final(self).produced() == inflate_of(final(self).compressed())),
            r is Ok ==> !final(self).is_failed(),
            r matches Ok(v) ==> v@.len() <= out_len && final(self).delivered() == old(self).delivered() + v@,
            r matches Ok(v) && v@.len() == 0 && out_len > 0 ==> (final(self).done_flag() && final(self).delivered() == inflate_of(final(self).compressed())),
            r matches Err(s) ==> s == Inflate_Status::Failed && final(self).is_failed(),
            forall|c: Seq<u8>|
                (inflate_complete(c) && crate::engine::stream_prefix_free(c) && old(self).compressed().is_prefix_of(c) && c.is_prefix_of(
                    old(self).compressed() + old(self).staged() + old(reader).stream(),
                )) ==> r is Ok,
    {
        let ghost f0 = old(self).compressed();
        let ghost st0 = old(self).staged();
        let ghost x0 = old(reader).stream();
        let ghost d0 = old(self).delivered();
        if out_len == 0 {
            let v: Vec<u8> = Vec::new();
            proof {
                assert(self.compressed().skip(f0.len() as int) + self.staged() + reader.stream()
                    =~= st0 + x0);
                assert(self.delivered() =~= d0 + v@);
            }
            return Ok(v);
        }
        // Drain buffered output first.
        let avail = self.out_offset - self.out_begin;
        if avail > 0 {
            let m = if out_len < avail {
                out_len
            } else {
                avail
            };
            let v = copy_range(&self.out_buf, self.out_begin, self.out_begin + m);
            let ghost backlog = self.out_buf@.subrange(self.out_begin as int, self.out_offset as int);
            self.out_begin = self.out_begin + m;
            self.delivered = Ghost(self.delivered@ + v@);
            proof {
                assert(v@ + self.out_buf@.subrange(self.out_begin as int, self.out_offset as int)
                    =~= backlog);
                assert(self.engine.emitted() =~= self.delivered@ + self.out_buf@.subrange(
                    self.out_begin as int,
                    self.out_offset as int,
                ));
                assert(self.compressed().skip(f0.len() as int) + self.staged() + reader.stream()
                    =~= st0 + x0);
                assert forall|t: Seq<u8>| self.compressed().is_prefix_of(t) implies self.delivered(
                ).is_prefix_of(#[trigger] inflate_of(t)) by {
                    assert(self.engine.emitted().is_prefix_of(inflate_of(t)));
                    assert(self.delivered() =~= inflate_of(t).take(self.delivered().len() as int));
                };
            }
            return Ok(v);
        }
        if self.decomp_done {
            let v: Vec<u8> = Vec::new();
            proof {
                assert(self.compressed().skip(f0.len() as int) + self.staged() + reader.stream()
                    =~= st0 + x0);
                assert(self.delivered() =~= d0 + v@);
                assert(self.delivered() =~= self.engine.emitted()) by {
                    assert(self.out_buf@.subrange(self.out_begin as int, self.out_offset as int)
                        =~= Seq::<u8>::empty());
                    assert(self.delivered@ + Seq::<u8>::empty() =~= self.delivered@);
                };
                assert forall|t: Seq<u8>| self.compressed().is_prefix_of(t) implies self.delivered(
                ).is_prefix_of(#[trigger] inflate_of(t)) by {
                    assert(self.engine.emitted().is_prefix_of(inflate_of(t)));
                };
            }
            return Ok(v);
        }
        // The ring is fully drained and the stream is not finished:
        // reset the cursors (a whole number of ring cycles has been
        // produced) and refill the ring from the engine.
        proof {
            assert(self.out_offset == 0 || self.out_offset == self.out_buf@.len());
        }
        if self.out_offset == self.out_buf.len() {
            self.cycles = Ghost(self.cycles@ + 1);
            proof {
                assert((self.cycles@ as int) * (self.out_buf@.len() as int) == ((self.cycles@
                    as int) - 1) * (self.out_buf@.len() as int) + self.out_buf@.len())
                    by (nonlinear_arith);
            }
        }
        self.out_begin = 0;
        self.out_offset = 0;
        proof {
            assert(self.engine.emitted() =~= self.delivered@ + self.out_buf@.subrange(0, 0));
        }
        let ghost dv = self.delivered@;
        loop
            invariant_except_break
                !self.decomp_done,
                self.out_offset < self.out_buf@.len(),
            invariant
                !old(self).done_flag(),
                f0 == old(self).compressed(),
                st0 == old(self).staged(),
                x0 == old(reader).stream(),
                dv == self.delivered@,
                d0 == old(self).delivered(),
                d0.is_prefix_of(dv),
                dv == self.engine.emitted().take(dv.len() as int),
                dv.len() <= self.engine.emitted().len(),
                self.wf(),
                !self.freed,
                !self.engine.failed(),
                self.out_begin == 0,
                self.buf_size() == old(self).buf_size(),
                self.ring_size() == old(self).ring_size(),
                f0.is_prefix_of(self.compressed()),
                reader.stream().len() <= x0.len(),
                self.compressed().skip(f0.len() as int) + self.staged() + reader.stream() == st0
                    + x0,
            ensures
                self.decomp_done || self.out_offset == self.out_buf@.len(),
            decreases (self.in_buf_total - self.in_offset) + reader.stream().len(),
        {
            // Refill the staging input from the reader when it is empty.
            if self.in_offset == self.in_buf_total {
                let ghost fed_now = self.engine.fed();
                let ghost stream_now = reader.stream();
                let chunk = reader.read(self.in_buf.len());
                let got = chunk.len();
                crate::ioutil::copy_bytes(&mut self.in_buf, 0, &chunk, 0, got);
                self.in_offset = 0;
                self.in_buf_total = got;
                proof {
                    assert(self.staged() =~= chunk@);
                    assert(self.compressed().skip(f0.len() as int) + self.staged()
                        + reader.stream() =~= st0 + x0) by {
                        assert(chunk@ + stream_now.skip(got as int) =~= stream_now);
                        assert(self.compressed().skip(f0.len() as int) + Seq::<u8>::empty()
                            + stream_now =~= self.compressed().skip(f0.len() as int) + stream_now);
                        assert(self.compressed().skip(f0.len() as int) + (chunk@ + stream_now.skip(
                            got as int,
                        )) =~= self.compressed().skip(f0.len() as int) + chunk@ + stream_now.skip(
                            got as int,
                        ));
                    };
                }
            }
            let in_len = self.in_buf_total - self.in_offset;
            let has_more = self.in_buf_total != 0;
            let ghost pre = *self;
            let ghost rpre = reader.stream();
            proof {
                vstd::arithmetic::div_mod::lemma_fundamental_div_mod_converse_mod(
                    self.engine.emitted().len() as int,
                    self.out_buf@.len() as int,
                    self.cycles@ as int,
                    self.out_offset as int,
                );
            }
            let (status, c, p) = self.engine.decompress_step(
                &self.in_buf,
                self.in_offset,
                in_len,
                &mut self.out_buf,
                self.out_offset,
                has_more,
            );
            self.in_offset = self.in_offset + c;
            self.out_offset = self.out_offset + p;
            proof {
                let delta = self.engine.emitted().skip(pre.engine.emitted().len() as int);
                assert(self.engine.emitted() =~= pre.engine.emitted() + delta);
                lemma_ring_window_step(
                    pre.out_buf@,
                    self.out_buf@,
                    pre.out_offset as int,
                    delta,
                    pre.engine.emitted(),
                    pre.cycles@ as int,
                );
                assert(self.out_buf@.subrange(0, self.out_offset as int) =~= pre.out_buf@.subrange(
                    0,
                    pre.out_offset as int,
                ) + delta);
                assert(self.engine.emitted() =~= self.delivered@ + self.out_buf@.subrange(
                    0,
                    self.out_offset as int,
                ));
                assert(dv =~= self.engine.emitted().take(dv.len() as int));
                assert(pre.staged().take(c as int) =~= pre.in_buf@.subrange(
                    pre.in_offset as int,
                    pre.in_offset as int + c as int,
                ));
                assert(self.staged() =~= pre.staged().skip(c as int));
                assert(self.compressed().skip(f0.len() as int) + self.staged() + reader.stream()
                    =~= st0 + x0) by {
                    assert(self.compressed() =~= pre.compressed() + pre.staged().take(c as int));
                    assert(self.compressed().skip(f0.len() as int) =~= pre.compressed().skip(
                        f0.len() as int,
                    ) + pre.staged().take(c as int));
                    assert(pre.compressed().skip(f0.len() as int) + pre.staged().take(c as int)
                        + pre.staged().skip(c as int) + reader.stream() =~= pre.compressed().skip(
                        f0.len() as int,
                    ) + pre.staged() + reader.stream());
                };
                assert(crate::engine::decoded_prefix_from(self.engine.fed(), self.engine.emitted()))
                    by {
                    assert forall|t: Seq<u8>|
                        self.engine.fed().is_prefix_of(t) implies self.engine.emitted(
                    ).is_prefix_of(#[trigger] inflate_of(t)) by {
                        assert(inflate_of(self.engine.fed()).is_prefix_of(inflate_of(t)));
                        assert(self.engine.emitted() =~= inflate_of(t).take(
                            self.engine.emitted().len() as int,
                        ));
                    };
                };
            }
            match status {
                Inflate_Status::NeedsMoreInput | Inflate_Status::HasMoreOutput => {
                    if self.out_offset == self.out_buf.len() {
                        break ;
                    }
                },
                Inflate_Status::Done => {
                    self.decomp_done = true;
                    break ;
                },
                _ => {
                    proof {
                        let total0 = f0 + st0 + x0;
                        assert forall|cc: Seq<u8>|
                            (inflate_complete(cc) && crate::engine::stream_prefix_free(cc)
                                && f0.is_prefix_of(cc) && cc.is_prefix_of(total0)) implies false by {
                            let fed1 = self.engine.fed();
                            assert(fed1 + (self.staged() + reader.stream()) =~= total0) by {
                                assert(f0 + self.compressed().skip(f0.len() as int) =~= fed1);
                                assert(f0 + (self.compressed().skip(f0.len() as int) + self.staged()
                                    + reader.stream()) =~= total0);
                            };
                            assert(fed1.is_prefix_of(total0)) by {
                                assert(fed1 =~= total0.take(fed1.len() as int));
                            };
                            // the consumed bytes lie within the whole stream cc
                            if cc.len() < fed1.len() {
                                assert(cc =~= fed1.take(cc.len() as int));
                                assert(!inflate_complete(fed1.take(cc.len() as int)));
                                assert(false);
                            }
                            assert(fed1.is_prefix_of(cc)) by {
                                assert(fed1 =~= cc.take(fed1.len() as int));
                            };
                            assert(crate::engine::is_deflate_prefix(fed1));
                            if has_more {
                                assert(status != Inflate_Status::Failed);
                                assert(false);
                            } else {
                                // end of input: everything upstream is consumed,
                                // so the whole stream ends exactly at the bytes fed
                                assert(pre.staged().len() == 0);
                                assert(reader.stream().len() == 0 && rpre.len() == 0);
                                assert(self.staged().len() == 0);
                                assert(cc =~= fed1);
                                assert(fed1 =~= pre.engine.fed());
                                assert(inflate_complete(pre.engine.fed() + self.in_buf@.subrange(
                                    pre.in_offset as int,
                                    pre.in_offset as int + 0,
                                ))) by {
                                    assert(pre.engine.fed() + self.in_buf@.subrange(
                                        pre.in_offset as int,
                                        pre.in_offset as int,
                                    ) =~= fed1);
                                };
                                assert(status == Inflate_Status::Done || status
                                    == Inflate_Status::HasMoreOutput);
                                assert(false);
                            }
                        };
                    }
                    return Err(status);
                },
            }
        }
        // Drain the first chunk of the freshly filled ring.
        let avail2 = self.out_offset;
        let m = if out_len < avail2 {
            out_len
        } else {
            avail2
        };
        let v = copy_range(&self.out_buf, 0, m);
        let ghost backlog = self.out_buf@.subrange(0, self.out_offset as int);
        self.out_begin = m;
        self.delivered = Ghost(self.delivered@ + v@);
        proof {
            assert(v@ + self.out_buf@.subrange(self.out_begin as int, self.out_offset as int)
                =~= backlog);
            assert(self.engine.emitted() =~= self.delivered@ + self.out_buf@.subrange(
                self.out_begin as int,
                self.out_offset as int,
            ));
            assert(self.delivered() =~= d0 + self.delivered().skip(d0.len() as int));
            assert(self.delivered@ =~= d0 + (dv.skip(d0.len() as int) + v@)) by {
                assert(d0 + dv.skip(d0.len() as int) =~= dv);
            };
            assert forall|t: Seq<u8>| self.compressed().is_prefix_of(t) implies self.delivered(
            ).is_prefix_of(#[trigger] inflate_of(t)) by {
                assert(self.engine.emitted().is_prefix_of(inflate_of(t)));
                assert(self.delivered() =~= inflate_of(t).take(self.delivered().len() as int));
            };
            if v@.len() == 0 {
                assert(self.decomp_done);
                assert(self.out_offset == 0);
                assert(self.delivered() =~= self.engine.emitted());
            }
        }
        // the delivered bytes grew by exactly this chunk
        proof {
            assert(self.delivered@ =~= (dv + v@));
        }
        if v.len() == 0 && !self.decomp_done {
            proof {
                assert(self.out_offset == self.out_buf@.len());
                assert(false);
            }
        }
        Ok(v)
    }

    /// One engine step over the ring: start a new cycle when the ring
    /// is full, feed the staged input with the more-input flag set, and
    /// record the produced bytes as undrained backlog. A Failed answer
    /// means the consumed bytes are no prefix of any whole stream.
    #[verifier::rlimit(100)]
    #[verifier::spinoff_prover]
    fn ring_step(&mut self) -> (r: Inflate_Status)
        requires
            old(self).wf(),
            !old(self).is_failed(),
            !old(self).done_flag(),
            old(self).out_begin == old(self).out_offset,
        ensures
            final(self).wf(),
            final(self).delivered() == old(self).delivered(),
            final(self).buf_size() == old(self).buf_size(),
            final(self).ring_size() == old(self).ring_size(),
            final(self).is_freed() == old(self).is_freed(),
            old(self).compressed().is_prefix_of(final(self).compressed()),
            final(self).compressed().skip(old(self).compressed().len() as int) + final(self).staged() == old(self).staged(),
            r == Inflate_Status::Done || r == Inflate_Status::NeedsMoreInput || r
                == Inflate_Status::HasMoreOutput || r == Inflate_Status::Failed,
            (r == Inflate_Status::Failed) <==> final(self).is_failed(),
            final(self).done_flag() <==> r == Inflate_Status::Done,
            r == Inflate_Status::NeedsMoreInput ==> final(self).staged().len() == 0,
            r == Inflate_Status::Failed ==> !crate::engine::is_deflate_prefix(
                final(self).compressed(),
            ),
            forall|k: int|
                (0 <= k <= old(self).staged().len() && #[trigger] inflate_complete(
                    old(self).compressed() + old(self).staged().take(k),
                )) ==> (r == Inflate_Status::Done || r == Inflate_Status::HasMoreOutput),
    {
        let ghost stg0 = old(self).staged();
        // A full drained ring starts a new cycle; a partly filled one is
        // continued in place.
        if self.out_offset == self.out_buf.len() {
            self.cycles = Ghost(self.cycles@ + 1);
            proof {
                assert((self.cycles@ as int) * (self.out_buf@.len() as int) == ((self.cycles@
                    as int) - 1) * (self.out_buf@.len() as int) + self.out_buf@.len())
                    by (nonlinear_arith);
            }
            self.out_begin = 0;
            self.out_offset = 0;
        }
        proof {
            assert(self.engine.emitted() =~= self.delivered@ + self.out_buf@.subrange(
                self.out_begin as int,
                self.out_offset as int,
            ));
        }
        let in_len = self.in_buf_total - self.in_offset;
        let ghost pre = *self;
        proof {
            vstd::arithmetic::div_mod::lemma_fundamental_div_mod_converse_mod(
                self.engine.emitted().len() as int,
                self.out_buf@.len() as int,
                self.cycles@ as int,
                self.out_offset as int,
            );
        }
        let (status, c, p) = self.engine.decompress_step(
            &self.in_buf,
            self.in_offset,
            in_len,
            &mut self.out_buf,
            self.out_offset,
            true,
        );
        self.in_offset = self.in_offset + c;
        self.out_offset = self.out_offset + p;
        proof {
            let n = self.out_buf@.len() as int;
            let delta = self.engine.emitted().skip(pre.engine.emitted().len() as int);
            assert(self.engine.emitted() =~= pre.engine.emitted() + delta);
            lemma_ring_window_step(
                pre.out_buf@,
                self.out_buf@,
                pre.out_offset as int,
                delta,
                pre.engine.emitted(),
                pre.cycles@ as int,
            );
            assert(self.out_buf@.subrange(self.out_begin as int, self.out_offset as int)
                =~= pre.out_buf@.subrange(pre.out_begin as int, pre.out_offset as int) + delta);
            assert(self.engine.emitted() =~= self.delivered@ + self.out_buf@.subrange(
                self.out_begin as int,
                self.out_offset as int,
            ));
            if self.engine.emitted().len() < n {
                let q = pre.cycles@ as int;
                assert(q * n + pre.out_offset + delta.len() < n);
                assert(q == 0) by (nonlinear_arith)
                    requires
                        q >= 0,
                        n > 0,
                        q * n + pre.out_offset + delta.len() < n,
                        pre.out_offset >= 0,
                        delta.len() >= 0,
                ;
                assert(q * n == 0) by (nonlinear_arith)
                    requires
                        q == 0,
                ;
                assert forall|j: int|
                    self.engine.emitted().len() <= j < n implies self.out_buf@[j] == 0 by {
                    assert(pre.engine.emitted().len() == pre.out_offset as int);
                    assert(pre.out_buf@[j] == 0);
                    assert(self.out_buf@[j] == pre.out_buf@[j]);
                };
            }
            assert(pre.staged().take(c as int) =~= pre.in_buf@.subrange(
                pre.in_offset as int,
                pre.in_offset as int + c as int,
            ));
            assert(self.staged() =~= pre.staged().skip(c as int));
            assert(self.compressed().skip(pre.compressed().len() as int)
                + self.staged() =~= stg0) by {
                assert(self.compressed() =~= pre.compressed() + stg0.take(c as int));
                assert(self.compressed().skip(pre.compressed().len() as int) =~= stg0.take(
                    c as int,
                ));
                assert(stg0.take(c as int) + stg0.skip(c as int) =~= stg0);
            };
            assert(crate::engine::decoded_prefix_from(self.engine.fed(), self.engine.emitted()))
                by {
                assert forall|t: Seq<u8>|
                    self.engine.fed().is_prefix_of(t) implies self.engine.emitted(
                ).is_prefix_of(#[trigger] inflate_of(t)) by {
                    assert(inflate_of(self.engine.fed()).is_prefix_of(inflate_of(t)));
                    assert(self.engine.emitted() =~= inflate_of(t).take(
                        self.engine.emitted().len() as int,
                    ));
                };
            };
        }
        proof {
            assert forall|k: int|
                (0 <= k <= stg0.len() && inflate_complete(
                    old(self).compressed() + stg0.take(k),
                )) implies (status == Inflate_Status::Done || status
                == Inflate_Status::HasMoreOutput) by {
                assert(pre.engine.fed() + pre.in_buf@.subrange(
                    pre.in_offset as int,
                    pre.in_offset as int + k,
                ) =~= old(self).compressed() + stg0.take(k));
            };
        }
        match status {
            Inflate_Status::Done => {
                self.decomp_done = true;
                Inflate_Status::Done
            },
            Inflate_Status::Failed => {
                proof {
                    assert(self.out_buf@.subrange(self.out_begin as int, self.out_offset as int)
                        == self.engine.emitted().skip(self.delivered@.len() as int));
                }
                Inflate_Status::Failed
            },
            Inflate_Status::NeedsMoreInput => Inflate_Status::NeedsMoreInput,
            _ => Inflate_Status::HasMoreOutput,
        }
    }

    /// One staging-level decompression call over caller-supplied
    /// buffers: take up to `in_bytes` compressed bytes from
    /// `in_buf[in_offset..]`, drive the engine at most one step, and
    /// write up to the space after `out_offset` in `out_buf`. A taken
    /// byte not yet decompressed is retained in the staging buffer and
    /// must not be offered again; the stream may continue past the
    /// offered bytes, so a truncated offering is never an error, only
    /// NeedsMoreInput. The counts of taken and written bytes come back
    /// with the status.
    #[verifier::rlimit(100)]
    #[verifier::spinoff_prover]
    pub fn decompress_buf(
        &mut self,
        in_buf: &Vec<u8>,
        in_offset: usize,
        in_bytes: usize,
        out_buf: &mut Vec<u8>,
        out_offset: usize,
    ) -> (r: (Inflate_Status, usize, usize))
        requires
            old(self).wf(),
            !old(self).is_freed(),
            !old(self).is_failed(),
            in_offset + in_bytes <= in_buf.len(),
            out_offset <= old(out_buf).len(),
        ensures
            final(self).wf(),
            !final(self).is_freed(),
            r.0 != Inflate_Status::Failed ==> !final(self).is_failed(),
            final(self).buf_size() == old(self).buf_size(),
            final(self).ring_size() == old(self).ring_size(),
            old(self).compressed().is_prefix_of(final(self).compressed()),
            old(self).delivered().is_prefix_of(final(self).delivered()),
            r.1 <= in_bytes,
            out_offset + r.2 <= old(out_buf).len(),
            final(out_buf)@.len() == old(out_buf)@.len(),
            final(out_buf)@.subrange(0, out_offset as int) == old(out_buf)@.subrange(
                0,
                out_offset as int,
            ),
            final(out_buf)@.skip(out_offset as int + r.2 as int) == old(out_buf)@.skip(
                out_offset as int + r.2 as int,
            ),
            r.0 != Inflate_Status::Failed ==> final(self).delivered() == old(self).delivered()
                + final(out_buf)@.subrange(out_offset as int, out_offset as int + r.2 as int),
            final(self).compressed().skip(old(self).compressed().len() as int) + final(self).staged() == old(self).staged() + in_buf@.subrange(
                in_offset as int,
                in_offset as int + r.1 as int,
            ),
            forall|k: int|
                0 <= k < final(self).compressed().len() ==> !inflate_complete(
                    #[trigger] final(self).compressed().take(k),
                ),
            forall|t: Seq<u8>|
                final(self).compressed().is_prefix_of(t) ==> final(self).delivered().is_prefix_of(
                    #[trigger] inflate_of(t),
                ),
            r.0 != Inflate_Status::Failed ==> ((r.0 == Inflate_Status::Done) <==> (final(self).done_flag() && final(self).delivered() == final(self).produced())),
            (r.0 == Inflate_Status::Failed) <==> final(self).is_failed(),
            r.0 == Inflate_Status::Done || r.0 == Inflate_Status::NeedsMoreInput || r.0
                == Inflate_Status::HasMoreOutput || r.0 == Inflate_Status::Failed,
            final(self).done_flag() ==> (inflate_complete(final(self).compressed()) && final(self).produced() == inflate_of(final(self).compressed())),
            forall|c: Seq<u8>|
                (inflate_complete(c) && crate::engine::stream_prefix_free(c) && old(self).compressed().is_prefix_of(c) && c.is_prefix_of(
                    old(self).compressed() + old(self).staged() + in_buf@.subrange(
                        in_offset as int,
                        in_offset as int + in_bytes as int,
                    ),
                )) ==> r.0 != Inflate_Status::Failed,
            forall|k: int|
                (0 <= k <= in_bytes && #[trigger] inflate_complete(
                    old(self).compressed() + old(self).staged() + in_buf@.subrange(
                        in_offset as int,
                        in_offset as int + k,
                    ),
                )) ==> (r.0 == Inflate_Status::Done || r.0 == Inflate_Status::HasMoreOutput),
    {
        let ghost f0 = old(self).compressed();
        let ghost st0 = old(self).staged();
        let ghost d0 = old(self).delivered();
        let ghost sl = in_buf@.subrange(in_offset as int, in_offset as int + in_bytes as int);
        // Take new input into the staging buffer when it is empty.
        let mut taken: usize = 0;
        if self.in_offset == self.in_buf_total && in_bytes > 0 {
            let m = if in_bytes < self.in_buf.len() {
                in_bytes
            } else {
                self.in_buf.len()
            };
            crate::ioutil::copy_bytes(&mut self.in_buf, 0, in_buf, in_offset, m);
            self.in_offset = 0;
            self.in_buf_total = m;
            taken = m;
        }
        proof {
            assert(sl.take(taken as int) =~= in_buf@.subrange(
                in_offset as int,
                in_offset as int + taken as int,
            ));
            assert(self.staged() =~= st0 + sl.take(taken as int));
        }
        let ghost stg = self.staged();
        // Drain any undrained ring backlog before stepping the engine.
        let avail = self.out_offset - self.out_begin;
        if avail > 0 {
            let space = out_buf.len() - out_offset;
            let m = if space < avail {
                space
            } else {
                avail
            };
            let ghost backlog = self.out_buf@.subrange(self.out_begin as int, self.out_offset as int);
            crate::ioutil::copy_bytes(out_buf, out_offset, &self.out_buf, self.out_begin, m);
            let ghost drained = self.out_buf@.subrange(
                self.out_begin as int,
                self.out_begin as int + m as int,
            );
            self.out_begin = self.out_begin + m;
            self.delivered = Ghost(self.delivered@ + drained);
            proof {
                assert(drained + self.out_buf@.subrange(self.out_begin as int, self.out_offset as int)
                    =~= backlog);
                assert(self.engine.emitted() =~= self.delivered@ + self.out_buf@.subrange(
                    self.out_begin as int,
                    self.out_offset as int,
                ));
                assert(out_buf@.subrange(out_offset as int, out_offset as int + m as int)
                    =~= drained);
                assert(out_buf@.subrange(0, out_offset as int) =~= old(out_buf)@.subrange(
                    0,
                    out_offset as int,
                ));
                assert(out_buf@.skip(out_offset as int + m as int) =~= old(out_buf)@.skip(
                    out_offset as int + m as int,
                ));
                assert(self.compressed().skip(f0.len() as int) + self.staged() =~= st0 + sl.take(
                    taken as int,
                )) by {
                    assert(self.compressed().skip(f0.len() as int) =~= Seq::<u8>::empty());
                    assert(Seq::<u8>::empty() + stg =~= stg);
                };
                assert forall|t: Seq<u8>| self.compressed().is_prefix_of(t) implies self.delivered(
                ).is_prefix_of(#[trigger] inflate_of(t)) by {
                    assert(self.engine.emitted().is_prefix_of(inflate_of(t)));
                    assert(self.delivered() =~= inflate_of(t).take(self.delivered().len() as int));
                };
                if self.decomp_done && self.out_begin == self.out_offset {
                    assert(self.out_buf@.subrange(self.out_begin as int, self.out_offset as int)
                        =~= Seq::<u8>::empty());
                    assert(self.delivered@ + Seq::<u8>::empty() =~= self.delivered@);
                } else if self.out_begin < self.out_offset {
                    assert(self.out_buf@.subrange(
                        self.out_begin as int,
                        self.out_offset as int,
                    ).len() > 0);
                }
            }
            let status = if self.decomp_done && self.out_begin == self.out_offset {
                Inflate_Status::Done
            } else {
                Inflate_Status::HasMoreOutput
            };
            return (status, taken, m);
        }
        if self.decomp_done {
            proof {
                assert(self.out_buf@.subrange(self.out_begin as int, self.out_offset as int)
                    =~= Seq::<u8>::empty());
                assert(self.delivered@ + Seq::<u8>::empty() =~= self.delivered@);
                assert(self.compressed().skip(f0.len() as int) + self.staged() =~= st0 + sl.take(
                    taken as int,
                )) by {
                    assert(self.compressed().skip(f0.len() as int) =~= Seq::<u8>::empty());
                    assert(Seq::<u8>::empty() + stg =~= stg);
                };
                assert(out_buf@.subrange(out_offset as int, out_offset as int) =~= Seq::<
                    u8,
                >::empty());
                assert(self.delivered@ + Seq::<u8>::empty() =~= self.delivered@);
                assert forall|t: Seq<u8>| self.compressed().is_prefix_of(t) implies self.delivered(
                ).is_prefix_of(#[trigger] inflate_of(t)) by {
                    assert(self.engine.emitted().is_prefix_of(inflate_of(t)));
                };
            }
            return (Inflate_Status::Done, taken, 0);
        }
        // The backlog is drained and the stream is not finished: one
        // engine step over the ring.
        let ghost pre2 = *self;
        let status = self.ring_step();
        proof {
            assert(self.compressed().skip(f0.len() as int) + self.staged() =~= st0 + sl.take(
                taken as int,
            )) by {
                let dlt = self.compressed().skip(f0.len() as int);
                assert(dlt + self.staged() =~= stg);
            };
        }
        if status == Inflate_Status::Failed {
            proof {
                let total0 = f0 + st0 + sl;
                assert forall|cc: Seq<u8>|
                    (inflate_complete(cc) && crate::engine::stream_prefix_free(cc)
                        && f0.is_prefix_of(cc) && cc.is_prefix_of(total0)) implies false by {
                    let fed1 = self.engine.fed();
                    assert(fed1 + (self.staged() + sl.skip(taken as int)) =~= total0) by {
                        assert(fed1 + self.staged() =~= f0 + (st0 + sl.take(taken as int)));
                        assert((f0 + (st0 + sl.take(taken as int))) + sl.skip(taken as int)
                            =~= total0);
                    };
                    assert(fed1.is_prefix_of(total0)) by {
                        assert(fed1 =~= total0.take(fed1.len() as int));
                    };
                    if cc.len() < fed1.len() {
                        assert(cc =~= fed1.take(cc.len() as int));
                        assert(!inflate_complete(fed1.take(cc.len() as int)));
                        assert(false);
                    } else {
                        assert(fed1.is_prefix_of(cc)) by {
                            assert(fed1 =~= cc.take(fed1.len() as int));
                        };
                        assert(crate::engine::is_deflate_prefix(fed1));
                        assert(false);
                    }
                };
                assert forall|k: int|
                    (0 <= k <= in_bytes && #[trigger] inflate_complete(
                        f0 + st0 + in_buf@.subrange(in_offset as int, in_offset as int + k),
                    )) implies false by {
                    assert(in_buf@.subrange(in_offset as int, in_offset as int + k) =~= sl.take(
                        k,
                    ));
                    let cpl = f0 + st0 + sl.take(k);
                    assert(inflate_complete(cpl));
                    let fed1 = self.engine.fed();
                    assert(fed1 + (self.staged() + sl.skip(taken as int)) =~= total0) by {
                        assert(fed1 + self.staged() =~= f0 + (st0 + sl.take(taken as int)));
                        assert((f0 + (st0 + sl.take(taken as int))) + sl.skip(taken as int)
                            =~= total0);
                    };
                    assert(fed1.is_prefix_of(total0)) by {
                        assert(fed1 =~= total0.take(fed1.len() as int));
                    };
                    assert(cpl.is_prefix_of(total0)) by {
                        assert(cpl =~= total0.take(cpl.len() as int));
                    };
                    if cpl.len() < fed1.len() {
                        assert(cpl =~= fed1.take(cpl.len() as int));
                        assert(!inflate_complete(fed1.take(cpl.len() as int)));
                        assert(false);
                    } else {
                        assert(fed1.is_prefix_of(cpl)) by {
                            assert(fed1 =~= cpl.take(fed1.len() as int));
                        };
                        assert(crate::engine::is_deflate_prefix(fed1));
                        assert(false);
                    }
                };
                assert(out_buf@.subrange(0, out_offset as int) =~= old(out_buf)@.subrange(
                    0,
                    out_offset as int,
                ));
                assert(out_buf@.skip(out_offset as int) =~= old(out_buf)@.skip(out_offset as int));
                assert(self.delivered() =~= d0);
            }
            return (Inflate_Status::Failed, taken, 0);
        }
        // Drain the freshly produced bytes into the caller's space.
        let avail2 = self.out_offset - self.out_begin;
        let space = out_buf.len() - out_offset;
        let m = if space < avail2 {
            space
        } else {
            avail2
        };
        let ghost backlog = self.out_buf@.subrange(self.out_begin as int, self.out_offset as int);
        crate::ioutil::copy_bytes(out_buf, out_offset, &self.out_buf, self.out_begin, m);
        let ghost drained = self.out_buf@.subrange(
            self.out_begin as int,
            self.out_begin as int + m as int,
        );
        self.out_begin = self.out_begin + m;
        self.delivered = Ghost(self.delivered@ + drained);
        proof {
            assert(drained + self.out_buf@.subrange(self.out_begin as int, self.out_offset as int)
                =~= backlog);
            assert(self.engine.emitted() =~= self.delivered@ + self.out_buf@.subrange(
                self.out_begin as int,
                self.out_offset as int,
            ));
            assert(out_buf@.subrange(out_offset as int, out_offset as int + m as int) =~= drained);
            assert(out_buf@.subrange(0, out_offset as int) =~= old(out_buf)@.subrange(
                0,
                out_offset as int,
            ));
            assert(out_buf@.skip(out_offset as int + m as int) =~= old(out_buf)@.skip(
                out_offset as int + m as int,
            ));
            assert forall|t: Seq<u8>| self.compressed().is_prefix_of(t) implies self.delivered(
            ).is_prefix_of(#[trigger] inflate_of(t)) by {
                assert(self.engine.emitted().is_prefix_of(inflate_of(t)));
                assert(self.delivered() =~= inflate_of(t).take(self.delivered().len() as int));
            };
            if self.out_begin == self.out_offset {
                assert(self.out_buf@.subrange(self.out_begin as int, self.out_offset as int)
                    =~= Seq::<u8>::empty());
                assert(self.delivered@ + Seq::<u8>::empty() =~= self.delivered@);
            } else {
                assert(self.out_buf@.subrange(self.out_begin as int, self.out_offset as int).len()
                    > 0);
            }
        }
        let status2 = if self.decomp_done && self.out_begin == self.out_offset {
            Inflate_Status::Done
        } else if self.out_begin < self.out_offset {
            Inflate_Status::HasMoreOutput
        } else if status == Inflate_Status::HasMoreOutput {
            Inflate_Status::HasMoreOutput
        } else if self.in_offset == self.in_buf_total && taken == in_bytes {
            Inflate_Status::NeedsMoreInput
        } else {
            Inflate_Status::HasMoreOutput
        };
        proof {
            if status2 == Inflate_Status::NeedsMoreInput {
                // all offered input was taken and consumed without the
                // stream ending, so no whole stream lay within it
                assert forall|k: int|
                    (0 <= k <= in_bytes && #[trigger] inflate_complete(
                        f0 + st0 + in_buf@.subrange(in_offset as int, in_offset as int + k),
                    )) implies false by {
                    assert(in_buf@.subrange(in_offset as int, in_offset as int + k) =~= sl.take(
                        k,
                    ));
                    assert(inflate_complete(f0 + st0 + sl.take(k)));
                    assert(sl.take(in_bytes as int) =~= sl);
                    assert(stg =~= st0 + sl);
                    let k2 = st0.len() as int + k;
                    assert(f0 + stg.take(k2) =~= f0 + st0 + sl.take(k));
                    assert(inflate_complete(pre2.compressed() + pre2.staged().take(k2)));
                    assert(status == Inflate_Status::Done || status
                        == Inflate_Status::HasMoreOutput);
                };
            }
        }
        (status2, taken, m)
    }

    /// Drive a whole decompression internally: read compressed bytes
    /// from `reader`, hand decompressed bytes to `writer`, and on
    /// reaching the end of the stream return the input bytes that were
    /// read past it. A cancelling writer aborts the pipe.
    #[verifier::rlimit(80)]
    pub fn decompress_pipe<R: ByteReader, W: ByteWriter>(
        &mut self,
        reader: &mut R,
        writer: &mut W,
    ) -> (r: (Inflate_Status, Vec<u8>))
        requires
            old(self).wf(),
            old(self).resting(),
            old(self).pristine(),
        ensures
            final(self).wf(),
            final(writer).never_cancels() == old(writer).never_cancels(),
            r.0 == Inflate_Status::Done || r.0 == Inflate_Status::Failed || r.0
                == Inflate_Status::Abort,
            old(writer).never_cancels() ==> r.0 != Inflate_Status::Abort,
            r.0 == Inflate_Status::Done ==> {
                &&& final(self).done_flag()
                &&& inflate_complete(final(self).compressed())
                &&& (forall|k: int|
                    0 <= k < final(self).compressed().len() ==> !inflate_complete(
                        #[trigger] final(self).compressed().take(k),
                    ))
                &&& old(reader).stream() == final(self).compressed() + r.1@
                    + final(reader).stream()
                &&& (old(writer).never_cancels() ==> final(writer).sink() == old(writer).sink()
                    + inflate_of(final(self).compressed()))
            },
            forall|c: Seq<u8>|
                (inflate_complete(c) && crate::engine::stream_prefix_free(c) && c.is_prefix_of(
                    old(reader).stream(),
                ) && old(writer).never_cancels()) ==> r.0 == Inflate_Status::Done,
    {
        let ghost x0 = old(reader).stream();
        let ghost s0 = old(writer).sink();
        let chunk_len = self.out_buf.len();
        loop
            invariant
                x0 == old(reader).stream(),
                s0 == old(writer).sink(),
                chunk_len == self.ring_size(),
                chunk_len > 0,
                self.wf(),
                self.resting(),
                !self.is_freed(),
                !self.is_failed(),
                self.compressed() + self.staged() + reader.stream() == x0,
                self.delivered().is_prefix_of(inflate_of(self.compressed())),
                forall|t: Seq<u8>|
                    self.compressed().is_prefix_of(t) ==> self.delivered().is_prefix_of(
                        #[trigger] inflate_of(t),
                    ),
                writer.never_cancels() == old(writer).never_cancels(),
                old(writer).never_cancels() ==> writer.sink() == s0 + self.delivered(),
            decreases
                    self.staged().len() + reader.stream().len(),
                    inflate_of(self.compressed()).len() - self.delivered().len(),
        {
            let ghost pre = *self;
            let ghost rpre = reader.stream();
            let res = self.decompress_read(reader, chunk_len);
            proof {
                // conservation at the pipe level
                assert(self.compressed() + self.staged() + reader.stream() =~= x0) by {
                    assert(pre.compressed() + (pre.staged() + rpre) =~= x0);
                    assert(self.compressed() =~= pre.compressed() + self.compressed().skip(
                        pre.compressed().len() as int,
                    ));
                    assert(pre.compressed() + (self.compressed().skip(pre.compressed().len() as int)
                        + self.staged() + reader.stream()) =~= pre.compressed() + (pre.staged()
                        + rpre));
                    assert(pre.compressed() + self.compressed().skip(pre.compressed().len() as int)
                        + self.staged() + reader.stream() =~= pre.compressed() + (
                    self.compressed().skip(pre.compressed().len() as int) + self.staged()
                        + reader.stream()));
                };
            }
            match res {
                Ok(v) => {
                    if v.len() == 0 {
                        let empty_buf: Vec<u8> = Vec::new();
                        let _ = writer.write(&empty_buf, 0, true);
                        proof {
                            if old(writer).never_cancels() {
                                assert(writer.sink() =~= s0 + self.delivered());
                            }
                        }
                        let rest = self.get_rest();
                        proof {
                            assert(self.delivered() =~= inflate_of(self.compressed()));
                            assert(x0 =~= self.compressed() + rest@ + reader.stream());
                        }
                        return (Inflate_Status::Done, rest);
                    }
                    let cancel = writer.write(&v, v.len(), false);
                    proof {
                        assert(v@.take(v@.len() as int) =~= v@);
                    }
                    if cancel {
                        return (Inflate_Status::Abort, Vec::new());
                    }
                    proof {
                        if old(writer).never_cancels() {
                            assert(writer.sink() =~= s0 + self.delivered()) by {
                                assert(s0 + pre.delivered() + v@ =~= s0 + (pre.delivered() + v@));
                            };
                        }
                        // progress for termination: input consumed or output drained
                        let dlen = self.compressed().len() - pre.compressed().len();
                        assert(dlen + self.staged().len() + reader.stream().len()
                            == pre.staged().len() + rpre.len());
                        if self.staged().len() + reader.stream().len() == pre.staged().len()
                            + rpre.len() {
                            assert(self.compressed() =~= pre.compressed());
                        }
                    }
                },
                Err(status) => {
                    proof {
                        assert forall|c: Seq<u8>|
                            (inflate_complete(c) && crate::engine::stream_prefix_free(c)
                                && c.is_prefix_of(x0)) implies false by {
                            // the consumed bytes and the whole stream c are
                            // both prefixes of the original input
                            if c.len() < pre.compressed().len() {
                                assert(pre.compressed() =~= x0.take(pre.compressed().len() as int))
                                    by {
                                    assert(pre.compressed().is_prefix_of(x0)) by {
                                        assert(pre.compressed() + (pre.staged() + rpre) =~= x0);
                                        assert(pre.compressed() =~= x0.take(
                                            pre.compressed().len() as int,
                                        ));
                                    };
                                };
                                assert(c =~= pre.compressed().take(c.len() as int));
                                assert(!inflate_complete(pre.compressed().take(c.len() as int)));
                                assert(false);
                            } else {
                                assert(pre.compressed().is_prefix_of(c)) by {
                                    assert(pre.compressed() + (pre.staged() + rpre) =~= x0);
                                    assert(pre.compressed() =~= x0.take(
                                        pre.compressed().len() as int,
                                    ));
                                    assert(pre.compressed() =~= c.take(
                                        pre.compressed().len() as int,
                                    ));
                                };
                                assert(c.is_prefix_of(
                                    pre.compressed() + pre.staged() + rpre,
                                )) by {
                                    assert(pre.compressed() + pre.staged() + rpre =~= x0);
                                };
                                assert(false);
                            }
                        };
                    }
                    return (status, Vec::new());
                },
            }
        }
    }

    /// Adapter form of the decompression pipe over a reader and a
    /// writer; input bytes past the end of the compressed stream are
    /// discarded.
    pub fn decompress_pipe_rw<R: ByteReader, W: ByteWriter>(
        &mut self,
        in_reader: &mut R,
        out_writer: &mut W,
    ) -> (r: Inflate_Status)
        requires
            old(self).wf(),
            old(self).resting(),
            old(self).pristine(),
        ensures
            final(self).wf(),
            final(out_writer).never_cancels() == old(out_writer).never_cancels(),
            r == Inflate_Status::Done || r == Inflate_Status::Failed || r
                == Inflate_Status::Abort,
            old(out_writer).never_cancels() ==> r != Inflate_Status::Abort,
            r == Inflate_Status::Done ==> {
                &&& inflate_complete(final(self).compressed())
                &&& (forall|k: int|
                    0 <= k < final(self).compressed().len() ==> !inflate_complete(
                        #[trigger] final(self).compressed().take(k),
                    ))
                &&& final(self).compressed().is_prefix_of(old(in_reader).stream())
                &&& (exists|rest: Seq<u8>|
                    old(in_reader).stream() == final(self).compressed() + rest + final(in_reader).stream())
                &&& (old(out_writer).never_cancels() ==> final(out_writer).sink() == old(
                    out_writer,
                ).sink() + inflate_of(final(self).compressed()))
            },
            forall|c: Seq<u8>|
                (inflate_complete(c) && crate::engine::stream_prefix_free(c) && c.is_prefix_of(
                    old(in_reader).stream(),
                ) && old(out_writer).never_cancels()) ==> r == Inflate_Status::Done,
    {
        let ghost x0 = old(in_reader).stream();
        let (status, rest) = self.decompress_pipe(in_reader, out_writer);
        proof {
            if status == Inflate_Status::Done {
                assert(x0 == self.compressed() + rest@ + in_reader.stream());
                assert(self.compressed() =~= x0.take(self.compressed().len() as int));
            }
        }
        status
    }
}

} // verus!
