//! Byte-oriented reader and writer interfaces that the compression pipes
//! are driven by, together with in-memory implementations.
//!
//! A reader hands out the bytes of a fixed stream in order; a zero-length
//! read means end of stream. A writer accepts bytes in order and may ask
//! the caller to cancel by returning true.

use vstd::prelude::*;

verus! {

/// A source of bytes, consumed strictly in order.
pub trait ByteReader {
    /// The bytes this reader has yet to deliver.
    spec fn stream(&self) -> Seq<u8>;

    /// Read up to `max` bytes from the stream. An empty result means the
    /// stream is exhausted (or `max` was zero); otherwise at least one
    /// byte is delivered.
    fn read(&mut self, max: usize) -> (r: Vec<u8>)
        ensures
            r@.len() <= max,
            r@.len() <= old(self).stream().len(),
            r@ == old(self).stream().take(r@.len() as int),
            final(self).stream() == old(self).stream().skip(r@.len() as int),
            (r@.len() == 0) <==> (old(self).stream().len() == 0 || max == 0),
    ;

    /// Whether the stream is exhausted.
    fn eof(&self) -> (r: bool)
        ensures
            r <==> self.stream().len() == 0,
    ;
}

/// A sink of bytes, filled strictly in order.
pub trait ByteWriter {
    /// The bytes accepted so far.
    spec fn sink(&self) -> Seq<u8>;

    /// Whether this writer is known never to request cancellation.
    spec fn never_cancels(&self) -> bool;

    /// Accept `data[..len]`; `is_eof` marks the final batch of a stream.
    /// Returns true to ask the producer to cancel.
    fn write(&mut self, data: &Vec<u8>, len: usize, is_eof: bool) -> (cancel: bool)
        requires
            len <= data.len(),
        ensures
            !cancel ==> final(self).sink() == old(self).sink() + data@.take(len as int),
            old(self).never_cancels() ==> !cancel,
            final(self).never_cancels() == old(self).never_cancels(),
    ;

    /// Push buffered bytes onward; the accepted bytes are unchanged.
    fn flush(&mut self)
        ensures
            final(self).sink() == old(self).sink(),
            final(self).never_cancels() == old(self).never_cancels(),
    ;
}

/// An in-memory reader over an owned byte vector.
pub struct MemReader {
    data: Vec<u8>,
    pos: usize,
}

impl MemReader {
    #[verifier::type_invariant]
    spec fn wf(&self) -> bool {
        self.pos <= self.data@.len()
    }

    pub fn new(data: Vec<u8>) -> (r: MemReader)
        ensures
            r.stream() == data@,
    {
        MemReader { data, pos: 0 }
    }

}

impl ByteReader for MemReader {
    closed spec fn stream(&self) -> Seq<u8> {
        self.data@.skip(self.pos as int)
    }

    fn read(&mut self, max: usize) -> (r: Vec<u8>) {
        proof {
            use_type_invariant(&*self);
        }
        let avail = self.data.len() - self.pos;
        let n = if max < avail {
            max
        } else {
            avail
        };
        let mut r: Vec<u8> = Vec::new();
        let mut i: usize = 0;
        while i < n
            invariant
                i <= n,
                self.pos + n <= self.data.len(),
                r@ == self.data@.subrange(self.pos as int, self.pos as int + i as int),
            decreases n - i,
        {
            r.push(self.data[self.pos + i]);
            i = i + 1;
            assert(r@ =~= self.data@.subrange(self.pos as int, self.pos as int + i as int));
        }
        self.pos = self.pos + n;
        proof {
            assert(r@ =~= old(self).stream().take(r@.len() as int));
            assert(self.stream() =~= old(self).stream().skip(r@.len() as int));
        }
        r
    }

    fn eof(&self) -> (r: bool) {
        proof {
            use_type_invariant(&*self);
        }
        self.pos >= self.data.len()
    }
}

/// An in-memory writer that appends to an owned byte vector and never
/// requests cancellation.
pub struct MemWriter {
    data: Vec<u8>,
}

impl MemWriter {
    pub fn new() -> (r: MemWriter)
        ensures
            r.sink() == Seq::<u8>::empty(),
            r.never_cancels(),
    {
        MemWriter { data: Vec::new() }
    }

    /// Take the accumulated bytes out of the writer.
    pub fn inner(self) -> (r: Vec<u8>)
        ensures
            r@ == self.sink(),
    {
        self.data
    }
}

impl ByteWriter for MemWriter {
    closed spec fn sink(&self) -> Seq<u8> {
        self.data@
    }

    closed spec fn never_cancels(&self) -> bool {
        true
    }

    fn write(&mut self, data: &Vec<u8>, len: usize, _is_eof: bool) -> (cancel: bool) {
        let mut i: usize = 0;
        while i < len
            invariant
                i <= len <= data.len(),
                self.data@ == old(self).data@ + data@.take(i as int),
            decreases len - i,
        {
            self.data.push(data[i]);
            i = i + 1;
            assert(self.data@ =~= old(self).data@ + data@.take(i as int));
        }
        false
    }

    fn flush(&mut self) {
    }
}

/// An in-memory writer that accepts at most `limit` bytes and asks the
/// producer to cancel once more have arrived.
pub struct BoundedWriter {
    data: Vec<u8>,
    limit: usize,
}

impl BoundedWriter {
    pub fn new(limit: usize) -> (r: BoundedWriter)
        ensures
            r.sink() == Seq::<u8>::empty(),
            !r.never_cancels(),
    {
        BoundedWriter { data: Vec::new(), limit }
    }

    /// Take the accumulated bytes out of the writer.
    pub fn inner(self) -> (r: Vec<u8>)
        ensures
            r@ == self.sink(),
    {
        self.data
    }
}

impl ByteWriter for BoundedWriter {
    closed spec fn sink(&self) -> Seq<u8> {
        self.data@
    }

    closed spec fn never_cancels(&self) -> bool {
        false
    }

    fn write(&mut self, data: &Vec<u8>, len: usize, _is_eof: bool) -> (cancel: bool) {
        let mut i: usize = 0;
        while i < len
            invariant
                i <= len <= data.len(),
                self.data@ == old(self).data@ + data@.take(i as int),
                self.limit == old(self).limit,
            decreases len - i,
        {
            self.data.push(data[i]);
            i = i + 1;
            assert(self.data@ =~= old(self).data@ + data@.take(i as int));
        }
        self.data.len() > self.limit
    }

    fn flush(&mut self) {
    }
}

/// Read from `reader` until `want` bytes have arrived or the stream ends;
/// the canonical short-read handling of the codec.
pub fn read_upto<R: ByteReader>(reader: &mut R, want: usize) -> (r: Vec<u8>)
    ensures
        r@.len() <= want,
        r@ == old(reader).stream().take(r@.len() as int),
        final(reader).stream() == old(reader).stream().skip(r@.len() as int),
        r@.len() == if want <= old(reader).stream().len() {
            want as int
        } else {
            old(reader).stream().len() as int
        },
{
    let mut out: Vec<u8> = Vec::new();
    loop
        invariant_except_break
            out@.len() <= want,
            out@.len() <= old(reader).stream().len(),
            out@ == old(reader).stream().take(out@.len() as int),
            reader.stream() == old(reader).stream().skip(out@.len() as int),
        ensures
            out@.len() <= want,
            out@.len() <= old(reader).stream().len(),
            out@ == old(reader).stream().take(out@.len() as int),
            reader.stream() == old(reader).stream().skip(out@.len() as int),
            out@.len() == want || out@.len() == old(reader).stream().len(),
        decreases want - out@.len(),
    {
        if out.len() >= want {
            break;
        }
        let ghost mid = reader.stream();
        let mut chunk = reader.read(want - out.len());
        if chunk.len() == 0 {
            proof {
                assert(old(reader).stream().len() == out@.len());
            }
            break;
        }
        let ghost got = chunk@.len() as int;
        proof {
            assert(chunk@ == mid.take(got));
            assert(out@ + chunk@ =~= old(reader).stream().take(out@.len() + got));
            assert(mid.skip(got) =~= old(reader).stream().skip(out@.len() + got));
        }
        out.append(&mut chunk);
    }
    out
}

/// The index of the first zero byte in `s`, or the length of `s` when
/// there is none.
pub open spec fn zpos(s: Seq<u8>) -> int
    decreases s.len(),
{
    if s.len() == 0 {
        0
    } else if s[0] == 0 {
        0
    } else {
        1 + zpos(s.skip(1))
    }
}

pub proof fn lemma_zpos_bounds(s: Seq<u8>)
    ensures
        0 <= zpos(s) <= s.len(),
        zpos(s) < s.len() ==> s[zpos(s)] == 0,
        forall|i: int| 0 <= i < zpos(s) ==> s[i] != 0,
    decreases s.len(),
{
    if s.len() > 0 && s[0] != 0 {
        lemma_zpos_bounds(s.skip(1));
        assert forall|i: int| 0 <= i < zpos(s) implies s[i] != 0 by {
            if i > 0 {
                assert(s.skip(1)[i - 1] != 0);
            }
        }
    }
}

/// A zero-free sequence followed by a zero terminator scans back to
/// exactly the zero-free part.
pub proof fn lemma_zpos_concat(a: Seq<u8>, b: Seq<u8>)
    requires
        forall|i: int| 0 <= i < a.len() ==> a[i] != 0,
        b.len() > 0,
        b[0] == 0,
    ensures
        zpos(a + b) == a.len(),
    decreases a.len(),
{
    if a.len() == 0 {
        assert(a + b =~= b);
    } else {
        assert((a + b)[0] == a[0]);
        assert((a + b).skip(1) =~= a.skip(1) + b);
        lemma_zpos_concat(a.skip(1), b);
    }
}

/// Read single bytes until a zero terminator or the end of the stream;
/// the returned bytes exclude the terminator, which is consumed.
pub fn read_strz<R: ByteReader>(reader: &mut R) -> (r: Vec<u8>)
    ensures
        r@ == old(reader).stream().take(zpos(old(reader).stream())),
        final(reader).stream() == old(reader).stream().skip(
            if zpos(old(reader).stream()) < old(reader).stream().len() {
                zpos(old(reader).stream()) + 1
            } else {
                zpos(old(reader).stream())
            },
        ),
{
    let ghost x0 = reader.stream();
    let mut out: Vec<u8> = Vec::new();
    loop
        invariant_except_break
            out@.len() <= x0.len(),
            out@ == x0.take(out@.len() as int),
            reader.stream() == x0.skip(out@.len() as int),
            zpos(x0) == out@.len() + zpos(reader.stream()),
            forall|i: int| 0 <= i < out@.len() ==> out@[i] != 0,
        ensures
            out@ == x0.take(zpos(x0)),
            reader.stream() == x0.skip(
                if zpos(x0) < x0.len() {
                    zpos(x0) + 1
                } else {
                    zpos(x0)
                },
            ),
        decreases reader.stream().len(),
    {
        let ghost cur = reader.stream();
        proof {
            lemma_zpos_bounds(cur);
        }
        let b = reader.read(1);
        if b.len() == 0 {
            proof {
                assert(zpos(cur) == 0);
                assert(reader.stream() =~= cur);
                assert(out@ =~= x0.take(zpos(x0)));
            }
            break ;
        }
        let byte = b[0];
        proof {
            assert(b@[0] == cur[0]);
        }
        if byte == 0 {
            proof {
                assert(zpos(cur) == 0);
                assert(zpos(x0) == out@.len());
                assert(out@ =~= x0.take(zpos(x0)));
                assert(reader.stream() =~= x0.skip(zpos(x0) + 1)) by {
                    assert(cur.skip(1) =~= x0.skip(out@.len() as int + 1));
                };
            }
            break ;
        }
        out.push(byte);
        proof {
            assert(zpos(cur) == 1 + zpos(cur.skip(1)));
            assert(out@ =~= x0.take(out@.len() as int)) by {
                assert(cur[0] == x0[out@.len() - 1]);
            };
            assert(reader.stream() =~= x0.skip(out@.len() as int)) by {
                assert(cur.skip(1) =~= x0.skip(out@.len() as int));
            };
        }
    }
    out
}

} // verus!
