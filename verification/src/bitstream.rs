//! Bit-level reading and writing over byte streams, in both directions:
//! from the least significant bit of each byte upward, or from the most
//! significant bit downward. Up to 32 bits move per call.
//!
//! This utility stands apart from the shipping codec; nothing in the
//! gzip or zip paths consumes it.

use vstd::prelude::*;

use crate::stream::ByteReader;
use crate::stream::ByteWriter;
use vstd::string::StringSliceAdditionalSpecFns;

verus! {

/// Bit `i` of a byte, counting from the least significant.
pub open spec fn bit_of(b: u8, i: int) -> bool {
    ((b as u32) >> (i as u32)) & 1 == 1
}

/// The eight bits of a byte in reading order for the given direction.
pub open spec fn byte_bits(b: u8, lsb: bool) -> Seq<bool> {
    if lsb {
        Seq::new(8, |j: int| bit_of(b, j))
    } else {
        Seq::new(8, |j: int| bit_of(b, 7 - j))
    }
}

/// The bits of a whole byte stream in reading order.
pub open spec fn stream_bits(s: Seq<u8>, lsb: bool) -> Seq<bool>
    decreases s.len(),
{
    if s.len() == 0 {
        Seq::empty()
    } else {
        byte_bits(s[0], lsb) + stream_bits(s.skip(1), lsb)
    }
}

/// The value assembled from bits read lowest-weight first.
pub open spec fn bits_value_lsb(bits: Seq<bool>) -> nat
    decreases bits.len(),
{
    if bits.len() == 0 {
        0
    } else {
        (if bits[0] {
            1nat
        } else {
            0nat
        }) + 2 * bits_value_lsb(bits.skip(1))
    }
}

/// The value assembled from bits read highest-weight first.
pub open spec fn bits_value_msb(bits: Seq<bool>) -> nat
    decreases bits.len(),
{
    if bits.len() == 0 {
        0
    } else {
        2 * bits_value_msb(bits.take(bits.len() - 1)) + (if bits[bits.len() - 1] {
            1nat
        } else {
            0nat
        })
    }
}

/// The value assembled from `bits` for the given direction.
pub open spec fn bits_value(bits: Seq<bool>, lsb: bool) -> nat {
    if lsb {
        bits_value_lsb(bits)
    } else {
        bits_value_msb(bits)
    }
}

/// The low `n` bits of a value in writing order for the direction.
pub open spec fn value_bits(v: u32, n: nat, lsb: bool) -> Seq<bool> {
    if lsb {
        Seq::new(n, |j: int| bit32_of(v, j))
    } else {
        Seq::new(n, |j: int| bit32_of(v, n - 1 - j))
    }
}

/// Bit `i` of a 32-bit value, counting from the least significant.
pub open spec fn bit32_of(v: u32, i: int) -> bool {
    (v >> (i as u32)) & 1 == 1
}

proof fn lemma_bits_value_lsb_push(bits: Seq<bool>, b: bool)
    ensures
        bits_value_lsb(bits.push(b)) == bits_value_lsb(bits) + (if b {
            1nat
        } else {
            0nat
        }) * vstd::arithmetic::power2::pow2(bits.len()),
    decreases bits.len(),
{
    vstd::arithmetic::power2::lemma_pow2_unfold((bits.len() + 1) as nat);
    if bits.len() == 0 {
        assert(bits.push(b)[0] == b);
        assert(bits.push(b).skip(1) =~= Seq::<bool>::empty());
        vstd::arithmetic::power2::lemma2_to64();
        assert(0nat * vstd::arithmetic::power2::pow2(0) == 0) by (nonlinear_arith);
        assert(1nat * vstd::arithmetic::power2::pow2(0) == vstd::arithmetic::power2::pow2(0))
            by (nonlinear_arith);
        assert(bits_value_lsb(bits.push(b).skip(1)) == 0);
        assert(bits_value_lsb(bits.push(b)) == (if b {
            1nat
        } else {
            0nat
        }) + 2 * bits_value_lsb(bits.push(b).skip(1)));
        assert(bits_value_lsb(bits) == 0);
        assert(bits_value_lsb(bits.push(b)) == bits_value_lsb(bits) + (if b {
            1nat
        } else {
            0nat
        }) * vstd::arithmetic::power2::pow2(bits.len()));
    } else {
        assert(bits.push(b).skip(1) =~= bits.skip(1).push(b));
        assert(bits.push(b)[0] == bits[0]);
        assert(bits.push(b).len() == bits.len() + 1);
        assert(bits_value_lsb(bits.push(b)) == (if bits.push(b)[0] {
            1nat
        } else {
            0nat
        }) + 2 * bits_value_lsb(bits.push(b).skip(1)));
        lemma_bits_value_lsb_push(bits.skip(1), b);
        assert(bits_value_lsb(bits) == (if bits[0] {
            1nat
        } else {
            0nat
        }) + 2 * bits_value_lsb(bits.skip(1)));
        vstd::arithmetic::power2::lemma_pow2_unfold(bits.len() as nat);
        let p1 = vstd::arithmetic::power2::pow2((bits.len() - 1) as nat);
        let v1 = bits_value_lsb(bits.skip(1));
        let bb: nat = if b {
            1nat
        } else {
            0nat
        };
        assert(2 * (v1 + bb * p1) == 2 * v1 + bb * (2 * p1)) by (nonlinear_arith);
        assert(0nat * vstd::arithmetic::power2::pow2(bits.len()) == 0) by (nonlinear_arith);
        assert(1nat * vstd::arithmetic::power2::pow2(bits.len())
            == vstd::arithmetic::power2::pow2(bits.len())) by (nonlinear_arith);
        assert(0nat * p1 == 0) by (nonlinear_arith);
        assert(1nat * p1 == p1) by (nonlinear_arith);
        let b0v: nat = if bits[0] {
            1nat
        } else {
            0nat
        };
        assert(bits_value_lsb(bits.push(b)) == b0v + 2 * bits_value_lsb(bits.push(b).skip(1)));
        assert(bits_value_lsb(bits.push(b).skip(1)) == bits_value_lsb(bits.skip(1).push(b)));
        assert(bits_value_lsb(bits.skip(1).push(b)) == v1 + bb * p1);
        assert(bits_value_lsb(bits.push(b)) == b0v + 2 * (v1 + bb * p1));
        assert(bits_value_lsb(bits.push(b)) == b0v + 2 * v1 + bb * (2 * p1));
        assert(vstd::arithmetic::power2::pow2(bits.len()) == 2 * p1);
        assert(bb * vstd::arithmetic::power2::pow2(bits.len()) == bb * (2 * p1));
        assert(bits_value_lsb(bits) == b0v + 2 * v1);
        assert(bits_value_lsb(bits.push(b)) == bits_value_lsb(bits) + bb
            * vstd::arithmetic::power2::pow2(bits.len()));
    }
}

proof fn lemma_bits_value_lsb_bound(bits: Seq<bool>)
    ensures
        bits_value_lsb(bits) < vstd::arithmetic::power2::pow2(bits.len() as nat),
    decreases bits.len(),
{
    vstd::arithmetic::power2::lemma2_to64();
    if bits.len() > 0 {
        lemma_bits_value_lsb_bound(bits.skip(1));
        vstd::arithmetic::power2::lemma_pow2_unfold(bits.len() as nat);
    }
}

proof fn lemma_bits_value_msb_bound(bits: Seq<bool>)
    ensures
        bits_value_msb(bits) < vstd::arithmetic::power2::pow2(bits.len() as nat),
    decreases bits.len(),
{
    vstd::arithmetic::power2::lemma2_to64();
    if bits.len() > 0 {
        lemma_bits_value_msb_bound(bits.take(bits.len() - 1));
        vstd::arithmetic::power2::lemma_pow2_unfold(bits.len() as nat);
    }
}

/// A bit buffer of at most one byte, coupling a reader or a writer with
/// the bit-level logic. One instance should serve reading only or
/// writing only.
pub struct BitBuf {
    bit_buf: u8,
    bits_in_buf: usize,
    direction_lsb: bool,
}

impl BitBuf {
    /// Buffer well-formedness: at most one byte buffered.
    pub closed spec fn wf(&self) -> bool {
        self.bits_in_buf <= 8
    }

    /// The reading direction.
    pub closed spec fn lsb(&self) -> bool {
        self.direction_lsb
    }

    /// The buffered bits awaiting a reader, in reading order.
    pub closed spec fn pending_read(&self) -> Seq<bool> {
        if self.direction_lsb {
            Seq::new(self.bits_in_buf as nat, |j: int| bit_of(self.bit_buf, 8 - self.bits_in_buf + j))
        } else {
            Seq::new(self.bits_in_buf as nat, |j: int| bit_of(self.bit_buf, self.bits_in_buf - 1 - j))
        }
    }

    /// The buffered bits awaiting a writer flush, in writing order.
    pub closed spec fn pending_write(&self) -> Seq<bool> {
        if self.direction_lsb {
            Seq::new(self.bits_in_buf as nat, |j: int| bit_of(self.bit_buf, j))
        } else {
            Seq::new(self.bits_in_buf as nat, |j: int| bit_of(self.bit_buf, 7 - j))
        }
    }

    /// An empty bit buffer for the given direction.
    pub fn new(direction_lsb: bool) -> (r: BitBuf)
        ensures
            r.wf(),
            r.lsb() == direction_lsb,
            r.pending_read() == Seq::<bool>::empty(),
            r.pending_write() == Seq::<bool>::empty(),
            r.spec_bit_count() == 0,
    {
        let r = BitBuf { bit_buf: 0, bits_in_buf: 0, direction_lsb };
        proof {
            assert(r.pending_read() =~= Seq::<bool>::empty());
            assert(r.pending_write() =~= Seq::<bool>::empty());
        }
        r
    }

    /// The number of bits buffered.
    pub closed spec fn spec_bit_count(&self) -> nat {
        self.bits_in_buf as nat
    }

    /// The number of bits buffered.
    pub fn get_bit_count(&self) -> (r: usize)
        ensures
            r == self.spec_bit_count(),
            r == self.pending_read().len(),
            r == self.pending_write().len(),
    {
        self.bits_in_buf
    }

    /// The raw buffered byte; stale bits outside the pending window may
    /// be anything.
    pub fn get_bit_buf(&self) -> u8 {
        self.bit_buf
    }

    /// The pending bits, packed at the bottom of a byte.
    pub fn get_remaining_bits(&self) -> (r: u8)
        requires
            self.wf(),
        ensures
            forall|j: int| 0 <= j < self.pending_read().len() ==> bit_of(r, j) == (if self.lsb() {
                self.pending_read()[j]
            } else {
                self.pending_read()[self.pending_read().len() - 1 - j]
            }),
    {
        if self.bits_in_buf == 0 {
            return 0;
        }
        if self.direction_lsb {
            let r = self.bit_buf >> ((8 - self.bits_in_buf) as u8);
            proof {
                assert forall|j: int| 0 <= j < self.pending_read().len() implies bit_of(r, j) == (
                self.pending_read()[j]) by {
                    let k = (8 - self.bits_in_buf) as u8;
                    let b = self.bit_buf;
                    assert(k <= 8);
                    assert(forall|jj: u32|
                        jj < 8 ==> (#[trigger] ((((b >> k) as u32) >> jj) & 1) == ((b as u32) >> (
                        jj + k as u32)) & 1)) by (bit_vector);
                };
            }
            r
        } else {
            proof {
                let kk = self.bits_in_buf as u8;
                assert(kk < 8 ==> (1u8 << kk) >= 1) by (bit_vector);
            }
            let mask: u8 = if self.bits_in_buf == 8 {
                0xFF
            } else {
                (1u8 << (self.bits_in_buf as u8)) - 1
            };
            let r = self.bit_buf & mask;
            proof {
                assert forall|j: int| 0 <= j < self.pending_read().len() implies bit_of(r, j) == (
                self.pending_read()[self.pending_read().len() - 1 - j]) by {
                    let n = self.bits_in_buf as u8;
                    let b = self.bit_buf;
                    assert(n <= 8);
                    if n == 8 {
                        assert(forall|jj: u32|
                            jj < 8 ==> (#[trigger] ((((b & 0xFF) as u32) >> jj) & 1)) == ((b
                                as u32) >> jj) & 1) by (bit_vector);
                    } else {
                        assert(forall|jj: u32, nn: u8|
                            jj < 8 && nn < 8 ==> (#[trigger] ((((b & (((1u8 << nn) - 1) as u8))
                                as u32) >> jj) & 1)) == (if jj < nn as u32 {
                                ((b as u32) >> jj) & 1
                            } else {
                                0
                            })) by (bit_vector);
                    }
                };
            }
            r
        }
    }

    /// The number of free bit slots in the buffer.
    pub fn get_free_bits(&self) -> (r: usize)
        requires
            self.wf(),
        ensures
            r == 8 - self.spec_bit_count(),
    {
        8 - self.bits_in_buf
    }

    /// Drop all pending bits.
    pub fn clear_buf(&mut self)
        ensures
            final(self).wf(),
            final(self).lsb() == old(self).lsb(),
            final(self).spec_bit_count() == 0,
            final(self).pending_read() == Seq::<bool>::empty(),
            final(self).pending_write() == Seq::<bool>::empty(),
    {
        self.bit_buf = 0;
        self.bits_in_buf = 0;
        proof {
            assert(self.pending_read() =~= Seq::<bool>::empty());
            assert(self.pending_write() =~= Seq::<bool>::empty());
        }
    }

    /// Mark the given number of bit slots free, dropping pending bits.
    pub fn set_free_bits(&mut self, free_bits: usize)
        requires
            free_bits <= 8,
        ensures
            final(self).wf(),
            final(self).lsb() == old(self).lsb(),
            final(self).spec_bit_count() == 8 - free_bits,
    {
        self.bits_in_buf = 8 - free_bits;
    }

    /// The reading direction.
    pub fn get_direction_lsb(&self) -> (r: bool)
        ensures
            r == self.lsb(),
    {
        self.direction_lsb
    }

    /// Read `bits_to_read` bits (at most 32) from the buffered bits and
    /// then the reader, assembling them into a value for this buffer's
    /// direction. Returns None when the stream ends short, with the
    /// buffer emptied and the reader exhausted.
    #[verifier::rlimit(100)]
    pub fn read_bits<T: ByteReader>(&mut self, bits_to_read: usize, reader: &mut T) -> (r: Option<
        u32,
    >)
        requires
            old(self).wf(),
            bits_to_read <= 32,
        ensures
            final(self).wf(),
            final(self).lsb() == old(self).lsb(),
            ({
                let all = old(self).pending_read() + stream_bits(
                    old(reader).stream(),
                    old(self).lsb(),
                );
                let all_after = final(self).pending_read() + stream_bits(
                    final(reader).stream(),
                    final(self).lsb(),
                );
                &&& (r is Some <==> bits_to_read <= all.len())
                &&& (r matches Some(v) ==> v == bits_value(
                    all.take(bits_to_read as int),
                    old(self).lsb(),
                ) && all_after == all.skip(bits_to_read as int))
                &&& (r is None ==> final(self).spec_bit_count() == 0 && final(reader).stream().len() == 0)
            }),
    {
        let ghost all = old(self).pending_read() + stream_bits(old(reader).stream(), old(self).lsb());
        let lsb = self.direction_lsb;
        let n = bits_to_read;
        let mut retval: u32 = 0;
        let mut got: usize = 0;
        proof {
            vstd::arithmetic::power2::lemma2_to64();
            assert(all.take(0) =~= Seq::<bool>::empty());
            assert(0nat * vstd::arithmetic::power2::pow2(n as nat) == 0) by (nonlinear_arith);
            assert(self.pending_read() + stream_bits(reader.stream(), lsb) =~= all.skip(0));
            vstd::arithmetic::power2::lemma_pow2_pos(0);
        }
        while got < n
            invariant
                self.wf(),
                self.direction_lsb == lsb,
                lsb == old(self).lsb(),
                n == bits_to_read,
                got <= n <= 32,
                all == old(self).pending_read() + stream_bits(old(reader).stream(), lsb),
                got <= all.len() ==> self.pending_read() + stream_bits(reader.stream(), lsb)
                    == all.skip(got as int),
                got <= all.len(),
                lsb ==> retval == bits_value_lsb(all.take(got as int)),
                !lsb ==> retval == bits_value_msb(all.take(got as int))
                    * vstd::arithmetic::power2::pow2((n - got) as nat),
                bits_value_msb(all.take(got as int)) < vstd::arithmetic::power2::pow2(got as nat),
                bits_value_lsb(all.take(got as int)) < vstd::arithmetic::power2::pow2(got as nat),
            decreases n - got,
        {
            if self.bits_in_buf == 0 {
                let ghost rs = reader.stream();
                let byte = reader.read(1);
                if byte.len() == 0 {
                    proof {
                        assert(self.pending_read() =~= Seq::<bool>::empty());
                        assert(reader.stream().len() == 0);
                        assert(stream_bits(reader.stream(), lsb) =~= Seq::<bool>::empty());
                        assert((self.pending_read() + stream_bits(reader.stream(), lsb)).len()
                            == 0);
                        assert(all.skip(got as int).len() == 0);
                        assert(all.len() == got);
                        assert(self.spec_bit_count() == 0);
                    }
                    return None;
                }
                self.bit_buf = byte[0];
                self.bits_in_buf = 8;
                proof {
                    assert(byte@[0] == rs[0]);
                    assert(self.pending_read() =~= byte_bits(rs[0], lsb));
                    assert(stream_bits(rs, lsb) =~= byte_bits(rs[0], lsb) + stream_bits(
                        rs.skip(1),
                        lsb,
                    ));
                    assert(self.pending_read() + stream_bits(reader.stream(), lsb) =~= all.skip(
                        got as int,
                    ));
                }
            }
            let ghost pend = self.pending_read();
            let bit: bool = if lsb {
                ((self.bit_buf as u32) >> ((8 - self.bits_in_buf) as u32)) & 1 == 1
            } else {
                ((self.bit_buf as u32) >> ((self.bits_in_buf - 1) as u32)) & 1 == 1
            };
            let ghost sbits = stream_bits(reader.stream(), lsb);
            proof {
                assert(pend.len() > 0);
                assert(bit == pend[0]);
                assert(got < all.len()) by {
                    assert((pend + sbits).len() > 0);
                };
                assert(bit == all[got as int]) by {
                    assert(all.skip(got as int)[0] == (pend + sbits)[0]);
                    assert((pend + sbits)[0] == pend[0]);
                };
            }
            self.bits_in_buf = self.bits_in_buf - 1;
            proof {
                assert(self.pending_read() =~= pend.skip(1));
                assert(self.pending_read() + sbits =~= (pend + sbits).skip(1));
                assert(all.skip(got as int).skip(1) =~= all.skip(got as int + 1));
                assert(self.pending_read() + stream_bits(reader.stream(), lsb) =~= all.skip(
                    got as int + 1,
                ));
                assert(all.take(got as int + 1) =~= all.take(got as int).push(all[got as int]));
            }
            if lsb {
                let add: u32 = if bit {
                    1u32 << (got as u32)
                } else {
                    0
                };
                proof {
                    vstd::arithmetic::power2::lemma_pow2_strictly_increases(got as nat, 32);
                    vstd::bits::lemma_u32_pow2_no_overflow(got as nat);
                    vstd::bits::lemma_u32_shl_is_mul(1u32, got as u32);
                    lemma_bits_value_lsb_push(all.take(got as int), all[got as int]);
                    vstd::arithmetic::power2::lemma_pow2_unfold((got + 1) as nat);
                    vstd::arithmetic::power2::lemma2_to64();
                    if got + 1 < 32 {
                        vstd::arithmetic::power2::lemma_pow2_strictly_increases(
                            (got + 1) as nat,
                            32,
                        );
                    }
                    assert(retval + add < vstd::arithmetic::power2::pow2((got + 1) as nat));
                }
                retval = retval + add;
            } else {
                let add: u32 = if bit {
                    1u32 << ((n - 1 - got) as u32)
                } else {
                    0
                };
                proof {
                    vstd::arithmetic::power2::lemma_pow2_strictly_increases((n - 1 - got) as nat, 32);
                    vstd::bits::lemma_u32_pow2_no_overflow((n - 1 - got) as nat);
                    vstd::bits::lemma_u32_shl_is_mul(1u32, (n - 1 - got) as u32);
                    let t = all.take(got as int);
                    let t1 = all.take(got as int + 1);
                    assert(t1.take(t1.len() - 1) =~= t);
                    assert(bits_value_msb(t1) == 2 * bits_value_msb(t) + (if all[got as int] {
                        1nat
                    } else {
                        0nat
                    }));
                    vstd::arithmetic::power2::lemma_pow2_unfold((n - got) as nat);
                    vstd::arithmetic::power2::lemma_pow2_unfold((got + 1) as nat);
                    assert((2 * bits_value_msb(t) + 1) * vstd::arithmetic::power2::pow2(
                        (n - got - 1) as nat,
                    ) == 2 * bits_value_msb(t) * vstd::arithmetic::power2::pow2((n - got - 1) as nat)
                        + vstd::arithmetic::power2::pow2((n - got - 1) as nat))
                        by (nonlinear_arith);
                    assert(2 * bits_value_msb(t) * vstd::arithmetic::power2::pow2(
                        (n - got - 1) as nat,
                    ) == bits_value_msb(t) * (2 * vstd::arithmetic::power2::pow2(
                        (n - got - 1) as nat,
                    ))) by (nonlinear_arith);
                    assert(bits_value_msb(t1) * vstd::arithmetic::power2::pow2((n - got - 1) as nat)
                        == (2 * bits_value_msb(t) + (if all[got as int] {
                        1nat
                    } else {
                        0nat
                    })) * vstd::arithmetic::power2::pow2((n - got - 1) as nat));
                    lemma_bits_value_msb_bound(t1);
                    vstd::arithmetic::power2::lemma_pow2_pos((n - got - 1) as nat);
                    vstd::arithmetic::power2::lemma_pow2_adds(
                        (got + 1) as nat,
                        (n - got - 1) as nat,
                    );
                    assert(bits_value_msb(t1) * vstd::arithmetic::power2::pow2((n - got - 1) as nat)
                        < vstd::arithmetic::power2::pow2((got + 1) as nat)
                        * vstd::arithmetic::power2::pow2((n - got - 1) as nat))
                        by (nonlinear_arith)
                        requires
                            bits_value_msb(t1) < vstd::arithmetic::power2::pow2((got + 1) as nat),
                            vstd::arithmetic::power2::pow2((n - got - 1) as nat) > 0,
                    ;
                    vstd::arithmetic::power2::lemma_pow2_pos((n - got - 1) as nat);
                    vstd::arithmetic::power2::lemma2_to64();
                    if n < 32 {
                        vstd::arithmetic::power2::lemma_pow2_strictly_increases(n as nat, 32);
                    }
                    assert(retval + add == bits_value_msb(t1) * vstd::arithmetic::power2::pow2(
                        (n - got - 1) as nat,
                    ));
                    assert(retval + add < vstd::arithmetic::power2::pow2(n as nat));
                }
                retval = retval + add;
            }
            got = got + 1;
            proof {
                lemma_bits_value_lsb_bound(all.take(got as int));
                lemma_bits_value_msb_bound(all.take(got as int));
            }
        }
        proof {
            vstd::arithmetic::power2::lemma2_to64();
            if !lsb {
                assert(retval == bits_value_msb(all.take(n as int)) * 1nat);
                assert(bits_value_msb(all.take(n as int)) * 1nat == bits_value_msb(
                    all.take(n as int),
                )) by (nonlinear_arith);
            }
        }
        Some(retval)
    }

    /// Write the low `bits_to_write` bits (at most 32) of `bit_value`
    /// through the buffer to the writer, in this buffer's direction.
    /// Whole bytes go out as they fill; up to seven bits stay pending.
    #[verifier::rlimit(100)]
    pub fn write_bits<T: ByteWriter>(&mut self, bits_to_write: usize, bit_value: u32, writer: &mut T)
        requires
            old(self).wf(),
            bits_to_write <= 32,
        ensures
            final(self).wf(),
            final(self).lsb() == old(self).lsb(),
            final(writer).never_cancels() == old(writer).never_cancels(),
            old(writer).never_cancels() ==> stream_bits(final(writer).sink(), old(self).lsb())
                + final(self).pending_write() == stream_bits(old(writer).sink(), old(self).lsb())
                + old(self).pending_write() + value_bits(
                bit_value,
                bits_to_write as nat,
                old(self).lsb(),
            ),
    {
        let lsb = self.direction_lsb;
        let n = bits_to_write;
        let mut j: usize = 0;
        while j < n
            invariant
                self.wf(),
                self.direction_lsb == lsb,
                j <= n <= 32,
                writer.never_cancels() == old(writer).never_cancels(),
                old(writer).never_cancels() ==> stream_bits(writer.sink(), lsb)
                    + self.pending_write() == stream_bits(old(writer).sink(), lsb) + old(self).pending_write() + value_bits(bit_value, n as nat, lsb).take(j as int),
            decreases n - j,
        {
            if self.bits_in_buf == 8 {
                self.flush_byte(writer);
            }
            let bit: bool = if lsb {
                (bit_value >> (j as u32)) & 1 == 1
            } else {
                (bit_value >> ((n - 1 - j) as u32)) & 1 == 1
            };
            proof {
                assert(bit == value_bits(bit_value, n as nat, lsb)[j as int]);
            }
            let ghost pend = self.pending_write();
            let ghost b0 = self.bit_buf;
            let k = self.bits_in_buf;
            let pos: u8 = if lsb {
                k as u8
            } else {
                (7 - k) as u8
            };
            if bit {
                self.bit_buf = self.bit_buf | (1u8 << pos);
            } else {
                self.bit_buf = self.bit_buf & !(1u8 << pos);
            }
            self.bits_in_buf = k + 1;
            proof {
                lemma_set_bit(b0, self.bit_buf, pos, bit);
                assert(self.pending_write() =~= pend.push(bit));
            }
            let ghost sink_pre = writer.sink();
            if self.bits_in_buf == 8 {
                self.flush_byte(writer);
            }
            proof {
                assert((stream_bits(old(writer).sink(), lsb) + old(self).pending_write()
                    + value_bits(bit_value, n as nat, lsb).take(j as int)).push(bit)
                    =~= stream_bits(old(writer).sink(), lsb) + old(self).pending_write()
                    + value_bits(bit_value, n as nat, lsb).take(j as int + 1));
                if old(writer).never_cancels() {
                    assert(stream_bits(writer.sink(), lsb) + self.pending_write() =~= (stream_bits(
                        sink_pre,
                        lsb,
                    ) + pend).push(bit)) by {
                        if self.pending_write().len() == 0 {
                            assert(stream_bits(writer.sink(), lsb) =~= stream_bits(sink_pre, lsb)
                                + pend.push(bit));
                            assert(stream_bits(writer.sink(), lsb) + self.pending_write()
                                =~= stream_bits(writer.sink(), lsb));
                        }
                    };
                }
            }
            j = j + 1;
        }
        proof {
            assert(value_bits(bit_value, n as nat, lsb).take(n as int) =~= value_bits(
                bit_value,
                n as nat,
                lsb,
            ));
        }
    }

    /// Send the full buffered byte to the writer.
    fn flush_byte<T: ByteWriter>(&mut self, writer: &mut T)
        requires
            old(self).wf(),
            old(self).spec_bit_count() == 8,
        ensures
            final(self).wf(),
            final(self).lsb() == old(self).lsb(),
            final(self).spec_bit_count() == 0,
            final(self).pending_write() == Seq::<bool>::empty(),
            final(writer).never_cancels() == old(writer).never_cancels(),
            old(writer).never_cancels() ==> stream_bits(final(writer).sink(), old(self).lsb())
                == stream_bits(old(writer).sink(), old(self).lsb()) + old(self).pending_write(),
    {
        let mut one: Vec<u8> = Vec::new();
        one.push(self.bit_buf);
        let _ = writer.write(&one, 1, false);
        proof {
            assert(one@.take(1) =~= one@);
            assert(one@ =~= seq![old(self).bit_buf]);
            if old(writer).never_cancels() {
                lemma_stream_bits_append(old(writer).sink(), one@, old(self).lsb());
                assert(stream_bits(one@, old(self).lsb()) =~= byte_bits(
                    old(self).bit_buf,
                    old(self).lsb(),
                )) by {
                    assert(one@.skip(1) =~= Seq::<u8>::empty());
                    assert(stream_bits(one@.skip(1), old(self).lsb())
                        =~= Seq::<bool>::empty());
                    assert(one@[0] == old(self).bit_buf);
                };
                assert(byte_bits(old(self).bit_buf, old(self).lsb()) =~= old(self).pending_write());
            }
        }
        self.bit_buf = 0;
        self.bits_in_buf = 0;
        proof {
            assert(self.pending_write() =~= Seq::<bool>::empty());
        }
    }

    /// Flush any pending bits as one final byte, padded with zero bits.
    pub fn flush_bits<T: ByteWriter>(&mut self, writer: &mut T)
        requires
            old(self).wf(),
        ensures
            final(self).wf(),
            final(self).lsb() == old(self).lsb(),
            final(self).spec_bit_count() == 0,
            final(self).pending_write() == Seq::<bool>::empty(),
            final(writer).never_cancels() == old(writer).never_cancels(),
            old(writer).never_cancels() ==> ({
                let padded = old(self).pending_write() + Seq::new(
                    (8 - old(self).pending_write().len() as int) as nat,
                    |j: int| false,
                );
                stream_bits(final(writer).sink(), old(self).lsb()) == stream_bits(
                    old(writer).sink(),
                    old(self).lsb(),
                ) + (if old(self).pending_write().len() == 0 {
                    Seq::<bool>::empty()
                } else {
                    padded
                })
            }),
    {
        if self.bits_in_buf > 0 {
            let ghost pend = self.pending_write();
            // the stale bits above the pending window become zero padding
            proof {
                let kk = self.bits_in_buf as u8;
                assert(kk < 8 ==> (1u8 << kk) >= 1) by (bit_vector);
                let mm = (8 - self.bits_in_buf) as u8;
                assert(mm < 8 ==> (1u8 << mm) >= 1) by (bit_vector);
            }
            let keep: u8 = if self.direction_lsb {
                if self.bits_in_buf == 8 {
                    0xFF
                } else {
                    (1u8 << (self.bits_in_buf as u8)) - 1
                }
            } else {
                !(if self.bits_in_buf == 8 {
                    0u8
                } else {
                    (1u8 << ((8 - self.bits_in_buf) as u8)) - 1
                })
            };
            self.bit_buf = self.bit_buf & keep;
            proof {
                lemma_mask_keeps(
                    old(self).bit_buf,
                    self.bit_buf,
                    self.bits_in_buf as int,
                    self.direction_lsb,
                );
                lemma_mask_zeros(
                    old(self).bit_buf,
                    self.bit_buf,
                    self.bits_in_buf as int,
                    self.direction_lsb,
                );
                assert(self.pending_write() =~= pend);
            }
            let ghost kept = self.pending_write();
            self.bits_in_buf = 8;
            proof {
                assert(self.pending_write() =~= kept + Seq::new(
                    (8 - kept.len() as int) as nat,
                    |j: int| false,
                ));
            }
            self.flush_byte(writer);
        }
        writer.flush();
    }
}

/// Masking away the bits outside the pending window keeps the pending
/// window itself.
proof fn lemma_mask_keeps(b0: u8, b1: u8, k: int, lsb: bool)
    requires
        1 <= k <= 8,
        lsb ==> b1 == b0 & (if k == 8 {
            0xFFu8
        } else {
            ((1u8 << (k as u8)) - 1) as u8
        }),
        !lsb ==> b1 == b0 & !(if k == 8 {
            0u8
        } else {
            ((1u8 << ((8 - k) as u8)) - 1) as u8
        }),
    ensures
        lsb ==> forall|j: int| 0 <= j < k ==> #[trigger] bit_of(b1, j) == bit_of(b0, j),
        !lsb ==> forall|j: int| 0 <= j < 8 && j > 7 - k ==> #[trigger] bit_of(b1, j) == bit_of(
            b0,
            j,
        ),
{
    if lsb {
        if k == 8 {
            assert(forall|jj: u32|
                jj < 8 ==> (#[trigger] ((((b0 & 0xFF) as u32) >> jj) & 1)) == ((b0 as u32) >> jj)
                    & 1) by (bit_vector);
            assert forall|j: int| 0 <= j < k implies bit_of(b1, j) == bit_of(b0, j) by {
                assert((((b0 & 0xFF) as u32) >> (j as u32)) & 1 == ((b0 as u32) >> (j as u32)) & 1);
            };
        } else {
            let kk = k as u8;
            assert(forall|jj: u32|
                jj < 8 && kk < 8 && jj < kk as u32 ==> (#[trigger] ((((b0 & (((1u8 << kk)
                    - 1) as u8)) as u32) >> jj) & 1)) == ((b0 as u32) >> jj) & 1) by (bit_vector);
            assert forall|j: int| 0 <= j < k implies bit_of(b1, j) == bit_of(b0, j) by {
                assert((((b0 & (((1u8 << kk) - 1) as u8)) as u32) >> (j as u32)) & 1 == ((b0
                    as u32) >> (j as u32)) & 1);
            };
        }
    } else {
        if k == 8 {
            assert(forall|jj: u32|
                jj < 8 ==> (#[trigger] ((((b0 & !0u8) as u32) >> jj) & 1)) == ((b0 as u32) >> jj)
                    & 1) by (bit_vector);
            assert forall|j: int| 0 <= j < 8 && j > 7 - k implies bit_of(b1, j) == bit_of(
                b0,
                j,
            ) by {
                assert((((b0 & !0u8) as u32) >> (j as u32)) & 1 == ((b0 as u32) >> (j as u32)) & 1);
            };
        } else {
            let mm = (8 - k) as u8;
            assert(forall|jj: u32|
                jj < 8 && mm < 8 && jj >= mm as u32 ==> (#[trigger] ((((b0 & !(((1u8 << mm)
                    - 1) as u8)) as u32) >> jj) & 1)) == ((b0 as u32) >> jj) & 1) by (bit_vector);
            assert forall|j: int| 0 <= j < 8 && j > 7 - k implies bit_of(b1, j) == bit_of(
                b0,
                j,
            ) by {
                assert((((b0 & !(((1u8 << mm) - 1) as u8)) as u32) >> (j as u32)) & 1 == ((b0
                    as u32) >> (j as u32)) & 1);
            };
        }
    }
}

/// Setting or clearing one bit changes that bit and no other.
proof fn lemma_set_bit(b0: u8, b1: u8, pos: u8, bit: bool)
    requires
        pos < 8,
        bit ==> b1 == b0 | (1u8 << pos),
        !bit ==> b1 == b0 & !(1u8 << pos),
    ensures
        bit_of(b1, pos as int) == bit,
        forall|j: int| 0 <= j < 8 && j != pos ==> bit_of(b1, j) == bit_of(b0, j),
{
    if bit {
        assert((((b0 | (1u8 << pos)) as u32) >> (pos as u32)) & 1 == 1) by (bit_vector)
            requires
                pos < 8,
        ;
        assert(forall|jj: u32|
            jj < 8 && jj != pos as u32 ==> (#[trigger] ((((b0 | (1u8 << pos)) as u32) >> jj) & 1))
                == ((b0 as u32) >> jj) & 1) by (bit_vector)
            requires
                pos < 8,
        ;
    } else {
        assert((((b0 & !(1u8 << pos)) as u32) >> (pos as u32)) & 1 == 0) by (bit_vector)
            requires
                pos < 8,
        ;
        assert(forall|jj: u32|
            jj < 8 && jj != pos as u32 ==> (#[trigger] ((((b0 & !(1u8 << pos)) as u32) >> jj) & 1))
                == ((b0 as u32) >> jj) & 1) by (bit_vector)
            requires
                pos < 8,
        ;
    }
}

/// After masking, the bits outside the kept window are zero.
proof fn lemma_mask_zeros(b0: u8, b1: u8, k: int, lsb: bool)
    requires
        1 <= k <= 8,
        lsb ==> b1 == b0 & (if k == 8 {
            0xFFu8
        } else {
            ((1u8 << (k as u8)) - 1) as u8
        }),
        !lsb ==> b1 == b0 & !(if k == 8 {
            0u8
        } else {
            ((1u8 << ((8 - k) as u8)) - 1) as u8
        }),
    ensures
        lsb ==> forall|j: int| k <= j < 8 ==> !(#[trigger] bit_of(b1, j)),
        !lsb ==> forall|j: int| 0 <= j < 8 - k ==> !(#[trigger] bit_of(b1, j)),
{
    if lsb {
        if k < 8 {
            let kk = k as u8;
            assert(forall|jj: u32|
                jj < 8 && kk < 8 && jj >= kk as u32 ==> (#[trigger] ((((b0 & (((1u8 << kk)
                    - 1) as u8)) as u32) >> jj) & 1)) == 0) by (bit_vector);
            assert forall|j: int| k <= j < 8 implies !(bit_of(b1, j)) by {
                assert((((b0 & (((1u8 << kk) - 1) as u8)) as u32) >> (j as u32)) & 1 == 0);
            };
        }
    } else {
        if k < 8 {
            let mm = (8 - k) as u8;
            assert(forall|jj: u32|
                jj < 8 && mm < 8 && jj < mm as u32 ==> (#[trigger] ((((b0 & !(((1u8 << mm)
                    - 1) as u8)) as u32) >> jj) & 1)) == 0) by (bit_vector);
            assert forall|j: int| 0 <= j < 8 - k implies !(bit_of(b1, j)) by {
                assert((((b0 & !(((1u8 << mm) - 1) as u8)) as u32) >> (j as u32)) & 1 == 0);
            };
        }
    }
}

/// Splitting a byte stream splits its bits.
pub proof fn lemma_stream_bits_append(a: Seq<u8>, b: Seq<u8>, lsb: bool)
    ensures
        stream_bits(a + b, lsb) == stream_bits(a, lsb) + stream_bits(b, lsb),
    decreases a.len(),
{
    if a.len() == 0 {
        assert(a + b =~= b);
        assert(stream_bits(a, lsb) + stream_bits(b, lsb) =~= stream_bits(b, lsb));
    } else {
        assert((a + b).skip(1) =~= a.skip(1) + b);
        assert((a + b)[0] == a[0]);
        lemma_stream_bits_append(a.skip(1), b, lsb);
        assert(stream_bits(a + b, lsb) =~= stream_bits(a, lsb) + stream_bits(b, lsb));
    }
}

/// A reader of bits off an underlying byte reader.
pub struct BitReader<R> {
    bit_buf: BitBuf,
    reader: R,
}

impl<R: ByteReader> BitReader<R> {
    /// Buffer well-formedness.
    pub closed spec fn wf(&self) -> bool {
        self.bit_buf.wf()
    }

    /// The reading direction.
    pub closed spec fn lsb(&self) -> bool {
        self.bit_buf.lsb()
    }

    /// All bits still to be read: the buffered ones and then the
    /// underlying stream's.
    pub closed spec fn bits(&self) -> Seq<bool> {
        self.bit_buf.pending_read() + stream_bits(self.reader.stream(), self.bit_buf.lsb())
    }

    /// Wrap a byte reader for bit-level reading in the given direction.
    pub fn new(reader: R, direction_lsb: bool) -> (r: BitReader<R>)
        ensures
            r.wf(),
            r.lsb() == direction_lsb,
            r.bits() == stream_bits(reader.stream(), direction_lsb),
    {
        let r = BitReader { bit_buf: BitBuf::new(direction_lsb), reader };
        proof {
            assert(r.bits() =~= stream_bits(r.reader.stream(), direction_lsb));
        }
        r
    }

    /// Read `bits_to_read` bits (at most 32) as a value for this
    /// reader's direction; None when the stream ends short.
    pub fn read_bits(&mut self, bits_to_read: usize) -> (r: Option<u32>)
        requires
            old(self).wf(),
            bits_to_read <= 32,
        ensures
            final(self).wf(),
            final(self).lsb() == old(self).lsb(),
            (r is Some <==> bits_to_read <= old(self).bits().len()),
            r matches Some(v) ==> v == bits_value(
                old(self).bits().take(bits_to_read as int),
                old(self).lsb(),
            ) && final(self).bits() == old(self).bits().skip(bits_to_read as int),
            r is None ==> final(self).bits().len() == 0,
    {
        self.bit_buf.read_bits(bits_to_read, &mut self.reader)
    }

    /// Take the bits buffered up to the next byte boundary out of the
    /// buffer, or None when none are buffered: the returned byte holds
    /// the pending bits packed at its bottom. The underlying reader is
    /// never advanced.
    pub fn consume_buf_bits(&mut self) -> (r: Option<u8>)
        requires
            old(self).wf(),
        ensures
            final(self).wf(),
            final(self).lsb() == old(self).lsb(),
            (r is Some) <==> old(self).get_bit_count() > 0,
            final(self).get_bit_count() == 0,
            final(self).inner_stream() == old(self).inner_stream(),
            final(self).bits() == old(self).bits().skip(old(self).get_bit_count() as int),
            r matches Some(b) ==> (forall|j: int|
                0 <= j < old(self).get_bit_count() ==> bit_of(b, j) == (if old(self).lsb() {
                    old(self).bits()[j]
                } else {
                    old(self).bits()[old(self).get_bit_count() - 1 - j]
                })),
    {
        let ghost pend = self.bit_buf.pending_read();
        if self.bit_buf.get_bit_count() == 0 {
            proof {
                assert(self.bits() =~= self.bits().skip(0));
            }
            None
        } else {
            let retval = self.bit_buf.get_remaining_bits();
            self.bit_buf.set_free_bits(8);
            proof {
                assert(self.bit_buf.pending_read().len() == 0);
                assert(self.bit_buf.pending_read() =~= Seq::<bool>::empty());
                assert(self.bits() =~= old(self).bits().skip(pend.len() as int)) by {
                    assert((pend + stream_bits(self.reader.stream(), self.bit_buf.lsb())).skip(
                        pend.len() as int,
                    ) =~= stream_bits(self.reader.stream(), self.bit_buf.lsb()));
                    assert(self.bits() =~= stream_bits(self.reader.stream(), self.bit_buf.lsb()));
                };
                assert forall|j: int| 0 <= j < pend.len() implies old(self).bits()[j] == pend[j] by {
                    assert((pend + stream_bits(old(self).reader.stream(), old(self).lsb()))[j]
                        == pend[j]);
                };
            }
            Some(retval)
        }
    }

    /// The bytes the inner reader has yet to deliver.
    pub closed spec fn inner_stream(&self) -> Seq<u8> {
        self.reader.stream()
    }

    /// The number of bits buffered.
    pub closed spec fn get_bit_count(&self) -> nat {
        self.bit_buf.spec_bit_count()
    }

    /// The number of bits buffered.
    pub fn bit_count(&self) -> (r: usize)
        ensures
            r == self.get_bit_count(),
    {
        self.bit_buf.get_bit_count()
    }

    /// Give the inner reader back.
    pub fn inner(self) -> R {
        self.reader
    }
}

/// A writer of bits onto an underlying byte writer.
pub struct BitWriter<W> {
    bit_buf: BitBuf,
    writer: W,
}

impl<W: ByteWriter> BitWriter<W> {
    /// Buffer well-formedness.
    pub closed spec fn wf(&self) -> bool {
        self.bit_buf.wf()
    }

    /// The writing direction.
    pub closed spec fn lsb(&self) -> bool {
        self.bit_buf.lsb()
    }

    /// All bits written so far: the underlying sink's and then the
    /// buffered ones.
    pub closed spec fn bits(&self) -> Seq<bool> {
        stream_bits(self.writer.sink(), self.bit_buf.lsb()) + self.bit_buf.pending_write()
    }

    /// Whether the inner writer never cancels.
    pub closed spec fn never_cancels(&self) -> bool {
        self.writer.never_cancels()
    }

    /// The bytes the inner writer has accepted.
    pub closed spec fn sink(&self) -> Seq<u8> {
        self.writer.sink()
    }

    /// Wrap a byte writer for bit-level writing in the given direction.
    pub fn new(writer: W, direction_lsb: bool) -> (r: BitWriter<W>)
        ensures
            r.wf(),
            r.lsb() == direction_lsb,
            r.never_cancels() == writer.never_cancels(),
            r.bits() == stream_bits(writer.sink(), direction_lsb),
            r.sink() == writer.sink(),
    {
        let r = BitWriter { bit_buf: BitBuf::new(direction_lsb), writer };
        proof {
            assert(r.bits() =~= stream_bits(r.writer.sink(), direction_lsb));
        }
        r
    }

    /// Write the low `bits_to_write` bits (at most 32) of `bit_value`
    /// in this writer's direction.
    pub fn write_bits(&mut self, bits_to_write: usize, bit_value: u32)
        requires
            old(self).wf(),
            bits_to_write <= 32,
        ensures
            final(self).wf(),
            final(self).lsb() == old(self).lsb(),
            final(self).never_cancels() == old(self).never_cancels(),
            old(self).never_cancels() ==> final(self).bits() == old(self).bits() + value_bits(
                bit_value,
                bits_to_write as nat,
                old(self).lsb(),
            ),
    {
        self.bit_buf.write_bits(bits_to_write, bit_value, &mut self.writer);
        proof {
            if old(self).never_cancels() {
                assert(self.bits() =~= old(self).bits() + value_bits(
                    bit_value,
                    bits_to_write as nat,
                    old(self).lsb(),
                ));
            }
        }
    }

    /// Flush any pending bits as one final byte padded with zero bits,
    /// then flush the inner writer.
    pub fn flush_bits(&mut self)
        requires
            old(self).wf(),
        ensures
            final(self).wf(),
            final(self).lsb() == old(self).lsb(),
            final(self).never_cancels() == old(self).never_cancels(),
            old(self).never_cancels() ==> ({
                let pad = Seq::new((((8 - (old(self).bits().len() % 8)) % 8) as int) as nat, |j: int| false);
                final(self).bits() == old(self).bits() + pad
            }) || !old(self).never_cancels(),
    {
        let ghost b0 = old(self).bits();
        self.bit_buf.flush_bits(&mut self.writer);
        proof {
            if old(self).never_cancels() {
                let pend = old(self).bit_buf.pending_write();
                assert(self.bit_buf.pending_write() =~= Seq::<bool>::empty());
                if pend.len() == 0 {
                    assert(self.bits() =~= b0 + Seq::new(0nat, |j: int| false));
                    lemma_sink_bits_mod(old(self).writer.sink(), pend, old(self).lsb());
                } else {
                    assert(self.bits() =~= b0 + Seq::new((8 - pend.len() as int) as nat, |j: int| false));
                    lemma_sink_bits_mod(old(self).writer.sink(), pend, old(self).lsb());
                }
            }
        }
    }

    /// Give the inner writer back.
    pub fn inner(self) -> (r: W)
        ensures
            r.sink() == self.sink(),
            r.never_cancels() == self.never_cancels(),
    {
        self.writer
    }
}

/// The bits of a byte stream number a multiple of eight, so the pending
/// tail length determines the padding length modulo eight.
proof fn lemma_sink_bits_mod(sink: Seq<u8>, pend: Seq<bool>, lsb: bool)
    requires
        pend.len() <= 8,
    ensures
        0 < pend.len() < 8 ==> (8 - (stream_bits(sink, lsb) + pend).len() % 8) % 8 == 8
            - pend.len(),
        pend.len() == 0 ==> (8 - (stream_bits(sink, lsb) + pend).len() % 8) % 8 == 0,
        pend.len() == 8 ==> (8 - (stream_bits(sink, lsb) + pend).len() % 8) % 8 == 0,
    decreases sink.len(),
{
    lemma_stream_bits_len(sink, lsb);
    let total = (stream_bits(sink, lsb) + pend).len() as int;
    assert(total == 8 * sink.len() + pend.len());
    if pend.len() == 8 {
        assert(total == 8 * (sink.len() as int + 1) + 0) by (nonlinear_arith)
            requires
                total == 8 * sink.len() + 8,
        ;
        vstd::arithmetic::div_mod::lemma_fundamental_div_mod_converse_mod(
            total,
            8,
            sink.len() as int + 1,
            0,
        );
        vstd::arithmetic::div_mod::lemma_small_mod(0, 8);
    } else {
        vstd::arithmetic::div_mod::lemma_fundamental_div_mod_converse_mod(
            total,
            8,
            sink.len() as int,
            pend.len() as int,
        );
        if pend.len() > 0 {
            vstd::arithmetic::div_mod::lemma_small_mod((8 - pend.len()) as nat, 8);
        } else {
            vstd::arithmetic::div_mod::lemma_small_mod(0, 8);
        }
    }
}

/// A byte stream carries eight bits per byte.
pub proof fn lemma_stream_bits_len(s: Seq<u8>, lsb: bool)
    ensures
        stream_bits(s, lsb).len() == 8 * s.len(),
    decreases s.len(),
{
    if s.len() > 0 {
        lemma_stream_bits_len(s.skip(1), lsb);
    }
}

/// The value of a bit string such as "11010001", most significant bit
/// first; characters other than the digit one count as zero bits.
pub open spec fn bitstr_val(s: Seq<u8>) -> nat
    decreases s.len(),
{
    if s.len() == 0 {
        0
    } else {
        2 * bitstr_val(s.take(s.len() - 1)) + (if s[s.len() - 1] == 49 {
            1nat
        } else {
            0nat
        })
    }
}

proof fn lemma_bitstr_val_bound(s: Seq<u8>)
    ensures
        bitstr_val(s) < vstd::arithmetic::power2::pow2(s.len() as nat),
    decreases s.len(),
{
    vstd::arithmetic::power2::lemma2_to64();
    if s.len() > 0 {
        lemma_bitstr_val_bound(s.take(s.len() - 1));
        vstd::arithmetic::power2::lemma_pow2_unfold(s.len() as nat);
    }
}

/// Convert a bit string such as "11010001" to its value.
pub fn bitstr_to_value(bit_str: &str) -> (r: u32)
    requires
        bit_str.spec_bytes().len() <= 32,
    ensures
        r == bitstr_val(bit_str.spec_bytes()),
{
    let bytes = bit_str.as_bytes();
    let n = bytes.len();
    proof {
        vstd::string::is_ascii_spec_bytes(bit_str);
        vstd::arithmetic::power2::lemma2_to64();
    }
    let mut retval: u32 = 0;
    let mut i: usize = 0;
    while i < n
        invariant
            i <= n == bit_str.spec_bytes().len(),
            bytes@ == bit_str.spec_bytes(),
            n <= 32,
            retval == bitstr_val(bytes@.take(i as int)),
            retval < vstd::arithmetic::power2::pow2(i as nat),
        decreases n - i,
    {
        let c = bytes[i];
        proof {
            assert(bytes@.take(i as int + 1).take(i as int) =~= bytes@.take(i as int));
            assert(bytes@.take(i as int + 1)[i as int] == bytes@[i as int]);
            vstd::arithmetic::power2::lemma_pow2_unfold((i + 1) as nat);
            if i + 1 < 32 {
                vstd::arithmetic::power2::lemma_pow2_strictly_increases((i + 1) as nat, 32);
            }
            vstd::arithmetic::power2::lemma2_to64();
        }
        retval = retval * 2;
        if c == 49 {
            retval = retval + 1;
        }
        i = i + 1;
        proof {
            lemma_bitstr_val_bound(bytes@.take(i as int));
        }
    }
    proof {
        assert(bytes@.take(n as int) =~= bytes@);
    }
    retval
}

/// The bytes of a value written in binary, most significant bit first,
/// with no leading zero except for the value zero itself.
pub open spec fn bitstr_bytes(v: nat) -> Seq<u8>
    decreases v,
{
    if v < 2 {
        seq![(48 + v) as u8]
    } else {
        bitstr_bytes(v / 2) + seq![(48 + v % 2) as u8]
    }
}

/// The reversal of a byte sequence.
pub open spec fn mirrored(s: Seq<u8>) -> Seq<u8> {
    Seq::new(s.len(), |i: int| s[s.len() - 1 - i])
}

/// ASCII bytes viewed as characters.
pub open spec fn ascii_chars(s: Seq<u8>) -> Seq<char> {
    Seq::new(s.len(), |i: int| s[i] as char)
}

/// Relies on String::from_utf8: bytes below 128 are valid UTF-8 and the
/// string's characters are the input bytes unchanged.
#[verifier::external_body]
pub(crate) fn ascii_to_string_pub(bytes: Vec<u8>) -> (r: String)
    requires
        forall|i: int| 0 <= i < bytes@.len() ==> bytes@[i] < 128,
    ensures
        r@ == ascii_chars(bytes@),
{
    String::from_utf8(bytes).unwrap_or(String::new())
}

/// Convert a value to its bit string, such as "11010001".
pub fn value_to_bitstr(value: u32) -> (r: String)
    ensures
        r@ == ascii_chars(bitstr_bytes(value as nat)),
{
    if value == 0 {
        let mut digits: Vec<u8> = Vec::new();
        digits.push(48);
        proof {
            assert(digits@ =~= bitstr_bytes(0));
        }
        return ascii_to_string_pub(digits);
    }
    let ghost v0 = value as nat;
    let mut digits: Vec<u8> = Vec::new();
    let mut v = value;
    while v > 0
        invariant
            v > 0 ==> bitstr_bytes(v0) == bitstr_bytes(v as nat) + mirrored(digits@),
            v == 0 ==> bitstr_bytes(v0) == mirrored(digits@),
            forall|i: int| 0 <= i < digits@.len() ==> digits@[i] == 48 || digits@[i] == 49,
        decreases v,
    {
        let d: u8 = 48 + (v % 2) as u8;
        let ghost pre = digits@;
        digits.push(d);
        let vnext = v / 2;
        proof {
            if vnext > 0 {
                assert(bitstr_bytes(v as nat) == bitstr_bytes((v / 2) as nat) + seq![d]);
                assert(bitstr_bytes((v / 2) as nat) + (seq![d] + mirrored(pre)) =~= (bitstr_bytes(
                    (v / 2) as nat,
                ) + seq![d]) + mirrored(pre));
                assert(mirrored(digits@) =~= seq![d] + mirrored(pre));
            } else {
                assert(v < 2);
                assert(bitstr_bytes(v as nat) =~= seq![d]);
                assert(mirrored(digits@) =~= seq![d] + mirrored(pre));
                assert(bitstr_bytes(v0) =~= seq![d] + mirrored(pre));
            }
        }
        v = vnext;
    }
    let mut out: Vec<u8> = Vec::new();
    let mut i: usize = digits.len();
    while i > 0
        invariant
            i <= digits@.len(),
            out@ == mirrored(digits@).take(digits@.len() - i),
            forall|k: int| 0 <= k < digits@.len() ==> digits@[k] == 48 || digits@[k] == 49,
        decreases i,
    {
        i = i - 1;
        out.push(digits[i]);
        proof {
            assert(out@ =~= mirrored(digits@).take(digits@.len() - i));
        }
    }
    proof {
        assert(out@ =~= mirrored(digits@));
        assert(forall|k: int| 0 <= k < out@.len() ==> out@[k] < 128);
    }
    ascii_to_string_pub(out)
}

} // verus!