//! Bit-stream readers and writers: a reader iterating the bits of a byte
//! slice, a writer gathering bits into bytes, and a small bit accumulator.
//!
//! Bits are stored least-significant-first within each byte.

use vstd::prelude::*;

verus! {

/// Bit `k` of a byte.
pub open spec fn bit_of(byte: u8, k: int) -> u8 {
    (byte >> (k as u8)) & 1
}

/// Every bit of a zero byte is zero.
pub proof fn lemma_zero_bits(k: int)
    requires
        0 <= k < 8,
    ensures
        bit_of(0u8, k) == 0,
{
    let kb = k as u8;
    assert((0u8 >> kb) & 1 == 0) by (bit_vector);
}

/// Setting bit `b` leaves every other bit alone.
pub proof fn lemma_set_bit(cur: u8, b: u8, k: int)
    requires
        b < 8,
        0 <= k < 8,
    ensures
        bit_of(cur | (1u8 << b), b as int) == 1,
        k != b ==> bit_of(cur | (1u8 << b), k) == bit_of(cur, k),
{
    let kb = k as u8;
    assert(((cur | (1u8 << b)) >> b) & 1 == 1) by (bit_vector)
        requires
            b < 8,
    ;
    assert(kb != b ==> ((cur | (1u8 << b)) >> kb) & 1 == (cur >> kb) & 1) by (bit_vector)
        requires
            b < 8,
            kb < 8,
    ;
}

/// How many bits a stream of `len` bytes with `uu` unused trailing bits
/// holds.
pub open spec fn stream_bits(len: int, uu: int) -> int {
    if len == 0 {
        0
    } else {
        8 * (len - 1) + (8 - uu)
    }
}

/// Reads the bits of a byte slice one by one, least significant first; the
/// last byte's top `uu_bits` bits are unused and not yielded.
#[derive(Debug, Clone)]
pub struct BitStreamReader<'s> {
    /// The underlying byte stream.
    pub stream: &'s [u8],
    /// Number of used bits in the last byte.
    pub last_bit: usize,
    /// A bit-index into the current byte.
    pub bidx: usize,
    /// A byte-index.
    pub cidx: usize,
}

impl<'s> BitStreamReader<'s> {
    /// Internal consistency: the indices walk the stream bit by bit.
    pub open spec fn wf(&self) -> bool {
        &&& self.bidx < 8
        &&& self.last_bit <= 8
        &&& self.cidx <= self.stream@.len()
    }

    /// The index of the next bit to be read.
    pub open spec fn at(&self) -> int {
        8 * self.cidx + self.bidx
    }

    /// A reader over `stream` whose last byte has `uu_bits` unused top bits.
    pub fn new(stream: &'s [u8], uu_bits: u8) -> (r: BitStreamReader<'s>)
        requires
            uu_bits <= 8,
        ensures
            r.wf(),
            r.stream@ == stream@,
            r.last_bit == 8 - uu_bits,
            r.at() == 0,
    {
        BitStreamReader { stream, last_bit: 8 - (uu_bits as usize), bidx: 0, cidx: 0 }
    }

    fn inc_counter(&mut self)
        requires
            old(self).wf(),
            old(self).cidx < old(self).stream@.len(),
        ensures
            final(self).wf(),
            final(self).stream == old(self).stream,
            final(self).last_bit == old(self).last_bit,
            final(self).at() == old(self).at() + 1,
    {
        let n = self.stream.len();
        self.bidx = self.bidx + 1;
        if self.bidx == 8 {
            self.bidx = 0;
            self.cidx = self.cidx + 1;
        }
    }

    fn still_going(&self) -> (r: bool)
        requires
            self.wf(),
        ensures
            r == (self.at() < stream_bits(self.stream@.len() as int, 8 - self.last_bit)),
    {
        if self.cidx < self.stream.len() {
            if self.cidx + 1 == self.stream.len() {
                self.bidx < self.last_bit
            } else {
                true
            }
        } else {
            false
        }
    }

    /// The next bit of the stream, or `None` once only unused bits remain.
    pub fn next(&mut self) -> (r: Option<u8>)
        requires
            old(self).wf(),
        ensures
            final(self).wf(),
            final(self).stream == old(self).stream,
            final(self).last_bit == old(self).last_bit,
            ({
                let total = stream_bits(old(self).stream@.len() as int, 8 - old(self).last_bit);
                if old(self).at() < total {
                    &&& r == Some(bit_of(old(self).stream@[old(self).cidx as int], old(self).bidx as int))
                    &&& final(self).at() == old(self).at() + 1
                } else {
                    &&& r is None
                    &&& *final(self) == *old(self)
                }
            }),
    {
        if self.still_going() {
            let result = (self.stream[self.cidx] >> (self.bidx as u8)) & 1u8;
            self.inc_counter();
            Some(result)
        } else {
            None
        }
    }
}

/// Gathers bits into bytes, least significant first; `finalize` hands the
/// bytes out together with the number of unused bits in the last byte.
#[derive(Debug, Clone)]
pub struct BitStreamWriter {
    /// The bytes gathered so far; the last one is still being filled.
    pub stream: Vec<u8>,
    /// A bit-index into the last byte.
    pub bidx: usize,
    /// The index of the last byte.
    pub cidx: usize,
}

impl BitStreamWriter {
    /// Internal consistency: one byte in progress at the end, its top bits
    /// still zero.
    pub open spec fn wf(&self) -> bool {
        &&& self.bidx < 8
        &&& self.stream@.len() == self.cidx + 1
        &&& forall|k: int| #!
            [trigger bit_of(self.stream@[self.cidx as int], k)]
            self.bidx <= k < 8 ==> bit_of(self.stream@[self.cidx as int], k) == 0
    }

    /// The bits written so far, in order.
    pub open spec fn bits(&self) -> Seq<u8> {
        Seq::new((8 * self.cidx + self.bidx) as nat, |j: int| bit_of(self.stream@[j / 8], j % 8))
    }

    /// A writer with no bits written yet.
    pub fn new() -> (r: BitStreamWriter)
        ensures
            r.wf(),
            r.bits() =~= Seq::<u8>::empty(),
    {
        let mut stream: Vec<u8> = Vec::new();
        stream.push(0);
        proof {
            assert forall|k: int| 0 <= k < 8 implies bit_of(0u8, k) == 0 by {
                lemma_zero_bits(k);
            }
        }
        BitStreamWriter { stream, bidx: 0, cidx: 0 }
    }

    /// Appends one bit: any non-zero `bit` counts as a one.
    pub fn add_bit(&mut self, bit: u8)
        requires
            old(self).wf(),
        ensures
            final(self).wf(),
            final(self).bits() =~= old(self).bits().push(if bit == 0 { 0u8 } else { 1u8 }),
    {
        let b: u8 = self.bidx as u8;
        if bit != 0 {
            let cur = self.stream[self.cidx];
            let nv = cur | (1u8 << b);
            proof {
                assert forall|k: int| 0 <= k < 8 implies bit_of(nv, k) == (if k == b {
                    1u8
                } else {
                    bit_of(cur, k)
                }) by {
                    lemma_set_bit(cur, b, k);
                }
            }
            self.stream.set(self.cidx, nv);
        }
        self.bidx = self.bidx + 1;
        if self.bidx == 8 {
            self.stream.push(0);
            proof {
                assert forall|k: int| 0 <= k < 8 implies bit_of(0u8, k) == 0 by {
                    lemma_zero_bits(k);
                }
            }
            let n = self.stream.len();
            self.bidx = 0;
            self.cidx = self.cidx + 1;
        }
    }

    /// Hands the gathered bytes out, with how many top bits of the last byte
    /// are unused (zero); an untouched trailing byte is dropped.
    pub fn finalize(self) -> (r: (Vec<u8>, u8))
        requires
            self.wf(),
        ensures
            r.1 < 8,
            8 * r.0@.len() == self.bits().len() + r.1,
            forall|j: int| #!
                [trigger bit_of(r.0@[j / 8], j % 8)]
                0 <= j < self.bits().len() ==> bit_of(r.0@[j / 8], j % 8) == self.bits()[j],
            forall|j: int| #!
                [trigger bit_of(r.0@[j / 8], j % 8)]
                self.bits().len() <= j < 8 * r.0@.len() ==> bit_of(r.0@[j / 8], j % 8) == 0,
    {
        let mut stream = self.stream;
        let uu_bits: u8 = if self.bidx == 0 {
            let _ = stream.pop();
            0
        } else {
            8 - (self.bidx as u8)
        };
        (stream, uu_bits)
    }
}

/// The eight bits of a byte, least significant first.
pub fn to_bits(code: u8) -> (r: [u8; 8])
    ensures
        forall|i: int| 0 <= i < 8 ==> r@[i] == bit_of(code, i),
{
    let r = [
        code & 1u8,
        (code >> 1u8) & 1u8,
        (code >> 2u8) & 1u8,
        (code >> 3u8) & 1u8,
        (code >> 4u8) & 1u8,
        (code >> 5u8) & 1u8,
        (code >> 6u8) & 1u8,
        (code >> 7u8) & 1u8,
    ];
    proof {
        assert((code >> 0u8) & 1u8 == code & 1u8) by (bit_vector);
        assert forall|i: int| 0 <= i < 8 implies r@[i] == bit_of(code, i) by {
            assert(r@[0] == code & 1u8);
            assert(r@[1] == (code >> 1u8) & 1u8);
            assert(r@[2] == (code >> 2u8) & 1u8);
            assert(r@[3] == (code >> 3u8) & 1u8);
            assert(r@[4] == (code >> 4u8) & 1u8);
            assert(r@[5] == (code >> 5u8) & 1u8);
            assert(r@[6] == (code >> 6u8) & 1u8);
            assert(r@[7] == (code >> 7u8) & 1u8);
        }
    }
    r
}

/// Accumulates up to eight bits into a value, most significant first.
#[derive(Debug, Clone, PartialEq, Eq, Structural)]
pub struct BitBuffer {
    /// The value gathered so far.
    pub val: u8,
    /// How many bits it holds.
    pub cnt: usize,
}

impl BitBuffer {
    /// An empty buffer.
    pub fn new() -> (r: BitBuffer)
        ensures
            r.val == 0,
            r.cnt == 0,
    {
        BitBuffer { val: 0, cnt: 0 }
    }

    /// Empties the buffer.
    pub fn reset(&mut self)
        ensures
            final(self).val == 0,
            final(self).cnt == 0,
    {
        self.val = 0;
        self.cnt = 0;
    }

    /// Shifts one bit in at the low end.
    pub fn add_bit(&mut self, bit: u8)
        requires
            old(self).cnt < 8,
        ensures
            final(self).val == ((old(self).val << 1) | bit),
            final(self).cnt == old(self).cnt + 1,
    {
        self.cnt = self.cnt + 1;
        self.val = (self.val << 1) | bit;
    }
}

} // verus!
