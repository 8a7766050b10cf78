//! Bit-packing over byte buffers, least significant bit first.
use vstd::arithmetic::power2::*;
use vstd::bits::*;
use vstd::prelude::*;

use crate::bits;
use crate::wire::WireError;

verus! {

/// The `width`-bit number that starts at bit `pos`, if the string is long enough.
pub open spec fn read(s: Seq<bool>, pos: nat, width: nat) -> Option<nat> {
    if pos + width <= s.len() {
        Some(bits::val(s.subrange(pos as int, (pos + width) as int)))
    } else {
        None
    }
}

/// Writer over a zeroed byte buffer of fixed size.
pub struct BitWriter {
    bytes: Vec<u8>,
    bit_pos: usize,
}

impl BitWriter {
    /// All bits past the write position are clear.
    pub closed spec fn wf(self) -> bool {
        &&& self.bit_pos <= 8 * self.bytes@.len() <= usize::MAX
        &&& forall|i: int|
            self.bit_pos <= i < 8 * self.bytes@.len() ==> !#[trigger] bits::stream(self.bytes@)[i]
    }

    /// The bits written so far.
    pub closed spec fn written(self) -> Seq<bool> {
        bits::stream(self.bytes@).take(self.bit_pos as int)
    }

    /// Size of the buffer in bytes.
    pub closed spec fn byte_len(self) -> nat {
        self.bytes@.len()
    }

    /// Allocates a zeroed buffer of `byte_len` bytes.
    pub fn new(byte_len: usize) -> (w: Self)
        requires
            8 * byte_len <= usize::MAX,
        ensures
            w.wf(),
            w.byte_len() == byte_len,
            w.written() == Seq::<bool>::empty(),
    {
        let bytes: Vec<u8> = vec![0u8; byte_len];
        let w = BitWriter { bytes, bit_pos: 0 };
        proof {
            assert forall|i: int| 0 <= i < 8 * w.bytes@.len() implies !#[trigger] bits::stream(
                w.bytes@,
            )[i] by {
                let k = (i % 8) as u8;
                assert(w.bytes@[i / 8] == 0u8);
                assert((0u8 >> k) & 1u8 == 0u8) by (bit_vector);
            }
            assert(w.written() =~= Seq::<bool>::empty());
        }
        w
    }

    /// Appends the low `width` bits of `value`.
    pub fn write_bits(&mut self, value: u64, width: u32)
        requires
            old(self).wf(),
            width <= 64,
            old(self).written().len() + width <= 8 * old(self).byte_len(),
        ensures
            final(self).wf(),
            final(self).byte_len() == old(self).byte_len(),
            final(self).written() == old(self).written() + bits::field(value as nat, width as nat),
    {
        let ghost before = bits::stream(self.bytes@);
        let start: usize = self.bit_pos;
        let mut j: u32 = 0;
        proof {
            assert(self.written().len() == start);
        }
        while j < width
            invariant
                j <= width <= 64,
                self.bit_pos == start,
                start + width <= 8 * self.bytes@.len() <= usize::MAX,
                before.len() == 8 * self.bytes@.len(),
                self.bytes@.len() == old(self).byte_len(),
                forall|i: int| start <= i < before.len() ==> !#[trigger] before[i],
                forall|i: int|
                    0 <= i < before.len() ==> #[trigger] bits::stream(self.bytes@)[i] == if start
                        <= i < start + j {
                        bits::nth_bit(value as nat, (i - start) as nat)
                    } else {
                        before[i]
                    },
            decreases width - j,
        {
            let ghost prev = self.bytes@;
            let idx: usize = start + j as usize;
            proof {
                lemma_u64_shr_is_div(value, j as u64);
                let x = value >> j;
                assert(x & 1 == x % 2) by (bit_vector);
                assert(((value >> j) & 1 == 1) == bits::nth_bit(value as nat, j as nat));
                assert(!before[idx as int]);
                assert(bits::stream(prev)[idx as int] == before[idx as int]);
            }
            if (value >> j) & 1 == 1 {
                let m: usize = idx % 8;
                let b: u8 = self.bytes[idx / 8];
                self.bytes.set(idx / 8, b | (1u8 << m));
                proof {
                    assert forall|i: int| 0 <= i < before.len() implies #[trigger] bits::stream(
                        self.bytes@,
                    )[i] == (i == idx || bits::stream(prev)[i]) by {
                        let k = (i % 8) as u8;
                        let mm = m as u8;
                        assert(((b | (1u8 << mm)) >> k) & 1u8 == 1u8 <==> (k == mm || (b >> k) & 1u8
                            == 1u8)) by (bit_vector)
                            requires
                                k < 8,
                                mm < 8,
                        ;
                        assert(1u8 << m == 1u8 << mm);
                        assert(bits::stream(prev)[i] == bits::byte_bit(prev[i / 8], i % 8));
                    }
                }
            }
            j = j + 1;
        }
        self.bit_pos = start + width as usize;
        proof {
            let after = bits::stream(self.bytes@);
            assert(after.len() == before.len());
            assert(self.written() =~= old(self).written() + bits::field(
                value as nat,
                width as nat,
            ));
        }
    }

    /// Appends a single flag bit.
    pub fn write_bit(&mut self, bit: bool)
        requires
            old(self).wf(),
            old(self).written().len() + 1 <= 8 * old(self).byte_len(),
        ensures
            final(self).wf(),
            final(self).byte_len() == old(self).byte_len(),
            final(self).written() == old(self).written().push(bit),
    {
        let value: u64 = if bit {
            1
        } else {
            0
        };
        self.write_bits(value, 1);
        proof {
            lemma2_to64();
            assert(bits::field(value as nat, 1) =~= seq![bit]);
            assert(self.written() =~= old(self).written().push(bit));
        }
    }

    /// Hands out the packed buffer.
    pub fn finish(self) -> (bytes: Vec<u8>)
        requires
            self.wf(),
        ensures
            bytes@.len() == self.byte_len(),
            self.written().len() <= 8 * bytes@.len(),
            bits::stream(bytes@) == self.written() + Seq::new(
                (8 * bytes@.len() - self.written().len()) as nat,
                |i: int| false,
            ),
    {
        proof {
            assert(bits::stream(self.bytes@) =~= self.written() + Seq::new(
                (8 * self.bytes@.len() - self.written().len()) as nat,
                |i: int| false,
            ));
        }
        self.bytes
    }
}

/// Reader over a borrowed byte slice.
pub struct BitReader<'a> {
    bytes: &'a [u8],
    bit_pos: usize,
    bit_len: usize,
}

impl<'a> BitReader<'a> {
    pub closed spec fn wf(self) -> bool {
        &&& self.bit_len == 8 * self.bytes@.len()
        &&& self.bit_pos <= self.bit_len
        &&& self.bit_len + 64 <= usize::MAX
    }

    /// All bits of the slice.
    pub closed spec fn source(self) -> Seq<bool> {
        bits::stream(self.bytes@)
    }

    /// The next bit to be read.
    pub closed spec fn pos(self) -> nat {
        self.bit_pos as nat
    }

    pub fn new(bytes: &'a [u8]) -> (r: Self)
        requires
            8 * bytes@.len() + 64 <= usize::MAX,
        ensures
            r.wf(),
            r.source() == bits::stream(bytes@),
            r.pos() == 0,
    {
        BitReader { bytes, bit_pos: 0, bit_len: bytes.len() * 8 }
    }

    /// The read position never passes the end of the slice.
    pub proof fn lemma_pos(self)
        requires
            self.wf(),
        ensures
            self.pos() <= self.source().len(),
            self.source().len() + 64 <= usize::MAX,
    {
    }

    /// The position of the next bit.
    pub fn position(&self) -> (p: usize)
        ensures
            p == self.pos(),
    {
        self.bit_pos
    }

    /// Reads `width` bits as a number; a width of `0` reads nothing and gives `0`.
    pub fn read_bits(&mut self, width: u32) -> (r: Result<u64, WireError>)
        requires
            old(self).wf(),
            width <= 64,
        ensures
            final(self).wf(),
            final(self).source() == old(self).source(),
            match read(old(self).source(), old(self).pos(), width as nat) {
                Some(v) => r == Ok::<u64, WireError>(v as u64) && v < pow2(width as nat) && v
                    <= u64::MAX && final(self).pos() == old(self).pos() + width,
                None => r == Err::<u64, WireError>(WireError::Truncated) && final(self).pos()
                    == old(self).pos(),
            },
    {
        let ghost s = bits::stream(self.bytes@);
        let ghost p = self.bit_pos as int;
        if width == 0 {
            proof {
                assert(s.subrange(p, p) =~= Seq::<bool>::empty());
                lemma2_to64();
            }
            return Ok(0);
        }
        if self.bit_pos + width as usize > self.bit_len {
            return Err(WireError::Truncated);
        }
        let mut v: u64 = 0;
        let mut j: u32 = 0;
        proof {
            assert(s.subrange(p, p) =~= Seq::<bool>::empty());
            lemma2_to64();
        }
        while j < width
            invariant
                j <= width <= 64,
                s == bits::stream(self.bytes@),
                p == self.bit_pos,
                p + width <= self.bit_len,
                self.wf(),
                self.bytes@ == old(self).bytes@,
                self.bit_pos == old(self).bit_pos,
                v == bits::val(s.subrange(p, p + j)),
                v < pow2(j as nat),
            decreases width - j,
        {
            let idx: usize = self.bit_pos + j as usize;
            let m: usize = idx % 8;
            let byte: u8 = self.bytes[idx / 8];
            let bit: u8 = (byte >> m) & 1;
            proof {
                let mm = m as u8;
                assert((byte >> mm) & 1u8 <= 1u8) by (bit_vector);
                assert(byte >> m == byte >> mm);
                assert(s[idx as int] == (bit == 1));
                assert(s.subrange(p, p + j + 1) =~= s.subrange(p, p + j).push(s[p + j]));
                bits::lemma_val_push(s.subrange(p, p + j), s[p + j]);
                bits::lemma_val_bound(s.subrange(p, p + j + 1));
                let w = bit as u64;
                let jj = j as u64;
                lemma2_to64();
                lemma2_to64_rest();
                lemma_u64_pow2_no_overflow(j as nat);
                lemma_u64_shl_is_mul(1u64, jj);
                assert(v < (1u64 << jj));
                assert((v | (w << jj)) == v + w * (1u64 << jj)) by (bit_vector)
                    requires
                        jj < 64,
                        w <= 1,
                        v < (1u64 << jj),
                ;
                assert(w << j == w << jj);
            }
            v = v | ((bit as u64) << j);
            j = j + 1;
        }
        proof {
            bits::lemma_val_bound(s.subrange(p, p + width));
        }
        self.bit_pos = self.bit_pos + width as usize;
        Ok(v)
    }
}

} // verus!
