//! Reading single bits out of a byte buffer, and packing bits into bytes.
//!
//! Bits are numbered from the most significant end: bit 0 of a buffer is the
//! top bit of its first byte.

use vstd::prelude::*;

verus! {

/// Bit `j` of the byte `x`, where bit 0 is the most significant one.
pub open spec fn bit_of(x: u8, j: int) -> bool {
    (x >> ((7 - j) as u8)) & 1u8 == 1u8
}

/// The bits of a byte sequence, most significant bit of each byte first.
pub open spec fn bits_of(bytes: Seq<u8>) -> Seq<bool> {
    Seq::new(8 * bytes.len(), |k: int| bit_of(bytes[k / 8], k % 8))
}

/// The number that a bit sequence spells in binary, first bit most significant.
pub open spec fn bits_value(bits: Seq<bool>) -> nat
    decreases bits.len(),
{
    if bits.len() == 0 {
        0
    } else {
        2 * bits_value(bits.drop_last()) + if bits.last() {
            1nat
        } else {
            0nat
        }
    }
}

/// How many zero bits bring a sequence of `n` bits up to a whole number of bytes.
pub open spec fn pad_len(n: nat) -> nat {
    ((8 - n % 8) % 8) as nat
}

/// The eight bits that make up byte `k` of the packed form of `bits`; positions
/// past the end of `bits` read as zero.
pub open spec fn chunk(bits: Seq<bool>, k: int) -> Seq<bool> {
    Seq::new(8, |j: int| 8 * k + j < bits.len() && bits[8 * k + j])
}

/// `bits` packed into bytes, the last byte filled up with zero bits.
pub open spec fn pack_bits(bits: Seq<bool>) -> Seq<u8> {
    Seq::new((bits.len() + 7) / 8, |k: int| bits_value(chunk(bits, k)) as u8)
}

/// `n` zero bits.
pub open spec fn zeros(n: nat) -> Seq<bool> {
    Seq::new(n, |i: int| false)
}

/// A byte is the sum of its bits, each with its place value.
proof fn lemma_byte_from_bits(x: u8)
    by (bit_vector)
    ensures
        x == (if (x >> 7u8) & 1u8 == 1u8 { 128u8 } else { 0u8 })
            + (if (x >> 6u8) & 1u8 == 1u8 { 64u8 } else { 0u8 })
            + (if (x >> 5u8) & 1u8 == 1u8 { 32u8 } else { 0u8 })
            + (if (x >> 4u8) & 1u8 == 1u8 { 16u8 } else { 0u8 })
            + (if (x >> 3u8) & 1u8 == 1u8 { 8u8 } else { 0u8 })
            + (if (x >> 2u8) & 1u8 == 1u8 { 4u8 } else { 0u8 })
            + (if (x >> 1u8) & 1u8 == 1u8 { 2u8 } else { 0u8 })
            + (if (x >> 0u8) & 1u8 == 1u8 { 1u8 } else { 0u8 }),
{
}

/// A byte that is a sum of place values has the bits that were summed.
proof fn lemma_bits_from_byte(
    b0: bool,
    b1: bool,
    b2: bool,
    b3: bool,
    b4: bool,
    b5: bool,
    b6: bool,
    b7: bool,
    x: u8,
)
    by (bit_vector)
    requires
        x == (if b0 { 128u8 } else { 0u8 }) + (if b1 { 64u8 } else { 0u8 })
            + (if b2 { 32u8 } else { 0u8 }) + (if b3 { 16u8 } else { 0u8 })
            + (if b4 { 8u8 } else { 0u8 }) + (if b5 { 4u8 } else { 0u8 })
            + (if b6 { 2u8 } else { 0u8 }) + (if b7 { 1u8 } else { 0u8 }),
    ensures
        ((x >> 7u8) & 1u8 == 1u8) == b0,
        ((x >> 6u8) & 1u8 == 1u8) == b1,
        ((x >> 5u8) & 1u8 == 1u8) == b2,
        ((x >> 4u8) & 1u8 == 1u8) == b3,
        ((x >> 3u8) & 1u8 == 1u8) == b4,
        ((x >> 2u8) & 1u8 == 1u8) == b5,
        ((x >> 1u8) & 1u8 == 1u8) == b6,
        ((x >> 0u8) & 1u8 == 1u8) == b7,
{
}

/// The value of eight bits, written out as a sum.
proof fn lemma_value_of_eight(b: Seq<bool>)
    requires
        b.len() == 8,
    ensures
        bits_value(b) == (if b[0] { 128int } else { 0 }) + (if b[1] { 64int } else { 0 })
            + (if b[2] { 32int } else { 0 }) + (if b[3] { 16int } else { 0 })
            + (if b[4] { 8int } else { 0 }) + (if b[5] { 4int } else { 0 })
            + (if b[6] { 2int } else { 0 }) + (if b[7] { 1int } else { 0 }),
        bits_value(b) < 256,
{
    let b7 = b.drop_last();
    let b6 = b7.drop_last();
    let b5 = b6.drop_last();
    let b4 = b5.drop_last();
    let b3 = b4.drop_last();
    let b2 = b3.drop_last();
    let b1 = b2.drop_last();
    let b0 = b1.drop_last();
    assert(bits_value(b0) == 0);
    assert(bits_value(b1) == 2 * bits_value(b0) + if b[0] { 1nat } else { 0nat });
    assert(bits_value(b2) == 2 * bits_value(b1) + if b[1] { 1nat } else { 0nat });
    assert(bits_value(b3) == 2 * bits_value(b2) + if b[2] { 1nat } else { 0nat });
    assert(bits_value(b4) == 2 * bits_value(b3) + if b[3] { 1nat } else { 0nat });
    assert(bits_value(b5) == 2 * bits_value(b4) + if b[4] { 1nat } else { 0nat });
    assert(bits_value(b6) == 2 * bits_value(b5) + if b[5] { 1nat } else { 0nat });
    assert(bits_value(b7) == 2 * bits_value(b6) + if b[6] { 1nat } else { 0nat });
    assert(bits_value(b) == 2 * bits_value(b7) + if b[7] { 1nat } else { 0nat });
}

/// Reading the eight bits of a byte back as a number gives the byte.
pub proof fn lemma_value_of_byte_bits(x: u8)
    ensures
        bits_value(bits_of(seq![x])) == x,
{
    let b = bits_of(seq![x]);
    lemma_value_of_eight(b);
    lemma_byte_from_bits(x);
    assert(forall|j: int| 0 <= j < 8 ==> b[j] == bit_of(x, j));
}

/// A byte built from eight bits holds exactly those bits.
pub proof fn lemma_bits_of_value(b: Seq<bool>)
    requires
        b.len() == 8,
    ensures
        bits_value(b) < 256,
        bits_of(seq![bits_value(b) as u8]) == b,
{
    lemma_value_of_eight(b);
    let x = bits_value(b) as u8;
    lemma_bits_from_byte(b[0], b[1], b[2], b[3], b[4], b[5], b[6], b[7], x);
    let r = bits_of(seq![x]);
    assert forall|j: int| 0 <= j < 8 implies r[j] == b[j] by {
        assert(r[j] == bit_of(x, j));
    }
    assert(r =~= b);
}

/// Unpacking what was packed gives the bits back, followed by the padding.
pub proof fn lemma_bits_of_pack(bits: Seq<bool>)
    ensures
        pack_bits(bits).len() == (bits.len() + 7) / 8,
        8 * pack_bits(bits).len() == bits.len() + pad_len(bits.len()),
        bits_of(pack_bits(bits)) == bits + zeros(pad_len(bits.len())),
{
    let packed = pack_bits(bits);
    let back = bits_of(packed);
    let want = bits + zeros(pad_len(bits.len()));
    assert(back.len() == want.len());
    assert forall|k: int| 0 <= k < back.len() implies back[k] == want[k] by {
        let c = chunk(bits, k / 8);
        lemma_bits_of_value(c);
        assert(bits_of(seq![packed[k / 8]])[k % 8] == c[k % 8]);
        assert(bits_of(seq![packed[k / 8]])[k % 8] == bit_of(packed[k / 8], k % 8));
    }
    assert(back =~= want);
}

/// The bits of a concatenation are the concatenated bits.
pub proof fn lemma_bits_of_concat(a: Seq<u8>, b: Seq<u8>)
    ensures
        bits_of(a + b) == bits_of(a) + bits_of(b),
{
    assert(bits_of(a + b) =~= bits_of(a) + bits_of(b));
}

/// Appends the eight bits of `byte`, most significant first.
pub fn push_byte(bits: &mut Vec<bool>, byte: u8)
    ensures
        final(bits)@ == old(bits)@ + bits_of(seq![byte]),
{
    let mut j: u8 = 0;
    while j < 8
        invariant
            j <= 8,
            bits@ == old(bits)@ + bits_of(seq![byte]).take(j as int),
        decreases 8 - j,
    {
        let bit: bool = (byte >> (7 - j)) & 1 == 1;
        assert(bit == bits_of(seq![byte])[j as int]);
        bits.push(bit);
        assert(bits_of(seq![byte]).take(j + 1) =~= bits_of(seq![byte]).take(j as int).push(bit));
        j += 1;
    }
    assert(bits_of(seq![byte]).take(8) =~= bits_of(seq![byte]));
}

/// Shifting a bit in from the right doubles and adds the bit.
proof fn lemma_shift_in(acc: u8, bit: u8)
    by (bit_vector)
    requires
        acc < 128,
        bit <= 1,
    ensures
        (acc << 1u8) | bit == 2 * acc + bit,
{
}

/// A single bit of a byte is 0 or 1.
proof fn lemma_low_bit(x: u8, s: u8)
    by (bit_vector)
    requires
        s < 8,
    ensures
        (x >> s) & 1u8 == 0u8 || (x >> s) & 1u8 == 1u8,
{
}

/// The value of a bit sequence is below two to the power of its length.
proof fn lemma_value_bound(bits: Seq<bool>)
    requires
        bits.len() <= 7,
    ensures
        bits_value(bits) < 128,
        bits.len() <= 6 ==> bits_value(bits) < 64,
        bits.len() <= 5 ==> bits_value(bits) < 32,
        bits.len() <= 4 ==> bits_value(bits) < 16,
        bits.len() <= 3 ==> bits_value(bits) < 8,
        bits.len() <= 2 ==> bits_value(bits) < 4,
        bits.len() <= 1 ==> bits_value(bits) < 2,
        bits.len() == 0 ==> bits_value(bits) == 0,
    decreases bits.len(),
{
    if bits.len() > 0 {
        lemma_value_bound(bits.drop_last());
    }
}

/// Packs `bits` into bytes, most significant bit first, filling the last byte
/// up with zero bits. Returns the bytes and the number of bits filled in.
pub fn bits_to_bytes(bits: &Vec<bool>) -> (packed: (Vec<u8>, u8))
    ensures
        packed.0@ == pack_bits(bits@),
        packed.1 == pad_len(bits@.len()),
{
    let n: usize = bits.len();
    let rest: usize = n % 8;
    let whole: usize = n / 8;
    let count: usize = if rest == 0 { whole } else { whole + 1 };
    let pad: u8 = if rest == 0 { 0 } else { (8 - rest) as u8 };
    let mut data: Vec<u8> = Vec::new();
    let mut k: usize = 0;
    while k < count
        invariant
            n == bits@.len(),
            count == (n + 7) / 8,
            k <= count,
            data@.len() == k,
            forall|i: int| 0 <= i < k ==> data@[i] == pack_bits(bits@)[i],
        decreases count - k,
    {
        let base: usize = 8 * k;
        let ghost c = chunk(bits@, k as int);
        let mut byte: u8 = 0;
        let mut j: usize = 0;
        while j < 8
            invariant
                n == bits@.len(),
                base == 8 * k,
                base < n,
                j <= 8,
                c == chunk(bits@, k as int),
                byte == bits_value(c.take(j as int)),
            decreases 8 - j,
        {
            let bit: u8 = if j < n - base && bits[base + j] { 1 } else { 0 };
            proof {
                lemma_value_bound(c.take(j as int));
                lemma_shift_in(byte, bit);
                assert(c.take(j + 1).drop_last() =~= c.take(j as int));
                assert(c.take(j + 1).last() == c[j as int]);
            }
            byte = (byte << 1) | bit;
            j += 1;
        }
        assert(c.take(8) =~= c);
        data.push(byte);
        k += 1;
    }
    assert(data@ =~= pack_bits(bits@));
    (data, pad)
}

/// A forward-only cursor over the bits of a byte buffer.
pub struct BitBundle<'a> {
    data: &'a [u8],
    byte_idx: usize,
    bit_idx: u8,
}

impl<'a> BitBundle<'a> {
    /// The buffer being read.
    pub closed spec fn bytes(&self) -> Seq<u8> {
        self.data@
    }

    /// The number of bits read so far.
    pub closed spec fn position(&self) -> int {
        8 * self.byte_idx + self.bit_idx
    }

    /// The cursor lies within the buffer or exactly at its end.
    pub closed spec fn wf(&self) -> bool {
        &&& self.bit_idx < 8
        &&& self.byte_idx <= self.data@.len()
        &&& (self.byte_idx == self.data@.len() ==> self.bit_idx == 0)
    }

    /// A reader's position never passes the end of its buffer.
    pub proof fn lemma_position_bounds(&self)
        requires
            self.wf(),
        ensures
            0 <= self.position() <= 8 * self.bytes().len(),
    {
    }

    /// A cursor at the first bit of `data`.
    pub fn new(data: &'a [u8]) -> (bundle: Self)
        ensures
            bundle.wf(),
            bundle.bytes() == data@,
            bundle.position() == 0,
    {
        Self { data, byte_idx: 0, bit_idx: 0 }
    }

    /// Whether the cursor stands inside the last byte of the buffer.
    pub fn in_last_byte(&self) -> (last: bool)
        requires
            self.wf(),
        ensures
            last == (self.position() / 8 + 1 == self.bytes().len()),
    {
        self.data.len() - self.byte_idx == 1
    }

    /// Reads the next bit, as 0 or 1, or `None` at the end of the buffer.
    pub fn read_bit(&mut self) -> (bit: Option<u8>)
        requires
            old(self).wf(),
        ensures
            final(self).wf(),
            final(self).bytes() == old(self).bytes(),
            old(self).position() < 8 * old(self).bytes().len() ==> final(self).position() == old(
                self,
            ).position() + 1 && bit == Some(
                if bits_of(old(self).bytes())[old(self).position()] {
                    1u8
                } else {
                    0u8
                },
            ),
            old(self).position() >= 8 * old(self).bytes().len() ==> final(self).position() == old(
                self,
            ).position() && bit is None,
    {
        if self.byte_idx >= self.data.len() {
            return None;
        }
        let shift: u8 = 7 - self.bit_idx;
        let bit: u8 = (self.data[self.byte_idx] >> shift) & 1;
        proof {
            lemma_low_bit(self.data@[self.byte_idx as int], shift);
        }
        self.bit_idx += 1;
        if self.bit_idx == 8 {
            self.byte_idx += 1;
            self.bit_idx = 0;
        }
        Some(bit)
    }

    /// Reads the next eight bits as one byte. With fewer than eight bits left
    /// the result is `None` and the cursor ends at the end of the buffer.
    pub fn read_byte(&mut self) -> (byte: Option<u8>)
        requires
            old(self).wf(),
        ensures
            final(self).wf(),
            final(self).bytes() == old(self).bytes(),
            old(self).position() + 8 <= 8 * old(self).bytes().len() ==> final(self).position()
                == old(self).position() + 8 && byte == Some(
                bits_value(
                    bits_of(old(self).bytes()).subrange(
                        old(self).position(),
                        old(self).position() + 8,
                    ),
                ) as u8,
            ),
            old(self).position() + 8 > 8 * old(self).bytes().len() ==> final(self).position() == 8
                * old(self).bytes().len() && byte is None,
    {
        let ghost start = self.position();
        let ghost all = bits_of(self.bytes());
        let mut byte: u8 = 0;
        let mut j: usize = 0;
        while j < 8
            invariant
                self.wf(),
                self.bytes() == old(self).bytes(),
                start == old(self).position(),
                all == bits_of(old(self).bytes()),
                j <= 8,
                self.position() == start + j,
                start + j <= all.len(),
                byte == bits_value(all.subrange(start, start + j)),
            decreases 8 - j,
        {
            match self.read_bit() {
                Some(bit) => {
                    proof {
                        let seen = all.subrange(start, start + j);
                        let more = all.subrange(start, start + j + 1);
                        lemma_value_bound(seen);
                        lemma_shift_in(byte, bit);
                        assert(more.drop_last() =~= seen);
                        assert(more.last() == all[start + j]);
                    }
                    byte = (byte << 1) | bit;
                },
                None => {
                    return None;
                },
            }
            j += 1;
        }
        proof {
            lemma_bits_of_value(all.subrange(start, start + 8));
        }
        Some(byte)
    }
}

} // verus!
