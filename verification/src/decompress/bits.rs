//! Bytes as a stream of bits, most significant bit first.
use crate::error::{AlzError, AlzResult};
use vstd::prelude::*;

verus! {

/// Bit `j` of a byte, counted from the most significant one.
pub open spec fn byte_bit(b: u8, j: int) -> bool {
    (b >> ((7 - j) as u8)) & 1 == 1
}

/// The bits of a run of bytes.
pub open spec fn bits_of(data: Seq<u8>) -> Seq<bool> {
    Seq::new(data.len() * 8, |i: int| byte_bit(data[i / 8], i % 8))
}

/// The `n` bits that follow position `from`.
pub open spec fn bit_window(data: Seq<u8>, from: int, n: nat) -> Seq<bool> {
    Seq::new(n, |i: int| bits_of(data)[from + i])
}

/// The number that a run of bits spells, most significant bit first.
pub open spec fn bits_value(bits: Seq<bool>) -> nat
    decreases bits.len(),
{
    if bits.len() == 0 {
        0
    } else {
        bits_value(bits.drop_last()) * 2 + (if bits.last() {
            1nat
        } else {
            0nat
        })
    }
}

/// The lowest `n` bits of a number, most significant bit first.
pub open spec fn low_bits(val: u32, n: nat) -> Seq<bool> {
    Seq::new(n, |i: int| (val >> ((n - 1 - i) as u32)) & 1 == 1)
}

/// The contribution of bit `i` of a run to its byte; bits past the end are 0.
pub open spec fn bit_weight(bits: Seq<bool>, i: int, weight: int) -> int {
    if 0 <= i < bits.len() && bits[i] {
        weight
    } else {
        0
    }
}

/// Byte `i` of a run of bits.
pub open spec fn packed_byte(bits: Seq<bool>, i: int) -> u8 {
    (bit_weight(bits, 8 * i, 128) + bit_weight(bits, 8 * i + 1, 64) + bit_weight(
        bits,
        8 * i + 2,
        32,
    ) + bit_weight(bits, 8 * i + 3, 16) + bit_weight(bits, 8 * i + 4, 8) + bit_weight(
        bits,
        8 * i + 5,
        4,
    ) + bit_weight(bits, 8 * i + 6, 2) + bit_weight(bits, 8 * i + 7, 1)) as u8
}

/// A run of bits as bytes, the last one filled up with zero bits.
pub open spec fn packed(bits: Seq<bool>) -> Seq<u8> {
    Seq::new((bits.len() + 7) / 8, |i: int| packed_byte(bits, i))
}

/// A number of zero bits.
pub open spec fn zero_bits(n: nat) -> Seq<bool> {
    Seq::new(n, |i: int| false)
}

/// MSB-first bit reader.
pub struct BitReader<'a> {
    pub data: &'a [u8],
    pub byte_pos: u64,
    /// 0-7, 0 = MSB.
    pub bit_pos: u8,
}

impl<'a> BitReader<'a> {
    /// The position in bits fits the counters, and the bit position is one of
    /// a byte.
    pub open spec fn wf(self) -> bool {
        &&& self.data@.len() * 8 <= u64::MAX
        &&& self.bit_pos < 8
    }

    /// The position in bits.
    pub open spec fn position(self) -> nat {
        (self.byte_pos * 8 + self.bit_pos) as nat
    }

    /// The number of bits from the position to the end of the data.
    pub open spec fn remaining(self) -> nat {
        if self.position() >= self.data@.len() * 8 {
            0
        } else {
            (self.data@.len() * 8 - self.position()) as nat
        }
    }

    /// A reader positioned at a bit offset.
    pub fn at(data: &'a [u8], bit: u64) -> (r: Self)
        requires
            data@.len() * 8 <= u64::MAX,
        ensures
            r.wf(),
            r.data@ == data@,
            r.position() == bit,
            8 * r.byte_pos + r.bit_pos == bit,
    {
        assert(bit >> 3 == bit / 8 && bit & 7 == bit % 8 && bit & 7 < 8) by (bit_vector);
        BitReader { data, byte_pos: bit >> 3, bit_pos: (bit & 7) as u8 }
    }

    /// The number of bits left.
    pub fn bits_remaining(&self) -> (n: u64)
        requires
            self.wf(),
        ensures
            n == self.remaining(),
            8 * self.byte_pos + self.bit_pos <= 8 * self.data@.len() ==> n == 8 * self.data@.len()
                - 8 * self.byte_pos - self.bit_pos,
            8 * self.byte_pos + self.bit_pos > 8 * self.data@.len() ==> n == 0,
    {
        if self.byte_pos >= self.data.len() as u64 {
            return 0;
        }
        (self.data.len() as u64 - self.byte_pos) * 8 - self.bit_pos as u64
    }

    /// The next `n` bits as a number. Fails, and stays where it is, if `n` is
    /// more than 32 or more than the number of bits left.
    pub fn read_bits(&mut self, n: usize) -> (r: AlzResult<u32>)
        requires
            old(self).wf(),
        ensures
            final(self).wf(),
            final(self).data@ == old(self).data@,
            match r {
                Ok(val) => {
                    &&& n <= 32 && n <= old(self).remaining()
                    &&& val == bits_value(
                        bit_window(old(self).data@, old(self).position() as int, n as nat),
                    )
                    &&& final(self).position() == old(self).position() + n
                },
                Err(e) => {
                    &&& n > 32 || n > old(self).remaining()
                    &&& e@ == crate::error::ErrorView::Bzip2Failed("unexpected end of bzip2 data"@)
                    &&& *final(self) == *old(self)
                },
            },
    {
        if n > 32 || self.bits_remaining() < n as u64 {
            return Err(AlzError::Bzip2Failed(String::from_str("unexpected end of bzip2 data")));
        }
        let ghost start = self.position();
        let ghost data = self.data@;
        let mut val: u32 = 0;
        let mut i: usize = 0;
        while i < n
            invariant
                i <= n <= 32,
                self.wf(),
                self.data@ == old(self).data@,
                data == self.data@,
                start == old(self).position(),
                self.position() == start + i,
                n > 0 ==> start + n <= data.len() * 8,
                val == bits_value(bit_window(data, start as int, i as nat)),
            decreases n - i,
        {
            let ghost before = bit_window(data, start as int, i as nat);
            proof {
                lemma_bits_value_bound(before);
                vstd::arithmetic::power2::lemma2_to64();
                if i < 31 {
                    vstd::arithmetic::power2::lemma_pow2_strictly_increases(i as nat, 31);
                }
            }
            assert(val < 0x8000_0000);
            let bit: u8 = self.read_bit();
            let b: u32 = bit as u32;
            assert((val << 1) | b == val * 2 + b) by (bit_vector)
                requires
                    val < 0x8000_0000,
                    b <= 1,
            ;
            val = (val << 1) | b;
            i = i + 1;
            assert(bit_window(data, start as int, i as nat).drop_last() =~= before);
        }
        Ok(val)
    }

    /// The next bit.
    pub fn read_bit(&mut self) -> (bit: u8)
        requires
            old(self).wf(),
            old(self).remaining() > 0,
        ensures
            final(self).wf(),
            final(self).data@ == old(self).data@,
            final(self).position() == old(self).position() + 1,
            bit == (if bits_of(old(self).data@)[old(self).position() as int] {
                1u8
            } else {
                0u8
            }),
    {
        let byte: u8 = self.data[self.byte_pos as usize];
        let shift: u8 = 7 - self.bit_pos;
        let bit: u8 = (byte >> shift) & 1;
        assert(bit == 0 || bit == 1) by (bit_vector)
            requires
                bit == (byte >> shift) & 1,
        ;
        self.bit_pos = self.bit_pos + 1;
        if self.bit_pos == 8 {
            self.bit_pos = 0;
            self.byte_pos = self.byte_pos + 1;
        }
        bit
    }
}

/// MSB-first bit writer.
pub struct BitWriter {
    pub data: Vec<u8>,
    pub current: u8,
    /// 0-7, 0 = MSB (next bit to write).
    pub bit_pos: u8,
}

impl BitWriter {
    /// The bits of the unfinished byte from the next one on are clear.
    pub open spec fn wf(self) -> bool {
        &&& self.bit_pos < 8
        &&& self.current & (0xffu8 >> self.bit_pos) == 0
    }

    /// The bits written so far.
    pub open spec fn written(self) -> Seq<bool> {
        bits_of(self.data@) + Seq::new(self.bit_pos as nat, |j: int| byte_bit(self.current, j))
    }

    /// A writer that has written nothing.
    pub fn new() -> (w: Self)
        ensures
            w.wf(),
            w.written() == Seq::<bool>::empty(),
    {
        assert(0u8 & (0xffu8 >> 0u8) == 0) by (bit_vector);
        let w = BitWriter { data: Vec::new(), current: 0, bit_pos: 0 };
        assert(w.written() =~= Seq::<bool>::empty());
        w
    }

    /// Write the lowest `n` bits of `val`.
    pub fn write_bits(&mut self, val: u32, n: usize)
        requires
            old(self).wf(),
            n <= 32,
        ensures
            final(self).wf(),
            final(self).written() == old(self).written() + low_bits(val, n as nat),
    {
        let ghost start = self.written();
        let ghost bits = low_bits(val, n as nat);
        let mut i: usize = n;
        assert(start + bits.take(0) =~= start);
        while i > 0
            invariant
                i <= n <= 32,
                self.wf(),
                bits == low_bits(val, n as nat),
                self.written() == start + bits.take(n - i),
            decreases i,
        {
            i = i - 1;
            let ghost before = *self;
            let shift: u32 = i as u32;
            let bit: u32 = (val >> shift) & 1;
            assert(bit == 0 || bit == 1) by (bit_vector)
                requires
                    bit == (val >> shift) & 1,
            ;
            let b: u8 = bit as u8;
            let cur: u8 = self.current;
            let pos: u8 = self.bit_pos;
            proof {
                lemma_set_bit(cur, pos, b);
            }
            self.current = cur | (b << (7 - pos));
            self.bit_pos = pos + 1;
            let ghost byte = self.current;
            if self.bit_pos == 8 {
                self.data.push(self.current);
                self.current = 0;
                self.bit_pos = 0;
                assert(0u8 & (0xffu8 >> 0u8) == 0) by (bit_vector);
            }
            assert(self.written() =~= before.written().push(b == 1)) by {
                assert forall|j: int| 0 <= j < pos implies byte_bit(byte, j) == byte_bit(cur, j) by {
                    lemma_other_bits(cur, pos, b, j as u8);
                }
                assert(byte_bit(byte, pos as int) == (b == 1));
            }
            assert(bits.take(n - i) =~= bits.take(n - i - 1).push(b == 1));
            assert(start + bits.take(n - i) =~= (start + bits.take(n - i - 1)).push(b == 1));
        }
        assert(bits.take(n as int) =~= bits);
    }

    /// Write whole bytes.
    pub fn write_bytes(&mut self, bytes: &[u8])
        requires
            old(self).wf(),
        ensures
            final(self).wf(),
            final(self).written() == old(self).written() + bits_of(bytes@),
    {
        let ghost start = self.written();
        let mut i: usize = 0;
        assert(start + bits_of(bytes@.take(0)) =~= start);
        while i < bytes.len()
            invariant
                i <= bytes@.len(),
                self.wf(),
                self.written() == start + bits_of(bytes@.take(i as int)),
            decreases bytes@.len() - i,
        {
            let byte: u8 = bytes[i];
            self.write_bits(byte as u32, 8);
            i = i + 1;
            proof {
                let head = bytes@.take(i - 1);
                assert(bytes@.take(i as int) =~= head.push(byte));
                lemma_low_bits_of_byte(byte);
                lemma_bits_of_push(head, byte);
                assert(start + bits_of(head) + bits_of(seq![byte]) =~= start + (bits_of(head)
                    + bits_of(seq![byte])));
            }
        }
        assert(bytes@.take(i as int) =~= bytes@);
    }

    /// Fill up the unfinished byte, if there is one, with zero bits.
    pub fn flush(&mut self)
        requires
            old(self).wf(),
        ensures
            final(self).wf(),
            final(self).bit_pos == 0,
            final(self).data@ == packed(old(self).written()),
    {
        let ghost before = *self;
        let ghost w = self.written();
        let mut pad: Ghost<nat> = Ghost(0);
        if self.bit_pos > 0 {
            let cur: u8 = self.current;
            let pos: u8 = self.bit_pos;
            self.data.push(self.current);
            self.current = 0;
            self.bit_pos = 0;
            assert(0u8 & (0xffu8 >> 0u8) == 0) by (bit_vector);
            proof {
                pad@ = (8 - pos) as nat;
                assert forall|j: int| pos <= j < 8 implies !byte_bit(cur, j) by {
                    lemma_clear_bits(cur, pos, j as u8);
                }
                assert(bits_of(self.data@) =~= w + zero_bits(pad@));
            }
        } else {
            assert(bits_of(self.data@) =~= w + zero_bits(0));
        }
        proof {
            lemma_packed_is_unique(self.data@, w, pad@);
        }
    }

    /// The finished bytes.
    pub fn into_bytes(self) -> (data: Vec<u8>)
        ensures
            data@ == self.data@,
    {
        self.data
    }
}

/// A run of `n` bits spells a number below 2 to the power of `n`.
pub proof fn lemma_bits_value_bound(bits: Seq<bool>)
    ensures
        bits_value(bits) < vstd::arithmetic::power2::pow2(bits.len()),
    decreases bits.len(),
{
    if bits.len() == 0 {
        vstd::arithmetic::power2::lemma2_to64();
    } else {
        lemma_bits_value_bound(bits.drop_last());
        vstd::arithmetic::power2::lemma_pow2_unfold(bits.len());
    }
}

/// The first bit of a run counts as the power of two of the number of bits
/// behind it.
pub proof fn lemma_first_bit(bits: Seq<bool>)
    requires
        bits.len() > 0,
    ensures
        bits_value(bits) == (if bits[0] {
            vstd::arithmetic::power2::pow2((bits.len() - 1) as nat)
        } else {
            0
        }) + bits_value(bits.drop_first()),
    decreases bits.len(),
{
    if bits.len() == 1 {
        vstd::arithmetic::power2::lemma2_to64();
        assert(bits_value(bits.drop_last()) == 0);
        assert(bits_value(bits.drop_first()) == 0);
    } else {
        lemma_first_bit(bits.drop_last());
        assert(bits.drop_last().drop_first() =~= bits.drop_first().drop_last());
        vstd::arithmetic::power2::lemma_pow2_unfold((bits.len() - 1) as nat);
    }
}

/// A number that a run of at most 32 bits spells has that run as its lowest
/// bits: what was read with `read_bits` is written again by `write_bits`.
pub proof fn lemma_low_bits_of_value(bits: Seq<bool>, val: u32)
    requires
        bits.len() <= 32,
        val == bits_value(bits),
    ensures
        low_bits(val, bits.len()) == bits,
    decreases bits.len(),
{
    if bits.len() > 0 {
        let half = (val / 2) as u32;
        let n = bits.len();
        lemma_low_bits_of_value(bits.drop_last(), half);
        assert forall|i: int| 0 <= i < n implies low_bits(val, n)[i] == bits[i] by {
            if i == n - 1 {
                assert((val >> 0u32) & 1 == val % 2) by (bit_vector);
            } else {
                let s = (n - 1 - i) as u32;
                let t = (n - 2 - i) as u32;
                assert((val >> s) & 1 == ((val / 2) >> t) & 1) by (bit_vector)
                    requires
                        s == t + 1,
                        s < 32,
                ;
                assert(low_bits(half, (n - 1) as nat)[i] == bits.drop_last()[i]);
            }
        }
    }
    assert(low_bits(val, bits.len()) =~= bits);
}

/// The lowest `n` bits of a number that needs no more spell that number.
pub proof fn lemma_value_of_low_bits(val: u32, n: nat)
    requires
        n <= 32,
        val < vstd::arithmetic::power2::pow2(n),
    ensures
        bits_value(low_bits(val, n)) == val,
    decreases n,
{
    let bits = low_bits(val, n);
    if n == 0 {
        vstd::arithmetic::power2::lemma2_to64();
    } else {
        let half = (val / 2) as u32;
        vstd::arithmetic::power2::lemma_pow2_unfold(n);
        lemma_value_of_low_bits(half, (n - 1) as nat);
        assert forall|i: int| 0 <= i < n - 1 implies bits.drop_last()[i] == low_bits(
            half,
            (n - 1) as nat,
        )[i] by {
            let s = (n - 1 - i) as u32;
            let t = (n - 2 - i) as u32;
            assert((val >> s) & 1 == ((val / 2) >> t) & 1) by (bit_vector)
                requires
                    s == t + 1,
                    s < 32,
            ;
        }
        assert(bits.drop_last() =~= low_bits(half, (n - 1) as nat));
        assert((val >> 0u32) & 1 == val % 2) by (bit_vector);
    }
}

proof fn lemma_set_bit(cur: u8, pos: u8, b: u8)
    by (bit_vector)
    requires
        pos < 8,
        cur & (0xffu8 >> pos) == 0,
        b == 0 || b == 1,
    ensures
        pos < 7 ==> (cur | (b << ((7 - pos) as u8))) & (0xffu8 >> ((pos + 1) as u8)) == 0,
        ((cur | (b << ((7 - pos) as u8))) >> ((7 - pos) as u8)) & 1 == b,
{
}

proof fn lemma_other_bits(cur: u8, pos: u8, b: u8, j: u8)
    by (bit_vector)
    requires
        pos < 8,
        j < pos,
        b == 0 || b == 1,
    ensures
        ((cur | (b << ((7 - pos) as u8))) >> ((7 - j) as u8)) & 1 == (cur >> ((7 - j) as u8)) & 1,
{
}

proof fn lemma_clear_bits(cur: u8, pos: u8, j: u8)
    by (bit_vector)
    requires
        pos <= j < 8,
        cur & (0xffu8 >> pos) == 0,
    ensures
        (cur >> ((7 - j) as u8)) & 1 == 0,
{
}

/// The bits of a byte are the lowest eight bits of its value.
proof fn lemma_low_bits_of_byte(byte: u8)
    ensures
        low_bits(byte as u32, 8) == bits_of(seq![byte]),
{
    assert forall|i: int| 0 <= i < 8 implies low_bits(byte as u32, 8)[i] == bits_of(seq![byte])[i] by {
        let s = (7 - i) as u8;
        let t = s as u32;
        assert(((byte as u32) >> t) & 1 == ((byte >> s) & 1) as u32) by (bit_vector)
            requires
                t == s as u32,
                s < 8,
        ;
    }
    assert(low_bits(byte as u32, 8) =~= bits_of(seq![byte]));
}

proof fn lemma_bits_of_push(data: Seq<u8>, byte: u8)
    ensures
        bits_of(data.push(byte)) == bits_of(data) + bits_of(seq![byte]),
{
    assert(bits_of(data.push(byte)) =~= bits_of(data) + bits_of(seq![byte]));
}

/// A byte is the sum of the weights of its bits.
proof fn lemma_byte_is_its_bits(b: u8)
    by (bit_vector)
    ensures
        b == ((b >> 7) & 1) * 128 + ((b >> 6) & 1) * 64 + ((b >> 5) & 1) * 32 + ((b >> 4) & 1) * 16
            + ((b >> 3) & 1) * 8 + ((b >> 2) & 1) * 4 + ((b >> 1) & 1) * 2 + ((b >> 0) & 1),
        (b >> 7) & 1 <= 1,
        (b >> 6) & 1 <= 1,
        (b >> 5) & 1 <= 1,
        (b >> 4) & 1 <= 1,
        (b >> 3) & 1 <= 1,
        (b >> 2) & 1 <= 1,
        (b >> 1) & 1 <= 1,
        (b >> 0) & 1 <= 1,
{
}

/// Bytes whose bits are a run of bits filled up with zeros are that run,
/// packed.
pub proof fn lemma_packed_is_unique(data: Seq<u8>, bits: Seq<bool>, pad: nat)
    requires
        pad < 8,
        bits_of(data) == bits + zero_bits(pad),
    ensures
        data == packed(bits),
{
    assert(bits_of(data).len() == bits.len() + pad);
    assert forall|i: int| 0 <= i < data.len() implies data[i] == packed_byte(bits, i) by {
        let b = data[i];
        lemma_byte_is_its_bits(b);
        let all = bits_of(data);
        assert forall|j: int| 0 <= j < 8 implies all[8 * i + j] == byte_bit(b, j) by {
            assert((8 * i + j) / 8 == i && (8 * i + j) % 8 == j);
        }
        assert(all[8 * i] == byte_bit(b, 0));
        assert(all[8 * i + 1] == byte_bit(b, 1));
        assert(all[8 * i + 2] == byte_bit(b, 2));
        assert(all[8 * i + 3] == byte_bit(b, 3));
        assert(all[8 * i + 4] == byte_bit(b, 4));
        assert(all[8 * i + 5] == byte_bit(b, 5));
        assert(all[8 * i + 6] == byte_bit(b, 6));
        assert(all[8 * i + 7] == byte_bit(b, 7));
    }
    assert(data =~= packed(bits));
}

/// The bits of a byte that is the sum of their weights.
proof fn lemma_bits_of_sum(
    v: u8,
    b0: u8,
    b1: u8,
    b2: u8,
    b3: u8,
    b4: u8,
    b5: u8,
    b6: u8,
    b7: u8,
)
    by (bit_vector)
    requires
        b0 <= 1 && b1 <= 1 && b2 <= 1 && b3 <= 1 && b4 <= 1 && b5 <= 1 && b6 <= 1 && b7 <= 1,
        v == b0 * 128 + b1 * 64 + b2 * 32 + b3 * 16 + b4 * 8 + b5 * 4 + b6 * 2 + b7,
    ensures
        (v >> 7) & 1 == b0,
        (v >> 6) & 1 == b1,
        (v >> 5) & 1 == b2,
        (v >> 4) & 1 == b3,
        (v >> 3) & 1 == b4,
        (v >> 2) & 1 == b5,
        (v >> 1) & 1 == b6,
        (v >> 0) & 1 == b7,
{
}

/// Packed bits come back, followed by the zeros that fill the last byte.
pub proof fn lemma_packed_bits_come_back(bits: Seq<bool>)
    ensures
        bits_of(packed(bits)) == bits + zero_bits((packed(bits).len() * 8 - bits.len()) as nat),
        packed(bits).len() * 8 - bits.len() < 8,
{
    let data = packed(bits);
    let whole = bits + zero_bits((data.len() * 8 - bits.len()) as nat);
    assert forall|i: int| 0 <= i < data.len() * 8 implies bits_of(data)[i] == whole[i] by {
        let k = i / 8;
        let flag = |j: int| bit_weight(bits, 8 * k + j, 1) as u8;
        lemma_bits_of_sum(
            data[k],
            flag(0),
            flag(1),
            flag(2),
            flag(3),
            flag(4),
            flag(5),
            flag(6),
            flag(7),
        );
        assert(flag(i % 8) == 1 <==> whole[i]);
        assert(i % 8 == 0 || i % 8 == 1 || i % 8 == 2 || i % 8 == 3 || i % 8 == 4 || i % 8 == 5 || i
            % 8 == 6 || i % 8 == 7);
    }
    assert(bits_of(data) =~= whole);
}

/// The bits of a byte spell it.
pub proof fn lemma_byte_value(data: Seq<u8>, i: int)
    requires
        0 <= i < data.len(),
    ensures
        bits_value(bit_window(data, 8 * i, 8)) == data[i],
{
    let window = bit_window(data, 8 * i, 8);
    let b = data[i];
    lemma_low_bits_of_byte(b);
    assert forall|j: int| 0 <= j < 8 implies window[j] == low_bits(b as u32, 8)[j] by {
        assert((8 * i + j) / 8 == i && (8 * i + j) % 8 == j);
        assert(bits_of(seq![b])[j] == byte_bit(b, j));
    }
    assert(window =~= low_bits(b as u32, 8));
    vstd::arithmetic::power2::lemma2_to64();
    lemma_value_of_low_bits(b as u32, 8);
}

/// What two runs of bits spell one behind the other.
pub proof fn lemma_value_of_two(a: Seq<bool>, b: Seq<bool>)
    ensures
        bits_value(a + b) == bits_value(a) * vstd::arithmetic::power2::pow2(b.len())
            + bits_value(b),
    decreases b.len(),
{
    let whole = vstd::arithmetic::power2::pow2(b.len());
    if b.len() == 0 {
        assert(a + b =~= a);
        vstd::arithmetic::power2::lemma2_to64();
        assert(whole == 1);
        assert(bits_value(b) == 0);
    } else {
        lemma_value_of_two(a, b.drop_last());
        assert((a + b).drop_last() =~= a + b.drop_last());
        assert((a + b).last() == b.last());
        vstd::arithmetic::power2::lemma_pow2_unfold(b.len());
        let p = vstd::arithmetic::power2::pow2((b.len() - 1) as nat);
        assert(whole == 2 * p);
        let v = bits_value(a);
        assert(v * p * 2 == v * (2 * p)) by (nonlinear_arith);
        assert(bits_value((a + b).drop_last()) == v * p + bits_value(b.drop_last()));
    }
}

} // verus!
