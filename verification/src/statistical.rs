use vstd::prelude::*;
use vstd::slice::slice_to_vec;

use crate::bit_embedder::bit_trit;
use crate::blocks::{lemma_block_position, lemma_mul_le, lemma_next_block};
use crate::bits::{
    bit_val, data_bit, lemma_data_bit_index, lemma_pack_byte_bits, lemma_pack_byte_false_tail,
    lemma_pack_matching,
    msb_bit, pack_byte, pack_bytes,
};
use crate::sequence::TernarySequence;
use crate::trit::{count_of, count_trits, lemma_count_concat, lemma_count_constant, Trit};

verus! {

/// The block after `encode_bit`: when it is at least `block_size` long and the
/// bit is 0 or 1, its first half becomes Neg (bit 0) or Pos (bit 1); otherwise
/// it is unchanged.
pub open spec fn stat_mark(block: Seq<Trit>, block_size: int, bit: u8) -> Seq<Trit> {
    if block.len() < block_size || bit > 1 {
        block
    } else {
        Seq::new(
            block.len(),
            |k: int|
                if k < block.len() / 2 {
                    bit_trit(bit == 1)
                } else {
                    block[k]
                },
        )
    }
}

/// The bit a block reads as: 1 when it holds more Pos than Neg.
pub open spec fn majority_bit(block: Seq<Trit>) -> bool {
    count_of(block, Trit::Pos) > count_of(block, Trit::Neg)
}

/// The carrier with bit `q` of `data` written into the first half of block `q`
/// (trits `q * bs..q * bs + bs`), for every bit of `data`.
pub open spec fn stat_embed(carrier: Seq<Trit>, data: Seq<u8>, bs: int) -> Seq<Trit> {
    Seq::new(
        carrier.len(),
        |k: int|
            if k < 8 * data.len() * bs && k % bs < bs / 2 {
                bit_trit(data_bit(data, k / bs))
            } else {
                carrier[k]
            },
    )
}

/// Block `q` of `s`, cut short at the end of `s`.
pub open spec fn stat_block(s: Seq<Trit>, bs: int, q: int) -> Seq<Trit> {
    s.subrange(q * bs, if q * bs + bs < s.len() { q * bs + bs } else { s.len() as int })
}

/// The bits read from `s`: bit `q` is 1 when block `q` starts within `s`
/// and holds more Pos than Neg.
pub open spec fn stat_bits(s: Seq<Trit>, bs: int, byte_count: nat) -> Seq<bool> {
    Seq::new(8 * byte_count, |q: int| q * bs < s.len() && majority_bit(stat_block(s, bs, q)))
}

/// The last bit index at which decoding looks at the carrier: the first block
/// that starts past the end, kept within the last byte asked for.
pub open spec fn stat_last_probe(len: int, bs: int, byte_count: int) -> int {
    let f = (len + bs - 1) / bs;
    if f < 8 * (byte_count - 1) {
        8 * (byte_count - 1)
    } else if f > 8 * byte_count - 1 {
        8 * byte_count - 1
    } else {
        f
    }
}

/// A block whose predecessor starts within the carrier is at most the last probe.
proof fn lemma_ceil_probe(len: int, c: int, q: int)
    requires
        1 <= c,
        1 <= q,
        (q - 1) * c < len,
    ensures
        q <= (len + c - 1) / c,
{
    assert(q <= (len + c - 1) / c) by (nonlinear_arith)
        requires
            1 <= c,
            1 <= q,
            (q - 1) * c < len,
    ;
}

/// Steganography using statistical properties of ternary sequences
pub struct StatisticalStego {
    block_size: usize,
}

impl StatisticalStego {
    #[verifier::type_invariant]
    spec fn block_size_at_least_three(self) -> bool {
        self.block_size >= 3
    }

    /// The number of trits per encoded bit (at least 3).
    pub closed spec fn block_size(&self) -> usize {
        self.block_size
    }

    pub fn new(block_size: usize) -> (r: Self)
        ensures
            r.block_size() == (if block_size < 3 { 3 } else { block_size }),
    {
        StatisticalStego { block_size: block_size.max(3) }
    }

    /// Encode a bit by shifting block statistics
    pub fn encode_bit(&self, block: &mut [Trit], bit: u8)
        ensures
            final(block)@ == stat_mark(old(block)@, self.block_size() as int, bit),
            final(block)@.len() == old(block)@.len(),
            old(block)@.len() < self.block_size() || bit > 1 ==> final(block)@ == old(block)@,
            forall|k: int|
                old(block)@.len() / 2 <= k < old(block)@.len() ==> #[trigger] final(block)@[k]
                    == old(block)@[k],
            forall|k: int|
                0 <= k < old(block)@.len() / 2 && old(block)@.len() >= self.block_size() && bit <= 1
                    ==> #[trigger] final(block)@[k] == (if bit == 1 {
                    Trit::Pos
                } else {
                    Trit::Neg
                }),
    {
        if block.len() < self.block_size {
            return;
        }
        // If bit is 1, ensure more Pos than Neg; if 0, ensure more Neg than Pos
        let ghost b0 = block@;
        let half = block.len() / 2;
        match bit {
            0 => {
                // Ensure at least half are Neg
                for i in 0..half
                    invariant
                        half == b0.len() / 2,
                        block@.len() == b0.len(),
                        forall|k: int|
                            0 <= k < b0.len() ==> #[trigger] block@[k] == (if k < i {
                                Trit::Neg
                            } else {
                                b0[k]
                            }),
                {
                    block[i] = Trit::Neg;
                }
            },
            1 => {
                // Ensure at least half are Pos
                for i in 0..half
                    invariant
                        half == b0.len() / 2,
                        block@.len() == b0.len(),
                        forall|k: int|
                            0 <= k < b0.len() ==> #[trigger] block@[k] == (if k < i {
                                Trit::Pos
                            } else {
                                b0[k]
                            }),
                {
                    block[i] = Trit::Pos;
                }
            },
            _ => {},
        }
        assert(block@ =~= stat_mark(b0, self.block_size as int, bit));
    }

    /// Decode a bit from block statistics: 1 when the block holds more Pos than Neg.
    pub fn decode_bit(&self, block: &[Trit]) -> (r: u8)
        ensures
            r == bit_val(majority_bit(block@)),
            r == (if count_of(block@, Trit::Pos) > count_of(block@, Trit::Neg) {
                1u8
            } else {
                0u8
            }),
    {
        let (neg, _, pos) = count_trits(block);
        if pos > neg {
            1
        } else {
            0
        }
    }

    /// Encode bytes into carrier using statistical modulation
    pub fn encode(&self, carrier: &TernarySequence, data: &[u8]) -> (r: Option<TernarySequence>)
        requires
            data@.len() * 8 * self.block_size() <= usize::MAX,
        ensures
            r is None <==> 8 * data@.len() * self.block_size() > carrier@.len(),
            r matches Some(out) ==> out@ == stat_embed(carrier@, data@, self.block_size() as int),
            r matches Some(out) ==> out@.len() == carrier@.len(),
            r matches Some(out) ==> forall|k: int|
                8 * data@.len() * self.block_size() <= k < carrier@.len() ==> #[trigger] out@[k]
                    == carrier@[k],
            r matches Some(out) ==> forall|k: int|
                0 <= k < 8 * data@.len() * self.block_size() && k % (self.block_size() as int)
                    >= self.block_size() / 2 ==> #[trigger] out@[k] == carrier@[k],
            r matches Some(out) ==> forall|k: int|
                0 <= k < 8 * data@.len() * self.block_size() && k % (self.block_size() as int)
                    < self.block_size() / 2 ==> #[trigger] out@[k] == (if msb_bit(
                    data@[(k / (self.block_size() as int)) / 8],
                    (k / (self.block_size() as int)) % 8,
                ) {
                    Trit::Pos
                } else {
                    Trit::Neg
                }),
    {
        proof {
            use_type_invariant(self);
            lemma_next_block((data@.len() * 8) as int, self.block_size() as int);
        }
        let bs = self.block_size;
        let bits_needed = data.len() * 8;
        if bits_needed * bs > carrier.len() {
            return None;
        }
        let needed = bits_needed * bs;
        let mut trits = slice_to_vec(carrier.trits());
        let ghost cl = carrier@;
        let ghost d = data@;
        let ghost b = bs as int;
        assert(trits@ == cl);
        assert(0 * b == 0) by (nonlinear_arith);
        for byte_idx in 0..data.len()
            invariant
                bs == self.block_size(),
                b == bs,
                bs >= 3,
                d == data@,
                cl == carrier@,
                needed == 8 * d.len() * bs,
                needed <= cl.len(),
                trits@.len() == cl.len(),
                forall|k: int|
                    0 <= k < cl.len() ==> #[trigger] trits@[k] == (if k < (8 * byte_idx) * b && k
                        % b < b / 2 {
                        bit_trit(data_bit(d, k / b))
                    } else {
                        cl[k]
                    }),
        {
            let byte = data[byte_idx];
            for bit_idx in 0..8usize
                invariant
                    bs == self.block_size(),
                    b == bs,
                    bs >= 3,
                    d == data@,
                    byte == d[byte_idx as int],
                    byte_idx < d.len(),
                    needed == 8 * d.len() * bs,
                    needed <= cl.len(),
                    trits@.len() == cl.len(),
                    forall|k: int|
                        0 <= k < cl.len() ==> #[trigger] trits@[k] == (if k < (8 * byte_idx
                            + bit_idx) * b && k % b < b / 2 {
                            bit_trit(data_bit(d, k / b))
                        } else {
                            cl[k]
                        }),
            {
                let ghost q = 8 * byte_idx + bit_idx;
                proof {
                    lemma_next_block(q, b);
                    lemma_mul_le(q + 1, 8 * d.len() as int, b);
                    lemma_data_bit_index(d, byte_idx as int, bit_idx as int);
                }
                let bit = (byte >> ((7 - bit_idx) as u8)) & 1;
                assert(bit <= 1 && (bit == 1) == msb_bit(byte, bit_idx as int)) by {
                    let shift = (7 - bit_idx) as u8;
                    assert(((byte >> shift) & 1u8) == 1u8 || ((byte >> shift) & 1u8) == 0u8)
                        by (bit_vector);
                }
                let offset = (byte_idx * 8 + bit_idx) * bs;
                let end = (offset + bs).min(trits.len());
                if offset < trits.len() {
                    let ghost before = trits@;
                    let whole = trits.as_mut_slice();
                    let (_head, tail) = whole.split_at_mut(offset);
                    let (block, _rest) = tail.split_at_mut(end - offset);
                    self.encode_bit(block, bit);
                    proof {
                        assert(trits@ =~= before.subrange(0, offset as int) + stat_mark(
                            before.subrange(offset as int, end as int),
                            b,
                            bit,
                        ) + before.subrange(end as int, before.len() as int));
                    }
                }
                assert forall|k: int| 0 <= k < cl.len() implies #[trigger] trits@[k] == (if k < (8
                    * byte_idx + bit_idx + 1) * b && k % b < b / 2 {
                    bit_trit(data_bit(d, k / b))
                } else {
                    cl[k]
                }) by {
                    if q * b <= k < q * b + b {
                        lemma_block_position(q, b, k - q * b);
                    } else if k < q * b {
                    } else {
                    }
                }
            }
            proof {
                assert(8 * byte_idx + 8 == 8 * (byte_idx + 1));
            }
        }
        proof {
            lemma_stat_embed_shape(cl, d, b);
        }
        Some(TernarySequence::new(trits))
    }

    /// Decode bytes from a statistically encoded sequence
    pub fn decode(&self, encoded: &TernarySequence, byte_count: usize) -> (r: Vec<u8>)
        requires
            byte_count == 0 || stat_last_probe(
                encoded@.len() as int,
                self.block_size() as int,
                byte_count as int,
            ) * self.block_size() + self.block_size() <= usize::MAX,
        ensures
            r@ == pack_bytes(
                stat_bits(encoded@, self.block_size() as int, byte_count as nat),
                byte_count as nat,
            ),
            r@.len() == byte_count,
            forall|i: int, j: int|
                0 <= i < byte_count && 0 <= j < 8 ==> #[trigger] msb_bit(r@[i], j) == {
                    let q = 8 * i + j;
                    let bs = self.block_size() as int;
                    let end = if q * bs + bs < encoded@.len() {
                        q * bs + bs
                    } else {
                        encoded@.len() as int
                    };
                    q * bs < encoded@.len() && count_of(encoded@.subrange(q * bs, end), Trit::Pos)
                        > count_of(encoded@.subrange(q * bs, end), Trit::Neg)
                },
    {
        proof {
            use_type_invariant(self);
        }
        let bs = self.block_size;
        let total = encoded.len();
        let ghost s = encoded@;
        let ghost b = bs as int;
        let ghost bits = stat_bits(s, b, byte_count as nat);
        let ghost last = stat_last_probe(s.len() as int, b, byte_count as int);
        let mut result: Vec<u8> = Vec::new();
        for byte_idx in 0..byte_count
            invariant
                bs == self.block_size(),
                b == bs,
                bs >= 3,
                s == encoded@,
                total == s.len(),
                bits == stat_bits(s, b, byte_count as nat),
                last == stat_last_probe(s.len() as int, b, byte_count as int),
                byte_count == 0 || last * b + b <= usize::MAX,
                result@ == pack_bytes(bits, byte_idx as nat),
        {
            let mut byte: u8 = 0;
            let mut bit_idx: usize = 0;
            while bit_idx < 8
                invariant_except_break
                    bit_idx <= 8,
                    byte_idx < byte_count,
                    bs == self.block_size(),
                    b == bs,
                    bs >= 3,
                    s == encoded@,
                    total == s.len(),
                    bits == stat_bits(s, b, byte_count as nat),
                    last == stat_last_probe(s.len() as int, b, byte_count as int),
                    last * b + b <= usize::MAX,
                    bit_idx == 0 || (8 * byte_idx + bit_idx - 1) * b < total,
                    byte == pack_byte(bits, 8 * byte_idx, bit_idx as int),
                ensures
                    byte == pack_byte(bits, 8 * byte_idx, 8),
                decreases 8 - bit_idx,
            {
                let ghost q: int = 8 * byte_idx + bit_idx;
                proof {
                    lemma_next_block(q, b);
                    if bit_idx > 0 {
                        lemma_next_block(q - 1, b);
                        lemma_ceil_probe(s.len() as int, b, q);
                    }
                    lemma_mul_le(q, last, b);
                }
                let offset = (byte_idx * 8 + bit_idx) * bs;
                let end = (offset + bs).min(total);
                if offset >= total {
                    proof {
                        assert forall|m: int| bit_idx <= m < 8 implies !#[trigger] bits[8
                            * byte_idx + m] by {
                            lemma_mul_le(q, 8 * byte_idx + m, b);
                        }
                        lemma_pack_byte_false_tail(bits, 8 * byte_idx, bit_idx as int, 8);
                    }
                    break;
                }
                let mut block: Vec<Trit> = Vec::new();
                for j in offset..end
                    invariant
                        end <= total,
                        total == s.len(),
                        s == encoded@,
                        block@ == s.subrange(offset as int, j as int),
                {
                    match encoded.get(j) {
                        Some(t) => block.push(t),
                        None => {},
                    }
                    assert(block@ =~= s.subrange(offset as int, j + 1));
                }
                let bit = self.decode_bit(block.as_slice());
                assert(bit == bit_val(bits[q]));
                byte = byte | (bit << ((7 - bit_idx) as u8));
                bit_idx = bit_idx + 1;
            }
            result.push(byte);
            assert(result@ =~= pack_bytes(bits, (byte_idx + 1) as nat));
        }
        proof {
            lemma_stat_decode_bits(s, b, byte_count as nat);
        }
        result
    }
}

/// Whether the unmarked second half `rest` of a block leaves the bit readable
/// after the first `half` trits were set for `bit`.
pub open spec fn rest_keeps_bit(rest: Seq<Trit>, half: int, bit: bool) -> bool {
    if bit {
        count_of(rest, Trit::Neg) < half + count_of(rest, Trit::Pos)
    } else {
        count_of(rest, Trit::Pos) <= half + count_of(rest, Trit::Neg)
    }
}

/// A block of `len` trits whose first half is `bit_trit(bit)` and whose
/// second half is `rest` reads as `bit` exactly when `rest` keeps the bit.
proof fn lemma_marked_block_bit(block: Seq<Trit>, bit: bool)
    ensures
        ({
            let half = block.len() / 2;
            let marked = Seq::new(
                block.len(),
                |k: int|
                    if k < half {
                        bit_trit(bit)
                    } else {
                        block[k]
                    },
            );
            (majority_bit(marked) == bit) == rest_keeps_bit(
                block.subrange(half as int, block.len() as int),
                half as int,
                bit,
            )
        }),
{
    let half = block.len() / 2;
    let marked = Seq::new(
        block.len(),
        |k: int|
            if k < half {
                bit_trit(bit)
            } else {
                block[k]
            },
    );
    let front = marked.subrange(0, half as int);
    let rest = block.subrange(half as int, block.len() as int);
    assert(marked =~= front + rest);
    lemma_count_concat(front, rest, Trit::Pos);
    lemma_count_concat(front, rest, Trit::Neg);
    lemma_count_constant(front, bit_trit(bit), Trit::Pos);
    lemma_count_constant(front, bit_trit(bit), Trit::Neg);
}

/// After `encode_bit` with bit 0 or 1 on a block at least `block_size` long,
/// `decode_bit` reads the bit back exactly when the unmarked second half keeps it.
pub proof fn lemma_stat_bit_roundtrip(block: Seq<Trit>, block_size: int, bit: u8)
    requires
        block.len() >= block_size,
        bit <= 1,
    ensures
        (majority_bit(stat_mark(block, block_size, bit)) == (bit == 1)) == rest_keeps_bit(
            block.subrange((block.len() / 2) as int, block.len() as int),
            (block.len() / 2) as int,
            bit == 1,
        ),
{
    lemma_marked_block_bit(block, bit == 1);
}

/// Decoding what was embedded gives back the data whenever every block's
/// unmarked second half keeps its bit; the carrier keeps its length.
pub proof fn lemma_stat_roundtrip(carrier: Seq<Trit>, data: Seq<u8>, bs: int)
    requires
        bs >= 1,
        8 * data.len() * bs <= carrier.len(),
        forall|q: int|
            0 <= q < 8 * data.len() ==> #[trigger] rest_keeps_bit(
                carrier.subrange(q * bs + bs / 2, q * bs + bs),
                bs / 2,
                data_bit(data, q),
            ),
    ensures
        stat_embed(carrier, data, bs).len() == carrier.len(),
        pack_bytes(stat_bits(stat_embed(carrier, data, bs), bs, data.len()), data.len()) == data,
{
    let e = stat_embed(carrier, data, bs);
    let bits = stat_bits(e, bs, data.len());
    assert forall|q: int| 0 <= q < 8 * data.len() implies #[trigger] bits[q] == data_bit(data, q) by {
        lemma_next_block(q, bs);
        lemma_mul_le(q + 1, 8 * data.len() as int, bs);
        let block = carrier.subrange(q * bs, q * bs + bs);
        let half = bs / 2;
        let marked = Seq::new(
            block.len(),
            |k: int|
                if k < half {
                    bit_trit(data_bit(data, q))
                } else {
                    block[k]
                },
        );
        assert forall|m: int| 0 <= m < bs implies #[trigger] stat_block(e, bs, q)[m] == marked[m] by {
            lemma_block_position(q, bs, m);
        }
        assert(stat_block(e, bs, q) =~= marked);
        assert(block.subrange(half, bs) =~= carrier.subrange(q * bs + bs / 2, q * bs + bs));
        assert(rest_keeps_bit(block.subrange(half, bs), half, data_bit(data, q)));
        lemma_marked_block_bit(block, data_bit(data, q));
    }
    lemma_pack_matching(bits, data);
}

/// Statistical embedding writes bit `q` of `data` (most significant bit of
/// each byte first) into the first half of block `q` as Pos (1) or Neg (0),
/// and keeps the second half of every block and every trit after the last block.
pub proof fn lemma_stat_embed_shape(carrier: Seq<Trit>, data: Seq<u8>, bs: int)
    ensures
        stat_embed(carrier, data, bs).len() == carrier.len(),
        forall|k: int|
            0 <= k && 8 * data.len() * bs <= k < carrier.len() ==> #[trigger] stat_embed(
                carrier,
                data,
                bs,
            )[k] == carrier[k],
        forall|k: int|
            0 <= k < 8 * data.len() * bs && k < carrier.len() && k % bs >= bs / 2
                ==> #[trigger] stat_embed(carrier, data, bs)[k] == carrier[k],
        forall|k: int|
            0 <= k < 8 * data.len() * bs && k < carrier.len() && k % bs < bs / 2
                ==> #[trigger] stat_embed(carrier, data, bs)[k] == (if msb_bit(
                data[(k / bs) / 8],
                (k / bs) % 8,
            ) {
                Trit::Pos
            } else {
                Trit::Neg
            }),
{
}

/// Bit `j` of decoded byte `i` is 1 exactly when block `8 * i + j` starts
/// inside the carrier and holds more Pos than Neg (a block at the end may be short).
pub proof fn lemma_stat_decode_bits(s: Seq<Trit>, bs: int, byte_count: nat)
    ensures
        pack_bytes(stat_bits(s, bs, byte_count), byte_count).len() == byte_count,
        forall|i: int, j: int|
            0 <= i < byte_count && 0 <= j < 8 ==> #[trigger] msb_bit(
                pack_bytes(stat_bits(s, bs, byte_count), byte_count)[i],
                j,
            ) == {
                let q = 8 * i + j;
                let end = if q * bs + bs < s.len() {
                    q * bs + bs
                } else {
                    s.len() as int
                };
                q * bs < s.len() && count_of(s.subrange(q * bs, end), Trit::Pos) > count_of(
                    s.subrange(q * bs, end),
                    Trit::Neg,
                )
            },
{
    let bits = stat_bits(s, bs, byte_count);
    assert forall|i: int, j: int| 0 <= i < byte_count && 0 <= j < 8 implies #[trigger] msb_bit(
        pack_bytes(bits, byte_count)[i],
        j,
    ) == bits[8 * i + j] by {
        lemma_pack_byte_bits(bits, 8 * i);
    }
}

} // verus!
