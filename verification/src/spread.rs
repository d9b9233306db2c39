use vstd::prelude::*;
use vstd::slice::slice_to_vec;

use crate::blocks::{lemma_block_position, lemma_mul_le, lemma_next_block};
use crate::bits::{
    bit_val, data_bit, lemma_data_bit_index, lemma_pack_byte_bits, lemma_pack_byte_false_tail,
    lemma_pack_matching,
    msb_bit, pack_byte, pack_bytes,
};
use crate::sequence::TernarySequence;
use crate::trit::{digit_trit, negated, Trit};

verus! {

/// Trit `i` of the pseudo-random pattern generated from `key`.
pub open spec fn pattern_trit(key: Seq<usize>, i: int) -> Trit {
    digit_trit((key[i % key.len() as int].wrapping_add(i as usize).wrapping_mul(31) % 3) as int)
}

/// The first `length` trits of the pattern generated from `key`.
pub open spec fn key_pattern(key: Seq<usize>, length: nat) -> Seq<Trit> {
    Seq::new(length, |i: int| pattern_trit(key, i))
}

/// A pattern trit carrying one bit: kept for 1, negated for 0.
pub open spec fn chip(bit: bool, t: Trit) -> Trit {
    if bit {
        t
    } else {
        negated(t)
    }
}

/// The chips that carry `bit` (1 keeps the pattern, anything else negates it).
pub open spec fn spread_bit(bit: u8, pattern: Seq<Trit>) -> Seq<Trit> {
    Seq::new(pattern.len(), |m: int| chip(bit == 1, pattern[m]))
}

/// The sum of `e[m] * p[m]` over the first `n` positions.
pub open spec fn correlation(e: Seq<Trit>, p: Seq<Trit>, n: int) -> int
    decreases n,
{
    if n <= 0 {
        0
    } else {
        correlation(e, p, n - 1) + e[n - 1].value() * p[n - 1].value()
    }
}

/// The number of non-Zero trits among the first `n` of `p`.
pub open spec fn nonzero_count(p: Seq<Trit>, n: int) -> int
    decreases n,
{
    if n <= 0 {
        0
    } else {
        nonzero_count(p, n - 1) + (if p[n - 1] != Trit::Zero { 1int } else { 0int })
    }
}

/// The carrier with bit `q` of `data` spread over trits `q * c..q * c + c`
/// as chips of `pattern` (`c` is the pattern's length), for every bit of `data`.
pub open spec fn spread_embed(carrier: Seq<Trit>, data: Seq<u8>, pattern: Seq<Trit>) -> Seq<Trit> {
    let c = pattern.len() as int;
    Seq::new(
        carrier.len(),
        |k: int|
            if k < 8 * data.len() * c {
                chip(data_bit(data, k / c), pattern[k % c])
            } else {
                carrier[k]
            },
    )
}

/// The chunk of `s` that carries bit `q`.
pub open spec fn spread_chunk(s: Seq<Trit>, c: int, q: int) -> Seq<Trit> {
    s.subrange(q * c, q * c + c)
}

/// The bits read from `s` with `pattern`: bit `q` is 1 when its whole chunk
/// lies in `s` and correlates positively with the pattern.
pub open spec fn spread_bits(s: Seq<Trit>, pattern: Seq<Trit>, byte_count: nat) -> Seq<bool> {
    let c = pattern.len() as int;
    Seq::new(
        8 * byte_count,
        |q: int| (q + 1) * c <= s.len() && correlation(spread_chunk(s, c, q), pattern, c) > 0,
    )
}

/// The last bit index at which decoding looks at the carrier: the bit where a
/// chunk first runs past the end, kept within the last byte asked for.
pub open spec fn spread_last_probe(len: int, c: int, byte_count: int) -> int {
    let f = len / c;
    if f < 8 * (byte_count - 1) {
        8 * (byte_count - 1)
    } else if f > 8 * byte_count - 1 {
        8 * byte_count - 1
    } else {
        f
    }
}

proof fn lemma_value_product(a: Trit, b: Trit)
    ensures
        -1 <= a.value() * b.value() <= 1,
        a.value() * b.value() == (if a == Trit::Zero || b == Trit::Zero {
            0int
        } else if a == b {
            1int
        } else {
            -1int
        }),
{
    let x = a.value();
    let y = b.value();
    assert(x * y == (if x == 0 || y == 0 {
        0int
    } else if x == y {
        1int
    } else {
        -1int
    })) by (nonlinear_arith)
        requires
            -1 <= x <= 1,
            -1 <= y <= 1,
    ;
}

proof fn lemma_correlation_bounds(e: Seq<Trit>, p: Seq<Trit>, n: int)
    requires
        0 <= n,
    ensures
        -n <= correlation(e, p, n) <= n,
    decreases n,
{
    if n > 0 {
        lemma_correlation_bounds(e, p, n - 1);
        lemma_value_product(e[n - 1], p[n - 1]);
    }
}

proof fn lemma_correlation_of_chips(e: Seq<Trit>, p: Seq<Trit>, bit: bool, n: int)
    requires
        0 <= n <= e.len(),
        n <= p.len(),
        forall|m: int| 0 <= m < n ==> #[trigger] e[m] == chip(bit, p[m]),
    ensures
        correlation(e, p, n) == (if bit { nonzero_count(p, n) } else { -nonzero_count(p, n) }),
    decreases n,
{
    if n > 0 {
        lemma_correlation_of_chips(e, p, bit, n - 1);
        lemma_value_product(e[n - 1], p[n - 1]);
    }
}

proof fn lemma_nonzero_count_positive(p: Seq<Trit>, n: int, m: int)
    requires
        0 <= m < n,
        p[m] != Trit::Zero,
    ensures
        nonzero_count(p, n) > 0,
    decreases n,
{
    if n - 1 > m {
        lemma_nonzero_count_positive(p, n - 1, m);
    }
    lemma_nonzero_count_nonneg(p, n - 1);
}

proof fn lemma_nonzero_count_nonneg(p: Seq<Trit>, n: int)
    ensures
        nonzero_count(p, n) >= 0,
    decreases n,
{
    if n > 0 {
        lemma_nonzero_count_nonneg(p, n - 1);
    }
}

/// A bit index whose chunk starts within the carrier is at most the last probe.
proof fn lemma_within_probe(len: int, c: int, q: int)
    requires
        1 <= c,
        0 <= q,
        q * c <= len,
    ensures
        q <= len / c,
{
    assert(q <= len / c) by (nonlinear_arith)
        requires
            1 <= c,
            0 <= q,
            q * c <= len,
    ;
}

/// Spread spectrum steganography using a key-based pattern
pub struct SpreadSpectrum {
    key: Vec<usize>,
    chip_rate: usize,
}

impl SpreadSpectrum {
    #[verifier::type_invariant]
    spec fn chip_rate_positive(self) -> bool {
        self.chip_rate >= 1
    }

    /// The key the pattern is generated from.
    pub closed spec fn key(&self) -> Seq<usize> {
        self.key@
    }

    /// The number of trits that carry one bit (at least 1).
    pub closed spec fn chip_rate(&self) -> usize {
        self.chip_rate
    }

    pub fn new(key: Vec<usize>, chip_rate: usize) -> (r: Self)
        ensures
            r.key() == key@,
            r.chip_rate() == (if chip_rate < 1 { 1 } else { chip_rate }),
    {
        SpreadSpectrum { key, chip_rate: chip_rate.max(1) }
    }

    /// Generate a pseudo-random ternary sequence from the key
    pub fn generate_pattern(&self, length: usize) -> (r: Vec<Trit>)
        requires
            length == 0 || self.key().len() > 0,
        ensures
            r@ == key_pattern(self.key(), length as nat),
    {
        let mut pattern: Vec<Trit> = Vec::new();
        for i in 0..length
            invariant
                length == 0 || self.key@.len() > 0,
                pattern@ == key_pattern(self.key@, i as nat),
        {
            let key_byte = self.key[i % self.key.len()];
            let val = key_byte.wrapping_add(i).wrapping_mul(31) % 3;
            pattern.push(Trit::from_digit(val as u8).unwrap_or(Trit::Zero));
            assert(pattern@ =~= key_pattern(self.key@, (i + 1) as nat));
        }
        pattern
    }

    /// Encode a bit using direct sequence spread spectrum
    pub fn encode_bit(&self, bit: u8, pattern: &[Trit]) -> (r: Vec<Trit>)
        ensures
            r@ == spread_bit(bit, pattern@),
            r@.len() == pattern@.len(),
            forall|m: int|
                0 <= m < pattern@.len() ==> (#[trigger] r@[m]).value() == (if bit == 1 {
                    1int
                } else {
                    -1int
                }) * pattern@[m].value(),
    {
        let sign: i8 = if bit == 1 {
            1
        } else {
            -1
        };
        let mut out: Vec<Trit> = Vec::new();
        for m in 0..pattern.len()
            invariant
                sign == (if bit == 1 { 1i8 } else { -1i8 }),
                out@ == spread_bit(bit, pattern@).take(m as int),
        {
            let t = pattern[m];
            let v = t.to_i8() * sign;
            let clamped: i8 = if v < -1 {
                -1
            } else if v > 1 {
                1
            } else {
                v
            };
            let chipped = Trit::from_i8(clamped).unwrap_or(Trit::Zero);
            assert(chipped == chip(bit == 1, t));
            out.push(chipped);
            assert(out@ =~= spread_bit(bit, pattern@).take(m + 1));
        }
        assert(out@ =~= spread_bit(bit, pattern@));
        proof {
            lemma_spread_bit_values(bit, pattern@);
        }
        out
    }

    /// Decode a bit using correlation with the pattern
    pub fn decode_bit(&self, encoded: &[Trit], pattern: &[Trit]) -> (r: u8)
        ensures
            r == (if correlation(
                encoded@,
                pattern@,
                if encoded@.len() < pattern@.len() { encoded@.len() as int } else { pattern@.len() as int },
            ) > 0 {
                1u8
            } else {
                0u8
            }),
    {
        let n = if encoded.len() < pattern.len() {
            encoded.len()
        } else {
            pattern.len()
        };
        // The running sum stays within `-n..=n`, so a wide accumulator never overflows.
        let mut correlation_sum: i128 = 0;
        for m in 0..n
            invariant
                n <= encoded@.len(),
                n <= pattern@.len(),
                correlation_sum == correlation(encoded@, pattern@, m as int),
        {
            proof {
                lemma_correlation_bounds(encoded@, pattern@, m as int);
                lemma_value_product(encoded@[m as int], pattern@[m as int]);
            }
            correlation_sum = correlation_sum + (encoded[m].to_i8() as i128) * (
            pattern[m].to_i8() as i128);
        }
        if correlation_sum > 0 {
            1
        } else {
            0
        }
    }

    /// Encode data into carrier
    pub fn encode(&self, carrier: &TernarySequence, data: &[u8]) -> (r: Option<TernarySequence>)
        requires
            data@.len() * 8 * self.chip_rate() <= usize::MAX,
            self.key().len() > 0,
        ensures
            r is None <==> 8 * data@.len() * self.chip_rate() > carrier@.len(),
            r matches Some(out) ==> out@ == spread_embed(
                carrier@,
                data@,
                key_pattern(self.key(), self.chip_rate() as nat),
            ),
            r matches Some(out) ==> out@.len() == carrier@.len(),
            r matches Some(out) ==> forall|k: int|
                8 * data@.len() * self.chip_rate() <= k < carrier@.len() ==> #[trigger] out@[k]
                    == carrier@[k],
            r matches Some(out) ==> forall|k: int|
                0 <= k < 8 * data@.len() * self.chip_rate() ==> #[trigger] out@[k] == {
                    let c = self.chip_rate() as int;
                    let t = key_pattern(self.key(), self.chip_rate() as nat)[k % c];
                    if msb_bit(data@[(k / c) / 8], (k / c) % 8) {
                        t
                    } else {
                        negated(t)
                    }
                },
    {
        proof {
            use_type_invariant(self);
            lemma_next_block((data@.len() * 8) as int, self.chip_rate() as int);
        }
        let c = self.chip_rate;
        let bits_needed = data.len() * 8;
        let needed = bits_needed * c;
        if needed > carrier.len() {
            return None;
        }
        let mut trits = slice_to_vec(carrier.trits());
        let pattern = self.generate_pattern(c);
        let ghost p = pattern@;
        let ghost cl = carrier@;
        let ghost d = data@;
        assert(trits@ == cl);
        assert(0 * (c as int) == 0) by (nonlinear_arith);
        for byte_idx in 0..data.len()
            invariant
                c == self.chip_rate(),
                c >= 1,
                pattern@ == p,
                p == key_pattern(self.key(), c as nat),
                d == data@,
                cl == carrier@,
                needed == 8 * d.len() * c,
                needed <= cl.len(),
                trits@.len() == cl.len(),
                forall|k: int|
                    0 <= k < cl.len() ==> #[trigger] trits@[k] == (if k < (8 * byte_idx) * c {
                        chip(data_bit(d, k / (c as int)), p[k % (c as int)])
                    } else {
                        cl[k]
                    }),
        {
            let byte = data[byte_idx];
            for bit_idx in 0..8usize
                invariant
                    c == self.chip_rate(),
                    c >= 1,
                    pattern@ == p,
                    p.len() == c,
                    d == data@,
                    byte == d[byte_idx as int],
                    byte_idx < d.len(),
                    needed == 8 * d.len() * c,
                    needed <= cl.len(),
                    trits@.len() == cl.len(),
                    forall|k: int|
                        0 <= k < cl.len() ==> #[trigger] trits@[k] == (if k < (8 * byte_idx
                            + bit_idx) * c {
                            chip(data_bit(d, k / (c as int)), p[k % (c as int)])
                        } else {
                            cl[k]
                        }),
            {
                let ghost q = 8 * byte_idx + bit_idx;
                proof {
                    lemma_next_block(q, c as int);
                    lemma_mul_le(q + 1, 8 * d.len() as int, c as int);
                    lemma_data_bit_index(d, byte_idx as int, bit_idx as int);
                }
                let shift = (7 - bit_idx) as u8;
                let bit = (byte >> shift) & 1;
                assert((bit == 1) == msb_bit(byte, bit_idx as int)) by {
                    assert(((byte >> shift) & 1u8) == 1u8 || ((byte >> shift) & 1u8) == 0u8)
                        by (bit_vector);
                }
                let encoded_bit = self.encode_bit(bit, pattern.as_slice());
                let offset = (byte_idx * 8 + bit_idx) * c;
                for j in 0..encoded_bit.len()
                    invariant
                        c >= 1,
                        encoded_bit@ == spread_bit(bit, p),
                        p.len() == c,
                        offset == q * c,
                        0 <= q,
                        q * c + c <= needed,
                        needed <= cl.len(),
                        (bit == 1) == data_bit(d, q),
                        trits@.len() == cl.len(),
                        forall|k: int|
                            0 <= k < cl.len() ==> #[trigger] trits@[k] == (if k < offset + j {
                                chip(data_bit(d, k / (c as int)), p[k % (c as int)])
                            } else {
                                cl[k]
                            }),
                {
                    proof {
                        lemma_block_position(q, c as int, j as int);
                    }
                    if offset + j < trits.len() {
                        trits.set(offset + j, encoded_bit[j]);
                    }
                }
            }
            proof {
                lemma_next_block(8 * byte_idx, c as int);
                assert(8 * byte_idx + 8 == 8 * (byte_idx + 1));
            }
        }
        proof {
            lemma_spread_embed_shape(cl, d, p);
        }
        Some(TernarySequence::new(trits))
    }

    /// Decode data from encoded sequence
    pub fn decode(&self, encoded: &TernarySequence, byte_count: usize) -> (r: Vec<u8>)
        requires
            self.key().len() > 0,
            byte_count == 0 || spread_last_probe(
                encoded@.len() as int,
                self.chip_rate() as int,
                byte_count as int,
            ) * self.chip_rate() + self.chip_rate() <= usize::MAX,
        ensures
            r@ == pack_bytes(
                spread_bits(
                    encoded@,
                    key_pattern(self.key(), self.chip_rate() as nat),
                    byte_count as nat,
                ),
                byte_count as nat,
            ),
            r@.len() == byte_count,
            forall|i: int, j: int|
                0 <= i < byte_count && 0 <= j < 8 ==> #[trigger] msb_bit(r@[i], j) == {
                    let q = 8 * i + j;
                    let c = self.chip_rate() as int;
                    (q + 1) * c <= encoded@.len() && correlation(
                        encoded@.subrange(q * c, q * c + c),
                        key_pattern(self.key(), self.chip_rate() as nat),
                        c,
                    ) > 0
                },
    {
        proof {
            use_type_invariant(self);
        }
        let c = self.chip_rate;
        let pattern = self.generate_pattern(c);
        let total = encoded.len();
        let ghost p = pattern@;
        let ghost s = encoded@;
        let ghost bits = spread_bits(s, p, byte_count as nat);
        let ghost last = spread_last_probe(s.len() as int, c as int, byte_count as int);
        let mut result: Vec<u8> = Vec::new();
        for byte_idx in 0..byte_count
            invariant
                c == self.chip_rate(),
                c >= 1,
                pattern@ == p,
                p == key_pattern(self.key(), c as nat),
                s == encoded@,
                total == s.len(),
                bits == spread_bits(s, p, byte_count as nat),
                last == spread_last_probe(s.len() as int, c as int, byte_count as int),
                byte_count == 0 || last * c + c <= usize::MAX,
                result@ == pack_bytes(bits, byte_idx as nat),
        {
            let mut byte: u8 = 0;
            let mut bit_idx: usize = 0;
            while bit_idx < 8
                invariant_except_break
                    bit_idx <= 8,
                    byte_idx < byte_count,
                    c == self.chip_rate(),
                    c >= 1,
                    pattern@ == p,
                    p.len() == c,
                    s == encoded@,
                    total == s.len(),
                    bits == spread_bits(s, p, byte_count as nat),
                    last == spread_last_probe(s.len() as int, c as int, byte_count as int),
                    last * c + c <= usize::MAX,
                    bit_idx == 0 || (8 * byte_idx + bit_idx) * c <= total,
                    byte == pack_byte(bits, 8 * byte_idx, bit_idx as int),
                ensures
                    byte == pack_byte(bits, 8 * byte_idx, 8),
                decreases 8 - bit_idx,
            {
                let ghost q: int = 8 * byte_idx + bit_idx;
                proof {
                    lemma_next_block(q, c as int);
                    if bit_idx > 0 {
                        lemma_within_probe(s.len() as int, c as int, q);
                    }
                    lemma_mul_le(q, last, c as int);
                }
                let offset = (byte_idx * 8 + bit_idx) * c;
                if offset + c > total {
                    proof {
                        assert forall|m: int| bit_idx <= m < 8 implies !#[trigger] bits[8
                            * byte_idx + m] by {
                            lemma_mul_le(q + 1, 8 * byte_idx + m + 1, c as int);
                        }
                        lemma_pack_byte_false_tail(bits, 8 * byte_idx, bit_idx as int, 8);
                    }
                    break;
                }
                let mut chunk: Vec<Trit> = Vec::new();
                for j in offset..offset + c
                    invariant
                        offset + c <= total,
                        total == s.len(),
                        s == encoded@,
                        chunk@ == s.subrange(offset as int, j as int),
                {
                    match encoded.get(j) {
                        Some(t) => chunk.push(t),
                        None => {},
                    }
                    assert(chunk@ =~= s.subrange(offset as int, j + 1));
                }
                let bit = self.decode_bit(chunk.as_slice(), pattern.as_slice());
                assert(bit == bit_val(bits[q]));
                byte = byte | (bit << ((7 - bit_idx) as u8));
                bit_idx = bit_idx + 1;
            }
            result.push(byte);
            assert(result@ =~= pack_bytes(bits, (byte_idx + 1) as nat));
        }
        proof {
            lemma_spread_decode_bits(s, p, byte_count as nat);
        }
        result
    }
}

/// A bit spread over a pattern that has a non-Zero trit correlates positively
/// with the pattern exactly when the bit is 1.
pub proof fn lemma_spread_bit_roundtrip(bit: u8, pattern: Seq<Trit>)
    requires
        exists|m: int| 0 <= m < pattern.len() && pattern[m] != Trit::Zero,
    ensures
        (correlation(spread_bit(bit, pattern), pattern, pattern.len() as int) > 0) == (bit == 1),
{
    let m = choose|m: int| 0 <= m < pattern.len() && pattern[m] != Trit::Zero;
    lemma_correlation_of_chips(spread_bit(bit, pattern), pattern, bit == 1, pattern.len() as int);
    lemma_nonzero_count_positive(pattern, pattern.len() as int, m);
}

/// With a pattern that has a non-Zero trit, decoding what was spread into a
/// carrier long enough for it gives back the data, and the carrier keeps its length.
pub proof fn lemma_spread_roundtrip(carrier: Seq<Trit>, data: Seq<u8>, pattern: Seq<Trit>)
    requires
        8 * data.len() * pattern.len() <= carrier.len(),
        exists|m: int| 0 <= m < pattern.len() && pattern[m] != Trit::Zero,
    ensures
        spread_embed(carrier, data, pattern).len() == carrier.len(),
        pack_bytes(spread_bits(spread_embed(carrier, data, pattern), pattern, data.len()), data.len())
            == data,
{
    let c = pattern.len() as int;
    let e = spread_embed(carrier, data, pattern);
    let bits = spread_bits(e, pattern, data.len());
    let m0 = choose|m: int| 0 <= m < pattern.len() && pattern[m] != Trit::Zero;
    lemma_nonzero_count_positive(pattern, c, m0);
    assert forall|q: int| 0 <= q < 8 * data.len() implies #[trigger] bits[q] == data_bit(data, q) by {
        lemma_next_block(q, c);
        lemma_mul_le(q + 1, 8 * data.len() as int, c);
        let chunk = spread_chunk(e, c, q);
        assert forall|m: int| 0 <= m < c implies #[trigger] chunk[m] == chip(
            data_bit(data, q),
            pattern[m],
        ) by {
            lemma_block_position(q, c, m);
        }
        lemma_correlation_of_chips(chunk, pattern, data_bit(data, q), c);
    }
    lemma_pack_matching(bits, data);
}

/// Spreading writes, for each bit `q` of `data` (most significant bit of each
/// byte first), the pattern into trits `q * c..q * c + c`: as is for a 1 and
/// negated for a 0; every trit after the last chunk keeps its carrier value.
pub proof fn lemma_spread_embed_shape(carrier: Seq<Trit>, data: Seq<u8>, pattern: Seq<Trit>)
    ensures
        spread_embed(carrier, data, pattern).len() == carrier.len(),
        forall|k: int|
            0 <= k && 8 * data.len() * pattern.len() <= k < carrier.len() ==> #[trigger] spread_embed(
                carrier,
                data,
                pattern,
            )[k] == carrier[k],
        forall|k: int|
            0 <= k < 8 * data.len() * pattern.len() && k < carrier.len() ==> #[trigger] spread_embed(
                carrier,
                data,
                pattern,
            )[k] == {
                let c = pattern.len() as int;
                if msb_bit(data[(k / c) / 8], (k / c) % 8) {
                    pattern[k % c]
                } else {
                    negated(pattern[k % c])
                }
            },
{
}

/// Bit `j` of decoded byte `i` is 1 exactly when chunk `8 * i + j` lies inside
/// the carrier and correlates positively with the pattern.
pub proof fn lemma_spread_decode_bits(s: Seq<Trit>, pattern: Seq<Trit>, byte_count: nat)
    ensures
        pack_bytes(spread_bits(s, pattern, byte_count), byte_count).len() == byte_count,
        forall|i: int, j: int|
            0 <= i < byte_count && 0 <= j < 8 ==> #[trigger] msb_bit(
                pack_bytes(spread_bits(s, pattern, byte_count), byte_count)[i],
                j,
            ) == {
                let q = 8 * i + j;
                let c = pattern.len() as int;
                (q + 1) * c <= s.len() && correlation(s.subrange(q * c, q * c + c), pattern, c) > 0
            },
{
    let bits = spread_bits(s, pattern, byte_count);
    assert forall|i: int, j: int| 0 <= i < byte_count && 0 <= j < 8 implies #[trigger] msb_bit(
        pack_bytes(bits, byte_count)[i],
        j,
    ) == bits[8 * i + j] by {
        lemma_pack_byte_bits(bits, 8 * i);
    }
}

/// The number of positions below `n` where `e` and `f` differ.
pub open spec fn mismatches(e: Seq<Trit>, f: Seq<Trit>, n: int) -> int
    decreases n,
{
    if n <= 0 {
        0
    } else {
        mismatches(e, f, n - 1) + (if e[n - 1] != f[n - 1] { 1int } else { 0int })
    }
}

/// Each differing chip moves the correlation by at most 2.
proof fn lemma_correlation_mismatch_bound(e: Seq<Trit>, f: Seq<Trit>, p: Seq<Trit>, n: int)
    requires
        0 <= n,
    ensures
        correlation(e, p, n) - correlation(f, p, n) <= 2 * mismatches(e, f, n),
        correlation(f, p, n) - correlation(e, p, n) <= 2 * mismatches(e, f, n),
    decreases n,
{
    if n > 0 {
        lemma_correlation_mismatch_bound(e, f, p, n - 1);
        lemma_value_product(e[n - 1], p[n - 1]);
        lemma_value_product(f[n - 1], p[n - 1]);
    }
}

/// Each chip of a spread bit is the pattern trit times +1 (bit 1) or -1 (any other bit).
pub proof fn lemma_spread_bit_values(bit: u8, pattern: Seq<Trit>)
    ensures
        spread_bit(bit, pattern).len() == pattern.len(),
        forall|m: int|
            0 <= m < pattern.len() ==> (#[trigger] spread_bit(bit, pattern)[m]).value() == (if bit
                == 1 {
                1int
            } else {
                -1int
            }) * pattern[m].value(),
{
    assert forall|m: int| 0 <= m < pattern.len() implies (#[trigger] spread_bit(bit, pattern)[m]).value()
        == (if bit == 1 {
        1int
    } else {
        -1int
    }) * pattern[m].value() by {
        let t = pattern[m];
        let v = t.value();
        if bit == 1 {
            assert(1int * v == v);
        } else {
            assert(-1int * v == -v);
            assert(negated(t).value() == -v);
        }
    }
}

/// A spread bit survives corruption: when fewer than half of the pattern's
/// non-Zero trits' worth of chips (`2 * mismatches < nonzero count`) differ
/// from the chips of `bit`, the chunk still correlates positively exactly
/// when `bit` is 1, so decoding reads the same bit.
pub proof fn lemma_spread_bit_tolerates_errors(e: Seq<Trit>, bit: u8, pattern: Seq<Trit>)
    requires
        e.len() == pattern.len(),
        2 * mismatches(e, spread_bit(bit, pattern), pattern.len() as int) < nonzero_count(
            pattern,
            pattern.len() as int,
        ),
    ensures
        (correlation(e, pattern, pattern.len() as int) > 0) == (bit == 1),
{
    let n = pattern.len() as int;
    let f = spread_bit(bit, pattern);
    lemma_correlation_of_chips(f, pattern, bit == 1, n);
    lemma_correlation_mismatch_bound(e, f, pattern, n);
}

} // verus!
