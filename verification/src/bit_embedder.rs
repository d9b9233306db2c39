use vstd::prelude::*;
use vstd::slice::slice_to_vec;

use crate::bits::{
    bit_val, data_bit, lemma_pack_byte_bits, lemma_pack_matching, msb_bit, pack_byte, pack_bytes,
};
use crate::sequence::TernarySequence;
use crate::trit::Trit;

verus! {

/// The trit that carries one bit: Pos for 1, Neg for 0.
pub open spec fn bit_trit(b: bool) -> Trit {
    if b {
        Trit::Pos
    } else {
        Trit::Neg
    }
}

/// The carrier with its first `8 * data.len()` trits replaced by the bits of
/// `data`, one bit per trit.
pub open spec fn bit_embed(carrier: Seq<Trit>, data: Seq<u8>) -> Seq<Trit> {
    Seq::new(
        carrier.len(),
        |k: int|
            if k < 8 * data.len() {
                bit_trit(data_bit(data, k))
            } else {
                carrier[k]
            },
    )
}

/// The bit each trit reads as: Pos is 1, everything else is 0.
pub open spec fn pos_bits(s: Seq<Trit>) -> Seq<bool> {
    Seq::new(s.len(), |k: int| s[k] == Trit::Pos)
}

/// Simple bit embedding: encode binary data in ternary values
/// Uses 1 bit per trit: Neg/Zero = 0, Pos = 1
pub struct BitEmbedder {
    _bits_per_trit: usize,
}

impl BitEmbedder {
    /// The bits-per-trit setting (at most 1).
    pub closed spec fn bits_per_trit(&self) -> usize {
        self._bits_per_trit
    }

    pub fn new(bits_per_trit: usize) -> (r: Self)
        ensures
            r.bits_per_trit() == (if bits_per_trit < 1 { bits_per_trit } else { 1 }),
    {
        BitEmbedder { _bits_per_trit: bits_per_trit.min(1) }
    }

    /// Encode bytes into a ternary sequence carrier
    pub fn encode(&self, carrier: &TernarySequence, data: &[u8]) -> (r: Option<TernarySequence>)
        requires
            data@.len() * 8 <= usize::MAX,
        ensures
            r is None <==> 8 * data@.len() > carrier@.len(),
            r matches Some(out) ==> out@ == bit_embed(carrier@, data@),
            r matches Some(out) ==> out@.len() == carrier@.len(),
            r matches Some(out) ==> forall|k: int|
                8 * data@.len() <= k < carrier@.len() ==> #[trigger] out@[k] == carrier@[k],
            r matches Some(out) ==> forall|k: int|
                0 <= k < 8 * data@.len() ==> #[trigger] out@[k] == (if msb_bit(
                    data@[k / 8],
                    k % 8,
                ) {
                    Trit::Pos
                } else {
                    Trit::Neg
                }),
    {
        let bits_needed = data.len() * 8;
        if bits_needed > carrier.len() {
            return None;
        }
        let mut result = TernarySequence::new(slice_to_vec(carrier.trits()));
        let mut bit_idx: usize = 0;
        let mut i: usize = 0;
        while i < data.len()
            invariant
                i <= data.len(),
                bit_idx == 8 * i,
                8 * data@.len() <= carrier@.len(),
                8 * data@.len() <= usize::MAX,
                result@.len() == carrier@.len(),
                forall|k: int|
                    0 <= k < carrier@.len() ==> #[trigger] result@[k] == (if k < 8 * i {
                        bit_trit(data_bit(data@, k))
                    } else {
                        carrier@[k]
                    }),
            decreases data.len() - i,
        {
            let byte = data[i];
            let mut j: u8 = 0;
            while j < 8
                invariant
                    i < data.len(),
                    j <= 8,
                    byte == data@[i as int],
                    bit_idx == 8 * i + j,
                    8 * data@.len() <= carrier@.len(),
                    8 * data@.len() <= usize::MAX,
                    result@.len() == carrier@.len(),
                    forall|k: int|
                        0 <= k < carrier@.len() ==> #[trigger] result@[k] == (if k < 8 * i + j {
                            bit_trit(data_bit(data@, k))
                        } else {
                            carrier@[k]
                        }),
                decreases 8 - j,
            {
                let shift: u8 = 7 - j;
                let bit = (byte >> shift) & 1;
                let trit = if bit == 1 {
                    Trit::Pos
                } else {
                    Trit::Neg
                };
                proof {
                    assert((8 * i + j) / 8 == i);
                    assert((8 * i + j) % 8 == j);
                    assert(data_bit(data@, bit_idx as int) == msb_bit(byte, j as int));
                }
                result.set(bit_idx, trit);
                bit_idx = bit_idx + 1;
                j = j + 1;
            }
            i = i + 1;
        }
        proof {
            lemma_bit_embed_shape(carrier@, data@);
        }
        Some(result)
    }

    /// Decode bytes from an encoded ternary sequence
    pub fn decode(&self, encoded: &TernarySequence, byte_count: usize) -> (r: Option<Vec<u8>>)
        ensures
            r is Some <==> 8 * byte_count <= encoded@.len(),
            r matches Some(v) ==> v@ == pack_bytes(pos_bits(encoded@), byte_count as nat),
            r matches Some(v) ==> v@.len() == byte_count,
            r matches Some(v) ==> forall|i: int, j: int|
                0 <= i < byte_count && 0 <= j < 8 ==> #[trigger] msb_bit(v@[i], j) == (encoded@[8
                    * i + j] == Trit::Pos),
    {
        let total = encoded.len();
        let mut result: Vec<u8> = Vec::new();
        let mut bit_idx: usize = 0;
        let mut i: usize = 0;
        while i < byte_count
            invariant
                i <= byte_count,
                total == encoded@.len(),
                bit_idx == 8 * i,
                8 * i <= encoded@.len(),
                result@ == pack_bytes(pos_bits(encoded@), i as nat),
            decreases byte_count - i,
        {
            let mut byte: u8 = 0;
            let mut j: u8 = 0;
            while j < 8
                invariant
                    i < byte_count,
                    j <= 8,
                    bit_idx == 8 * i + j,
                    total == encoded@.len(),
                    bit_idx <= encoded@.len(),
                    byte == pack_byte(pos_bits(encoded@), 8 * i, j as int),
                decreases 8 - j,
            {
                let trit = match encoded.get(bit_idx) {
                    Some(t) => t,
                    None => {
                        return None;
                    },
                };
                let shift: u8 = 7 - j;
                let bit: u8 = if trit == Trit::Pos {
                    1
                } else {
                    0
                };
                assert(bit == bit_val(pos_bits(encoded@)[8 * i + j]));
                byte = byte | (bit << shift);
                bit_idx = bit_idx + 1;
                j = j + 1;
            }
            result.push(byte);
            assert(result@ =~= pack_bytes(pos_bits(encoded@), (i + 1) as nat));
            i = i + 1;
        }
        proof {
            lemma_bit_decode_reads_pos(encoded@, byte_count as nat);
        }
        Some(result)
    }
}

/// Decoding what was embedded gives back the data, and the carrier keeps its length.
pub proof fn lemma_bit_roundtrip(carrier: Seq<Trit>, data: Seq<u8>)
    requires
        8 * data.len() <= carrier.len(),
    ensures
        bit_embed(carrier, data).len() == carrier.len(),
        pack_bytes(pos_bits(bit_embed(carrier, data)), data.len()) == data,
{
    let bits = pos_bits(bit_embed(carrier, data));
    assert forall|k: int| 0 <= k < 8 * data.len() implies #[trigger] bits[k] == data_bit(data, k) by {
    }
    lemma_pack_matching(bits, data);
}

/// Embedding writes the bits of `data`, most significant first, as Pos (1) and
/// Neg (0) into the first `8 * data.len()` trits, and keeps every other trit.
pub proof fn lemma_bit_embed_shape(carrier: Seq<Trit>, data: Seq<u8>)
    ensures
        bit_embed(carrier, data).len() == carrier.len(),
        forall|k: int|
            8 * data.len() <= k < carrier.len() ==> #[trigger] bit_embed(carrier, data)[k]
                == carrier[k],
        forall|k: int|
            0 <= k < 8 * data.len() && k < carrier.len() ==> #[trigger] bit_embed(carrier, data)[k]
                == (if msb_bit(data[k / 8], k % 8) {
                Trit::Pos
            } else {
                Trit::Neg
            }),
{
}

/// Bit `j` of decoded byte `i` is 1 exactly when trit `8 * i + j` is Pos.
pub proof fn lemma_bit_decode_reads_pos(s: Seq<Trit>, byte_count: nat)
    requires
        8 * byte_count <= s.len(),
    ensures
        pack_bytes(pos_bits(s), byte_count).len() == byte_count,
        forall|i: int, j: int|
            0 <= i < byte_count && 0 <= j < 8 ==> #[trigger] msb_bit(
                pack_bytes(pos_bits(s), byte_count)[i],
                j,
            ) == (s[8 * i + j] == Trit::Pos),
{
    assert forall|i: int, j: int| 0 <= i < byte_count && 0 <= j < 8 implies #[trigger] msb_bit(
        pack_bytes(pos_bits(s), byte_count)[i],
        j,
    ) == (s[8 * i + j] == Trit::Pos) by {
        lemma_pack_byte_bits(pos_bits(s), 8 * i);
        assert(msb_bit(pack_byte(pos_bits(s), 8 * i, 8), j) == pos_bits(s)[8 * i + j]);
    }
}

/// The encoded region holds no Zero: every trit there is Pos or Neg.
pub proof fn lemma_bit_embed_no_zero(carrier: Seq<Trit>, data: Seq<u8>, k: int)
    requires
        0 <= k < 8 * data.len(),
        8 * data.len() <= carrier.len(),
    ensures
        bit_embed(carrier, data)[k] != Trit::Zero,
{
}

} // verus!
