use vstd::prelude::*;

verus! {

/// Bit `j` of `b`, counting from the most significant bit (`j == 0`) down.
pub open spec fn msb_bit(b: u8, j: int) -> bool {
    (b >> ((7 - j) as u8)) & 1u8 == 1u8
}

/// Bit `k` of the byte string `data`: bits of each byte in order, most
/// significant first.
pub open spec fn data_bit(data: Seq<u8>, k: int) -> bool {
    msb_bit(data[k / 8], k % 8)
}

/// All bits of `data`, eight per byte, most significant first.
pub open spec fn data_bits(data: Seq<u8>) -> Seq<bool> {
    Seq::new(8 * data.len(), |k: int| data_bit(data, k))
}

/// 1 for a set bit, 0 otherwise.
pub open spec fn bit_val(b: bool) -> u8 {
    if b {
        1u8
    } else {
        0u8
    }
}

/// The byte whose first `n` bits (most significant first) are
/// `bits[start..start + n]` and whose other bits are 0.
pub open spec fn pack_byte(bits: Seq<bool>, start: int, n: int) -> u8
    decreases n,
{
    if n <= 0 {
        0u8
    } else {
        pack_byte(bits, start, n - 1) | (bit_val(bits[start + n - 1]) << ((7 - (n - 1)) as u8))
    }
}

/// `count` bytes, byte `i` made of `bits[8 * i..8 * i + 8]`.
pub open spec fn pack_bytes(bits: Seq<bool>, count: nat) -> Seq<u8> {
    Seq::new(count, |i: int| pack_byte(bits, 8 * i, 8))
}

/// Bit `8 * i + j` of `data` is bit `j` of byte `i`.
pub proof fn lemma_data_bit_index(data: Seq<u8>, i: int, j: int)
    requires
        0 <= i,
        0 <= j < 8,
    ensures
        data_bit(data, 8 * i + j) == msb_bit(data[i], j),
{
    assert((8 * i + j) / 8 == i);
    assert((8 * i + j) % 8 == j);
}

spec fn or8(v0: u8, v1: u8, v2: u8, v3: u8, v4: u8, v5: u8, v6: u8, v7: u8) -> u8 {
    (((((((0u8 | (v0 << 7u8)) | (v1 << 6u8)) | (v2 << 5u8)) | (v3 << 4u8)) | (v4 << 3u8)) | (v5
        << 2u8)) | (v6 << 1u8)) | (v7 << 0u8)
}

proof fn lemma_or8_bits(v0: u8, v1: u8, v2: u8, v3: u8, v4: u8, v5: u8, v6: u8, v7: u8)
    by (bit_vector)
    requires
        v0 <= 1 && v1 <= 1 && v2 <= 1 && v3 <= 1 && v4 <= 1 && v5 <= 1 && v6 <= 1 && v7 <= 1,
    ensures
        (or8(v0, v1, v2, v3, v4, v5, v6, v7) >> 7u8) & 1u8 == v0,
        (or8(v0, v1, v2, v3, v4, v5, v6, v7) >> 6u8) & 1u8 == v1,
        (or8(v0, v1, v2, v3, v4, v5, v6, v7) >> 5u8) & 1u8 == v2,
        (or8(v0, v1, v2, v3, v4, v5, v6, v7) >> 4u8) & 1u8 == v3,
        (or8(v0, v1, v2, v3, v4, v5, v6, v7) >> 3u8) & 1u8 == v4,
        (or8(v0, v1, v2, v3, v4, v5, v6, v7) >> 2u8) & 1u8 == v5,
        (or8(v0, v1, v2, v3, v4, v5, v6, v7) >> 1u8) & 1u8 == v6,
        (or8(v0, v1, v2, v3, v4, v5, v6, v7) >> 0u8) & 1u8 == v7,
{
}

/// Bit `j` (most significant first) of the byte packed from `bits[start..start + 8]`
/// is `bits[start + j]`.
pub proof fn lemma_pack_byte_bits(bits: Seq<bool>, start: int)
    ensures
        forall|j: int| 0 <= j < 8 ==> #[trigger] msb_bit(pack_byte(bits, start, 8), j) == bits[start + j],
{
    reveal_with_fuel(pack_byte, 9);
    let v0 = bit_val(bits[start + 0]);
    let v1 = bit_val(bits[start + 1]);
    let v2 = bit_val(bits[start + 2]);
    let v3 = bit_val(bits[start + 3]);
    let v4 = bit_val(bits[start + 4]);
    let v5 = bit_val(bits[start + 5]);
    let v6 = bit_val(bits[start + 6]);
    let v7 = bit_val(bits[start + 7]);
    assert(pack_byte(bits, start, 8) == or8(v0, v1, v2, v3, v4, v5, v6, v7));
    lemma_or8_bits(v0, v1, v2, v3, v4, v5, v6, v7);
    assert forall|j: int| 0 <= j < 8 implies #[trigger] msb_bit(pack_byte(bits, start, 8), j)
        == bits[start + j] by {
        if j == 0 {
        } else if j == 1 {
        } else if j == 2 {
        } else if j == 3 {
        } else if j == 4 {
        } else if j == 5 {
        } else if j == 6 {
        } else {
        }
    }
}

proof fn lemma_reassemble(x: u8)
    by (bit_vector)
    ensures
        ((((((((0u8 | ((if (x >> 7u8) & 1u8 == 1u8 { 1u8 } else { 0u8 }) << 7u8)) | ((if (x >> 6u8)
            & 1u8 == 1u8 { 1u8 } else { 0u8 }) << 6u8)) | ((if (x >> 5u8) & 1u8 == 1u8 {
            1u8
        } else {
            0u8
        }) << 5u8)) | ((if (x >> 4u8) & 1u8 == 1u8 { 1u8 } else { 0u8 }) << 4u8)) | ((if (x
            >> 3u8) & 1u8 == 1u8 { 1u8 } else { 0u8 }) << 3u8)) | ((if (x >> 2u8) & 1u8 == 1u8 {
            1u8
        } else {
            0u8
        }) << 2u8)) | ((if (x >> 1u8) & 1u8 == 1u8 { 1u8 } else { 0u8 }) << 1u8)) | ((if (x
            >> 0u8) & 1u8 == 1u8 { 1u8 } else { 0u8 }) << 0u8)) == x,
{
}

/// Eight bits that are the bits of `x`, most significant first, pack back into `x`.
pub proof fn lemma_pack_byte_of_bits(bits: Seq<bool>, start: int, x: u8)
    requires
        0 <= start,
        start + 8 <= bits.len(),
        forall|j: int| 0 <= j < 8 ==> #[trigger] bits[start + j] == msb_bit(x, j),
    ensures
        pack_byte(bits, start, 8) == x,
{
    reveal_with_fuel(pack_byte, 9);
    assert(bits[start + 0] == msb_bit(x, 0));
    assert(bits[start + 1] == msb_bit(x, 1));
    assert(bits[start + 2] == msb_bit(x, 2));
    assert(bits[start + 3] == msb_bit(x, 3));
    assert(bits[start + 4] == msb_bit(x, 4));
    assert(bits[start + 5] == msb_bit(x, 5));
    assert(bits[start + 6] == msb_bit(x, 6));
    assert(bits[start + 7] == msb_bit(x, 7));
    lemma_reassemble(x);
}

/// Bits that agree with the bits of `data` on its first `8 * data.len()`
/// positions pack back into `data`.
pub proof fn lemma_pack_matching(bits: Seq<bool>, data: Seq<u8>)
    requires
        8 * data.len() <= bits.len(),
        forall|k: int| 0 <= k < 8 * data.len() ==> #[trigger] bits[k] == data_bit(data, k),
    ensures
        pack_bytes(bits, data.len()) == data,
{
    assert forall|i: int| 0 <= i < data.len() implies pack_byte(bits, 8 * i, 8) == data[i] by {
        assert forall|j: int| 0 <= j < 8 implies #[trigger] bits[8 * i + j] == msb_bit(data[i], j) by {
            assert((8 * i + j) / 8 == i);
            assert((8 * i + j) % 8 == j);
            assert(bits[8 * i + j] == data_bit(data, 8 * i + j));
        }
        lemma_pack_byte_of_bits(bits, 8 * i, data[i]);
    }
    assert(pack_bytes(bits, data.len()) =~= data);
}

/// Bits past the `n`-th that are all 0 do not change the packed byte.
pub proof fn lemma_pack_byte_false_tail(bits: Seq<bool>, start: int, n: int, m: int)
    requires
        0 <= n <= m,
        forall|j: int| n <= j < m ==> !#[trigger] bits[start + j],
    ensures
        pack_byte(bits, start, m) == pack_byte(bits, start, n),
    decreases m - n,
{
    if m > n {
        lemma_pack_byte_false_tail(bits, start, n, m - 1);
        let prev = pack_byte(bits, start, m - 1);
        let s = (7 - (m - 1)) as u8;
        assert(!bits[start + (m - 1)]);
        assert(prev | (0u8 << s) == prev) by (bit_vector);
    }
}

} // verus!
