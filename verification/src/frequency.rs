use vstd::prelude::*;
use vstd::slice::slice_to_vec;

use crate::blocks::{lemma_block_position, lemma_mul_le, lemma_next_block};
use crate::sequence::TernarySequence;
use crate::trit::{count_of, count_trits, lemma_count_concat, lemma_count_constant, Trit};

verus! {

/// How many Neg trits encode `byte` in a window of `w`.
pub open spec fn freq_neg_count(byte: u8, w: int) -> int {
    byte as int % w
}

/// How many Pos trits encode `byte` in a window of `w`.
pub open spec fn freq_pos_count(byte: u8, w: int) -> int {
    let p = (byte as int / 3) % w;
    if p < w - freq_neg_count(byte, w) {
        p
    } else {
        w - freq_neg_count(byte, w)
    }
}

/// The window for `byte`: its Neg trits, then Zero trits, then its Pos trits.
pub open spec fn freq_window(byte: u8, w: int) -> Seq<Trit> {
    Seq::new(
        w as nat,
        |k: int|
            if k < freq_neg_count(byte, w) {
                Trit::Neg
            } else if k < w - freq_pos_count(byte, w) {
                Trit::Zero
            } else {
                Trit::Pos
            },
    )
}

/// The byte a window reads as: (Neg count + 3 * Pos count) mod 256.
pub open spec fn freq_value(trits: Seq<Trit>) -> u8 {
    ((count_of(trits, Trit::Neg) + 3 * count_of(trits, Trit::Pos)) % 256) as u8
}

/// Whether reading the window needs no more than a `usize` for its sum.
pub open spec fn freq_value_fits(trits: Seq<Trit>) -> bool {
    count_of(trits, Trit::Neg) + 3 * count_of(trits, Trit::Pos) <= usize::MAX
}

/// The carrier with window `i` (trits `i * w..i * w + w`) replaced by the
/// window of `data[i]`, for every byte of `data`.
pub open spec fn freq_embed(carrier: Seq<Trit>, data: Seq<u8>, w: int) -> Seq<Trit> {
    Seq::new(
        carrier.len(),
        |k: int|
            if k < data.len() * w {
                freq_window(data[k / w], w)[k % w]
            } else {
                carrier[k]
            },
    )
}

/// Window `i` of `s`.
pub open spec fn freq_window_of(s: Seq<Trit>, w: int, i: int) -> Seq<Trit> {
    s.subrange(i * w, i * w + w)
}

/// How many whole windows decoding reads: at most `byte_count`, and only
/// those that lie inside `s`.
pub open spec fn freq_windows_read(len: int, w: int, byte_count: int) -> int {
    if byte_count < len / w {
        byte_count
    } else {
        len / w
    }
}

/// The bytes read from the whole windows of `s`.
pub open spec fn freq_decoded(s: Seq<Trit>, w: int, byte_count: int) -> Seq<u8> {
    Seq::new(
        freq_windows_read(s.len() as int, w, byte_count) as nat,
        |i: int| freq_value(freq_window_of(s, w, i)),
    )
}

/// A window of `w` fits `len` trits `i + 1` times exactly when `i < len / w`.
proof fn lemma_window_fits(len: int, w: int, i: int)
    requires
        1 <= w,
        0 <= i,
        0 <= len,
    ensures
        (i * w + w <= len) == (i < len / w),
{
    assert((i * w + w <= len) == (i < len / w)) by (nonlinear_arith)
        requires
            1 <= w,
            0 <= i,
            0 <= len,
    ;
}

/// Encode data by modulating the frequency of ternary values
pub struct FrequencyModulator {
    window_size: usize,
}

impl FrequencyModulator {
    #[verifier::type_invariant]
    spec fn window_at_least_three(self) -> bool {
        self.window_size >= 3
    }

    /// The number of trits per encoded byte (at least 3).
    pub closed spec fn window_size(&self) -> usize {
        self.window_size
    }

    pub fn new(window_size: usize) -> (r: Self)
        ensures
            r.window_size() == (if window_size < 3 { 3 } else { window_size }),
    {
        FrequencyModulator { window_size: window_size.max(3) }
    }

    /// Encode a byte into a window by adjusting trit frequencies
    pub fn encode_byte(&self, byte: u8) -> (r: Vec<Trit>)
        ensures
            r@ == freq_window(byte, self.window_size() as int),
            r@.len() == self.window_size(),
            count_of(r@, Trit::Neg) == byte as int % self.window_size() as int,
            count_of(r@, Trit::Pos) == {
                let w = self.window_size() as int;
                let p = (byte as int / 3) % w;
                if p < w - byte as int % w {
                    p
                } else {
                    w - byte as int % w
                }
            },
            forall|i: int, j: int|
                0 <= i <= j < r@.len() ==> (#[trigger] r@[i]).digit_value() <= (
                #[trigger] r@[j]).digit_value(),
    {
        proof {
            use_type_invariant(self);
        }
        let w = self.window_size;
        let mut trits: Vec<Trit> = Vec::new();
        // Distribute trits based on byte value
        let neg_count = ((byte as usize) % w).min(w);
        let pos_count = ((byte as usize / 3) % w).min(w.saturating_sub(neg_count));
        let zero_count = w - neg_count - pos_count;
        let ghost win = freq_window(byte, w as int);
        assert(neg_count == freq_neg_count(byte, w as int));
        assert(pos_count == freq_pos_count(byte, w as int));
        for _i in 0..neg_count
            invariant
                trits@ == win.take(trits@.len() as int),
                trits@.len() == _i,
                neg_count + zero_count + pos_count == w,
                win == freq_window(byte, w as int),
                neg_count == freq_neg_count(byte, w as int),
                pos_count == freq_pos_count(byte, w as int),
        {
            trits.push(Trit::Neg);
            assert(trits@ =~= win.take(trits@.len() as int));
        }
        for _i in 0..zero_count
            invariant
                trits@ == win.take(trits@.len() as int),
                trits@.len() == neg_count + _i,
                neg_count + zero_count + pos_count == w,
                win == freq_window(byte, w as int),
                neg_count == freq_neg_count(byte, w as int),
                pos_count == freq_pos_count(byte, w as int),
        {
            trits.push(Trit::Zero);
            assert(trits@ =~= win.take(trits@.len() as int));
        }
        for _i in 0..pos_count
            invariant
                trits@ == win.take(trits@.len() as int),
                trits@.len() == neg_count + zero_count + _i,
                neg_count + zero_count + pos_count == w,
                win == freq_window(byte, w as int),
                neg_count == freq_neg_count(byte, w as int),
                pos_count == freq_pos_count(byte, w as int),
        {
            trits.push(Trit::Pos);
            assert(trits@ =~= win.take(trits@.len() as int));
        }
        assert(trits@ =~= win);
        proof {
            lemma_freq_window_counts(byte, w as int);
        }
        trits
    }

    /// Decode a byte from a window of trits
    pub fn decode_byte(&self, trits: &[Trit]) -> (r: u8)
        requires
            freq_value_fits(trits@),
        ensures
            r == freq_value(trits@),
            r as int == (count_of(trits@, Trit::Neg) + 3 * count_of(trits@, Trit::Pos)) % 256,
    {
        let (neg_count, _, pos_count) = count_trits(trits);
        ((neg_count + pos_count * 3) % 256) as u8
    }

    /// Encode data into a carrier sequence using frequency windows
    pub fn encode(&self, carrier: &TernarySequence, data: &[u8]) -> (r: Option<TernarySequence>)
        requires
            data@.len() * self.window_size() <= usize::MAX,
        ensures
            r is None <==> data@.len() * self.window_size() > carrier@.len(),
            r matches Some(out) ==> out@ == freq_embed(carrier@, data@, self.window_size() as int),
            r matches Some(out) ==> out@.len() == carrier@.len(),
            r matches Some(out) ==> forall|k: int|
                data@.len() * self.window_size() <= k < carrier@.len() ==> #[trigger] out@[k]
                    == carrier@[k],
            r matches Some(out) ==> forall|i: int|
                0 <= i < data@.len() ==> #[trigger] freq_window_of(
                    out@,
                    self.window_size() as int,
                    i,
                ) == freq_window(data@[i], self.window_size() as int),
    {
        proof {
            use_type_invariant(self);
        }
        let w = self.window_size;
        let needed = data.len() * w;
        if needed > carrier.len() {
            return None;
        }
        let mut result = TernarySequence::new(slice_to_vec(carrier.trits()));
        let ghost cl = carrier@;
        let ghost d = data@;
        let ghost wi = w as int;
        assert(0 * wi == 0) by (nonlinear_arith);
        for i in 0..data.len()
            invariant
                w == self.window_size(),
                wi == w,
                w >= 3,
                d == data@,
                cl == carrier@,
                needed == d.len() * w,
                needed <= cl.len(),
                result@.len() == cl.len(),
                forall|k: int|
                    0 <= k < cl.len() ==> #[trigger] result@[k] == (if k < i * wi {
                        freq_window(d[k / wi], wi)[k % wi]
                    } else {
                        cl[k]
                    }),
        {
            proof {
                lemma_next_block(i as int, wi);
                lemma_mul_le(i + 1, d.len() as int, wi);
            }
            let window = self.encode_byte(data[i]);
            let offset = i * w;
            for j in 0..window.len()
                invariant
                    window@ == freq_window(d[i as int], wi),
                    wi == w,
                    w >= 3,
                    i < d.len(),
                    offset == i * wi,
                    i * wi + wi <= needed,
                    needed <= cl.len(),
                    result@.len() == cl.len(),
                    forall|k: int|
                        0 <= k < cl.len() ==> #[trigger] result@[k] == (if k < offset + j {
                            freq_window(d[k / wi], wi)[k % wi]
                        } else {
                            cl[k]
                        }),
            {
                proof {
                    lemma_block_position(i as int, wi, j as int);
                }
                result.set(offset + j, window[j]);
            }
        }
        proof {
            lemma_freq_embed_shape(cl, d, wi);
            assert(result@ == freq_embed(cl, d, wi));
            assert forall|i: int| 0 <= i < d.len() implies #[trigger] freq_window_of(result@, wi, i)
                == freq_window(d[i], wi) by {
                assert(freq_window_of(freq_embed(cl, d, wi), wi, i) == freq_window(d[i], wi));
            }
        }
        Some(result)
    }

    /// Decode data from a carrier sequence
    pub fn decode(&self, carrier: &TernarySequence, byte_count: usize) -> (r: Vec<u8>)
        requires
            byte_count == 0 || freq_windows_read(
                carrier@.len() as int,
                self.window_size() as int,
                byte_count as int - 1,
            ) * self.window_size() + self.window_size() <= usize::MAX,
            forall|i: int|
                0 <= i < freq_windows_read(
                    carrier@.len() as int,
                    self.window_size() as int,
                    byte_count as int,
                ) ==> #[trigger] freq_value_fits(
                    freq_window_of(carrier@, self.window_size() as int, i),
                ),
        ensures
            r@ == freq_decoded(carrier@, self.window_size() as int, byte_count as int),
            r@.len() == (if byte_count < carrier@.len() as int / self.window_size() as int {
                byte_count as int
            } else {
                carrier@.len() as int / self.window_size() as int
            }),
            forall|i: int|
                0 <= i < r@.len() ==> #[trigger] r@[i] as int == {
                    let w = self.window_size() as int;
                    let win = carrier@.subrange(i * w, i * w + w);
                    (count_of(win, Trit::Neg) + 3 * count_of(win, Trit::Pos)) % 256
                },
    {
        proof {
            use_type_invariant(self);
        }
        let w = self.window_size;
        let total = carrier.len();
        let ghost s = carrier@;
        let ghost wi = w as int;
        let ghost n = freq_windows_read(s.len() as int, wi, byte_count as int);
        let mut result: Vec<u8> = Vec::new();
        let mut i: usize = 0;
        while i < byte_count
            invariant_except_break
                w == self.window_size(),
                wi == w,
                w >= 3,
                s == carrier@,
                total == s.len(),
                n == freq_windows_read(s.len() as int, wi, byte_count as int),
                i <= byte_count,
                i <= n,
                byte_count == 0 || freq_windows_read(s.len() as int, wi, byte_count as int - 1) * wi
                    + wi <= usize::MAX,
                forall|j: int| 0 <= j < n ==> #[trigger] freq_value_fits(freq_window_of(s, wi, j)),
                result@ == freq_decoded(s, wi, byte_count as int).take(i as int),
            ensures
                result@ == freq_decoded(s, wi, byte_count as int),
            decreases byte_count - i,
        {
            proof {
                lemma_next_block(i as int, wi);
                lemma_window_fits(s.len() as int, wi, i as int);
                lemma_mul_le(i as int, freq_windows_read(s.len() as int, wi, byte_count as int - 1), wi);
            }
            let offset = i * w;
            if offset + w > total {
                assert(result@ =~= freq_decoded(s, wi, byte_count as int));
                break;
            }
            let mut window: Vec<Trit> = Vec::new();
            for j in offset..offset + w
                invariant
                    offset + w <= total,
                    total == s.len(),
                    s == carrier@,
                    window@ == s.subrange(offset as int, j as int),
            {
                match carrier.get(j) {
                    Some(t) => window.push(t),
                    None => {},
                }
                assert(window@ =~= s.subrange(offset as int, j + 1));
            }
            assert(i < n);
            assert(window@ == freq_window_of(s, wi, i as int));
            assert(freq_value_fits(freq_window_of(s, wi, i as int)));
            let byte = self.decode_byte(window.as_slice());
            result.push(byte);
            i = i + 1;
            assert(result@ =~= freq_decoded(s, wi, byte_count as int).take(i as int));
        }
        result
    }
}

/// The window of a byte holds `w` trits: its Neg count and Pos count as the
/// formula gives them, so it reads as (Neg count + 3 * Pos count) mod 256.
pub proof fn lemma_freq_window_counts(byte: u8, w: int)
    requires
        w >= 1,
    ensures
        ({
            let win = freq_window(byte, w);
            let neg = byte as int % w;
            let pos = if (byte as int / 3) % w < w - neg {
                (byte as int / 3) % w
            } else {
                w - neg
            };
            &&& win.len() == w
            &&& count_of(win, Trit::Neg) == neg
            &&& count_of(win, Trit::Pos) == pos
            &&& count_of(win, Trit::Zero) == w - neg - pos
            &&& forall|i: int, j: int|
                0 <= i <= j < w ==> (#[trigger] win[i]).digit_value() <= (
                #[trigger] win[j]).digit_value()
            &&& freq_value(win) == ((neg + 3 * pos) % 256) as u8
        }),
{
    let win = freq_window(byte, w);
    let a = freq_neg_count(byte, w);
    let b = w - freq_pos_count(byte, w);
    let negs = win.subrange(0, a);
    let zeros = win.subrange(a, b);
    let poss = win.subrange(b, w);
    assert(win =~= negs + zeros + poss);
    lemma_count_concat(negs + zeros, poss, Trit::Neg);
    lemma_count_concat(negs + zeros, poss, Trit::Pos);
    lemma_count_concat(negs, zeros, Trit::Neg);
    lemma_count_concat(negs, zeros, Trit::Pos);
    lemma_count_constant(negs, Trit::Neg, Trit::Neg);
    lemma_count_constant(negs, Trit::Neg, Trit::Pos);
    lemma_count_constant(zeros, Trit::Zero, Trit::Neg);
    lemma_count_constant(zeros, Trit::Zero, Trit::Pos);
    lemma_count_constant(poss, Trit::Pos, Trit::Neg);
    lemma_count_constant(poss, Trit::Pos, Trit::Pos);
    lemma_count_concat(negs + zeros, poss, Trit::Zero);
    lemma_count_concat(negs, zeros, Trit::Zero);
    lemma_count_constant(negs, Trit::Neg, Trit::Zero);
    lemma_count_constant(zeros, Trit::Zero, Trit::Zero);
    lemma_count_constant(poss, Trit::Pos, Trit::Zero);
}

/// Frequency embedding puts the window of `data[i]` at trits `i * w..i * w + w`
/// and keeps every trit after the last window.
pub proof fn lemma_freq_embed_shape(carrier: Seq<Trit>, data: Seq<u8>, w: int)
    requires
        w >= 1,
        data.len() * w <= carrier.len(),
    ensures
        freq_embed(carrier, data, w).len() == carrier.len(),
        forall|k: int|
            data.len() * w <= k < carrier.len() ==> #[trigger] freq_embed(carrier, data, w)[k]
                == carrier[k],
        forall|i: int|
            0 <= i < data.len() ==> #[trigger] freq_window_of(freq_embed(carrier, data, w), w, i)
                == freq_window(data[i], w),
{
    let e = freq_embed(carrier, data, w);
    assert forall|i: int| 0 <= i < data.len() implies #[trigger] freq_window_of(e, w, i)
        == freq_window(data[i], w) by {
        lemma_next_block(i, w);
        lemma_mul_le(i + 1, data.len() as int, w);
        assert forall|m: int| 0 <= m < w implies #[trigger] freq_window_of(e, w, i)[m]
            == freq_window(data[i], w)[m] by {
            lemma_block_position(i, w, m);
        }
        assert(freq_window_of(e, w, i) =~= freq_window(data[i], w));
    }
}

/// Decoding what was embedded reads, for each byte, the value of that byte's
/// window; the carrier keeps its length.
pub proof fn lemma_freq_roundtrip(carrier: Seq<Trit>, data: Seq<u8>, w: int)
    requires
        w >= 1,
        data.len() * w <= carrier.len(),
    ensures
        freq_embed(carrier, data, w).len() == carrier.len(),
        freq_decoded(freq_embed(carrier, data, w), w, data.len() as int) == Seq::new(
            data.len(),
            |i: int| freq_value(freq_window(data[i], w)),
        ),
{
    let e = freq_embed(carrier, data, w);
    let n = data.len() as int;
    assert(n <= carrier.len() as int / w) by (nonlinear_arith)
        requires
            w >= 1,
            n * w <= carrier.len(),
            n >= 0,
    ;
    assert forall|i: int| 0 <= i < n implies #[trigger] freq_window_of(e, w, i) == freq_window(
        data[i],
        w,
    ) by {
        lemma_next_block(i, w);
        lemma_mul_le(i + 1, n, w);
        assert forall|m: int| 0 <= m < w implies #[trigger] freq_window_of(e, w, i)[m] == freq_window(
            data[i],
            w,
        )[m] by {
            lemma_block_position(i, w, m);
        }
        assert(freq_window_of(e, w, i) =~= freq_window(data[i], w));
    }
    assert(freq_decoded(e, w, n) =~= Seq::new(
        data.len(),
        |i: int| freq_value(freq_window(data[i], w)),
    ));
}

} // verus!
