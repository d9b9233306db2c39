use vstd::arithmetic::div_mod::{lemma_breakdown, lemma_small_mod};
use vstd::arithmetic::power::{lemma_pow_positive, pow};
use vstd::prelude::*;
use vstd::slice::slice_to_vec;

use crate::sequence::TernarySequence;
use crate::trit::{digit_trit, Trit};

verus! {

/// The lowest `len` base-3 digits of `v` as trits, most significant first.
pub open spec fn base3_trits(v: nat, len: nat) -> Seq<Trit>
    decreases len,
{
    if len == 0 {
        Seq::empty()
    } else {
        base3_trits(v / 3, (len - 1) as nat).push(digit_trit((v % 3) as int))
    }
}

/// The number whose base-3 digits, most significant first, are the digits of `s`.
pub open spec fn base3_value(s: Seq<Trit>) -> nat
    decreases s.len(),
{
    if s.len() == 0 {
        0
    } else {
        base3_value(s.drop_last()) * 3 + s.last().digit_value()
    }
}

/// The trits of a message: each character's code as `len` base-3 digits.
pub open spec fn pattern_encode(chars: Seq<char>, len: nat) -> Seq<Trit>
    decreases chars.len(),
{
    if chars.len() == 0 {
        Seq::empty()
    } else {
        base3_trits(chars[0] as nat, len) + pattern_encode(chars.drop_first(), len)
    }
}

/// The chunk of `len` trits (or fewer, at the end) that starts at `start`.
pub open spec fn pattern_chunk(trits: Seq<Trit>, len: int, start: int) -> Seq<Trit> {
    trits.subrange(start, if start + len < trits.len() { start + len } else { trits.len() as int })
}

/// The characters a chunk reads as: the character whose code is the chunk's
/// base-3 value, or nothing when that value is no character code.
pub open spec fn chunk_chars(chunk: Seq<Trit>) -> Seq<char> {
    let code = base3_value(chunk);
    if code <= u32::MAX && is_char_code(code as u32) {
        seq![(code as u32) as char]
    } else {
        Seq::empty()
    }
}

/// The characters read from the chunks of `trits` from `start` on.
pub open spec fn pattern_decode_from(trits: Seq<Trit>, len: int, start: int) -> Seq<char>
    decreases trits.len() + len - start,
{
    if start >= trits.len() || len <= 0 || start < 0 {
        Seq::empty()
    } else {
        chunk_chars(pattern_chunk(trits, len, start)) + pattern_decode_from(trits, len, start + len)
    }
}

/// The characters read from all chunks of `len` trits of `trits`.
pub open spec fn pattern_decode(trits: Seq<Trit>, len: int) -> Seq<char> {
    pattern_decode_from(trits, len, 0)
}

/// Whether every chunk of `trits` from `start` on has a base-3 value that fits a `u32`.
pub open spec fn pattern_fits_from(trits: Seq<Trit>, len: int, start: int) -> bool
    decreases trits.len() + len - start,
{
    if start >= trits.len() || len <= 0 || start < 0 {
        true
    } else {
        base3_value(pattern_chunk(trits, len, start)) <= u32::MAX && pattern_fits_from(
            trits,
            len,
            start + len,
        )
    }
}

/// Whether every chunk of `len` trits of `trits` has a base-3 value that fits a `u32`.
pub open spec fn pattern_fits(trits: Seq<Trit>, len: int) -> bool {
    pattern_fits_from(trits, len, 0)
}

/// The carrier after writing `vals[i]` at `positions[i]` for each `i < count`
/// in order; positions past the end are skipped, and a later write to the
/// same position wins.
pub open spec fn stego_write(
    carrier: Seq<Trit>,
    positions: Seq<usize>,
    vals: Seq<Trit>,
    count: int,
) -> Seq<Trit>
    decreases count,
{
    if count <= 0 {
        carrier
    } else {
        let prev = stego_write(carrier, positions, vals, count - 1);
        if positions[count - 1] < prev.len() {
            prev.update(positions[count - 1] as int, vals[count - 1])
        } else {
            prev
        }
    }
}

/// The trits of `carrier` at `positions`, in order, skipping positions past the end.
pub open spec fn stego_extract(carrier: Seq<Trit>, positions: Seq<usize>) -> Seq<Trit>
    decreases positions.len(),
{
    if positions.len() == 0 {
        Seq::empty()
    } else {
        let prev = stego_extract(carrier, positions.drop_last());
        if positions.last() < carrier.len() {
            prev.push(carrier[positions.last() as int])
        } else {
            prev
        }
    }
}

/// The first `n` elements of `s`, or all of `s` when it is shorter.
pub open spec fn take_at_most(s: Seq<Trit>, n: int) -> Seq<Trit> {
    if n < s.len() {
        s.take(n)
    } else {
        s
    }
}

/// Whether `code` is a Unicode scalar value, i.e. a `char`.
pub open spec fn is_char_code(code: u32) -> bool {
    code <= 0xD7FF || (0xE000 <= code && code <= 0x10FFFF)
}

/// The `char` for `code` (`char::from_u32`). Its documentation says it
/// returns the `char` with that code when `code` is a Unicode scalar value
/// (at most 0x10FFFF and not a surrogate), and `None` otherwise.
#[verifier::external_body]
fn char_from_u32(code: u32) -> (r: Option<char>)
    ensures
        r == (if is_char_code(code) { Some(code as char) } else { None::<char> }),
{
    char::from_u32(code)
}

/// Appends a `char` to a `String` (`String::push`, which its documentation
/// says appends the given char to the end of the string).
#[verifier::external_body]
fn string_push(s: &mut String, c: char)
    ensures
        final(s)@ == old(s)@.push(c),
{
    s.push(c);
}

/// The code of a character.
fn char_code(c: char) -> (r: u32)
    ensures
        r as int == c as int,
{
    c as u32
}

proof fn lemma_base3_value_prefix_le(s: Seq<Trit>, i: int)
    requires
        0 <= i <= s.len(),
    ensures
        base3_value(s.take(i)) <= base3_value(s),
    decreases s.len() - i,
{
    if i < s.len() {
        lemma_base3_value_prefix_le(s, i + 1);
        assert(s.take(i + 1).drop_last() =~= s.take(i));
    } else {
        assert(s.take(i) =~= s);
    }
}

/// Encode messages as specific ternary patterns
pub struct PatternEncoder {
    /// Pattern length per character
    pattern_len: usize,
}

impl PatternEncoder {
    #[verifier::type_invariant]
    spec fn pattern_len_at_least_two(self) -> bool {
        self.pattern_len >= 2
    }

    /// The number of trits per character (at least 2).
    pub closed spec fn pattern_len(&self) -> usize {
        self.pattern_len
    }

    pub fn new(pattern_len: usize) -> (r: Self)
        ensures
            r.pattern_len() == (if pattern_len < 2 { 2 } else { pattern_len }),
    {
        PatternEncoder { pattern_len: pattern_len.max(2) }
    }

    /// The lowest `len` base-3 digits of `value`, most significant first.
    fn to_base3(value: u32, len: usize) -> (r: Vec<Trit>)
        ensures
            r@ == base3_trits(value as nat, len as nat),
    {
        let mut digits: Vec<Trit> = Vec::new();
        for _i in 0..len
            invariant
                digits@.len() == _i,
        {
            digits.push(Trit::Neg);
        }
        // Fill from the least significant digit (the last trit) upwards.
        let mut rest: u32 = value;
        let mut k: usize = len;
        while k > 0
            invariant
                k <= len,
                digits@.len() == len,
                base3_trits(value as nat, len as nat) == base3_trits(rest as nat, k as nat)
                    + digits@.subrange(k as int, len as int),
            decreases k,
        {
            let d = Trit::from_digit((rest % 3) as u8).unwrap_or(Trit::Neg);
            let ghost old_digits = digits@;
            digits.set(k - 1, d);
            proof {
                assert(digits@.subrange(k - 1, len as int) =~= seq![digit_trit((rest % 3) as int)]
                    + old_digits.subrange(k as int, len as int));
                assert(base3_trits(rest as nat, k as nat) == base3_trits(
                    (rest / 3) as nat,
                    (k - 1) as nat,
                ).push(digit_trit((rest % 3) as int)));
                assert(base3_trits((rest / 3) as nat, (k - 1) as nat).push(
                    digit_trit((rest % 3) as int),
                ) + old_digits.subrange(k as int, len as int) =~= base3_trits(
                    (rest / 3) as nat,
                    (k - 1) as nat,
                ) + digits@.subrange(k - 1, len as int));
            }
            rest = rest / 3;
            k = k - 1;
        }
        assert(digits@.subrange(0, len as int) =~= digits@);
        digits
    }

    /// The number whose base-3 digits, most significant first, are `trits`.
    fn from_base3(trits: &[Trit]) -> (r: u32)
        requires
            base3_value(trits@) <= u32::MAX,
        ensures
            r == base3_value(trits@),
    {
        let mut value: u32 = 0;
        for i in 0..trits.len()
            invariant
                base3_value(trits@) <= u32::MAX,
                value == base3_value(trits@.take(i as int)),
        {
            proof {
                assert(trits@.take(i + 1).drop_last() =~= trits@.take(i as int));
                lemma_base3_value_prefix_le(trits@, i + 1);
            }
            value = value * 3 + trits[i].digit() as u32;
        }
        assert(trits@.take(trits@.len() as int) =~= trits@);
        value
    }

    /// Encode a string message as ternary patterns
    pub fn encode(&self, message: &str) -> (r: TernarySequence)
        ensures
            r@ == pattern_encode(message@, self.pattern_len() as nat),
            r@.len() == message@.len() * self.pattern_len(),
    {
        let ghost m = message@;
        let ghost l = self.pattern_len as nat;
        let mut trits: Vec<Trit> = Vec::new();
        assert(m.skip(0) =~= m);
        for ch in it: message.chars()
            invariant
                it.seq() == m,
                m == message@,
                l == self.pattern_len(),
                pattern_encode(m, l) == trits@ + pattern_encode(m.skip(it.index() as int), l),
        {
            let code = char_code(ch);
            // Convert character code to balanced ternary
            let mut ternary = Self::to_base3(code, self.pattern_len);
            let ghost before = trits@;
            let ghost idx = it.index() as int;
            proof {
                let rest = m.skip(idx);
                assert(ch == m[it.index() as int]);
                assert(code as nat == ch as nat);
                assert(rest[0] == ch);
                assert(rest.drop_first() =~= m.skip(it.index() + 1));
                assert(pattern_encode(rest, l) == ternary@ + pattern_encode(rest.drop_first(), l));
            }
            trits.append(&mut ternary);
            proof {
                let rest = m.skip(idx);
                assert(before + (base3_trits(ch as nat, l) + pattern_encode(rest.drop_first(), l))
                    =~= (before + base3_trits(ch as nat, l)) + pattern_encode(rest.drop_first(), l));
            }
        }
        assert(m.skip(m.len() as int) =~= Seq::<char>::empty());
        proof {
            lemma_pattern_encode_len(m, l);
        }
        TernarySequence::new(trits)
    }

    /// Decode ternary patterns back to a string
    pub fn decode(&self, encoded: &TernarySequence) -> (r: String)
        requires
            pattern_fits(encoded@, self.pattern_len() as int),
        ensures
            r@ == pattern_decode(encoded@, self.pattern_len() as int),
    {
        proof {
            use_type_invariant(self);
        }
        let l = self.pattern_len;
        let trits = encoded.trits();
        let total = trits.len();
        let ghost t = encoded@;
        let mut result = String::new();
        let mut start: usize = 0;
        while start < total
            invariant
                l == self.pattern_len(),
                l >= 2,
                trits@ == t,
                total == t.len(),
                start <= total,
                pattern_fits_from(t, l as int, start as int),
                pattern_decode(t, l as int) == result@ + pattern_decode_from(t, l as int, start as int),
            decreases total - start,
        {
            let end = if total - start <= l {
                total
            } else {
                start + l
            };
            let chunk = &trits[start..end];
            assert(chunk@ == pattern_chunk(t, l as int, start as int));
            let code = Self::from_base3(chunk);
            let ghost before = result@;
            match char_from_u32(code) {
                Some(ch) => string_push(&mut result, ch),
                None => {},
            }
            proof {
                assert(result@ == before + chunk_chars(chunk@));
                assert(pattern_decode_from(t, l as int, end as int) == pattern_decode_from(
                    t,
                    l as int,
                    start + l,
                ));
                assert(pattern_fits_from(t, l as int, end as int) == pattern_fits_from(
                    t,
                    l as int,
                    start + l,
                ));
                assert(before + (chunk_chars(chunk@) + pattern_decode_from(t, l as int, start + l))
                    =~= (before + chunk_chars(chunk@)) + pattern_decode_from(t, l as int, start + l));
            }
            start = end;
        }
        assert(result@ + Seq::<char>::empty() =~= result@);
        result
    }

    /// Hide encoded message within a carrier by replacing specific positions
    pub fn stego_encode(
        &self,
        carrier: &TernarySequence,
        message: &str,
        positions: &[usize],
    ) -> (r: Option<TernarySequence>)
        ensures
            r is None <==> pattern_encode(message@, self.pattern_len() as nat).len()
                > positions@.len(),
            r matches Some(out) ==> out@ == stego_write(
                carrier@,
                positions@,
                pattern_encode(message@, self.pattern_len() as nat),
                pattern_encode(message@, self.pattern_len() as nat).len() as int,
            ),
            r matches Some(out) ==> out@.len() == carrier@.len(),
            r matches Some(out) ==> forall|k: int|
                0 <= k < carrier@.len() && (forall|i: int|
                    0 <= i < message@.len() * self.pattern_len() ==> #[trigger] positions@[i] != k)
                    ==> #[trigger] out@[k] == carrier@[k],
            r matches Some(out) ==> forall|i: int|
                0 <= i < message@.len() * self.pattern_len() && #[trigger] positions@[i]
                    < carrier@.len() && (forall|j: int|
                    i < j < message@.len() * self.pattern_len() ==> positions@[j] != positions@[i])
                    ==> out@[positions@[i] as int] == pattern_encode(
                    message@,
                    self.pattern_len() as nat,
                )[i],
    {
        let encoded = self.encode(message);
        if encoded.len() > positions.len() {
            return None;
        }
        let mut result = TernarySequence::new(slice_to_vec(carrier.trits()));
        let ghost enc = encoded@;
        let mut i: usize = 0;
        while i < positions.len()
            invariant_except_break
                i <= enc.len(),
                enc == encoded@,
                enc.len() <= positions@.len(),
                result@ == stego_write(carrier@, positions@, enc, i as int),
            ensures
                result@ == stego_write(carrier@, positions@, enc, enc.len() as int),
            decreases positions.len() - i,
        {
            if i >= encoded.len() {
                break;
            }
            let pos = positions[i];
            if pos < result.len() {
                match encoded.get(i) {
                    Some(t) => result.set(pos, t),
                    None => {
                        return None;
                    },
                }
            }
            i = i + 1;
        }
        proof {
            lemma_pattern_encode_len(message@, self.pattern_len as nat);
            lemma_stego_write_shape(carrier@, positions@, enc, enc.len() as int);
        }
        Some(result)
    }

    /// Extract a hidden message from specific positions
    pub fn stego_decode(
        &self,
        carrier: &TernarySequence,
        positions: &[usize],
        char_count: usize,
    ) -> (r: Option<String>)
        requires
            char_count * self.pattern_len() <= usize::MAX,
            pattern_fits(
                take_at_most(
                    stego_extract(carrier@, positions@),
                    char_count * self.pattern_len(),
                ),
                self.pattern_len() as int,
            ),
        ensures
            r matches Some(s) && s@ == pattern_decode(
                take_at_most(
                    stego_extract(carrier@, positions@),
                    char_count * self.pattern_len(),
                ),
                self.pattern_len() as int,
            ),
    {
        let mut trits: Vec<Trit> = Vec::new();
        for i in 0..positions.len()
            invariant
                trits@ == stego_extract(carrier@, positions@.take(i as int)),
        {
            assert(positions@.take(i + 1).drop_last() =~= positions@.take(i as int));
            let pos = positions[i];
            if pos < carrier.len() {
                match carrier.get(pos) {
                    Some(t) => trits.push(t),
                    None => {
                        return None;
                    },
                }
            }
        }
        assert(positions@.take(positions@.len() as int) =~= positions@);
        // Truncate to expected length
        let needed = char_count * self.pattern_len;
        let ghost all = trits@;
        trits.truncate(needed);
        assert(trits@ =~= take_at_most(all, needed as int));
        Some(self.decode(&TernarySequence::new(trits)))
    }
}

/// Whether a character's code is a Unicode scalar value (true of every `char`).
pub open spec fn is_scalar_char(c: char) -> bool {
    0 <= c as int && (c as int <= 0xD7FF || (0xE000 <= c as int && c as int <= 0x10FFFF))
}

/// Reading back the base-3 digits of `v` gives `v` modulo `3^len`.
pub proof fn lemma_base3_roundtrip(v: nat, len: nat)
    ensures
        base3_trits(v, len).len() == len,
        base3_value(base3_trits(v, len)) == (v as int) % pow(3, len),
    decreases len,
{
    reveal(pow);
    if len == 0 {
        assert(v % 1 == 0);
    } else {
        let t = base3_trits(v / 3, (len - 1) as nat);
        let d = digit_trit((v % 3) as int);
        lemma_base3_roundtrip(v / 3, (len - 1) as nat);
        assert(t.push(d).drop_last() =~= t);
        lemma_pow_positive(3, (len - 1) as nat);
        lemma_breakdown(v as int, 3, pow(3, (len - 1) as nat));
    }
}

/// Every character's pattern has `len` trits.
pub proof fn lemma_pattern_encode_len(chars: Seq<char>, len: nat)
    ensures
        pattern_encode(chars, len).len() == chars.len() * len,
    decreases chars.len(),
{
    if chars.len() > 0 {
        lemma_pattern_encode_len(chars.drop_first(), len);
        lemma_base3_roundtrip(chars[0] as nat, len);
        assert(chars.len() * len == len + (chars.len() - 1) * len) by (nonlinear_arith);
    }
}

/// Decoding chunks that start `a.len()` trits into `a + b` reads the chunks of `b`.
proof fn lemma_decode_shift(a: Seq<Trit>, b: Seq<Trit>, len: int, start: int)
    requires
        len >= 1,
        start >= 0,
    ensures
        pattern_decode_from(a + b, len, a.len() + start) == pattern_decode_from(b, len, start),
        pattern_fits_from(a + b, len, a.len() + start) == pattern_fits_from(b, len, start),
    decreases b.len() + len - start,
{
    if start < b.len() {
        lemma_decode_shift(a, b, len, start + len);
        assert(pattern_chunk(a + b, len, a.len() + start) =~= pattern_chunk(b, len, start));
        assert(a.len() + start + len == a.len() + (start + len));
    }
}

/// With `len` trits per character and every character code below `3^len`,
/// decoding the pattern of a message gives back the message (and every chunk fits a `u32`).
pub proof fn lemma_pattern_roundtrip(chars: Seq<char>, len: nat)
    requires
        len >= 1,
        forall|i: int| 0 <= i < chars.len() ==> #[trigger] is_scalar_char(chars[i]),
        forall|i: int| 0 <= i < chars.len() ==> (#[trigger] chars[i]) as int <= pow(3, len) - 1,
    ensures
        pattern_fits(pattern_encode(chars, len), len as int),
        pattern_decode(pattern_encode(chars, len), len as int) == chars,
    decreases chars.len(),
{
    let e = pattern_encode(chars, len);
    if chars.len() == 0 {
        assert(pattern_decode(e, len as int) =~= chars);
    } else {
        let c = chars[0];
        assert(is_scalar_char(chars[0]));
        assert(chars[0] as int <= pow(3, len) - 1);
        let rest = chars.drop_first();
        assert(forall|i: int| 0 <= i < rest.len() ==> rest[i] == chars[i + 1]);
        lemma_pattern_roundtrip(rest, len);
        let a = base3_trits(c as nat, len);
        let b = pattern_encode(rest, len);
        lemma_base3_roundtrip(c as nat, len);
        lemma_pow_positive(3, len);
        lemma_small_mod(c as nat, pow(3, len) as nat);
        lemma_pattern_encode_len(rest, len);
        assert(pattern_chunk(a + b, len as int, 0) =~= a);
        let code = (c as int) as u32;
        assert(code as char == c);
        assert(chunk_chars(a) =~= seq![c]);
        lemma_decode_shift(a, b, len as int, 0);
        assert(a.len() + 0 == len);
        assert(pattern_decode(e, len as int) =~= seq![c] + pattern_decode(b, len as int));
        assert(seq![c] + rest =~= chars);
    }
}

/// Stego writing keeps the carrier's length, leaves every position that no
/// write targets as it was, and leaves `vals[i]` at `positions[i]` when that
/// position is in range and no later write targets it.
pub proof fn lemma_stego_write_shape(
    carrier: Seq<Trit>,
    positions: Seq<usize>,
    vals: Seq<Trit>,
    count: int,
)
    requires
        count <= positions.len(),
    ensures
        stego_write(carrier, positions, vals, count).len() == carrier.len(),
        forall|k: int|
            0 <= k < carrier.len() && (forall|i: int| 0 <= i < count ==> #[trigger] positions[i] != k)
                ==> #[trigger] stego_write(carrier, positions, vals, count)[k] == carrier[k],
        forall|i: int|
            0 <= i < count && #[trigger] positions[i] < carrier.len() && (forall|j: int|
                i < j < count ==> positions[j] != positions[i]) ==> stego_write(
                carrier,
                positions,
                vals,
                count,
            )[positions[i] as int] == vals[i],
    decreases count,
{
    lemma_stego_write_len(carrier, positions, vals, count);
    if count > 0 {
        lemma_stego_write_shape(carrier, positions, vals, count - 1);
        lemma_stego_write_len(carrier, positions, vals, count - 1);
        let prev = stego_write(carrier, positions, vals, count - 1);
        assert forall|k: int|
            0 <= k < carrier.len() && (forall|i: int| 0 <= i < count ==> #[trigger] positions[i] != k)
                implies #[trigger] stego_write(carrier, positions, vals, count)[k] == carrier[k] by {
            assert(positions[count - 1] != k);
            assert forall|i: int| 0 <= i < count - 1 implies #[trigger] positions[i] != k by {
                assert(positions[i] != k);
            }
        }
        assert forall|i: int|
            0 <= i < count && #[trigger] positions[i] < carrier.len() && (forall|j: int|
                i < j < count ==> positions[j] != positions[i]) implies stego_write(
            carrier,
            positions,
            vals,
            count,
        )[positions[i] as int] == vals[i] by {
            if i < count - 1 {
                assert(positions[count - 1] != positions[i]);
                assert forall|j: int| i < j < count - 1 implies positions[j] != positions[i] by {
                    assert(positions[j] != positions[i]);
                }
            }
        }
    }
}

/// The carrier keeps its length under stego writes.
proof fn lemma_stego_write_len(carrier: Seq<Trit>, positions: Seq<usize>, vals: Seq<Trit>, count: int)
    ensures
        stego_write(carrier, positions, vals, count).len() == carrier.len(),
    decreases count,
{
    if count > 0 {
        lemma_stego_write_len(carrier, positions, vals, count - 1);
    }
}

/// After writing at distinct in-range positions, each position holds its value.
proof fn lemma_stego_write_at(carrier: Seq<Trit>, positions: Seq<usize>, vals: Seq<Trit>, count: int, i: int)
    requires
        0 <= i < count <= positions.len(),
        forall|j: int| 0 <= j < count ==> #[trigger] positions[j] < carrier.len(),
        forall|j: int, k: int| 0 <= j < k < count ==> positions[j] != positions[k],
    ensures
        stego_write(carrier, positions, vals, count)[positions[i] as int] == vals[i],
    decreases count,
{
    lemma_stego_write_len(carrier, positions, vals, count - 1);
    if i < count - 1 {
        lemma_stego_write_at(carrier, positions, vals, count - 1, i);
        assert(positions[i] != positions[count - 1]);
    }
}

/// Extracting at in-range positions reads the carrier there, in order.
proof fn lemma_stego_extract_in_range(carrier: Seq<Trit>, positions: Seq<usize>)
    requires
        forall|j: int| 0 <= j < positions.len() ==> #[trigger] positions[j] < carrier.len(),
    ensures
        stego_extract(carrier, positions) == Seq::new(
            positions.len(),
            |j: int| carrier[positions[j] as int],
        ),
    decreases positions.len(),
{
    if positions.len() > 0 {
        let p = positions.drop_last();
        assert(forall|j: int| 0 <= j < p.len() ==> p[j] == positions[j]);
        lemma_stego_extract_in_range(carrier, p);
        assert(stego_extract(carrier, positions) =~= Seq::new(
            positions.len(),
            |j: int| carrier[positions[j] as int],
        ));
    }
}

/// Extracting at a prefix of the positions gives a prefix of the extraction.
proof fn lemma_stego_extract_prefix(carrier: Seq<Trit>, positions: Seq<usize>, k: int)
    requires
        0 <= k <= positions.len(),
    ensures
        stego_extract(carrier, positions.take(k)).len() <= stego_extract(carrier, positions).len(),
        stego_extract(carrier, positions).take(
            stego_extract(carrier, positions.take(k)).len() as int,
        ) == stego_extract(carrier, positions.take(k)),
    decreases positions.len(),
{
    if k == positions.len() {
        assert(positions.take(k) =~= positions);
        let x = stego_extract(carrier, positions);
        assert(x.take(x.len() as int) =~= x);
    } else {
        let p = positions.drop_last();
        lemma_stego_extract_prefix(carrier, p, k);
        assert(p.take(k) =~= positions.take(k));
        let x = stego_extract(carrier, p);
        let y = stego_extract(carrier, p.take(k));
        assert(stego_extract(carrier, positions).take(y.len() as int) =~= x.take(y.len() as int));
    }
}

/// Hiding a message at distinct in-range positions and extracting it again
/// with the message's length gives back the message, when each character
/// code fits in `len` trits.
pub proof fn lemma_stego_roundtrip(
    carrier: Seq<Trit>,
    chars: Seq<char>,
    positions: Seq<usize>,
    len: nat,
)
    requires
        len >= 1,
        forall|i: int| 0 <= i < chars.len() ==> #[trigger] is_scalar_char(chars[i]),
        forall|i: int| 0 <= i < chars.len() ==> (#[trigger] chars[i]) as int <= pow(3, len) - 1,
        chars.len() * len <= positions.len(),
        forall|j: int| 0 <= j < chars.len() * len ==> #[trigger] positions[j] < carrier.len(),
        forall|j: int, k: int| 0 <= j < k < chars.len() * len ==> positions[j] != positions[k],
    ensures
        ({
            let e = pattern_encode(chars, len);
            let hidden = stego_write(carrier, positions, e, e.len() as int);
            let found = take_at_most(stego_extract(hidden, positions), (chars.len() * len) as int);
            &&& hidden.len() == carrier.len()
            &&& pattern_fits(found, len as int)
            &&& pattern_decode(found, len as int) == chars
        }),
{
    let e = pattern_encode(chars, len);
    let n = e.len() as int;
    lemma_pattern_encode_len(chars, len);
    let hidden = stego_write(carrier, positions, e, n);
    lemma_stego_write_len(carrier, positions, e, n);
    let first = positions.take(n);
    assert forall|j: int| 0 <= j < first.len() implies #[trigger] first[j] < hidden.len() by {
        assert(first[j] == positions[j]);
    }
    lemma_stego_extract_in_range(hidden, first);
    lemma_stego_extract_prefix(hidden, positions, n);
    assert forall|j: int| 0 <= j < n implies #[trigger] hidden[first[j] as int] == e[j] by {
        assert(first[j] == positions[j]);
        lemma_stego_write_at(carrier, positions, e, n, j);
    }
    let all = stego_extract(hidden, positions);
    let y = stego_extract(hidden, first);
    assert(y.len() == n);
    assert(all.take(n) == y);
    assert(y =~= e);
    if n == all.len() {
        assert(all.take(n) =~= all);
    }
    assert(take_at_most(all, n) =~= e);
    lemma_pattern_roundtrip(chars, len);
}

} // verus!
