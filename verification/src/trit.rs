use vstd::prelude::*;

verus! {

/// A ternary value: -1, 0, +1.
#[derive(Debug, Clone, Copy, PartialEq, Eq, Hash, Structural)]
pub enum Trit {
    Neg,
    Zero,
    Pos,
}

impl Trit {
    /// The integer the trit stands for.
    pub open spec fn value(self) -> int {
        match self {
            Trit::Neg => -1,
            Trit::Zero => 0,
            Trit::Pos => 1,
        }
    }

    /// The base-3 digit of the trit: Neg = 0, Zero = 1, Pos = 2.
    pub open spec fn digit_value(self) -> nat {
        match self {
            Trit::Neg => 0,
            Trit::Zero => 1,
            Trit::Pos => 2,
        }
    }

    pub fn to_i8(self) -> (r: i8)
        ensures
            r == self.value(),
    {
        match self {
            Trit::Neg => -1,
            Trit::Zero => 0,
            Trit::Pos => 1,
        }
    }

    pub fn from_i8(v: i8) -> (r: Option<Self>)
        ensures
            r == trit_of_i8(v as int),
    {
        match v {
            -1 => Some(Trit::Neg),
            0 => Some(Trit::Zero),
            1 => Some(Trit::Pos),
            _ => None,
        }
    }

    /// Convert to trit digit (0, 1, 2)
    pub fn digit(self) -> (r: u8)
        ensures
            r == self.digit_value(),
    {
        match self {
            Trit::Neg => 0,
            Trit::Zero => 1,
            Trit::Pos => 2,
        }
    }

    pub fn from_digit(d: u8) -> (r: Option<Self>)
        ensures
            r == trit_of_digit(d as int),
    {
        match d {
            0 => Some(Trit::Neg),
            1 => Some(Trit::Zero),
            2 => Some(Trit::Pos),
            _ => None,
        }
    }
}

/// The trit whose value is `v`, if there is one.
pub open spec fn trit_of_i8(v: int) -> Option<Trit> {
    if v == -1 {
        Some(Trit::Neg)
    } else if v == 0 {
        Some(Trit::Zero)
    } else if v == 1 {
        Some(Trit::Pos)
    } else {
        None
    }
}

/// The trit whose base-3 digit is `d`, if there is one.
pub open spec fn trit_of_digit(d: int) -> Option<Trit> {
    if d == 0 {
        Some(Trit::Neg)
    } else if d == 1 {
        Some(Trit::Zero)
    } else if d == 2 {
        Some(Trit::Pos)
    } else {
        None
    }
}

/// The trit of a digit known to lie in 0..3.
pub open spec fn digit_trit(d: int) -> Trit {
    if d == 0 {
        Trit::Neg
    } else if d == 1 {
        Trit::Zero
    } else {
        Trit::Pos
    }
}

/// The trit with the opposite value.
pub open spec fn negated(t: Trit) -> Trit {
    match t {
        Trit::Neg => Trit::Pos,
        Trit::Zero => Trit::Zero,
        Trit::Pos => Trit::Neg,
    }
}

/// Reading a trit back from its value gives the trit.
pub proof fn lemma_i8_roundtrip(t: Trit)
    ensures
        trit_of_i8(t.value()) == Some(t),
        t.value() == -1 || t.value() == 0 || t.value() == 1,
{
}

/// Reading a trit back from its digit gives the trit.
pub proof fn lemma_digit_roundtrip(t: Trit)
    ensures
        trit_of_digit(t.digit_value() as int) == Some(t),
        digit_trit(t.digit_value() as int) == t,
        t.digit_value() < 3,
{
}

/// How many times `t` occurs in `s`.
pub open spec fn count_of(s: Seq<Trit>, t: Trit) -> nat
    decreases s.len(),
{
    if s.len() == 0 {
        0
    } else {
        count_of(s.drop_last(), t) + (if s.last() == t { 1nat } else { 0nat })
    }
}

/// Counting over a concatenation adds the counts of the parts.
pub proof fn lemma_count_concat(a: Seq<Trit>, b: Seq<Trit>, t: Trit)
    ensures
        count_of(a + b, t) == count_of(a, t) + count_of(b, t),
    decreases b.len(),
{
    if b.len() == 0 {
        assert(a + b =~= a);
    } else {
        lemma_count_concat(a, b.drop_last(), t);
        assert((a + b).drop_last() =~= a + b.drop_last());
    }
}

/// A trit occurs at most as many times as the sequence is long.
pub proof fn lemma_count_bound(s: Seq<Trit>, t: Trit)
    ensures
        count_of(s, t) <= s.len(),
    decreases s.len(),
{
    if s.len() > 0 {
        lemma_count_bound(s.drop_last(), t);
    }
}

/// In a sequence made only of `u`, `u` occurs at every position and no other trit occurs.
pub proof fn lemma_count_constant(s: Seq<Trit>, u: Trit, t: Trit)
    requires
        forall|k: int| 0 <= k < s.len() ==> #[trigger] s[k] == u,
    ensures
        count_of(s, t) == (if t == u { s.len() } else { 0 }),
    decreases s.len(),
{
    if s.len() > 0 {
        lemma_count_constant(s.drop_last(), u, t);
    }
}

/// Count the Neg, Zero and Pos trits of a block.
pub fn count_trits(trits: &[Trit]) -> (r: (usize, usize, usize))
    ensures
        r.0 == count_of(trits@, Trit::Neg),
        r.1 == count_of(trits@, Trit::Zero),
        r.2 == count_of(trits@, Trit::Pos),
{
    let mut neg: usize = 0;
    let mut zero: usize = 0;
    let mut pos: usize = 0;
    for i in 0..trits.len()
        invariant
            neg == count_of(trits@.take(i as int), Trit::Neg),
            zero == count_of(trits@.take(i as int), Trit::Zero),
            pos == count_of(trits@.take(i as int), Trit::Pos),
    {
        proof {
            assert(trits@.take(i + 1).drop_last() =~= trits@.take(i as int));
            lemma_count_bound(trits@.take(i as int), Trit::Neg);
            lemma_count_bound(trits@.take(i as int), Trit::Zero);
            lemma_count_bound(trits@.take(i as int), Trit::Pos);
        }
        match trits[i] {
            Trit::Neg => neg = neg + 1,
            Trit::Zero => zero = zero + 1,
            Trit::Pos => pos = pos + 1,
        }
    }
    assert(trits@.take(trits@.len() as int) =~= trits@);
    (neg, zero, pos)
}

} // verus!
