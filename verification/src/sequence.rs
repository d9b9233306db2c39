use vstd::prelude::*;

use crate::trit::{trit_of_i8, Trit};

verus! {

/// The trits of `values` that are -1, 0 or +1, in order; other values are dropped.
pub open spec fn trits_of_values(values: Seq<i8>) -> Seq<Trit>
    decreases values.len(),
{
    if values.len() == 0 {
        Seq::empty()
    } else {
        let rest = trits_of_values(values.drop_last());
        match trit_of_i8(values.last() as int) {
            Some(t) => rest.push(t),
            None => rest,
        }
    }
}

/// Reading values keeps at most as many trits as there are values; when every
/// value is -1, 0 or +1, it keeps them all, in order, each with its value.
pub proof fn lemma_trits_of_values(values: Seq<i8>)
    ensures
        trits_of_values(values).len() <= values.len(),
        (forall|i: int| 0 <= i < values.len() ==> -1 <= #[trigger] values[i] <= 1) ==> trits_of_values(
            values,
        ).len() == values.len() && forall|i: int|
            0 <= i < values.len() ==> (#[trigger] trits_of_values(values)[i]).value() == values[i],
    decreases values.len(),
{
    if values.len() > 0 {
        let p = values.drop_last();
        lemma_trits_of_values(p);
        if forall|i: int| 0 <= i < values.len() ==> -1 <= #[trigger] values[i] <= 1 {
            assert forall|i: int| 0 <= i < p.len() implies -1 <= #[trigger] p[i] <= 1 by {
                assert(p[i] == values[i]);
            }
            let v = values.last();
            assert(-1 <= values[values.len() - 1] <= 1);
            assert forall|i: int| 0 <= i < values.len() implies (#[trigger] trits_of_values(
                values,
            )[i]).value() == values[i] by {
                if i < values.len() - 1 {
                    assert(p[i] == values[i]);
                }
            }
        }
    }
}

/// A ternary strategy sequence
#[derive(Debug, Clone)]
pub struct TernarySequence {
    trits: Vec<Trit>,
}

impl View for TernarySequence {
    type V = Seq<Trit>;

    closed spec fn view(&self) -> Seq<Trit> {
        self.trits@
    }
}

impl TernarySequence {
    pub fn new(trits: Vec<Trit>) -> (r: Self)
        ensures
            r@ == trits@,
    {
        TernarySequence { trits }
    }

    pub fn from_i8(values: &[i8]) -> (r: Self)
        ensures
            r@ == trits_of_values(values@),
            r@.len() <= values@.len(),
            (forall|i: int| 0 <= i < values@.len() ==> -1 <= #[trigger] values@[i] <= 1) ==> r@.len()
                == values@.len() && forall|i: int|
                0 <= i < values@.len() ==> (#[trigger] r@[i]).value() == values@[i],
    {
        let mut trits: Vec<Trit> = Vec::new();
        let mut i: usize = 0;
        while i < values.len()
            invariant
                i <= values.len(),
                trits@ == trits_of_values(values@.take(i as int)),
            decreases values.len() - i,
        {
            assert(values@.take(i + 1).drop_last() == values@.take(i as int));
            match Trit::from_i8(values[i]) {
                Some(t) => trits.push(t),
                None => {},
            }
            i = i + 1;
        }
        assert(values@.take(values.len() as int) == values@);
        proof {
            lemma_trits_of_values(values@);
        }
        TernarySequence { trits }
    }

    pub fn len(&self) -> (r: usize)
        ensures
            r == self@.len(),
    {
        self.trits.len()
    }

    pub fn is_empty(&self) -> (r: bool)
        ensures
            r == (self@.len() == 0),
    {
        self.trits.len() == 0
    }

    pub fn trits(&self) -> (r: &[Trit])
        ensures
            r@ == self@,
    {
        self.trits.as_slice()
    }

    pub fn push(&mut self, trit: Trit)
        ensures
            final(self)@ == old(self)@.push(trit),
    {
        self.trits.push(trit);
    }

    pub fn get(&self, idx: usize) -> (r: Option<Trit>)
        ensures
            r == (if idx < self@.len() { Some(self@[idx as int]) } else { None }),
    {
        if idx < self.trits.len() {
            Some(self.trits[idx])
        } else {
            None
        }
    }

    /// Overwrites the trit at `idx`; an index past the end changes nothing.
    pub fn set(&mut self, idx: usize, trit: Trit)
        ensures
            final(self)@ == (if idx < old(self)@.len() {
                old(self)@.update(idx as int, trit)
            } else {
                old(self)@
            }),
    {
        if idx < self.trits.len() {
            self.trits.set(idx, trit);
        }
    }

    /// Compute capacity for embedding bits
    pub fn bit_capacity(&self, bits_per_trit: usize) -> (r: usize)
        requires
            self@.len() * bits_per_trit <= usize::MAX,
        ensures
            r == self@.len() * bits_per_trit,
    {
        self.trits.len() * bits_per_trit
    }
}

} // verus!
