use vstd::arithmetic::div_mod::lemma_fundamental_div_mod_converse;
use vstd::prelude::*;

verus! {

// Arithmetic facts about carriers cut into consecutive blocks of `c` trits,
// block `q` covering positions `q * c..q * c + c`.

/// The next block starts right after block `q`, and no earlier than `q`.
pub proof fn lemma_next_block(q: int, c: int)
    requires
        0 <= q,
        1 <= c,
    ensures
        (q + 1) * c == q * c + c,
        q <= q * c,
        0 <= q * c,
{
    assert((q + 1) * c == q * c + c && q <= q * c) by (nonlinear_arith)
        requires
            0 <= q,
            1 <= c,
    ;
}

/// Later blocks start later.
pub proof fn lemma_mul_le(a: int, b: int, c: int)
    requires
        0 <= a <= b,
        0 <= c,
    ensures
        a * c <= b * c,
{
    assert(a * c <= b * c) by (nonlinear_arith)
        requires
            0 <= a <= b,
            0 <= c,
    ;
}

/// Position `q * c + m` with `m < c` lies in block `q` at offset `m`.
pub proof fn lemma_block_position(q: int, c: int, m: int)
    requires
        0 <= q,
        0 <= m < c,
    ensures
        (q * c + m) / c == q,
        (q * c + m) % c == m,
{
    lemma_fundamental_div_mod_converse(q * c + m, c, q, m);
}

} // verus!
