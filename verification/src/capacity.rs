use vstd::prelude::*;
use vstd::string::StrSliceExecFns;

verus! {

/// The maximum number of bytes a carrier of `seq_len` trits holds with a
/// technique, by the technique's name; 0 for an unknown name.
pub open spec fn max_bytes_for(seq_len: int, technique: Seq<char>) -> int {
    if technique == "bit"@ {
        seq_len / 8
    } else if technique == "pattern"@ {
        seq_len / 7
    } else if technique == "frequency"@ {
        seq_len / 9
    } else if technique == "statistical"@ {
        seq_len / 32
    } else if technique == "spread"@ {
        seq_len / 64
    } else {
        0
    }
}

/// Whether two strings hold the same characters.
fn str_equals(a: &str, b: &str) -> (r: bool)
    ensures
        r == (a@ == b@),
{
    let n = a.unicode_len();
    if n != b.unicode_len() {
        return false;
    }
    let mut i: usize = 0;
    while i < n
        invariant
            n == a@.len(),
            n == b@.len(),
            i <= n,
            forall|j: int| 0 <= j < i ==> a@[j] == b@[j],
        decreases n - i,
    {
        if a.get_char(i) != b.get_char(i) {
            return false;
        }
        i = i + 1;
    }
    assert(a@ =~= b@);
    true
}

/// Analyze steganographic capacity of a ternary sequence
pub struct CapacityAnalyzer;

impl CapacityAnalyzer {
    /// Calculate maximum embeddable bytes for a given technique
    pub fn max_bytes(seq_len: usize, technique: &str) -> (r: usize)
        ensures
            r == max_bytes_for(seq_len as int, technique@),
    {
        if str_equals(technique, "bit") {
            seq_len / 8
        } else if str_equals(technique, "pattern") {
            seq_len / 7  // ~7 trits per ASCII char
        } else if str_equals(technique, "frequency") {
            seq_len / 9  // window size 9
        } else if str_equals(technique, "statistical") {
            seq_len / (8 * 4)  // block size 4
        } else if str_equals(technique, "spread") {
            seq_len / (8 * 8)  // chip rate 8
        } else {
            0
        }
    }
}

} // verus!
