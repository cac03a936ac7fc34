use vstd::prelude::*;

verus! {

use vstd::arithmetic::div_mod::lemma_fundamental_div_mod;
use vstd::arithmetic::mul::lemma_mul_inequality;

/// Splits the span `[start, max]` into exactly `breaks` contiguous,
/// non-overlapping, gap-free ranges `(lo, hi)` whose union is the whole
/// span: the first range begins at `start`, each range begins where the
/// previous one ended, and the last range ends at `max`, absorbing any
/// remainder of the integer division.
pub fn split_range(start: u64, max: u64, breaks: u64) -> (out: Vec<(u64, u64)>)
    requires
        breaks >= 1,
        start <= max,
    ensures
        out@.len() == breaks,
        out@[0].0 == start,
        out@[breaks - 1].1 == max,
        forall|i: int| 0 <= i < breaks ==> (#[trigger] out@[i]).0 <= out@[i].1,
        forall|i: int| 0 <= i < breaks - 1 ==> (#[trigger] out@[i]).1 == out@[i + 1].0,
        forall|i: int|
            0 <= i < breaks - 1 ==> (#[trigger] out@[i]).1 - out@[i].0 == (max - start) as int
                / breaks as int,
{
    let diff = (max - start) / breaks;
    proof {
        lemma_fundamental_div_mod((max - start) as int, breaks as int);
        assert(breaks * diff <= max - start);
    }
    let mut out: Vec<(u64, u64)> = Vec::new();
    let mut s = start;
    let mut i: u64 = 0;
    while i < breaks
        invariant
            breaks >= 1,
            start <= max,
            i <= breaks,
            breaks * diff <= max - start,
            out@.len() == i,
            i < breaks ==> s == start + i * diff,
            i == breaks ==> s == max,
            i > 0 ==> out@[0].0 == start,
            i > 0 ==> out@[i - 1].1 == s,
            forall|j: int| 0 <= j < i ==> (#[trigger] out@[j]).0 <= out@[j].1,
            forall|j: int| 0 <= j < i - 1 ==> (#[trigger] out@[j]).1 == out@[j + 1].0,
            forall|j: int|
                0 <= j < i && j < breaks - 1 ==> (#[trigger] out@[j]).1 - out@[j].0 == diff,
            diff == (max - start) as int / breaks as int,
        decreases breaks - i,
    {
        proof {
            lemma_mul_inequality(i as int, breaks as int, diff as int);
            lemma_mul_inequality((i + 1) as int, breaks as int, diff as int);
            assert((i + 1) * diff == i * diff + diff) by (nonlinear_arith);
        }
        let e = if i == breaks - 1 { max } else { s + diff };
        out.push((s, e));
        s = e;
        i = i + 1;
    }
    out
}

} // verus!
