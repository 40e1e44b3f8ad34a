//! The scoring scheme.

use vstd::prelude::*;

verus! {

/// Cost of aligning a symbol with an equal one.
pub const MATCH_COST: i32 = 0;

/// Cost of aligning a symbol with a different one.
pub const MISMATCH_COST: i32 = 1;

/// Cost of a symbol that is aligned with nothing: an insertion or a deletion.
pub const GAP_COST: i32 = 2;

/// What it costs to align symbol `a` with symbol `b`.
pub open spec fn pair_cost(a: char, b: char) -> int {
    if a == b {
        MATCH_COST as int
    } else {
        MISMATCH_COST as int
    }
}

/// `m` is the least of `a`, `b` and `c`: below or equal to each, and one of them.
pub open spec fn is_least_of(m: int, a: int, b: int, c: int) -> bool {
    &&& m <= a
    &&& m <= b
    &&& m <= c
    &&& (m == a || m == b || m == c)
}

/// The least of three integers.
pub open spec fn min3(a: int, b: int, c: int) -> int {
    if a <= b && a <= c {
        a
    } else if b <= c {
        b
    } else {
        c
    }
}

/// `min3` is the minimum, and the minimum is unique: whatever is least of
/// `a`, `b` and `c` equals `min3(a, b, c)`.
pub proof fn lemma_min3_is_least(a: int, b: int, c: int)
    ensures
        is_least_of(min3(a, b, c), a, b, c),
        forall|m: int| is_least_of(m, a, b, c) ==> m == min3(a, b, c),
{
}

/// The minimum depends on the three values only, not on the order in which
/// they are given: every rearrangement of the arguments has the same minimum.
pub proof fn lemma_min3_any_order(a: int, b: int, c: int)
    ensures
        min3(a, b, c) == min3(a, c, b),
        min3(a, b, c) == min3(b, a, c),
        min3(a, b, c) == min3(b, c, a),
        min3(a, b, c) == min3(c, a, b),
        min3(a, b, c) == min3(c, b, a),
{
}

/// The cost of a pair does not depend on which symbol comes from which
/// sequence, and is zero exactly for equal symbols.
pub proof fn lemma_pair_cost(a: char, b: char)
    ensures
        pair_cost(a, a) == 0,
        a != b ==> pair_cost(a, b) == 1,
        pair_cost(a, b) == pair_cost(b, a),
        0 <= pair_cost(a, b) <= 1,
{
}

} // verus!
