//! What the edit distance is.

use vstd::prelude::*;
use crate::scoring::{min3, pair_cost, GAP_COST};

verus! {

/// The least total cost of aligning what is left of `first` from position `i`
/// with what is left of `second` from position `j`.
///
/// Once one of the two is used up, every symbol left of the other stays
/// without a partner. Otherwise the first symbols of both are either aligned
/// with each other, or one of them is left without a partner.
pub open spec fn suffix_cost(first: Seq<char>, second: Seq<char>, i: int, j: int) -> int
    recommends
        0 <= i <= first.len(),
        0 <= j <= second.len(),
    decreases first.len() - i + second.len() - j,
{
    if i >= first.len() {
        GAP_COST * (second.len() - j)
    } else if j >= second.len() {
        GAP_COST * (first.len() - i)
    } else {
        min3(
            suffix_cost(first, second, i + 1, j + 1) + pair_cost(first[i], second[j]),
            suffix_cost(first, second, i + 1, j) + GAP_COST,
            suffix_cost(first, second, i, j + 1) + GAP_COST,
        )
    }
}

/// The edit distance between two sequences: the cost of aligning the whole
/// of `first` with the whole of `second` that no global alignment of the two
/// undercuts (`trace::lemma_distance_is_least_cost`).
pub open spec fn edit_distance(first: Seq<char>, second: Seq<char>) -> int {
    suffix_cost(first, second, 0, 0)
}

/// The table of all suffix costs of two sequences: one row for each position
/// `i` of `first`, the position behind its last symbol included, and in each
/// row one cost for each position `j` of `second`, likewise.
pub open spec fn cost_table(first: Seq<char>, second: Seq<char>) -> Seq<Seq<int>> {
    Seq::new(
        first.len() + 1,
        |i: int| Seq::new(second.len() + 1, |j: int| suffix_cost(first, second, i, j)),
    )
}

/// A table of `rows` rows and `cols` columns that holds zero everywhere.
pub open spec fn zero_table(rows: nat, cols: nat) -> Seq<Seq<int>> {
    Seq::new(rows, |i: int| Seq::new(cols, |j: int| 0int))
}

/// The longer of two lengths.
pub open spec fn longer(n: int, m: int) -> int {
    if n >= m {
        n
    } else {
        m
    }
}

/// The shorter of two lengths.
pub open spec fn shorter(n: int, m: int) -> int {
    if n <= m {
        n
    } else {
        m
    }
}

/// No symbol of `first` occurs in `second`.
pub open spec fn no_common_symbol(first: Seq<char>, second: Seq<char>) -> bool {
    forall|p: int, q: int|
        0 <= p < first.len() && 0 <= q < second.len() ==> first[p] != second[q]
}

/// Where `first` is used up the cost is that of inserting the rest of
/// `second`, and where `second` is used up it is that of deleting the rest of
/// `first`. Where both are used up there is nothing left to pay for.
pub proof fn lemma_boundary(first: Seq<char>, second: Seq<char>, i: int, j: int)
    requires
        0 <= i <= first.len(),
        0 <= j <= second.len(),
    ensures
        suffix_cost(first, second, first.len() as int, j) == 2 * (second.len() - j),
        suffix_cost(first, second, i, second.len() as int) == 2 * (first.len() - i),
        suffix_cost(first, second, first.len() as int, second.len() as int) == 0,
{
}

/// The cost table has a row for each position of `first` and a column for
/// each position of `second`. Its last row counts two for each symbol of
/// `second` that is still to come, its last column two for each symbol of
/// `first`, and the cost in its first row and first column is the edit
/// distance.
pub proof fn lemma_cost_table(first: Seq<char>, second: Seq<char>)
    ensures
        cost_table(first, second).len() == first.len() + 1,
        forall|i: int|
            0 <= i <= first.len() ==> (#[trigger] cost_table(first, second)[i]).len()
                == second.len() + 1,
        forall|i: int, j: int|
            0 <= i <= first.len() && 0 <= j <= second.len() ==> #[trigger] cost_table(
                first,
                second,
            )[i][j] == suffix_cost(first, second, i, j),
        forall|j: int|
            0 <= j <= second.len() ==> #[trigger] cost_table(first, second)[first.len() as int][j]
                == 2 * (second.len() - j),
        forall|i: int|
            0 <= i <= first.len() ==> #[trigger] cost_table(first, second)[i][second.len() as int]
                == 2 * (first.len() - i),
        cost_table(first, second)[0][0] == edit_distance(first, second),
{
}

/// A suffix cost is never negative. With `n` symbols left of one sequence and
/// `m` of the other, at least the difference in length has to be made up by
/// gaps, and pairing off what can be paired never costs more than a mismatch
/// per pair.
pub proof fn lemma_suffix_cost_bounds(first: Seq<char>, second: Seq<char>, i: int, j: int)
    requires
        0 <= i <= first.len(),
        0 <= j <= second.len(),
    ensures
        0 <= suffix_cost(first, second, i, j),
        suffix_cost(first, second, i, j) >= 2 * (longer(first.len() - i, second.len() - j)
            - shorter(first.len() - i, second.len() - j)),
        suffix_cost(first, second, i, j) <= 2 * longer(first.len() - i, second.len() - j)
            - shorter(first.len() - i, second.len() - j),
    decreases first.len() - i + second.len() - j,
{
    if i < first.len() && j < second.len() {
        lemma_suffix_cost_bounds(first, second, i + 1, j + 1);
        lemma_suffix_cost_bounds(first, second, i + 1, j);
        lemma_suffix_cost_bounds(first, second, i, j + 1);
    }
}

/// The scoring scheme does not tell the two sequences apart: swapping them
/// leaves every suffix cost as it is.
pub proof fn lemma_suffix_cost_symmetric(first: Seq<char>, second: Seq<char>, i: int, j: int)
    requires
        0 <= i <= first.len(),
        0 <= j <= second.len(),
    ensures
        suffix_cost(first, second, i, j) == suffix_cost(second, first, j, i),
    decreases first.len() - i + second.len() - j,
{
    if i < first.len() && j < second.len() {
        lemma_suffix_cost_symmetric(first, second, i + 1, j + 1);
        lemma_suffix_cost_symmetric(first, second, i + 1, j);
        lemma_suffix_cost_symmetric(first, second, i, j + 1);
    }
}

/// The distance from `first` to `second` is the distance from `second` to
/// `first`.
pub proof fn lemma_distance_symmetric(first: Seq<char>, second: Seq<char>)
    ensures
        edit_distance(first, second) == edit_distance(second, first),
{
    lemma_suffix_cost_symmetric(first, second, 0, 0);
}

/// The distance lies between twice the difference of the two lengths and
/// twice the longer length less the shorter one.
pub proof fn lemma_distance_bounds(first: Seq<char>, second: Seq<char>)
    ensures
        0 <= edit_distance(first, second),
        edit_distance(first, second) >= 2 * (longer(first.len() as int, second.len() as int)
            - shorter(first.len() as int, second.len() as int)),
        edit_distance(first, second) <= 2 * longer(first.len() as int, second.len() as int)
            - shorter(first.len() as int, second.len() as int),
{
    lemma_suffix_cost_bounds(first, second, 0, 0);
}

/// Two sequences that share no symbol are as far apart as their lengths
/// allow: every pair is a mismatch, so each suffix cost reaches its upper
/// bound.
pub proof fn lemma_suffix_cost_no_common_symbol(
    first: Seq<char>,
    second: Seq<char>,
    i: int,
    j: int,
)
    requires
        no_common_symbol(first, second),
        0 <= i <= first.len(),
        0 <= j <= second.len(),
    ensures
        suffix_cost(first, second, i, j) == 2 * longer(first.len() - i, second.len() - j)
            - shorter(first.len() - i, second.len() - j),
    decreases first.len() - i + second.len() - j,
{
    if i < first.len() && j < second.len() {
        lemma_suffix_cost_no_common_symbol(first, second, i + 1, j + 1);
        lemma_suffix_cost_no_common_symbol(first, second, i + 1, j);
        lemma_suffix_cost_no_common_symbol(first, second, i, j + 1);
    }
}

/// The distance between two sequences without a common symbol is twice the
/// longer length less the shorter one.
pub proof fn lemma_distance_no_common_symbol(first: Seq<char>, second: Seq<char>)
    requires
        no_common_symbol(first, second),
    ensures
        edit_distance(first, second) == 2 * longer(first.len() as int, second.len() as int)
            - shorter(first.len() as int, second.len() as int),
{
    lemma_suffix_cost_no_common_symbol(first, second, 0, 0);
}

/// The distance to or from the empty sequence is the cost of inserting or
/// deleting every symbol of the other sequence.
pub proof fn lemma_distance_empty(other: Seq<char>)
    ensures
        edit_distance(Seq::<char>::empty(), other) == 2 * other.len(),
        edit_distance(other, Seq::<char>::empty()) == 2 * other.len(),
{
}

/// Aligning a sequence with itself costs nothing, from any position on.
pub proof fn lemma_suffix_cost_identical(symbols: Seq<char>, i: int)
    requires
        0 <= i <= symbols.len(),
    ensures
        suffix_cost(symbols, symbols, i, i) == 0,
    decreases symbols.len() - i,
{
    if i < symbols.len() {
        lemma_suffix_cost_identical(symbols, i + 1);
        lemma_suffix_cost_bounds(symbols, symbols, i + 1, i);
        lemma_suffix_cost_bounds(symbols, symbols, i, i + 1);
    }
}

/// The distance of a sequence to itself is zero.
pub proof fn lemma_distance_identical(symbols: Seq<char>)
    ensures
        edit_distance(symbols, symbols) == 0,
{
    lemma_suffix_cost_identical(symbols, 0);
}

} // verus!
