//! Alignments: what they are, what they cost, and which one is read back from
//! the suffix costs.

use vstd::prelude::*;
use crate::distance::{edit_distance, lemma_suffix_cost_identical, suffix_cost};
use crate::scoring::{pair_cost, GAP_COST};

verus! {

/// One step of an alignment.
#[derive(Clone, Copy, Debug, PartialEq, Eq, Structural)]
pub enum EditOp {
    /// A symbol of the first sequence aligned with a symbol of the second: a
    /// match where the two are equal, a substitution where they differ.
    Pair(char, char),
    /// A symbol of the first sequence that has no partner in the second.
    Delete(char),
    /// A symbol of the second sequence that has no partner in the first.
    Insert(char),
}

impl EditOp {
    /// What this step costs.
    pub open spec fn cost(self) -> int {
        match self {
            EditOp::Pair(x, y) => pair_cost(x, y),
            EditOp::Delete(_) => GAP_COST as int,
            EditOp::Insert(_) => GAP_COST as int,
        }
    }

    /// The symbol of the first sequence that this step uses up, if any.
    pub open spec fn from_first(self) -> Option<char> {
        match self {
            EditOp::Pair(x, _) => Some(x),
            EditOp::Delete(x) => Some(x),
            EditOp::Insert(_) => None,
        }
    }

    /// The symbol of the second sequence that this step uses up, if any.
    pub open spec fn from_second(self) -> Option<char> {
        match self {
            EditOp::Pair(_, y) => Some(y),
            EditOp::Delete(_) => None,
            EditOp::Insert(y) => Some(y),
        }
    }

    /// How many symbols of the first sequence this step uses up: one or none.
    pub open spec fn first_used(self) -> int {
        if self.from_first() is Some {
            1
        } else {
            0
        }
    }

    /// How many symbols of the second sequence this step uses up: one or
    /// none.
    pub open spec fn second_used(self) -> int {
        if self.from_second() is Some {
            1
        } else {
            0
        }
    }
}

/// A symbol in front of a sequence, where there is one.
pub open spec fn with_front(head: Option<char>, tail: Seq<char>) -> Seq<char> {
    match head {
        Some(x) => seq![x] + tail,
        None => tail,
    }
}

/// The sum of the costs of the steps.
pub open spec fn total_cost(ops: Seq<EditOp>) -> int
    decreases ops.len(),
{
    if ops.len() == 0 {
        0
    } else {
        ops[0].cost() + total_cost(ops.drop_first())
    }
}

/// The symbols of the first sequence that the steps use up, in order.
pub open spec fn first_side(ops: Seq<EditOp>) -> Seq<char>
    decreases ops.len(),
{
    if ops.len() == 0 {
        Seq::empty()
    } else {
        with_front(ops[0].from_first(), first_side(ops.drop_first()))
    }
}

/// The symbols of the second sequence that the steps use up, in order.
pub open spec fn second_side(ops: Seq<EditOp>) -> Seq<char>
    decreases ops.len(),
{
    if ops.len() == 0 {
        Seq::empty()
    } else {
        with_front(ops[0].from_second(), second_side(ops.drop_first()))
    }
}

/// `ops` is a global alignment of `first` and `second`: it accounts for every
/// symbol of both, from start to end and in order.
pub open spec fn aligns(ops: Seq<EditOp>, first: Seq<char>, second: Seq<char>) -> bool {
    &&& first_side(ops) == first
    &&& second_side(ops) == second
}

/// The step that is read back from the suffix costs at position `i` of
/// `first` and `j` of `second`, where at least one of the two has a symbol
/// left.
///
/// While both sequences have symbols left, the step is the first of these
/// three that accounts for the cost at `(i, j)`: the pair of the two current
/// symbols, the deletion of the symbol of `first`, the insertion of the symbol
/// of `second`. The cost at `(i, j)` is the least of the three candidates, so
/// where the first two do not account for it the third does. Once one
/// sequence is used up, the current symbol of the other is inserted or
/// deleted.
pub open spec fn step_at(first: Seq<char>, second: Seq<char>, i: int, j: int) -> EditOp
    recommends
        0 <= i <= first.len(),
        0 <= j <= second.len(),
        i < first.len() || j < second.len(),
{
    if i >= first.len() {
        EditOp::Insert(second[j])
    } else if j >= second.len() {
        EditOp::Delete(first[i])
    } else if suffix_cost(first, second, i, j) == suffix_cost(first, second, i + 1, j + 1)
        + pair_cost(first[i], second[j]) {
        EditOp::Pair(first[i], second[j])
    } else if suffix_cost(first, second, i, j) == suffix_cost(first, second, i + 1, j)
        + GAP_COST {
        EditOp::Delete(first[i])
    } else {
        EditOp::Insert(second[j])
    }
}

/// The alignment that is read back from the suffix costs, starting at
/// position `i` of `first` and `j` of `second`: the step at that position,
/// then what is read back from the position behind the symbols that the step
/// uses up, until both sequences are used up.
pub open spec fn traceback(first: Seq<char>, second: Seq<char>, i: int, j: int) -> Seq<EditOp>
    recommends
        0 <= i <= first.len(),
        0 <= j <= second.len(),
    decreases first.len() - i + second.len() - j,
    when 0 <= i <= first.len() && 0 <= j <= second.len()
{
    if i >= first.len() && j >= second.len() {
        Seq::empty()
    } else {
        let op = step_at(first, second, i, j);
        seq![op] + traceback(first, second, i + op.first_used(), j + op.second_used())
    }
}

/// The alignment of the whole of `first` with the whole of `second`.
pub open spec fn optimal_alignment(first: Seq<char>, second: Seq<char>) -> Seq<EditOp> {
    traceback(first, second, 0, 0)
}

/// `c` is a Unicode scalar value.
pub(crate) open spec fn is_scalar(c: char) -> bool {
    0 <= c as int <= 0xD7FF || 0xE000 <= c as int <= 0x10FFFF
}

/// Every `char` is a Unicode scalar value.
proof fn lemma_scalar(c: char)
    ensures
        is_scalar(c),
{
}

/// Every symbol of a sequence is a Unicode scalar value. Verus knows this of
/// a `char` that it is handed, but does not conclude it of an element of a
/// `Seq<char>`, and without it cannot reason about a sequence of steps that
/// are built from such elements.
pub(crate) proof fn lemma_scalar_symbols(s: Seq<char>)
    ensures
        forall|k: int| 0 <= k < s.len() ==> is_scalar(#[trigger] s[k]),
{
    assert forall|k: int| 0 <= k < s.len() implies is_scalar(#[trigger] s[k]) by {
        lemma_scalar(s[k]);
    }
}

/// Cost and sides of an alignment that starts with `op` and goes on with
/// `rest`.
pub proof fn lemma_step_then(op: EditOp, rest: Seq<EditOp>)
    ensures
        total_cost(seq![op] + rest) == op.cost() + total_cost(rest),
        first_side(seq![op] + rest) == with_front(op.from_first(), first_side(rest)),
        second_side(seq![op] + rest) == with_front(op.from_second(), second_side(rest)),
{
    let ops = seq![op] + rest;
    assert(ops[0] == op);
    assert(ops.drop_first() =~= rest);
}

/// Steps `done`, then `op`, then `rest`: it makes no difference whether `op`
/// is counted as the last of the steps done or as the first of the rest.
pub proof fn lemma_step_between(done: Seq<EditOp>, op: EditOp, rest: Seq<EditOp>)
    ensures
        done.push(op) + rest == done + (seq![op] + rest),
{
    assert(done.push(op) + rest =~= done + (seq![op] + rest));
}

/// A sequence from position `k` on is its symbol at `k` followed by the
/// sequence from `k + 1` on.
proof fn lemma_skip_step(s: Seq<char>, k: int)
    requires
        0 <= k < s.len(),
    ensures
        s.skip(k) == seq![s[k]] + s.skip(k + 1),
{
    assert(s.skip(k) =~= seq![s[k]] + s.skip(k + 1));
}

/// If `x` followed by `tail` is `s` from position `k` on, then `x` is the
/// symbol at `k` and `tail` is `s` from `k + 1` on.
proof fn lemma_front_of_skip(x: char, tail: Seq<char>, s: Seq<char>, k: int)
    requires
        0 <= k <= s.len(),
        seq![x] + tail == s.skip(k),
    ensures
        k < s.len(),
        s[k] == x,
        tail == s.skip(k + 1),
{
    let whole = seq![x] + tail;
    assert(whole.len() == tail.len() + 1);
    assert(whole[0] == x);
    assert(s.skip(k)[0] == s[k]);
    assert(tail =~= whole.skip(1));
    assert(s.skip(k).skip(1) =~= s.skip(k + 1));
}

/// What is read back from position `(i, j)` aligns what is left of the two
/// sequences there, and costs exactly the suffix cost.
pub proof fn lemma_traceback_from(first: Seq<char>, second: Seq<char>, i: int, j: int)
    requires
        0 <= i <= first.len(),
        0 <= j <= second.len(),
    ensures
        aligns(traceback(first, second, i, j), first.skip(i), second.skip(j)),
        total_cost(traceback(first, second, i, j)) == suffix_cost(first, second, i, j),
    decreases first.len() - i + second.len() - j,
{
    lemma_scalar_symbols(first);
    lemma_scalar_symbols(second);
    if i >= first.len() && j >= second.len() {
        assert(first.skip(i) =~= Seq::<char>::empty());
        assert(second.skip(j) =~= Seq::<char>::empty());
    } else {
        let op = step_at(first, second, i, j);
        let ni = i + op.first_used();
        let nj = j + op.second_used();
        let rest = traceback(first, second, ni, nj);
        lemma_traceback_from(first, second, ni, nj);
        lemma_step_then(op, rest);
        if ni > i {
            lemma_skip_step(first, i);
        }
        if nj > j {
            lemma_skip_step(second, j);
        }
    }
}

/// No alignment of what is left of the two sequences at `(i, j)` costs less
/// than the suffix cost there.
pub proof fn lemma_suffix_cost_is_least(
    ops: Seq<EditOp>,
    first: Seq<char>,
    second: Seq<char>,
    i: int,
    j: int,
)
    requires
        0 <= i <= first.len(),
        0 <= j <= second.len(),
        aligns(ops, first.skip(i), second.skip(j)),
    ensures
        suffix_cost(first, second, i, j) <= total_cost(ops),
    decreases ops.len(),
{
    if ops.len() == 0 {
        assert(first.skip(i).len() == 0);
        assert(second.skip(j).len() == 0);
    } else {
        let op = ops[0];
        let rest = ops.drop_first();
        match op {
            EditOp::Pair(x, y) => {
                lemma_front_of_skip(x, first_side(rest), first, i);
                lemma_front_of_skip(y, second_side(rest), second, j);
                lemma_suffix_cost_is_least(rest, first, second, i + 1, j + 1);
            },
            EditOp::Delete(x) => {
                lemma_front_of_skip(x, first_side(rest), first, i);
                lemma_suffix_cost_is_least(rest, first, second, i + 1, j);
            },
            EditOp::Insert(y) => {
                lemma_front_of_skip(y, second_side(rest), second, j);
                lemma_suffix_cost_is_least(rest, first, second, i, j + 1);
            },
        }
    }
}

/// The edit distance is the least cost of any global alignment of the two
/// sequences: the alignment read back from the suffix costs is one, it costs
/// exactly the distance, and no other costs less.
pub proof fn lemma_distance_is_least_cost(first: Seq<char>, second: Seq<char>)
    ensures
        aligns(optimal_alignment(first, second), first, second),
        total_cost(optimal_alignment(first, second)) == edit_distance(first, second),
        forall|ops: Seq<EditOp>| #[trigger]
            aligns(ops, first, second) ==> edit_distance(first, second) <= total_cost(ops),
{
    lemma_traceback_from(first, second, 0, 0);
    assert(first.skip(0) =~= first);
    assert(second.skip(0) =~= second);
    assert forall|ops: Seq<EditOp>| #[trigger] aligns(ops, first, second) implies edit_distance(
        first,
        second,
    ) <= total_cost(ops) by {
        lemma_suffix_cost_is_least(ops, first, second, 0, 0);
    }
}

/// `ops` inserts every symbol of `symbols`, in order, and does nothing else.
pub open spec fn inserts_all(ops: Seq<EditOp>, symbols: Seq<char>) -> bool {
    &&& ops.len() == symbols.len()
    &&& forall|k: int| 0 <= k < ops.len() ==> #[trigger] ops[k] == EditOp::Insert(symbols[k])
}

/// `ops` deletes every symbol of `symbols`, in order, and does nothing else.
pub open spec fn deletes_all(ops: Seq<EditOp>, symbols: Seq<char>) -> bool {
    &&& ops.len() == symbols.len()
    &&& forall|k: int| 0 <= k < ops.len() ==> #[trigger] ops[k] == EditOp::Delete(symbols[k])
}

/// `ops` pairs every symbol of `symbols` with itself, in order, and does
/// nothing else.
pub open spec fn matches_all(ops: Seq<EditOp>, symbols: Seq<char>) -> bool {
    &&& ops.len() == symbols.len()
    &&& forall|k: int|
        0 <= k < ops.len() ==> #[trigger] ops[k] == EditOp::Pair(symbols[k], symbols[k])
}

/// Once `first` is used up, what is left of `second` is inserted symbol by
/// symbol.
pub proof fn lemma_traceback_after_first(first: Seq<char>, second: Seq<char>, j: int)
    requires
        0 <= j <= second.len(),
    ensures
        inserts_all(traceback(first, second, first.len() as int, j), second.skip(j)),
    decreases second.len() - j,
{
    lemma_scalar_symbols(second);
    if j < second.len() {
        lemma_traceback_after_first(first, second, j + 1);
        let rest = traceback(first, second, first.len() as int, j + 1);
        let ops = seq![EditOp::Insert(second[j])] + rest;
        assert forall|k: int| 0 <= k < ops.len() implies #[trigger] ops[k] == EditOp::Insert(
            second.skip(j)[k],
        ) by {
            if k > 0 {
                assert(ops[k] == rest[k - 1]);
            }
        }
    }
}

/// Once `second` is used up, what is left of `first` is deleted symbol by
/// symbol.
pub proof fn lemma_traceback_after_second(first: Seq<char>, second: Seq<char>, i: int)
    requires
        0 <= i <= first.len(),
    ensures
        deletes_all(traceback(first, second, i, second.len() as int), first.skip(i)),
    decreases first.len() - i,
{
    lemma_scalar_symbols(first);
    if i < first.len() {
        lemma_traceback_after_second(first, second, i + 1);
        let rest = traceback(first, second, i + 1, second.len() as int);
        let ops = seq![EditOp::Delete(first[i])] + rest;
        assert forall|k: int| 0 <= k < ops.len() implies #[trigger] ops[k] == EditOp::Delete(
            first.skip(i)[k],
        ) by {
            if k > 0 {
                assert(ops[k] == rest[k - 1]);
            }
        }
    }
}

/// Where one of the two sequences is empty, the alignment consists of
/// nothing but insertions, or of nothing but deletions, one for each symbol
/// of the other sequence, and costs two for each.
pub proof fn lemma_alignment_with_empty(other: Seq<char>)
    ensures
        inserts_all(optimal_alignment(Seq::<char>::empty(), other), other),
        deletes_all(optimal_alignment(other, Seq::<char>::empty()), other),
        total_cost(optimal_alignment(Seq::<char>::empty(), other)) == 2 * other.len(),
        total_cost(optimal_alignment(other, Seq::<char>::empty())) == 2 * other.len(),
{
    let none = Seq::<char>::empty();
    lemma_traceback_after_first(none, other, 0);
    lemma_traceback_after_second(other, none, 0);
    assert(other.skip(0) =~= other);
    lemma_traceback_from(none, other, 0, 0);
    lemma_traceback_from(other, none, 0, 0);
}

/// Read back along the diagonal of a sequence with itself, every step is a
/// match.
pub proof fn lemma_traceback_identical(symbols: Seq<char>, i: int)
    requires
        0 <= i <= symbols.len(),
    ensures
        matches_all(traceback(symbols, symbols, i, i), symbols.skip(i)),
    decreases symbols.len() - i,
{
    lemma_scalar_symbols(symbols);
    if i < symbols.len() {
        lemma_traceback_identical(symbols, i + 1);
        lemma_suffix_cost_identical(symbols, i);
        lemma_suffix_cost_identical(symbols, i + 1);
        let rest = traceback(symbols, symbols, i + 1, i + 1);
        let ops = seq![EditOp::Pair(symbols[i], symbols[i])] + rest;
        assert forall|k: int| 0 <= k < ops.len() implies #[trigger] ops[k] == EditOp::Pair(
            symbols.skip(i)[k],
            symbols.skip(i)[k],
        ) by {
            if k > 0 {
                assert(ops[k] == rest[k - 1]);
            }
        }
    }
}

/// The alignment of a sequence with itself pairs every symbol with itself
/// and costs nothing.
pub proof fn lemma_alignment_identical(symbols: Seq<char>)
    ensures
        matches_all(optimal_alignment(symbols, symbols), symbols),
        total_cost(optimal_alignment(symbols, symbols)) == 0,
{
    lemma_traceback_identical(symbols, 0);
    assert(symbols.skip(0) =~= symbols);
    lemma_traceback_from(symbols, symbols, 0, 0);
    lemma_suffix_cost_identical(symbols, 0);
}

} // verus!
