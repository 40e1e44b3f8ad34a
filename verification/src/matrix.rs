//! The alignment engine: two symbol sequences and the table of their suffix
//! costs.

use vstd::prelude::*;
use crate::distance::{
    cost_table, edit_distance, lemma_suffix_cost_bounds, suffix_cost, zero_table,
};
use crate::scoring::{
    is_least_of, min3, pair_cost, GAP_COST, MATCH_COST, MISMATCH_COST,
};
use crate::text::{
    alignment_text, table_text, table_view, trimmed, trimmed_symbols, write_alignment,
    write_table,
};
use crate::trace::{lemma_step_between, optimal_alignment, step_at, traceback, EditOp};

verus! {

/// The longest sequence whose costs, and the sums that are formed on the way
/// to them, fit in an `i32`.
pub const MAX_LEN: usize = 1_073_741_822;

/// Two symbol sequences and their cost table.
///
/// A value starts out with a table of zeros. `opt_distance` populates the
/// table; from then on it holds the suffix costs of the two sequences, and
/// the alignment can be read back from it.
pub struct EditMatrix {
    first: Vec<char>,
    second: Vec<char>,
    matrix: Vec<Vec<i32>>,
    filled: bool,
}

/// The table has a row for each position of `first` and in each row a cost
/// for each position of `second`, the positions behind the last symbols
/// included.
spec fn shaped(matrix: Seq<Vec<i32>>, first: Seq<char>, second: Seq<char>) -> bool {
    &&& matrix.len() == first.len() + 1
    &&& forall|i: int| 0 <= i <= first.len() ==> (#[trigger] matrix[i])@.len() == second.len() + 1
}

/// The cost at row `i` and column `j` of the table.
spec fn cell(matrix: Seq<Vec<i32>>, i: int, j: int) -> int {
    matrix[i]@[j] as int
}

/// The table holds the suffix cost of `first` and `second` at every position
/// from row `from_row` on.
spec fn holds_costs_from(
    matrix: Seq<Vec<i32>>,
    first: Seq<char>,
    second: Seq<char>,
    from_row: int,
) -> bool {
    forall|i: int, j: int|
        from_row <= i <= first.len() && 0 <= j <= second.len() ==> #[trigger] cell(matrix, i, j)
            == suffix_cost(first, second, i, j)
}

/// Row `i` of the table holds the suffix cost at every column from
/// `from_col` on.
spec fn row_holds_costs_from(
    matrix: Seq<Vec<i32>>,
    first: Seq<char>,
    second: Seq<char>,
    i: int,
    from_col: int,
) -> bool {
    forall|j: int|
        from_col <= j <= second.len() ==> #[trigger] cell(matrix, i, j) == suffix_cost(
            first,
            second,
            i,
            j,
        )
}

/// Reads the cost at row `i` and column `j`.
fn cost_at(matrix: &Vec<Vec<i32>>, i: usize, j: usize) -> (cost: i32)
    requires
        i < matrix@.len(),
        j < matrix@[i as int]@.len(),
    ensures
        cost == cell(matrix@, i as int, j as int),
    no_unwind
{
    matrix[i][j]
}

/// Writes `cost` at row `i` and column `j`, and leaves every other cost and
/// the shape of the table as they are.
fn set_cost(matrix: &mut Vec<Vec<i32>>, i: usize, j: usize, cost: i32)
    requires
        i < old(matrix)@.len(),
        j < old(matrix)@[i as int]@.len(),
    ensures
        final(matrix)@.len() == old(matrix)@.len(),
        forall|r: int|
            0 <= r < final(matrix)@.len() ==> (#[trigger] final(matrix)@[r])@.len() == old(
                matrix,
            )@[r]@.len(),
        forall|r: int, c: int|
            0 <= r < final(matrix)@.len() && 0 <= c < final(matrix)@[r]@.len() ==> #[trigger] cell(
                final(matrix)@,
                r,
                c,
            ) == if r == i && c == j {
                cost as int
            } else {
                cell(old(matrix)@, r, c)
            },
    no_unwind
{
    matrix[i][j] = cost;
}

/// The row has `cols + 1` costs, all of them zero.
spec fn zero_costs(row: Seq<i32>, cols: int) -> bool {
    &&& row.len() == cols + 1
    &&& forall|j: int| 0 <= j <= cols ==> row[j] == 0
}

/// A row of `cols + 1` zeros.
fn zero_row(cols: usize) -> (row: Vec<i32>)
    ensures
        zero_costs(row@, cols as int),
{
    let mut row: Vec<i32> = Vec::new();
    row.push(0);
    let mut j: usize = 0;
    while j < cols
        invariant
            j <= cols,
            row@.len() == j + 1,
            forall|k: int| 0 <= k <= j ==> row@[k] == 0,
        decreases cols - j,
    {
        row.push(0);
        j += 1;
    }
    row
}

/// Fills the table with the suffix costs of `first` and `second`: the last
/// column and the last row first, then the rows above from the bottom up,
/// each from right to left, so that the three costs a cell is computed from
/// are there when it is their turn.
fn populate(matrix: &mut Vec<Vec<i32>>, first: &Vec<char>, second: &Vec<char>)
    requires
        shaped(old(matrix)@, first@, second@),
        first@.len() <= MAX_LEN,
        second@.len() <= MAX_LEN,
    ensures
        shaped(final(matrix)@, first@, second@),
        holds_costs_from(final(matrix)@, first@, second@, 0),
    no_unwind
{
    let n = first.len();
    let m = second.len();
    set_cost(matrix, n, m, 0);
    let mut i: usize = n;
    while i > 0
        invariant
            i <= n,
            n == first@.len(),
            m == second@.len(),
            n <= MAX_LEN,
            shaped(matrix@, first@, second@),
            forall|r: int| i <= r <= n ==> #[trigger] cell(matrix@, r, m as int) == 2 * (n - r),
        decreases i,
    {
        i -= 1;
        let below = cost_at(matrix, i + 1, m);
        set_cost(matrix, i, m, below + GAP_COST);
    }
    let mut j: usize = m;
    while j > 0
        invariant
            j <= m,
            n == first@.len(),
            m == second@.len(),
            m <= MAX_LEN,
            shaped(matrix@, first@, second@),
            forall|r: int| 0 <= r <= n ==> #[trigger] cell(matrix@, r, m as int) == 2 * (n - r),
            forall|c: int| j <= c <= m ==> #[trigger] cell(matrix@, n as int, c) == 2 * (m - c),
        decreases j,
    {
        j -= 1;
        let right = cost_at(matrix, n, j + 1);
        set_cost(matrix, n, j, right + GAP_COST);
    }
    let mut i: usize = n;
    while i > 0
        invariant
            i <= n,
            n == first@.len(),
            m == second@.len(),
            n <= MAX_LEN,
            m <= MAX_LEN,
            shaped(matrix@, first@, second@),
            forall|r: int| 0 <= r <= n ==> #[trigger] cell(matrix@, r, m as int) == 2 * (n - r),
            holds_costs_from(matrix@, first@, second@, i as int),
        decreases i,
    {
        i -= 1;
        let mut j: usize = m;
        while j > 0
            invariant
                j <= m,
                i < n,
                n == first@.len(),
                m == second@.len(),
                n <= MAX_LEN,
                m <= MAX_LEN,
                shaped(matrix@, first@, second@),
                forall|r: int|
                    0 <= r <= n ==> #[trigger] cell(matrix@, r, m as int) == 2 * (n - r),
                holds_costs_from(matrix@, first@, second@, i + 1),
                row_holds_costs_from(matrix@, first@, second@, i as int, j as int),
            decreases j,
        {
            j -= 1;
            proof {
                lemma_suffix_cost_bounds(first@, second@, i + 1, j + 1);
                lemma_suffix_cost_bounds(first@, second@, i + 1, j as int);
                lemma_suffix_cost_bounds(first@, second@, i as int, j + 1);
            }
            let p = EditMatrix::penalty(first[i], second[j]);
            let cost = EditMatrix::min(
                cost_at(matrix, i + 1, j + 1) + p,
                cost_at(matrix, i + 1, j) + GAP_COST,
                cost_at(matrix, i, j + 1) + GAP_COST,
            );
            set_cost(matrix, i, j, cost);
        }
    }
}

/// A table of the right shape that holds the suffix cost at every position
/// is the cost table.
proof fn lemma_holds_cost_table(matrix: Seq<Vec<i32>>, first: Seq<char>, second: Seq<char>)
    requires
        shaped(matrix, first, second),
        holds_costs_from(matrix, first, second, 0),
    ensures
        table_view(matrix) == cost_table(first, second),
{
    assert forall|i: int| 0 <= i <= first.len() implies #[trigger] table_view(matrix)[i]
        =~= cost_table(first, second)[i] by {
        assert forall|j: int| 0 <= j <= second.len() implies #[trigger] table_view(matrix)[i][j]
            == suffix_cost(first, second, i, j) by {
            assert(cell(matrix, i, j) == suffix_cost(first, second, i, j));
        }
    }
    assert(table_view(matrix) =~= cost_table(first, second));
}

impl EditMatrix {
    /// The table has the shape that the two sequences call for. Once it is
    /// populated, neither sequence is longer than `MAX_LEN`, and the table
    /// holds their suffix costs.
    #[verifier::type_invariant]
    spec fn well_formed(self) -> bool {
        &&& shaped(self.matrix@, self.first@, self.second@)
        &&& self.filled ==> {
            &&& self.first@.len() <= MAX_LEN
            &&& self.second@.len() <= MAX_LEN
            &&& holds_costs_from(self.matrix@, self.first@, self.second@, 0)
        }
    }

    /// The first sequence.
    pub closed spec fn first(&self) -> Seq<char> {
        self.first@
    }

    /// The second sequence.
    pub closed spec fn second(&self) -> Seq<char> {
        self.second@
    }

    /// The costs that the table holds, row by row.
    pub closed spec fn cells(&self) -> Seq<Seq<int>> {
        table_view(self.matrix@)
    }

    /// Whether the table has been populated.
    pub closed spec fn populated(&self) -> bool {
        self.filled
    }

    /// Takes two raw lines of input. Each stands for the sequence of its
    /// characters without the white space around them. The table has a row
    /// for each position of the first sequence and a column for each position
    /// of the second, and holds zero everywhere.
    pub fn new(seq1: String, seq2: String) -> (engine: Self)
        ensures
            engine.first() == trimmed(seq1@),
            engine.second() == trimmed(seq2@),
            engine.cells() == zero_table(
                trimmed(seq1@).len() + 1,
                trimmed(seq2@).len() + 1,
            ),
            !engine.populated(),
    {
        EditMatrix::from_symbols(
            trimmed_symbols(seq1.as_str()),
            trimmed_symbols(seq2.as_str()),
        )
    }

    /// Takes the two sequences symbol by symbol, as they are. The table has a
    /// row for each position of the first sequence and a column for each
    /// position of the second, and holds zero everywhere.
    pub fn from_symbols(first: Vec<char>, second: Vec<char>) -> (engine: Self)
        ensures
            engine.first() == first@,
            engine.second() == second@,
            engine.cells() == zero_table(first@.len() + 1, second@.len() + 1),
            !engine.populated(),
    {
        let n = first.len();
        let m = second.len();
        let mut matrix: Vec<Vec<i32>> = Vec::new();
        matrix.push(zero_row(m));
        let mut i: usize = 0;
        while i < n
            invariant
                i <= n,
                matrix@.len() == i + 1,
                forall|r: int| 0 <= r <= i ==> zero_costs((#[trigger] matrix@[r])@, m as int),
            decreases n - i,
        {
            matrix.push(zero_row(m));
            i += 1;
        }
        let engine = EditMatrix { first, second, matrix, filled: false };
        assert(engine.cells() =~= zero_table((n + 1) as nat, (m + 1) as nat)) by {
            assert forall|r: int| 0 <= r <= n implies #[trigger] engine.cells()[r] =~= zero_table(
                (n + 1) as nat,
                (m + 1) as nat,
            )[r] by {
                assert(zero_costs(engine.matrix@[r]@, m as int));
            }
        }
        engine
    }

    /// The number of symbols of the first sequence.
    pub fn first_len(&self) -> (n: usize)
        ensures
            n == self.first().len(),
    {
        self.first.len()
    }

    /// The number of symbols of the second sequence.
    pub fn second_len(&self) -> (m: usize)
        ensures
            m == self.second().len(),
    {
        self.second.len()
    }

    /// Whether the table has been populated. Once it has, it holds the suffix
    /// costs of the two sequences, and neither sequence is longer than
    /// `MAX_LEN`.
    pub fn is_populated(&self) -> (populated: bool)
        ensures
            populated == self.populated(),
            populated ==> self.cells() == cost_table(self.first(), self.second()),
            populated ==> self.first().len() <= MAX_LEN && self.second().len() <= MAX_LEN,
    {
        proof {
            use_type_invariant(self);
            if self.filled {
                lemma_holds_cost_table(self.matrix@, self.first@, self.second@);
            }
        }
        self.filled
    }

    /// Populates the table with the suffix costs of the two sequences and
    /// returns their edit distance, the cost in the first row and first
    /// column.
    pub fn opt_distance(&mut self) -> (distance: i32)
        requires
            old(self).first().len() <= MAX_LEN,
            old(self).second().len() <= MAX_LEN,
        ensures
            distance == edit_distance(old(self).first(), old(self).second()),
            final(self).populated(),
            final(self).cells() == cost_table(old(self).first(), old(self).second()),
            final(self).first() == old(self).first(),
            final(self).second() == old(self).second(),
    {
        proof {
            use_type_invariant(&*self);
        }
        self.filled = false;
        populate(&mut self.matrix, &self.first, &self.second);
        self.filled = true;
        proof {
            lemma_holds_cost_table(self.matrix@, self.first@, self.second@);
        }
        cost_at(&self.matrix, 0, 0)
    }

    /// Reads one optimal alignment back from the populated table.
    ///
    /// The walk starts at the first symbols of both sequences. While both
    /// have symbols left, it takes the first of three steps that accounts for
    /// the cost at its position: the pair of the two current symbols, the
    /// deletion of the symbol of the first sequence, the insertion of the
    /// symbol of the second. Once one sequence is used up, it deletes or
    /// inserts what is left of the other, symbol by symbol.
    pub fn alignment_steps(&self) -> (ops: Vec<EditOp>)
        requires
            self.populated(),
        ensures
            ops@ == optimal_alignment(self.first(), self.second()),
    {
        proof {
            use_type_invariant(self);
        }
        let n = self.first.len();
        let m = self.second.len();
        let mut ops: Vec<EditOp> = Vec::new();
        let mut i: usize = 0;
        let mut j: usize = 0;
        while i < n && j < m
            invariant
                i <= n,
                j <= m,
                n == self.first@.len(),
                m == self.second@.len(),
                n <= MAX_LEN,
                m <= MAX_LEN,
                shaped(self.matrix@, self.first@, self.second@),
                holds_costs_from(self.matrix@, self.first@, self.second@, 0),
                ops@ + traceback(self.first@, self.second@, i as int, j as int) == traceback(
                    self.first@,
                    self.second@,
                    0,
                    0,
                ),
            decreases (n - i) + (m - j),
        {
            let x = self.first[i];
            let y = self.second[j];
            let here = cost_at(&self.matrix, i, j);
            let ghost before = ops@;
            let ghost expected = step_at(self.first@, self.second@, i as int, j as int);
            proof {
                lemma_suffix_cost_bounds(self.first@, self.second@, i + 1, j + 1);
                lemma_suffix_cost_bounds(self.first@, self.second@, i + 1, j as int);
            }
            let op = if here == cost_at(&self.matrix, i + 1, j + 1) + EditMatrix::penalty(x, y) {
                i += 1;
                j += 1;
                EditOp::Pair(x, y)
            } else if here == cost_at(&self.matrix, i + 1, j) + GAP_COST {
                i += 1;
                EditOp::Delete(x)
            } else {
                j += 1;
                EditOp::Insert(y)
            };
            ops.push(op);
            proof {
                assert(op == expected);
                lemma_step_between(
                    before,
                    op,
                    traceback(self.first@, self.second@, i as int, j as int),
                );
            }
        }
        while i < n
            invariant
                i <= n,
                j <= m,
                i == n || j == m,
                n == self.first@.len(),
                m == self.second@.len(),
                ops@ + traceback(self.first@, self.second@, i as int, j as int) == traceback(
                    self.first@,
                    self.second@,
                    0,
                    0,
                ),
            decreases n - i,
        {
            let ghost before = ops@;
            let ghost expected = step_at(self.first@, self.second@, i as int, j as int);
            let op = EditOp::Delete(self.first[i]);
            ops.push(op);
            i += 1;
            proof {
                assert(op == expected);
                lemma_step_between(
                    before,
                    op,
                    traceback(self.first@, self.second@, i as int, j as int),
                );
            }
        }
        while j < m
            invariant
                i == n,
                j <= m,
                n == self.first@.len(),
                m == self.second@.len(),
                ops@ + traceback(self.first@, self.second@, i as int, j as int) == traceback(
                    self.first@,
                    self.second@,
                    0,
                    0,
                ),
            decreases m - j,
        {
            let ghost before = ops@;
            let ghost expected = step_at(self.first@, self.second@, i as int, j as int);
            let op = EditOp::Insert(self.second[j]);
            ops.push(op);
            j += 1;
            proof {
                assert(op == expected);
                lemma_step_between(
                    before,
                    op,
                    traceback(self.first@, self.second@, i as int, j as int),
                );
            }
        }
        assert(ops@ + traceback(self.first@, self.second@, i as int, j as int) =~= ops@);
        ops
    }

    /// The alignment that `alignment_steps` reads back, written down one line
    /// for each step. The engine stays as it is.
    pub fn alignment(&mut self) -> (text: String)
        requires
            old(self).populated(),
        ensures
            text@ == alignment_text(optimal_alignment(old(self).first(), old(self).second())),
            *final(self) == *old(self),
    {
        let ops = self.alignment_steps();
        write_alignment(&ops)
    }

    /// The table as text: one line for each row, and in it each cost of the
    /// row followed by a tab.
    pub fn to_text(&self) -> (text: String)
        ensures
            text@ == table_text(self.cells()),
    {
        write_table(&self.matrix)
    }

    /// What it costs to align symbol `a` with symbol `b`: nothing where they
    /// are equal, one where they differ.
    pub fn penalty(a: char, b: char) -> (p: i32)
        ensures
            p == pair_cost(a, b),
            a == b ==> p == 0,
            a != b ==> p == 1,
        no_unwind
    {
        if a == b {
            MATCH_COST
        } else {
            MISMATCH_COST
        }
    }

    /// The least of three integers.
    pub fn min(a: i32, b: i32, c: i32) -> (m: i32)
        ensures
            m == min3(a as int, b as int, c as int),
            is_least_of(m as int, a as int, b as int, c as int),
        no_unwind
    {
        let least_of_two = if a <= b { a } else { b };
        if least_of_two <= c {
            least_of_two
        } else {
            c
        }
    }
}

} // verus!
