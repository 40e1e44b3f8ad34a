//! Text coming in and going out: how raw input becomes a symbol sequence, and
//! how an alignment and a cost table are written down.

use vstd::prelude::*;
use crate::distance::{edit_distance, lemma_distance_empty, lemma_distance_identical};
use crate::trace::{
    lemma_alignment_identical, lemma_alignment_with_empty, lemma_distance_is_least_cost,
    lemma_scalar_symbols, optimal_alignment, total_cost, EditOp,
};

verus! {

/// Whether `c` is white space: what `char::is_whitespace` answers for it,
/// which is whether `c` has the Unicode property `White_Space`.
pub uninterp spec fn is_white_space(c: char) -> bool;

/// `char::is_whitespace`, the test that `str::trim` goes by. Its answer
/// depends on the character alone; the contract gives that answer a name and
/// claims nothing more of it.
pub assume_specification[ char::is_whitespace ](c: char) -> (b: bool)
    ensures
        b == is_white_space(c),
;

/// `String::push` appends one character to the end of the string and leaves
/// the rest as it was.
pub assume_specification[ String::push ](text: &mut String, c: char)
    ensures
        final(text)@ == old(text)@.push(c),
;

/// For each character of `s`, whether it is white space.
pub open spec fn blanks(s: Seq<char>) -> Seq<bool> {
    Seq::new(s.len(), |k: int| is_white_space(s[k]))
}

/// How many marks are set at the start of `marks`, up to the first that is
/// not.
pub open spec fn leading(marks: Seq<bool>) -> nat
    decreases marks.len(),
{
    if marks.len() > 0 && marks.first() {
        1 + leading(marks.drop_first())
    } else {
        0
    }
}

/// How many marks are set at the end of `marks`, back to the last that is
/// not.
pub open spec fn trailing(marks: Seq<bool>) -> nat
    decreases marks.len(),
{
    if marks.len() > 0 && marks.last() {
        1 + trailing(marks.drop_last())
    } else {
        0
    }
}

/// Where what is kept begins, when everything marked is cut off at the
/// start: at the first position that is not marked, or at the end where every
/// position is marked.
pub open spec fn kept_start(marks: Seq<bool>) -> int {
    leading(marks) as int
}

/// Where what is kept ends, when everything marked is cut off at the end as
/// well: behind the last position that is not marked, or at the end where
/// every position is marked, so that nothing is kept.
pub open spec fn kept_end(marks: Seq<bool>) -> int {
    if leading(marks) == marks.len() {
        marks.len() as int
    } else {
        marks.len() - trailing(marks)
    }
}

/// `s` without the white space around it. White space between other
/// characters stays.
pub open spec fn trimmed(s: Seq<char>) -> Seq<char> {
    s.subrange(kept_start(blanks(s)), kept_end(blanks(s)))
}

/// The marks counted at the start of `marks` are set and the next one is
/// not; the same holds at the end, and what is kept lies between.
pub proof fn lemma_kept_range(marks: Seq<bool>)
    ensures
        0 <= kept_start(marks) <= kept_end(marks) <= marks.len(),
        forall|k: int| 0 <= k < kept_start(marks) ==> marks[k],
        forall|k: int| kept_end(marks) <= k < marks.len() ==> marks[k],
        kept_start(marks) < kept_end(marks) ==> !marks[kept_start(marks)] && !marks[kept_end(
            marks,
        ) - 1],
{
    lemma_leading(marks);
    lemma_trailing(marks);
}

/// The marks counted at the start are set, and the one behind them, if
/// there is one, is not.
proof fn lemma_leading(marks: Seq<bool>)
    ensures
        leading(marks) <= marks.len(),
        forall|k: int| 0 <= k < leading(marks) ==> marks[k],
        leading(marks) < marks.len() ==> !marks[leading(marks) as int],
    decreases marks.len(),
{
    if marks.len() > 0 && marks.first() {
        let rest = marks.drop_first();
        lemma_leading(rest);
        assert forall|k: int| 0 <= k < leading(marks) implies marks[k] by {
            if k > 0 {
                assert(marks[k] == rest[k - 1]);
            }
        }
        if leading(marks) < marks.len() {
            assert(marks[leading(marks) as int] == rest[leading(rest) as int]);
        }
    }
}

/// The marks counted at the end are set, and the one in front of them, if
/// there is one, is not. Where not every mark is set, those counted at the
/// start and those counted at the end do not overlap.
proof fn lemma_trailing(marks: Seq<bool>)
    ensures
        trailing(marks) <= marks.len(),
        forall|k: int| marks.len() - trailing(marks) <= k < marks.len() ==> marks[k],
        trailing(marks) < marks.len() ==> !marks[marks.len() - trailing(marks) - 1],
        leading(marks) < marks.len() ==> leading(marks) + trailing(marks) < marks.len(),
    decreases marks.len(),
{
    lemma_leading(marks);
    if marks.len() > 0 && marks.last() {
        let rest = marks.drop_last();
        lemma_trailing(rest);
        lemma_leading(rest);
        assert forall|k: int| marks.len() - trailing(marks) <= k < marks.len() implies marks[k] by {
            if k < marks.len() - 1 {
                assert(marks[k] == rest[k]);
            }
        }
        if trailing(marks) < marks.len() {
            assert(marks[marks.len() - trailing(marks) - 1] == rest[rest.len() - trailing(rest)
                - 1]);
        }
        if leading(marks) < marks.len() {
            lemma_leading_of_prefix(marks);
        }
    }
}

/// Where not every mark is set, the marks without the last start with as
/// many set marks as all of them do.
proof fn lemma_leading_of_prefix(marks: Seq<bool>)
    requires
        marks.len() > 0,
        leading(marks) < marks.len(),
    ensures
        leading(marks.drop_last()) == leading(marks),
    decreases marks.len(),
{
    if marks.first() {
        let rest = marks.drop_first();
        lemma_leading_of_prefix(rest);
        assert(marks.drop_last().drop_first() =~= rest.drop_last());
        assert(marks.drop_last().first() == marks.first());
    } else if marks.len() > 1 {
        assert(marks.drop_last().first() == marks.first());
    }
}

/// What is left of `s` after trimming neither starts nor ends with white
/// space, and everything that was cut off is white space.
pub proof fn lemma_trimmed(s: Seq<char>)
    ensures
        trimmed(s).len() > 0 ==> !is_white_space(trimmed(s).first()) && !is_white_space(
            trimmed(s).last(),
        ),
        forall|k: int| 0 <= k < kept_start(blanks(s)) ==> is_white_space(s[k]),
        forall|k: int| kept_end(blanks(s)) <= k < s.len() ==> is_white_space(s[k]),
        0 <= kept_start(blanks(s)) <= kept_end(blanks(s)) <= s.len(),
{
    let marks = blanks(s);
    lemma_kept_range(marks);
    assert forall|k: int| 0 <= k < kept_start(marks) implies is_white_space(s[k]) by {
        assert(marks[k]);
    }
    assert forall|k: int| kept_end(marks) <= k < s.len() implies is_white_space(s[k]) by {
        assert(marks[k]);
    }
}

/// The characters of `raw`, in order.
pub fn symbols_of(raw: &str) -> (symbols: Vec<char>)
    ensures
        symbols@ == raw@,
{
    let mut symbols: Vec<char> = Vec::new();
    for c in it: raw.chars()
        invariant
            it.seq() == raw@,
            symbols@ == it.seq().take(it.index() as int),
    {
        symbols.push(c);
    }
    symbols
}

/// For each of `symbols`, whether it is white space.
pub fn blanks_of(symbols: &Vec<char>) -> (marks: Vec<bool>)
    ensures
        marks@ == blanks(symbols@),
{
    let mut marks: Vec<bool> = Vec::new();
    let mut k: usize = 0;
    while k < symbols.len()
        invariant
            k <= symbols@.len(),
            marks@ == blanks(symbols@.take(k as int)),
        decreases symbols@.len() - k,
    {
        marks.push(symbols[k].is_whitespace());
        assert(blanks(symbols@.take(k as int)).push(is_white_space(symbols@[k as int]))
            =~= blanks(symbols@.take(k + 1)));
        k += 1;
    }
    assert(symbols@.take(k as int) =~= symbols@);
    marks
}

/// Where what is kept begins and ends when everything marked is cut off at
/// both ends.
pub fn kept_range(marks: &Vec<bool>) -> (range: (usize, usize))
    ensures
        range.0 == kept_start(marks@),
        range.1 == kept_end(marks@),
        range.0 <= range.1 <= marks@.len(),
{
    let n = marks.len();
    let mut lo: usize = 0;
    assert(marks@.skip(0) =~= marks@);
    while lo < n && marks[lo]
        invariant
            lo <= n,
            n == marks@.len(),
            leading(marks@) == lo + leading(marks@.skip(lo as int)),
        decreases n - lo,
    {
        assert(marks@.skip(lo as int).drop_first() =~= marks@.skip(lo + 1));
        lo += 1;
    }
    let mut hi: usize = n;
    assert(marks@.take(n as int) =~= marks@);
    while hi > lo && marks[hi - 1]
        invariant
            lo <= hi <= n,
            n == marks@.len(),
            trailing(marks@) == (n - hi) + trailing(marks@.take(hi as int)),
        decreases hi,
    {
        assert(marks@.take(hi as int).drop_last() =~= marks@.take(hi - 1));
        hi -= 1;
    }
    proof {
        lemma_kept_range(marks@);
    }
    (lo, hi)
}

/// The symbol sequence that a raw line of input stands for: its characters,
/// without the white space (line terminators included) around them.
pub fn trimmed_symbols(raw: &str) -> (symbols: Vec<char>)
    ensures
        symbols@ == trimmed(raw@),
{
    let all = symbols_of(raw);
    let marks = blanks_of(&all);
    let (lo, hi) = kept_range(&marks);
    let mut symbols: Vec<char> = Vec::new();
    let mut k: usize = lo;
    while k < hi
        invariant
            lo <= k <= hi <= all@.len(),
            symbols@ == all@.subrange(lo as int, k as int),
        decreases hi - k,
    {
        symbols.push(all[k]);
        assert(all@.subrange(lo as int, k as int).push(all@[k as int]) =~= all@.subrange(
            lo as int,
            k + 1,
        ));
        k += 1;
    }
    symbols
}

/// The character that stands for a gap in an alignment line.
pub const GAP_MARK: char = '-';

/// The decimal digit `d` as a character.
pub open spec fn digit_char(d: int) -> char
    recommends
        0 <= d <= 9,
{
    ('0' as int + d) as char
}

/// The line that shows one step of an alignment: the symbol of the first
/// sequence or a gap mark, the symbol of the second sequence or a gap mark,
/// and the cost of the step, separated by single spaces and followed by a
/// line break.
pub open spec fn line_of(op: EditOp) -> Seq<char> {
    match op {
        EditOp::Pair(x, y) => seq![x, ' ', y, ' ', digit_char(op.cost()), '\n'],
        EditOp::Delete(x) => seq![x, ' ', GAP_MARK, ' ', digit_char(op.cost()), '\n'],
        EditOp::Insert(y) => seq![GAP_MARK, ' ', y, ' ', digit_char(op.cost()), '\n'],
    }
}

/// The lines of the steps of an alignment, one after the other.
pub open spec fn alignment_text(ops: Seq<EditOp>) -> Seq<char>
    decreases ops.len(),
{
    if ops.len() == 0 {
        Seq::empty()
    } else {
        alignment_text(ops.drop_last()) + line_of(ops.last())
    }
}

/// The cost that an alignment line ends with: the value of the digit in front
/// of its line break.
pub open spec fn line_cost(line: Seq<char>) -> int
    recommends
        line.len() >= 2,
{
    line[line.len() - 2] as int - '0' as int
}

/// The sum of the costs that the lines of the steps end with.
pub open spec fn printed_cost(ops: Seq<EditOp>) -> int
    decreases ops.len(),
{
    if ops.len() == 0 {
        0
    } else {
        line_cost(line_of(ops[0])) + printed_cost(ops.drop_first())
    }
}

/// The cost at the end of a step's line is the cost of the step.
pub proof fn lemma_line_cost(op: EditOp)
    ensures
        line_cost(line_of(op)) == op.cost(),
{
}

/// The costs at the ends of the lines of an alignment add up to the cost of
/// the alignment.
pub proof fn lemma_printed_cost(ops: Seq<EditOp>)
    ensures
        printed_cost(ops) == total_cost(ops),
    decreases ops.len(),
{
    if ops.len() > 0 {
        lemma_line_cost(ops[0]);
        lemma_printed_cost(ops.drop_first());
    }
}

/// The costs at the ends of the lines of the alignment that is read back for
/// two sequences add up to their edit distance.
pub proof fn lemma_printed_cost_is_distance(first: Seq<char>, second: Seq<char>)
    ensures
        printed_cost(optimal_alignment(first, second)) == edit_distance(first, second),
{
    lemma_printed_cost(optimal_alignment(first, second));
    lemma_distance_is_least_cost(first, second);
}

/// What the line of each kind of step looks like: a match shows the symbol
/// twice and the cost zero, a substitution the two symbols and the cost one,
/// a deletion or an insertion the symbol, a gap mark on the other side, and
/// the cost two.
pub proof fn lemma_lines(x: char, y: char)
    ensures
        line_of(EditOp::Pair(x, x)) == seq![x, ' ', x, ' ', '0', '\n'],
        x != y ==> line_of(EditOp::Pair(x, y)) == seq![x, ' ', y, ' ', '1', '\n'],
        line_of(EditOp::Delete(x)) == seq![x, ' ', '-', ' ', '2', '\n'],
        line_of(EditOp::Insert(y)) == seq!['-', ' ', y, ' ', '2', '\n'],
{
}

/// Where the two sequences are the same, their distance is zero, and the
/// alignment has one line for each symbol, which shows the symbol matched
/// with itself.
pub proof fn lemma_identical_sequences(symbols: Seq<char>)
    ensures
        edit_distance(symbols, symbols) == 0,
        optimal_alignment(symbols, symbols).len() == symbols.len(),
        forall|k: int|
            0 <= k < symbols.len() ==> line_of(#[trigger] optimal_alignment(symbols, symbols)[k])
                == seq![symbols[k], ' ', symbols[k], ' ', '0', '\n'],
{
    lemma_scalar_symbols(symbols);
    lemma_distance_identical(symbols);
    lemma_alignment_identical(symbols);
}

/// Where one of the two sequences is empty, the distance is two for each
/// symbol of the other, and the alignment has one line for each of these
/// symbols: an insertion where the first sequence is the empty one, a
/// deletion where the second is.
pub proof fn lemma_empty_sequence(other: Seq<char>)
    ensures
        edit_distance(Seq::<char>::empty(), other) == 2 * other.len(),
        edit_distance(other, Seq::<char>::empty()) == 2 * other.len(),
        optimal_alignment(Seq::<char>::empty(), other).len() == other.len(),
        optimal_alignment(other, Seq::<char>::empty()).len() == other.len(),
        forall|k: int|
            0 <= k < other.len() ==> line_of(
                #[trigger] optimal_alignment(Seq::<char>::empty(), other)[k],
            ) == seq!['-', ' ', other[k], ' ', '2', '\n'],
        forall|k: int|
            0 <= k < other.len() ==> line_of(
                #[trigger] optimal_alignment(other, Seq::<char>::empty())[k],
            ) == seq![other[k], ' ', '-', ' ', '2', '\n'],
{
    lemma_scalar_symbols(other);
    lemma_distance_empty(other);
    lemma_alignment_with_empty(other);
}

/// The non-negative number `n` in decimal digits, without leading zeros.
pub open spec fn digits(n: nat) -> Seq<char>
    decreases n,
{
    if n < 10 {
        seq![digit_char(n as int)]
    } else {
        digits(n / 10).push(digit_char((n % 10) as int))
    }
}

/// The number `n` in decimal, with a minus sign in front where it is
/// negative.
pub open spec fn decimal(n: int) -> Seq<char> {
    if n < 0 {
        seq!['-'] + digits((-n) as nat)
    } else {
        digits(n as nat)
    }
}

/// The costs of one row, each followed by a tab.
pub open spec fn cells_text(row: Seq<int>) -> Seq<char>
    decreases row.len(),
{
    if row.len() == 0 {
        Seq::empty()
    } else {
        cells_text(row.drop_last()) + decimal(row.last()) + seq!['\t']
    }
}

/// A cost table as text: one line for each row, and in it each cost of the
/// row followed by a tab.
pub open spec fn table_text(rows: Seq<Seq<int>>) -> Seq<char>
    decreases rows.len(),
{
    if rows.len() == 0 {
        Seq::empty()
    } else {
        table_text(rows.drop_last()) + cells_text(rows.last()) + seq!['\n']
    }
}

/// The costs that a row of the table holds.
pub open spec fn row_view(row: Seq<i32>) -> Seq<int> {
    Seq::new(row.len(), |j: int| row[j] as int)
}

/// The costs that the table holds, row by row.
pub open spec fn table_view(rows: Seq<Vec<i32>>) -> Seq<Seq<int>> {
    Seq::new(rows.len(), |i: int| row_view(rows[i]@))
}

/// The character for the decimal digit `d`.
fn digit(d: u8) -> (c: char)
    requires
        d <= 9,
    ensures
        c == digit_char(d as int),
{
    (d + 48) as char
}

/// Appends the decimal digits of `n` to `text`.
fn push_digits(text: &mut String, n: u32)
    ensures
        final(text)@ == old(text)@ + digits(n as nat),
    decreases n,
{
    if n >= 10 {
        push_digits(text, n / 10);
    }
    text.push(digit((n % 10) as u8));
}

/// Appends `n` in decimal to `text`.
fn push_decimal(text: &mut String, n: i32)
    ensures
        final(text)@ == old(text)@ + decimal(n as int),
{
    if n < 0 {
        text.push('-');
        let magnitude: i64 = -(n as i64);
        push_digits(text, magnitude as u32);
    } else {
        push_digits(text, n as u32);
    }
}

/// Writes an alignment down, one line for each step.
pub fn write_alignment(ops: &Vec<EditOp>) -> (text: String)
    ensures
        text@ == alignment_text(ops@),
{
    let mut text = String::new();
    let mut k: usize = 0;
    while k < ops.len()
        invariant
            k <= ops@.len(),
            text@ == alignment_text(ops@.take(k as int)),
        decreases ops@.len() - k,
    {
        let ghost before = text@;
        let op = ops[k];
        match op {
            EditOp::Pair(x, y) => {
                text.push(x);
                text.push(' ');
                text.push(y);
                text.push(' ');
                text.push(if x == y { '0' } else { '1' });
            },
            EditOp::Delete(x) => {
                text.push(x);
                text.push(' ');
                text.push(GAP_MARK);
                text.push(' ');
                text.push('2');
            },
            EditOp::Insert(y) => {
                text.push(GAP_MARK);
                text.push(' ');
                text.push(y);
                text.push(' ');
                text.push('2');
            },
        }
        text.push('\n');
        proof {
            assert(text@ =~= before + line_of(op));
            assert(ops@.take(k + 1).drop_last() =~= ops@.take(k as int));
        }
        k += 1;
    }
    assert(ops@.take(k as int) =~= ops@);
    text
}

/// Writes a cost table down, one line for each row.
pub fn write_table(rows: &Vec<Vec<i32>>) -> (text: String)
    ensures
        text@ == table_text(table_view(rows@)),
{
    let mut text = String::new();
    let mut i: usize = 0;
    while i < rows.len()
        invariant
            i <= rows@.len(),
            text@ == table_text(table_view(rows@).take(i as int)),
        decreases rows@.len() - i,
    {
        let row = &rows[i];
        let ghost before = text@;
        let ghost costs = row_view(row@);
        let mut j: usize = 0;
        while j < row.len()
            invariant
                j <= row@.len(),
                costs == row_view(row@),
                text@ == before + cells_text(costs.take(j as int)),
            decreases row@.len() - j,
        {
            push_decimal(&mut text, row[j]);
            text.push('\t');
            proof {
                assert(costs.take(j + 1).drop_last() =~= costs.take(j as int));
                assert(text@ =~= before + cells_text(costs.take(j + 1)));
            }
            j += 1;
        }
        text.push('\n');
        proof {
            assert(costs.take(j as int) =~= costs);
            assert(table_view(rows@).take(i + 1).drop_last() =~= table_view(rows@).take(
                i as int,
            ));
            assert(text@ =~= table_text(table_view(rows@).take(i + 1)));
        }
        i += 1;
    }
    assert(table_view(rows@).take(i as int) =~= table_view(rows@));
    text
}

} // verus!
