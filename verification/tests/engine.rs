use edit_distance::{EditMatrix, EditOp, GAP_COST, MATCH_COST, MAX_LEN, MISMATCH_COST};

fn engine(first: &str, second: &str) -> EditMatrix {
    EditMatrix::new(String::from(first), String::from(second))
}

fn distance(first: &str, second: &str) -> i32 {
    engine(first, second).opt_distance()
}

fn aligned(first: &str, second: &str) -> String {
    let mut ed = engine(first, second);
    ed.opt_distance();
    ed.alignment()
}

#[test]
fn test_penalty() {
    assert_eq!(EditMatrix::penalty('a', 'a'), 0);
    assert_eq!(EditMatrix::penalty('a', 'b'), 1);
}

#[test]
fn test_min() {
    assert_eq!(EditMatrix::min(1, 2, 3), 1);
}

#[test]
fn test_opt_distance() {
    let mut test_ed = EditMatrix::new(String::from("AACAGTTACC"), String::from("TAAGGTCA"));
    assert_eq!(test_ed.opt_distance(), 7)
}

#[test]
fn test_alignment() {
    let mut test_ed = EditMatrix::new(String::from("AACAGTTACC"), String::from("TAAGGTCA"));
    test_ed.opt_distance();
    assert_eq!(
        test_ed.alignment(),
        String::from("A T 1\nA A 0\nC - 2\nA A 0\nG G 0\nT G 1\nT T 0\nA - 2\nC C 0\nC A 1\n")
    );
}

#[test]
fn scoring_constants() {
    assert_eq!(MATCH_COST, 0);
    assert_eq!(MISMATCH_COST, 1);
    assert_eq!(GAP_COST, 2);
    assert_eq!(MAX_LEN, 1_073_741_822);
}

#[test]
fn penalty_is_zero_for_equal_symbols_only() {
    let symbols = ['A', 'C', 'G', 'T', 'a', ' ', '-', '\n', 'é', '\u{10FFFF}', '\0'];
    for a in symbols {
        for b in symbols {
            let expected = if a == b { 0 } else { 1 };
            assert_eq!(EditMatrix::penalty(a, b), expected);
        }
    }
}

#[test]
fn penalty_tells_case_apart() {
    assert_eq!(EditMatrix::penalty('a', 'A'), 1);
    assert_eq!(EditMatrix::penalty('A', 'a'), 1);
}

#[test]
fn min_in_every_order() {
    assert_eq!(EditMatrix::min(1, 2, 3), 1);
    assert_eq!(EditMatrix::min(1, 3, 2), 1);
    assert_eq!(EditMatrix::min(2, 1, 3), 1);
    assert_eq!(EditMatrix::min(2, 3, 1), 1);
    assert_eq!(EditMatrix::min(3, 1, 2), 1);
    assert_eq!(EditMatrix::min(3, 2, 1), 1);
}

#[test]
fn min_with_ties() {
    assert_eq!(EditMatrix::min(4, 4, 9), 4);
    assert_eq!(EditMatrix::min(4, 9, 4), 4);
    assert_eq!(EditMatrix::min(9, 4, 4), 4);
    assert_eq!(EditMatrix::min(7, 7, 7), 7);
}

#[test]
fn min_at_the_ends_of_the_range() {
    assert_eq!(EditMatrix::min(i32::MAX, i32::MIN, 0), i32::MIN);
    assert_eq!(EditMatrix::min(i32::MAX, i32::MAX, i32::MAX), i32::MAX);
    assert_eq!(EditMatrix::min(-1, 0, 1), -1);
    assert_eq!(EditMatrix::min(0, -5, -3), -5);
}

#[test]
fn distance_of_small_examples() {
    assert_eq!(distance("AB", "A"), 2);
    assert_eq!(distance("AB", "BA"), 2);
    assert_eq!(distance("ABC", "XBC"), 1);
    assert_eq!(distance("AXB", "AB"), 2);
    assert_eq!(distance("kitten", "sitting"), 4);
    assert_eq!(distance("ACGTACGTAC", "TTTT"), 14);
}

#[test]
fn distance_is_the_same_both_ways() {
    let pairs = [
        ("AACAGTTACC", "TAAGGTCA"),
        ("kitten", "sitting"),
        ("AB", "A"),
        ("", "ACGT"),
        ("ACGTACGTAC", "TTTT"),
        ("GATTACA", "GATTACA"),
    ];
    for (a, b) in pairs {
        assert_eq!(distance(a, b), distance(b, a));
    }
    assert_eq!(distance("TAAGGTCA", "AACAGTTACC"), 7);
}

#[test]
fn alignment_of_the_swapped_scenario() {
    assert_eq!(
        aligned("TAAGGTCA", "AACAGTTACC"),
        "T A 1\nA A 0\n- C 2\nA A 0\nG G 0\nG T 1\nT T 0\n- A 2\nC C 0\nA C 1\n"
    );
}

#[test]
fn empty_first_sequence_is_all_insertions() {
    assert_eq!(distance("", "ACGT"), 8);
    assert_eq!(aligned("", "ACGT"), "- A 2\n- C 2\n- G 2\n- T 2\n");
}

#[test]
fn empty_second_sequence_is_all_deletions() {
    assert_eq!(distance("ACGT", ""), 8);
    assert_eq!(aligned("ACGT", ""), "A - 2\nC - 2\nG - 2\nT - 2\n");
}

#[test]
fn two_empty_sequences() {
    let mut ed = engine("", "");
    assert_eq!(ed.to_text(), "0\t\n");
    assert_eq!(ed.opt_distance(), 0);
    assert_eq!(ed.alignment(), "");
    assert_eq!(ed.alignment_steps(), Vec::<EditOp>::new());
    assert_eq!(ed.to_text(), "0\t\n");
}

#[test]
fn identical_sequences_are_all_matches() {
    assert_eq!(distance("GATTACA", "GATTACA"), 0);
    assert_eq!(
        aligned("GATTACA", "GATTACA"),
        "G G 0\nA A 0\nT T 0\nT T 0\nA A 0\nC C 0\nA A 0\n"
    );
    let mut ed = engine("GATTACA", "GATTACA");
    ed.opt_distance();
    for (op, x) in ed.alignment_steps().into_iter().zip("GATTACA".chars()) {
        assert_eq!(op, EditOp::Pair(x, x));
    }
}

#[test]
fn no_common_symbol() {
    assert_eq!(distance("AAA", "CC"), 4);
    assert_eq!(aligned("AAA", "CC"), "A C 1\nA C 1\nA - 2\n");
    assert_eq!(distance("CC", "AAA"), 4);
    assert_eq!(distance("ACAC", "GTGT"), 4);
    assert_eq!(distance("A", "GTGTG"), 9);
}

#[test]
fn the_remaining_suffix_is_written_out_in_full() {
    assert_eq!(aligned("kitten", "sitting"), "k s 1\ni i 0\nt t 0\nt t 0\ne i 1\nn n 0\n- g 2\n");
    assert_eq!(aligned("AB", "ABCDE"), "A A 0\nB B 0\n- C 2\n- D 2\n- E 2\n");
    assert_eq!(aligned("ABCDE", "AB"), "A A 0\nB B 0\nC - 2\nD - 2\nE - 2\n");
}

#[test]
fn a_substitution_is_preferred_to_two_gaps() {
    assert_eq!(aligned("AB", "BA"), "A B 1\nB A 1\n");
    assert_eq!(aligned("ABC", "XBC"), "A X 1\nB B 0\nC C 0\n");
}

#[test]
fn a_gap_in_the_middle() {
    assert_eq!(aligned("AXB", "AB"), "A A 0\nX - 2\nB B 0\n");
    assert_eq!(aligned("AB", "AXB"), "A A 0\n- X 2\nB B 0\n");
    assert_eq!(aligned("ACGTACGTAC", "TTTT"), "A T 1\nC T 1\nG - 2\nT T 0\nA - 2\nC - 2\nG - 2\nT T 0\nA - 2\nC - 2\n");
}

#[test]
fn steps_of_the_scenario() {
    let mut ed = engine("AACAGTTACC", "TAAGGTCA");
    ed.opt_distance();
    assert_eq!(
        ed.alignment_steps(),
        vec![
            EditOp::Pair('A', 'T'),
            EditOp::Pair('A', 'A'),
            EditOp::Delete('C'),
            EditOp::Pair('A', 'A'),
            EditOp::Pair('G', 'G'),
            EditOp::Pair('T', 'G'),
            EditOp::Pair('T', 'T'),
            EditOp::Delete('A'),
            EditOp::Pair('C', 'C'),
            EditOp::Pair('C', 'A'),
        ]
    );
}

#[test]
fn steps_account_for_every_symbol_of_both_sequences() {
    let pairs = [
        ("AACAGTTACC", "TAAGGTCA"),
        ("kitten", "sitting"),
        ("", "ACGT"),
        ("ACGT", ""),
        ("ACGTACGTAC", "TTTT"),
        ("héllo", "hello"),
    ];
    for (a, b) in pairs {
        let mut ed = engine(a, b);
        ed.opt_distance();
        let mut first = String::new();
        let mut second = String::new();
        for op in ed.alignment_steps() {
            match op {
                EditOp::Pair(x, y) => {
                    first.push(x);
                    second.push(y);
                }
                EditOp::Delete(x) => first.push(x),
                EditOp::Insert(y) => second.push(y),
            }
        }
        assert_eq!(first, a);
        assert_eq!(second, b);
    }
}

fn cost_at_line_end(line: &str) -> i32 {
    let last = line.chars().last().unwrap();
    last.to_digit(10).unwrap() as i32
}

#[test]
fn costs_at_the_line_ends_add_up_to_the_distance() {
    let pairs = [
        ("AACAGTTACC", "TAAGGTCA"),
        ("TAAGGTCA", "AACAGTTACC"),
        ("kitten", "sitting"),
        ("AB", "BA"),
        ("", "ACGT"),
        ("ACGT", ""),
        ("", ""),
        ("GATTACA", "GATTACA"),
        ("AAA", "CC"),
        ("ACGTACGTAC", "TTTT"),
        ("AB", "ABCDE"),
    ];
    for (a, b) in pairs {
        let mut ed = engine(a, b);
        let d = ed.opt_distance();
        let text = ed.alignment();
        let total: i32 = text.lines().map(cost_at_line_end).sum();
        assert_eq!(total, d);
    }
}

#[test]
fn alignment_leaves_the_engine_as_it_is() {
    let mut ed = engine("AACAGTTACC", "TAAGGTCA");
    ed.opt_distance();
    let table = ed.to_text();
    let once = ed.alignment();
    let twice = ed.alignment();
    assert_eq!(once, twice);
    assert_eq!(ed.to_text(), table);
    assert!(ed.is_populated());
    assert_eq!(ed.opt_distance(), 7);
    assert_eq!(ed.alignment(), once);
}

#[test]
fn populated_only_after_opt_distance() {
    let mut ed = engine("AB", "A");
    assert!(!ed.is_populated());
    ed.opt_distance();
    assert!(ed.is_populated());
}

#[test]
fn table_starts_as_zeros() {
    assert_eq!(engine("AB", "A").to_text(), "0\t0\t\n0\t0\t\n0\t0\t\n");
    assert_eq!(engine("", "ACGT").to_text(), "0\t0\t0\t0\t0\t\n");
    assert_eq!(engine("ACGT", "").to_text(), "0\t\n0\t\n0\t\n0\t\n0\t\n");
}

#[test]
fn table_after_population() {
    let mut ed = engine("AB", "A");
    ed.opt_distance();
    assert_eq!(ed.to_text(), "2\t4\t\n1\t2\t\n2\t0\t\n");
    let mut ed = engine("AAA", "CC");
    ed.opt_distance();
    assert_eq!(ed.to_text(), "4\t5\t6\t\n2\t3\t4\t\n3\t1\t2\t\n4\t2\t0\t\n");
}

#[test]
fn table_with_costs_of_two_digits() {
    let mut ed = engine("AAAAAA", "");
    ed.opt_distance();
    assert_eq!(ed.to_text(), "12\t\n10\t\n8\t\n6\t\n4\t\n2\t\n0\t\n");
    let mut ed = engine("kitten", "sitting");
    ed.opt_distance();
    assert_eq!(
        ed.to_text(),
        "4\t5\t6\t7\t8\t10\t11\t12\t\n5\t3\t4\t5\t6\t8\t9\t10\t\n7\t5\t3\t3\t5\t6\t7\t8\t\n9\t7\t5\t3\t3\t4\t5\t6\t\n11\t9\t7\t5\t3\t2\t3\t4\t\n12\t10\t8\t6\t4\t2\t1\t2\t\n14\t12\t10\t8\t6\t4\t2\t0\t\n"
    );
}

fn rows_of(text: &str) -> Vec<Vec<i32>> {
    text.lines()
        .map(|line| line.split('\t').filter(|c| !c.is_empty()).map(|c| c.parse().unwrap()).collect())
        .collect()
}

#[test]
fn last_row_and_last_column_count_two_for_each_symbol_left() {
    let pairs = [("AACAGTTACC", "TAAGGTCA"), ("kitten", "sitting"), ("", "ACGT"), ("AB", "A")];
    for (a, b) in pairs {
        let mut ed = engine(a, b);
        ed.opt_distance();
        let n = ed.first_len();
        let m = ed.second_len();
        let rows = rows_of(&ed.to_text());
        assert_eq!(rows.len(), n + 1);
        for i in 0..=n {
            assert_eq!(rows[i].len(), m + 1);
            assert_eq!(rows[i][m], 2 * (n - i) as i32);
        }
        for j in 0..=m {
            assert_eq!(rows[n][j], 2 * (m - j) as i32);
        }
        assert_eq!(rows[n][m], 0);
    }
}

#[test]
fn first_cell_is_the_distance() {
    let mut ed = engine("AACAGTTACC", "TAAGGTCA");
    let d = ed.opt_distance();
    assert_eq!(rows_of(&ed.to_text())[0][0], d);
}

#[test]
fn white_space_around_the_input_is_dropped() {
    let ed = engine("  AACAGTTACC\r\n", "\tTAAGGTCA \n");
    assert_eq!(ed.first_len(), 10);
    assert_eq!(ed.second_len(), 8);
    assert_eq!(distance("  AACAGTTACC\r\n", "\tTAAGGTCA \n"), 7);
    assert_eq!(aligned(" AB\n", "AB"), "A A 0\nB B 0\n");
}

#[test]
fn white_space_inside_the_input_stays() {
    let ed = engine(" A B ", "AB");
    assert_eq!(ed.first_len(), 3);
    assert_eq!(aligned(" A B ", "AB"), "A A 0\n  - 2\nB B 0\n");
}

#[test]
fn input_of_white_space_only_is_empty() {
    let mut ed = engine(" \t\r\n", "\n");
    assert_eq!(ed.first_len(), 0);
    assert_eq!(ed.second_len(), 0);
    assert_eq!(ed.opt_distance(), 0);
    assert_eq!(ed.alignment(), "");
}

#[test]
fn unicode_white_space_is_dropped_too() {
    let ed = engine("\u{A0}AB\u{2003}", "\u{3000}AB\u{85}");
    assert_eq!(ed.first_len(), 2);
    assert_eq!(ed.second_len(), 2);
}

#[test]
fn symbols_are_characters_not_bytes() {
    let mut ed = engine("héllo", "hello");
    assert_eq!(ed.first_len(), 5);
    assert_eq!(ed.opt_distance(), 1);
    assert_eq!(ed.alignment(), "h h 0\né e 1\nl l 0\nl l 0\no o 0\n");
}

#[test]
fn from_symbols_takes_the_symbols_as_they_are() {
    let mut ed = EditMatrix::from_symbols(vec![' ', 'A'], vec!['A', '\n']);
    assert_eq!(ed.first_len(), 2);
    assert_eq!(ed.second_len(), 2);
    assert!(!ed.is_populated());
    assert_eq!(ed.to_text(), "0\t0\t0\t\n0\t0\t0\t\n0\t0\t0\t\n");
    assert_eq!(ed.opt_distance(), 2);
    assert_eq!(ed.alignment(), "  A 1\nA \n 1\n");
}

#[test]
fn from_symbols_agrees_with_new() {
    let mut a = EditMatrix::from_symbols("AACAGTTACC".chars().collect(), "TAAGGTCA".chars().collect());
    let mut b = engine("AACAGTTACC", "TAAGGTCA");
    assert_eq!(a.opt_distance(), b.opt_distance());
    assert_eq!(a.alignment(), b.alignment());
    assert_eq!(a.to_text(), b.to_text());
}

#[test]
fn longer_sequences() {
    let a = "ACGT".repeat(100);
    let b = "TGCA".repeat(75);
    let mut ed = engine(&a, &b);
    let d = ed.opt_distance();
    assert_eq!(d, engine(&b, &a).opt_distance());
    assert!(d >= 2 * 100);
    assert!(d <= 2 * 400 - 300);
    let text = ed.alignment();
    let total: i32 = text.lines().map(cost_at_line_end).sum();
    assert_eq!(total, d);
    let same = engine(&a, &a).opt_distance();
    assert_eq!(same, 0);
}
