use sudoku_solver::test_harness::{judge_puzzle, parse_puzzle};

#[test]
fn test_parse_puzzle() {
    let content = r#"8  .  . | .  .  . | .  .  .
.  .  3 | 6  .  . | .  .  .
.  7  . | .  9  . | 2  .  .
=====================
.  5  . | .  .  7 | .  .  .
.  .  . | .  4  5 | 7  .  .
.  .  . | 1  .  . | .  3  .
=====================
.  .  1 | .  .  . | .  6  8
.  .  8 | 5  .  . | .  1  .
.  9  . | .  .  . | 4  .  ."#;

    let entries = parse_puzzle(content);

    let expected = vec![
        (0, 0, 8),
        (1, 2, 3),
        (1, 3, 6),
        (2, 1, 7),
        (2, 4, 9),
        (2, 6, 2),
        (3, 1, 5),
        (3, 5, 7),
        (4, 4, 4),
        (4, 5, 5),
        (4, 6, 7),
        (5, 3, 1),
        (5, 7, 3),
        (6, 2, 1),
        (6, 7, 6),
        (6, 8, 8),
        (7, 2, 8),
        (7, 3, 5),
        (7, 7, 1),
        (8, 1, 9),
        (8, 6, 4),
    ];

    assert_eq!(entries.len(), 21, "Expected 21 entries, got {}", entries.len());

    for (i, (expected_entry, actual_entry)) in expected.iter().zip(entries.iter()).enumerate() {
        assert_eq!(
            actual_entry, expected_entry,
            "Entry {} mismatch: expected {:?}, got {:?}",
            i, expected_entry, actual_entry
        );
    }

    assert_eq!(entries, expected, "Parsed entries don't match expected entries");
}

#[test]
fn parse_puzzle_treats_dot_as_empty() {
    let content = r#".  .  . | .  .  . | .  .  .
.  .  . | .  .  . | .  .  .
.  .  . | .  .  . | .  .  .
=====================
.  .  . | .  .  . | .  .  .
.  .  . | .  .  . | .  .  .
.  .  . | .  .  . | .  .  .
=====================
.  .  . | .  .  . | .  .  .
.  .  . | .  .  . | .  .  .
.  .  . | .  .  . | .  .  ."#;

    let entries = parse_puzzle(content);
    assert!(entries.is_empty());
}

#[test]
fn parse_puzzle_ignores_incomplete_rows() {
    let content = r#"1  .  . | .  .  . | .  .  .
.  .  . | .  .  . | .  .
.  .  . | .  .  . | .  .  .
=====================
.  .  . | .  .  . | .  .  .
.  .  . | .  .  . | .  .  .
.  .  . | .  .  . | .  .  .
=====================
.  .  . | .  .  . | .  .  .
.  .  . | .  .  . | .  .  .
.  .  . | .  .  . | .  .  ."#;

    let entries = parse_puzzle(content);
    assert_eq!(entries, vec![(0, 0, 1)]);
}

#[test]
fn parse_puzzle_skips_comments_and_blank_lines() {
    let content = "# a comment\r\n\r\n  1 2 3 4 5 6 7 8 9  \r\n+===+===+\n# 9 9 9 9 9 9 9 9 9\n. . . . . . . . 5\n";
    assert_eq!(
        parse_puzzle(content),
        vec![
            (0, 0, 1),
            (0, 1, 2),
            (0, 2, 3),
            (0, 3, 4),
            (0, 4, 5),
            (0, 5, 6),
            (0, 6, 7),
            (0, 7, 8),
            (0, 8, 9),
            (1, 8, 5),
        ]
    );
}

#[test]
fn parse_puzzle_drops_a_row_with_a_bad_token() {
    let content = "4 . . . . . . . .\n7 8 x . . . . . 3\n. 2 . . . . . . .\n";
    assert_eq!(parse_puzzle(content), vec![(0, 0, 4), (1, 1, 2)]);
}

#[test]
fn parse_puzzle_reads_the_row_after_a_malformed_one_in_its_place() {
    let content = "1 x . . . . . . .\n. . . . . . . . 2";
    assert_eq!(parse_puzzle(content), vec![(0, 8, 2)]);
}

#[test]
fn parse_puzzle_reads_values_with_plus_and_leading_zeros_and_refuses_zero() {
    let content = "+1 02 . . . . . . .\n0 5 . . . . . . .\n";
    assert_eq!(parse_puzzle(content), vec![(0, 0, 1), (0, 1, 2)]);
}

#[test]
fn parse_puzzle_stops_after_nine_rows() {
    let mut content = String::new();
    for _ in 0..10 {
        content.push_str("1 . . . . . . . .\n");
    }
    let entries = parse_puzzle(&content);
    assert_eq!(entries.len(), 9);
    assert_eq!(entries[8], (8, 0, 1));
}

fn solved_rows() -> [[u8; 9]; 9] {
    [
        [5, 3, 4, 6, 7, 8, 9, 1, 2],
        [6, 7, 2, 1, 9, 5, 3, 4, 8],
        [1, 9, 8, 3, 4, 2, 5, 6, 7],
        [8, 5, 9, 7, 6, 1, 4, 2, 3],
        [4, 2, 6, 8, 5, 3, 7, 9, 1],
        [7, 1, 3, 9, 2, 4, 8, 5, 6],
        [9, 6, 1, 5, 3, 7, 2, 8, 4],
        [2, 8, 7, 4, 1, 9, 6, 3, 5],
        [3, 4, 5, 2, 8, 6, 1, 7, 9],
    ]
}

#[test]
fn judge_puzzle_without_clues_fails() {
    let (result, _) = judge_puzzle("empty.txt".to_string(), &Vec::new());
    assert_eq!(result.test_name, "empty.txt");
    assert!(!result.success);
    assert_eq!(result.message, "No valid puzzle entries found in file");
}

#[test]
fn judge_puzzle_passes_a_puzzle_its_clues_solve() {
    let mut entries = Vec::new();
    for (row, values) in solved_rows().iter().enumerate() {
        for (column, &value) in values.iter().enumerate() {
            if (row + column) % 3 != 0 {
                entries.push((row, column, value));
            }
        }
    }
    let (result, game) = judge_puzzle("solved.txt".to_string(), &entries);
    assert!(result.success, "{}", result.message);
    assert_eq!(result.message, "Puzzle solved successfully");
    assert!(game.is_solved());
}

#[test]
fn judge_puzzle_fails_a_puzzle_left_open() {
    let (result, game) = judge_puzzle("open.txt".to_string(), &vec![(0, 0, 5), (4, 4, 1)]);
    assert!(!result.success);
    assert_eq!(result.message, "Puzzle not solved after entering all values");
    assert!(!game.is_solved());
}

#[test]
fn judge_puzzle_reports_the_refused_clue() {
    let (result, _) = judge_puzzle("bad.txt".to_string(), &vec![(0, 0, 5), (0, 8, 5)]);
    assert!(!result.success);
    assert_eq!(result.message, "Error setting value 5 at (1, 9): 5 is not a valid entry for row 1 column 9");

    let (result, _) = judge_puzzle("off.txt".to_string(), &vec![(9, 0, 5)]);
    assert_eq!(result.message, "Error setting value 5 at (10, 1): Invalid row 10");
}

fn result(name: &str, message: &str) -> sudoku_solver::test_harness::TestResult {
    sudoku_solver::test_harness::TestResult {
        test_name: name.to_string(),
        success: true,
        message: message.to_string(),
    }
}

#[test]
fn sort_by_name_orders_results_and_keeps_equal_names_in_order() {
    let results = vec![
        result("b.txt", "first b"),
        result("a.txt", "first a"),
        result("ab.txt", "ab"),
        result("a.txt", "second a"),
        result("B.txt", "capital"),
    ];
    let sorted = sudoku_solver::test_harness::sort_by_name(results);
    let order: Vec<(String, String)> = sorted.into_iter().map(|r| (r.test_name, r.message)).collect();
    assert_eq!(
        order,
        vec![
            ("B.txt".to_string(), "capital".to_string()),
            ("a.txt".to_string(), "first a".to_string()),
            ("a.txt".to_string(), "second a".to_string()),
            ("ab.txt".to_string(), "ab".to_string()),
            ("b.txt".to_string(), "first b".to_string()),
        ]
    );
    assert!(sudoku_solver::test_harness::sort_by_name(Vec::new()).is_empty());
}

#[test]
fn parsed_clues_can_be_judged() {
    let content = "5 3 4 6 7 8 9 1 2\n6 7 2 1 9 5 3 4 8\n1 9 8 3 4 2 5 6 7\n8 5 9 7 6 1 4 2 3\n4 2 6 8 5 3 7 9 1\n7 1 3 9 2 4 8 5 6\n9 6 1 5 3 7 2 8 4\n2 8 7 4 1 9 6 3 5\n3 4 5 2 8 6 1 7 .\n";
    let entries = parse_puzzle(content);
    assert_eq!(entries.len(), 80);
    assert!(entries.iter().all(|&(r, c, v)| r < 9 && c < 9 && (1..=9).contains(&v)));
    let (outcome, game) = judge_puzzle("almost.txt".to_string(), &entries);
    assert!(outcome.success);
    assert!(game.is_solved());
}

#[test]
fn bars_only_help_reading() {
    let with_bars = "|8 . .|. . .|. . .|\n# note\n. . 3 | 6 . . | . . .\n=====|=====\n| # 1 2 3 4 5 6 7 8\n=|=|=|=|=|=|=|=|=\n. 7 . | . 9 . | 2 . .\n";
    let with_spaces = with_bars.replace('|', " ");
    assert_eq!(parse_puzzle(with_bars), parse_puzzle(&with_spaces));
    assert_eq!(parse_puzzle(with_bars), vec![(0, 0, 8), (1, 2, 3), (1, 3, 6), (2, 1, 7), (2, 4, 9), (2, 6, 2)]);
}
