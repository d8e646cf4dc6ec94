use sudokusolver::text::{is_puzzle_text, parse_graph_strings};
use sudokusolver::{CellCoord, Graph};

fn text_lines(rows: [&str; 9]) -> Vec<String> {
    rows.iter().map(|r| r.to_string()).collect()
}

const PUZZLE: [&str; 9] = [
    "530070000",
    "600195000",
    "098000060",
    "800060003",
    "400803001",
    "700020006",
    "060000280",
    "000419005",
    "000080079",
];

#[test]
fn parse_keeps_every_digit() {
    let graph = parse_graph_strings(text_lines(PUZZLE));
    for (y, row) in PUZZLE.iter().enumerate() {
        for (x, c) in row.chars().enumerate() {
            let value = graph.get_cell(&CellCoord::new(x as u8, y as u8)).get_value();
            let digit = c.to_digit(10).unwrap() as u8;
            assert_eq!(value, if digit == 0 { None } else { Some(digit) });
        }
    }
}

#[test]
fn parse_reads_lines_as_rows() {
    let graph = parse_graph_strings(text_lines(PUZZLE));
    assert_eq!(graph.get_cell(&CellCoord::new(0, 0)).get_value(), Some(5));
    assert_eq!(graph.get_cell(&CellCoord::new(1, 0)).get_value(), Some(3));
    assert_eq!(graph.get_cell(&CellCoord::new(2, 0)).get_value(), None);
    assert_eq!(graph.get_cell(&CellCoord::new(4, 0)).get_value(), Some(7));
    assert_eq!(graph.get_cell(&CellCoord::new(0, 1)).get_value(), Some(6));
    assert_eq!(graph.get_cell(&CellCoord::new(8, 8)).get_value(), Some(9));
    assert_eq!(graph.get_cell(&CellCoord::new(7, 8)).get_value(), Some(7));
    assert_eq!(graph.get_cell(&CellCoord::new(8, 7)).get_value(), Some(5));
}

#[test]
fn parse_of_zeros_is_the_empty_grid() {
    let mut graph = parse_graph_strings(text_lines(["000000000"; 9]));
    for x in 0..9u8 {
        for y in 0..9u8 {
            assert_eq!(graph.get_cell(&CellCoord::new(x, y)).get_value(), None);
        }
    }
    assert!(!graph.is_filled());
}

#[test]
fn puzzle_text_is_accepted() {
    assert!(is_puzzle_text(&text_lines(PUZZLE)));
}

#[test]
fn too_few_lines_are_rejected() {
    let mut lines = text_lines(PUZZLE);
    lines.pop();
    assert!(!is_puzzle_text(&lines));
    assert!(!is_puzzle_text(&vec![]));
}

#[test]
fn too_many_lines_are_rejected() {
    let mut lines = text_lines(PUZZLE);
    lines.push("000000000".to_string());
    assert!(!is_puzzle_text(&lines));
}

#[test]
fn a_short_line_is_rejected() {
    let mut lines = text_lines(PUZZLE);
    lines[4] = "40080300".to_string();
    assert!(!is_puzzle_text(&lines));
}

#[test]
fn a_long_line_is_rejected() {
    let mut lines = text_lines(PUZZLE);
    lines[8] = "0000800790".to_string();
    assert!(!is_puzzle_text(&lines));
}

#[test]
fn a_character_that_is_no_digit_is_rejected() {
    let mut lines = text_lines(PUZZLE);
    lines[0] = "53..7....".to_string();
    assert!(!is_puzzle_text(&lines));
    lines[0] = "53007000x".to_string();
    assert!(!is_puzzle_text(&lines));
    lines[0] = "5300700\u{e9}0".to_string();
    assert!(!is_puzzle_text(&lines));
}

#[test]
fn pretty_print_of_the_empty_grid() {
    let graph = Graph::new();
    let line = "||                  ||\n";
    assert_eq!(graph.pretty_print(), format!("{}\n", line.repeat(9)));
}

#[test]
fn pretty_print_shows_rows_as_lines() {
    let graph = parse_graph_strings(text_lines(PUZZLE));
    let expected = "\
||5 3     7         ||
||6     1 9 5       ||
||  9 8         6   ||
||8       6       3 ||
||4     8   3     1 ||
||7       2       6 ||
||  6         2 8   ||
||      4 1 9     5 ||
||        8     7 9 ||

";
    assert_eq!(graph.pretty_print(), expected);
}
