use sudokusolver::solver::solve_z3;
use sudokusolver::text::parse_graph_strings;
use sudokusolver::rules::{fill_from_model, rules, Rule};
use sudokusolver::z3s::start;
use sudokusolver::{CellCoord, Graph};

fn puzzle_of(rows: [&str; 9]) -> Graph {
    parse_graph_strings(rows.iter().map(|r| r.to_string()).collect())
}

fn digits_of(graph: &Graph) -> Vec<String> {
    (0..9u8)
        .map(|y| {
            (0..9u8)
                .map(|x| match graph.get_cell(&CellCoord::new(x, y)).get_value() {
                    Some(v) => (b'0' + v) as char,
                    None => '0',
                })
                .collect()
        })
        .collect()
}

fn model_of(rows: [&str; 9]) -> Vec<Option<i64>> {
    let mut values = vec![];
    for x in 0..9 {
        for y in 0..9 {
            values.push(Some((rows[y].as_bytes()[x] - b'0') as i64));
        }
    }
    values
}

const PUZZLE: [&str; 9] = [
    "530070000",
    "600195000",
    "098000060",
    "800060003",
    "400803001",
    "700020006",
    "060000280",
    "000419005",
    "000080079",
];

const SOLVED: [&str; 9] = [
    "534678912",
    "672195348",
    "198342567",
    "859761423",
    "426853791",
    "713924856",
    "961537284",
    "287419635",
    "345286179",
];

#[test]
fn solver_finds_the_solution() {
    let solved = start(puzzle_of(PUZZLE)).unwrap();
    assert_eq!(digits_of(&solved), SOLVED);
}

#[test]
fn solver_fills_one_missing_row() {
    let mut rows = SOLVED;
    rows[3] = "000000000";
    let solved = solve_z3(puzzle_of(rows)).unwrap();
    assert_eq!(digits_of(&solved), SOLVED);
}

#[test]
fn solver_reports_a_puzzle_without_solution() {
    let mut rows = ["000000000"; 9];
    rows[0] = "123456780";
    rows[5] = "000000009";
    assert!(start(puzzle_of(rows)).is_none());
}

#[test]
fn solver_result_obeys_the_rules() {
    let rows = [
        "000260701",
        "680070090",
        "190004500",
        "820100040",
        "004602900",
        "050003028",
        "009300074",
        "040050036",
        "703018000",
    ];
    let mut solved = start(puzzle_of(rows)).unwrap();
    assert!(solved.is_filled());
    for x in 0..9u8 {
        for y in 0..9u8 {
            let cell = solved.get_cell(&CellCoord::new(x, y));
            let here = cell.get_value().unwrap();
            assert!((1..=9).contains(&here));
            for n in cell.get_neighbours() {
                assert_ne!(solved.get_cell(n).get_value(), Some(here));
            }
        }
    }
    assert_eq!(digits_of(&solved)[0], "435269781");
}

#[test]
fn solver_leaves_no_blank_beside_a_dead_cell() {
    let mut rows = SOLVED;
    rows[0] = "534678910";
    rows[3] = "859761402";
    assert!(start(puzzle_of(rows)).is_none());
}

#[test]
fn model_that_fits_fills_the_blanks() {
    let filled = fill_from_model(puzzle_of(PUZZLE), &model_of(SOLVED)).unwrap();
    assert_eq!(digits_of(&filled), SOLVED);
}

#[test]
fn model_does_not_replace_givens() {
    let mut values = model_of(SOLVED);
    values[0] = Some(9);
    values[1] = None;
    let filled = fill_from_model(puzzle_of(PUZZLE), &values).unwrap();
    assert_eq!(digits_of(&filled), SOLVED);
}

#[test]
fn model_without_a_value_for_a_blank_is_refused() {
    let mut values = model_of(SOLVED);
    values[2 * 9] = None;
    assert!(fill_from_model(puzzle_of(PUZZLE), &values).is_none());
}

#[test]
fn model_with_a_value_out_of_range_is_refused() {
    for bad in [0i64, 10, -4, 260] {
        let mut values = model_of(SOLVED);
        values[2 * 9] = Some(bad);
        assert!(fill_from_model(puzzle_of(PUZZLE), &values).is_none());
    }
}

#[test]
fn model_that_clashes_with_a_given_is_refused() {
    let mut values = model_of(SOLVED);
    values[2 * 9] = Some(5);
    assert!(fill_from_model(puzzle_of(PUZZLE), &values).is_none());
}

#[test]
fn model_that_clashes_with_itself_is_refused() {
    let mut values = vec![None; 81];
    let mut rows = SOLVED;
    rows[8] = "345286100";
    values[7 * 9 + 8] = Some(9);
    values[8 * 9 + 8] = Some(9);
    assert!(fill_from_model(puzzle_of(rows), &values).is_none());
    values[7 * 9 + 8] = Some(7);
    let filled = fill_from_model(puzzle_of(rows), &values).unwrap();
    assert_eq!(digits_of(&filled), SOLVED);
}

#[test]
fn model_of_the_wrong_length_is_refused() {
    let mut values = model_of(SOLVED);
    values.pop();
    assert!(fill_from_model(puzzle_of(PUZZLE), &values).is_none());
    assert!(fill_from_model(puzzle_of(SOLVED), &vec![]).is_none());
}

#[test]
fn full_grid_has_no_rules() {
    assert_eq!(rules(&puzzle_of(SOLVED)), vec![]);
}

#[test]
fn empty_grid_has_the_rules_of_every_cell() {
    let all = rules(&Graph::new());
    assert_eq!(all.len(), 81 * 21);
    assert_eq!(all[0], Rule::Digit(0));
    assert_eq!(all[1], Rule::Differ(0, 10));
    assert_eq!(all[21], Rule::Digit(1));
    assert_eq!(all[80 * 21], Rule::Digit(80));
    assert_eq!(all[81 * 21 - 1], Rule::Differ(80, 79));
}

#[test]
fn one_blank_has_its_rules_in_the_order_of_its_neighbours() {
    let mut rows = SOLVED;
    rows[4] = "426803791";
    let k = 4 * 9 + 4;
    let mut expected = vec![Rule::Digit(k)];
    let others = [
        (3, 3), (3, 5), (5, 3), (5, 5),
        (0, 4), (1, 4), (2, 4), (3, 4), (5, 4), (6, 4), (7, 4), (8, 4),
        (4, 0), (4, 1), (4, 2), (4, 3), (4, 5), (4, 6), (4, 7), (4, 8),
    ];
    for (x, y) in others {
        expected.push(Rule::Differ(k, 9 * x + y));
    }
    assert_eq!(rules(&puzzle_of(rows)), expected);
}
