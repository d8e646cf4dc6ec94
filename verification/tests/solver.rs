use std::collections::VecDeque;
use sudokusolver::propagate::propagate;
use sudokusolver::solver::{algorithm, most_constrained_cell, push_branches, solve_tree_search};
use sudokusolver::text::parse_graph_strings;
use sudokusolver::{CellCoord, Graph};

fn grid_of(rows: [&str; 9]) -> Graph {
    parse_graph_strings(rows.iter().map(|r| r.to_string()).collect())
}

fn rows_of(graph: &Graph) -> Vec<String> {
    (0..9u8)
        .map(|y| {
            (0..9u8)
                .map(|x| match graph.get_cell(&CellCoord::new(x, y)).get_value() {
                    Some(v) => (b'0' + v) as char,
                    None => '0',
                })
                .collect()
        })
        .collect()
}

fn is_valid_solution(graph: &Graph) -> bool {
    for x in 0..9u8 {
        for y in 0..9u8 {
            let here = match graph.get_cell(&CellCoord::new(x, y)).get_value() {
                Some(v) if (1..=9).contains(&v) => v,
                _ => return false,
            };
            for i in 0..9u8 {
                for j in 0..9u8 {
                    let near = i == x || j == y || (i / 3 == x / 3 && j / 3 == y / 3);
                    if (i, j) != (x, y) && near {
                        if graph.get_cell(&CellCoord::new(i, j)).get_value() == Some(here) {
                            return false;
                        }
                    }
                }
            }
        }
    }
    true
}

const PUZZLE: [&str; 9] = [
    "530070000",
    "600195000",
    "098000060",
    "800060003",
    "400803001",
    "700020006",
    "060000280",
    "000419005",
    "000080079",
];

const SOLVED: [&str; 9] = [
    "534678912",
    "672195348",
    "198342567",
    "859761423",
    "426853791",
    "713924856",
    "961537284",
    "287419635",
    "345286179",
];

const HARD: [&str; 9] = [
    "000000907",
    "000420180",
    "000705026",
    "100904000",
    "050000040",
    "000507009",
    "920108000",
    "034059000",
    "507000000",
];

const HARD_SOLVED: [&str; 9] = [
    "462831957",
    "795426183",
    "381795426",
    "173984265",
    "659312748",
    "248567319",
    "926178534",
    "834259671",
    "517643892",
];

#[test]
fn propagate_fills_a_forced_cell() {
    let mut rows = SOLVED;
    rows[4] = "426803791";
    let mut graph = grid_of(rows);
    propagate(&mut graph);
    assert_eq!(rows_of(&graph), SOLVED);
}

#[test]
fn propagate_chains_forced_cells() {
    let mut graph = grid_of(PUZZLE);
    propagate(&mut graph);
    assert_eq!(rows_of(&graph), SOLVED);
}

#[test]
fn propagate_leaves_the_empty_grid() {
    let mut graph = Graph::new();
    propagate(&mut graph);
    assert_eq!(rows_of(&graph), ["000000000"; 9]);
}

#[test]
fn propagate_twice_changes_nothing_more() {
    for rows in [PUZZLE, HARD, SOLVED, ["000000000"; 9]] {
        let mut graph = grid_of(rows);
        propagate(&mut graph);
        let once = rows_of(&graph);
        propagate(&mut graph);
        assert_eq!(rows_of(&graph), once);
    }
}

#[test]
fn propagate_leaves_no_cell_with_one_candidate() {
    let mut graph = grid_of(HARD);
    propagate(&mut graph);
    for x in 0..9u8 {
        for y in 0..9u8 {
            let cell = graph.get_cell(&CellCoord::new(x, y));
            if let Some(values) = cell.get_possible_values(&graph) {
                assert_ne!(values.len(), 1);
            }
        }
    }
}

#[test]
fn propagate_keeps_the_givens() {
    let mut graph = grid_of(HARD);
    propagate(&mut graph);
    let after = rows_of(&graph);
    for y in 0..9 {
        for x in 0..9 {
            let given = HARD[y].as_bytes()[x];
            if given != b'0' {
                assert_eq!(after[y].as_bytes()[x], given);
            }
        }
    }
}

#[test]
fn most_constrained_cell_of_the_empty_grid_is_the_last() {
    let graph = Graph::new();
    assert_eq!(most_constrained_cell(&graph), Some((8, 8)));
}

#[test]
fn most_constrained_cell_has_the_fewest_candidates() {
    let mut graph = Graph::new();
    graph.get_cell_mutable(&CellCoord::new(0, 0)).set_value(1);
    graph.get_cell_mutable(&CellCoord::new(1, 1)).set_value(2);
    graph.get_cell_mutable(&CellCoord::new(5, 2)).set_value(3);
    assert_eq!(most_constrained_cell(&graph), Some((2, 2)));
}

#[test]
fn most_constrained_cell_takes_the_last_of_equals() {
    let mut graph = Graph::new();
    graph.get_cell_mutable(&CellCoord::new(4, 4)).set_value(5);
    assert_eq!(most_constrained_cell(&graph), Some((8, 4)));
    graph.get_cell_mutable(&CellCoord::new(8, 8)).set_value(5);
    assert_eq!(most_constrained_cell(&graph), Some((8, 7)));
}

#[test]
fn most_constrained_cell_skips_cells_without_candidates() {
    let mut graph = Graph::new();
    for v in 1..=8u8 {
        graph.get_cell_mutable(&CellCoord::new(v, 0)).set_value(v);
    }
    graph.get_cell_mutable(&CellCoord::new(0, 5)).set_value(9);
    let chosen = most_constrained_cell(&graph);
    assert_ne!(chosen, Some((0, 0)));
    assert_eq!(chosen, Some((8, 2)));
}

#[test]
fn most_constrained_cell_of_a_full_grid_is_absent() {
    let graph = grid_of(SOLVED);
    assert_eq!(most_constrained_cell(&graph), None);
}

#[test]
fn push_branches_puts_the_largest_candidate_on_top() {
    let mut graph = Graph::new();
    for v in 1..=6u8 {
        graph.get_cell_mutable(&CellCoord::new(v, 0)).set_value(v);
    }
    let at = CellCoord::new(0, 0);
    let mut stack: VecDeque<Graph> = VecDeque::new();
    stack.push_front(Graph::new());
    push_branches(&mut stack, &graph, &at);
    assert_eq!(stack.len(), 4);
    let tops: Vec<Option<u8>> = stack.iter().map(|g| g.get_cell(&at).get_value()).collect();
    assert_eq!(tops, vec![Some(9), Some(8), Some(7), None]);
    for g in stack.iter().take(3) {
        assert_eq!(g.get_cell(&CellCoord::new(3, 0)).get_value(), Some(3));
        assert_eq!(g.get_cell(&CellCoord::new(0, 3)).get_value(), None);
    }
}

#[test]
fn push_branches_on_a_cell_with_a_value_pushes_nothing() {
    let mut graph = Graph::new();
    let at = CellCoord::new(3, 3);
    graph.get_cell_mutable(&at).set_value(4);
    let mut stack: VecDeque<Graph> = VecDeque::new();
    push_branches(&mut stack, &graph, &at);
    assert!(stack.is_empty());
}

#[test]
fn one_missing_cell_is_filled() {
    let mut rows = SOLVED;
    rows[4] = "426803791";
    let graph = grid_of(rows);
    let solved = algorithm(&graph).unwrap();
    assert_eq!(rows_of(&solved), SOLVED);
}

#[test]
fn one_missing_row_is_filled() {
    let mut rows = SOLVED;
    rows[6] = "000000000";
    let graph = grid_of(rows);
    let solved = algorithm(&graph).unwrap();
    assert_eq!(rows_of(&solved), SOLVED);
}

#[test]
fn classic_puzzle_is_solved() {
    let graph = grid_of(PUZZLE);
    let solved = algorithm(&graph).unwrap();
    assert_eq!(rows_of(&solved), SOLVED);
    assert_eq!(rows_of(&graph), PUZZLE);
}

#[test]
fn hard_puzzle_is_solved() {
    let graph = grid_of(HARD);
    let mut solved = solve_tree_search(graph).unwrap();
    assert!(solved.is_filled());
    assert!(is_valid_solution(&solved));
    assert_eq!(rows_of(&solved), HARD_SOLVED);
}

#[test]
fn solved_grid_is_returned_as_it_is() {
    let graph = grid_of(SOLVED);
    let solved = algorithm(&graph).unwrap();
    assert_eq!(rows_of(&solved), SOLVED);
}

#[test]
fn empty_grid_has_a_solution() {
    let graph = Graph::new();
    let mut solved = algorithm(&graph).unwrap();
    assert!(solved.is_filled());
    assert!(is_valid_solution(&solved));
}

#[test]
fn empty_grid_gives_the_first_grid_of_the_search() {
    let solved = algorithm(&Graph::new()).unwrap();
    assert_eq!(
        rows_of(&solved),
        [
            "892365471",
            "376941582",
            "541872693",
            "935286714",
            "614793825",
            "728514936",
            "283659147",
            "469137258",
            "157428369",
        ]
    );
}

#[test]
fn two_equal_givens_in_a_row_have_no_solution() {
    let mut rows = SOLVED;
    rows[0] = "535678912";
    rows[8] = "340286179";
    let graph = grid_of(rows);
    assert!(algorithm(&graph).is_none());
    assert!(solve_tree_search(graph).is_none());
}

#[test]
fn puzzle_without_solution_is_reported() {
    let mut rows = SOLVED;
    rows[0] = "534678910";
    rows[3] = "859761402";
    let graph = grid_of(rows);
    assert!(algorithm(&graph).is_none());
}

#[test]
fn full_grid_with_a_clash_is_returned_as_it_is() {
    let mut rows = SOLVED;
    rows[0] = "554678912";
    let graph = grid_of(rows);
    let solved = algorithm(&graph).unwrap();
    assert_eq!(rows_of(&solved), rows);
}

#[test]
fn result_keeps_the_givens_and_adds_no_clash() {
    let mut rows = SOLVED;
    rows[0] = "505678912";
    let graph = grid_of(rows);
    let solved = algorithm(&graph).unwrap();
    rows[0] = "535678912";
    assert_eq!(rows_of(&solved), rows);
}
