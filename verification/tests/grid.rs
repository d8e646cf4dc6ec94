use sudokusolver::{Cell, CellCoord, Graph};

fn pairs(list: &Vec<CellCoord>) -> Vec<(u8, u8)> {
    list.iter().map(|c| (c.x(), c.y())).collect()
}

fn expected_neighbours(x: u8, y: u8) -> Vec<(u8, u8)> {
    let mut all = vec![];
    for i in 0..9u8 {
        for j in 0..9u8 {
            let same_block = i / 3 == x / 3 && j / 3 == y / 3;
            if (i, j) != (x, y) && (i == x || j == y || same_block) {
                all.push((i, j));
            }
        }
    }
    all
}

#[test]
fn coordinate_keeps_column_and_row() {
    let c = CellCoord::new(3, 7);
    assert_eq!(c.x(), 3);
    assert_eq!(c.y(), 7);
    let d = c.clone();
    assert_eq!((d.x(), d.y()), (3, 7));
}

#[test]
fn default_coordinate_is_the_origin() {
    let c = CellCoord::default();
    assert_eq!((c.x(), c.y()), (0, 0));
}

#[test]
fn neighbours_of_a_corner_in_order() {
    let cell = Cell::default();
    let list = pairs(&cell.calculate_neighbours(&CellCoord::new(0, 0)));
    assert_eq!(
        list,
        vec![
            (1, 1), (1, 2), (2, 1), (2, 2),
            (1, 0), (2, 0), (3, 0), (4, 0), (5, 0), (6, 0), (7, 0), (8, 0),
            (0, 1), (0, 2), (0, 3), (0, 4), (0, 5), (0, 6), (0, 7), (0, 8),
        ]
    );
}

#[test]
fn neighbours_of_the_centre_in_order() {
    let cell = Cell::default();
    let list = pairs(&cell.calculate_neighbours(&CellCoord::new(4, 4)));
    assert_eq!(
        list,
        vec![
            (3, 3), (3, 5), (5, 3), (5, 5),
            (0, 4), (1, 4), (2, 4), (3, 4), (5, 4), (6, 4), (7, 4), (8, 4),
            (4, 0), (4, 1), (4, 2), (4, 3), (4, 5), (4, 6), (4, 7), (4, 8),
        ]
    );
}

#[test]
fn neighbours_are_the_cells_of_column_row_and_block() {
    let graph = Graph::new();
    for x in 0..9u8 {
        for y in 0..9u8 {
            let cell = graph.get_cell(&CellCoord::new(x, y));
            let mut list = pairs(cell.get_neighbours());
            assert_eq!(list.len(), 20);
            list.sort();
            assert_eq!(list, expected_neighbours(x, y));
            let computed = pairs(&cell.calculate_neighbours(&CellCoord::new(x, y)));
            assert_eq!(computed, pairs(cell.get_neighbours()));
        }
    }
}

#[test]
fn new_grid_has_no_values() {
    let mut graph = Graph::new();
    for x in 0..9u8 {
        for y in 0..9u8 {
            assert_eq!(graph.get_cell(&CellCoord::new(x, y)).get_value(), None);
        }
    }
    assert!(!graph.is_filled());
}

#[test]
fn default_cell_has_no_value_and_no_neighbours() {
    let cell = Cell::default();
    assert_eq!(cell.get_value(), None);
    assert!(cell.get_neighbours().is_empty());
}

#[test]
fn set_value_is_read_back() {
    let mut graph = Graph::new();
    let at = CellCoord::new(2, 5);
    graph.get_cell_mutable(&at).set_value(7);
    assert_eq!(graph.get_cell(&at).get_value(), Some(7));
    assert_eq!(graph.cells[2][5].get_value(), Some(7));
    assert_eq!(graph.get_cell(&CellCoord::new(5, 2)).get_value(), None);
    assert_eq!(graph.get_cell(&at).get_neighbours().len(), 20);
}

#[test]
fn set_value_takes_both_ends_of_the_range() {
    let mut cell = Cell::default();
    cell.set_value(1);
    assert_eq!(cell.get_value(), Some(1));
    cell.set_value(9);
    assert_eq!(cell.get_value(), Some(9));
}

#[test]
fn is_filled_needs_every_cell() {
    let mut graph = Graph::new();
    for x in 0..9u8 {
        for y in 0..9u8 {
            assert!(!graph.is_filled());
            let v = (x * 3 + x / 3 + y) % 9 + 1;
            graph.get_cell_mutable(&CellCoord::new(x, y)).set_value(v);
        }
    }
    assert!(graph.is_filled());
}

#[test]
fn is_filled_with_one_blank_left() {
    let mut graph = Graph::new();
    for x in 0..9u8 {
        for y in 0..9u8 {
            if (x, y) != (8, 8) {
                graph.get_cell_mutable(&CellCoord::new(x, y)).set_value(1);
            }
        }
    }
    assert!(!graph.is_filled());
}

#[test]
fn possible_values_of_a_free_cell_are_all_digits() {
    let graph = Graph::new();
    let cell = graph.get_cell(&CellCoord::new(4, 4));
    assert_eq!(cell.get_possible_values(&graph), Some(vec![1, 2, 3, 4, 5, 6, 7, 8, 9]));
}

#[test]
fn possible_values_of_a_cell_with_a_value_are_absent() {
    let mut graph = Graph::new();
    graph.get_cell_mutable(&CellCoord::new(4, 4)).set_value(3);
    let cell = graph.get_cell(&CellCoord::new(4, 4));
    assert_eq!(cell.get_possible_values(&graph), None);
}

#[test]
fn possible_values_leave_out_what_neighbours_hold() {
    let mut graph = Graph::new();
    graph.get_cell_mutable(&CellCoord::new(0, 4)).set_value(1);
    graph.get_cell_mutable(&CellCoord::new(4, 8)).set_value(9);
    graph.get_cell_mutable(&CellCoord::new(3, 3)).set_value(5);
    graph.get_cell_mutable(&CellCoord::new(5, 4)).set_value(5);
    graph.get_cell_mutable(&CellCoord::new(0, 0)).set_value(2);
    graph.get_cell_mutable(&CellCoord::new(6, 6)).set_value(3);
    let cell = graph.get_cell(&CellCoord::new(4, 4));
    assert_eq!(cell.get_possible_values(&graph), Some(vec![2, 3, 4, 6, 7, 8]));
}

#[test]
fn possible_values_can_be_empty() {
    let mut graph = Graph::new();
    for v in 1..=8u8 {
        graph.get_cell_mutable(&CellCoord::new(v, 0)).set_value(v);
    }
    graph.get_cell_mutable(&CellCoord::new(0, 5)).set_value(9);
    let cell = graph.get_cell(&CellCoord::new(0, 0));
    assert_eq!(cell.get_possible_values(&graph), Some(vec![]));
}

#[test]
fn possible_values_hold_no_value_of_a_neighbour() {
    let mut graph = Graph::new();
    let givens = [(0u8, 0u8, 5u8), (1, 3, 7), (8, 8, 2), (4, 4, 9), (4, 0, 1), (7, 2, 6)];
    for (x, y, v) in givens {
        graph.get_cell_mutable(&CellCoord::new(x, y)).set_value(v);
    }
    for x in 0..9u8 {
        for y in 0..9u8 {
            let cell = graph.get_cell(&CellCoord::new(x, y));
            if let Some(values) = cell.get_possible_values(&graph) {
                for n in cell.get_neighbours() {
                    if let Some(held) = graph.get_cell(n).get_value() {
                        assert!(!values.contains(&held));
                    }
                }
            }
        }
    }
}

#[test]
fn clone_is_independent() {
    let mut graph = Graph::new();
    graph.get_cell_mutable(&CellCoord::new(1, 1)).set_value(4);
    let mut copy = graph.clone();
    copy.get_cell_mutable(&CellCoord::new(2, 2)).set_value(6);
    assert_eq!(copy.get_cell(&CellCoord::new(1, 1)).get_value(), Some(4));
    assert_eq!(copy.get_cell(&CellCoord::new(2, 2)).get_value(), Some(6));
    assert_eq!(graph.get_cell(&CellCoord::new(2, 2)).get_value(), None);
    assert_eq!(copy.get_cell(&CellCoord::new(2, 2)).get_neighbours().len(), 20);
}
