use crate::board::{index_of, valid_board, Board};
use crate::coord::CellCoord;
use crate::grid::{lemma_assign, Graph};
use vstd::prelude::*;
use vstd::string::*;

verus! {

/// The digit that a character stands for, if it is one of `0` to `9`.
pub open spec fn digit_of(c: char) -> Option<u8> {
    if '0' <= c <= '9' {
        Some((c as u32 - '0' as u32) as u8)
    } else {
        None
    }
}

/// Puzzle text: nine lines of nine digits each.
pub open spec fn is_puzzle(lines: Seq<Seq<char>>) -> bool {
    &&& lines.len() == 9
    &&& forall|y: int| 0 <= y < 9 ==> (#[trigger] lines[y]).len() == 9
    &&& forall|y: int, x: int| 0 <= y < 9 && 0 <= x < 9 ==> digit_of(#[trigger] lines[y][x]) is Some
}

/// The value that a digit of puzzle text gives to its cell: none for `0`.
pub open spec fn given(c: char) -> Option<u8> {
    match digit_of(c) {
        Some(d) if d != 0 => Some(d),
        _ => None,
    }
}

/// The board that puzzle text describes: line `y` is row `y`, and its
/// character `x` is the cell of column `x`.
pub open spec fn board_of(lines: Seq<Seq<char>>) -> Board {
    Seq::new(81, |k: int| given(lines[k % 9][k / 9]))
}

/// Whether the lines are puzzle text.
pub fn is_puzzle_text(lines: &Vec<String>) -> (ok: bool)
    ensures
        ok == is_puzzle(lines.deep_view()),
{
    if lines.len() != 9 {
        return false;
    }
    for y in 0..9usize
        invariant
            lines.len() == 9,
            forall|b: int| 0 <= b < y ==> (#[trigger] lines.deep_view()[b]).len() == 9,
            forall|b: int, a: int|
                0 <= b < y && 0 <= a < 9 ==> digit_of(#[trigger] lines.deep_view()[b][a]) is Some,
    {
        let line = lines[y].as_str();
        assert(line@ == lines.deep_view()[y as int]);
        if line.unicode_len() != 9 {
            return false;
        }
        for x in 0..9usize
            invariant
                y < 9,
                lines.len() == 9,
                line@ == lines.deep_view()[y as int],
                line@.len() == 9,
                forall|a: int| 0 <= a < x ==> digit_of(#[trigger] line@[a]) is Some,
        {
            let c = line.get_char(x);
            if !('0' <= c && c <= '9') {
                return false;
            }
        }
    }
    true
}

/// Reads a puzzle from its text: nine lines of nine digits, where `0` leaves
/// the cell without a value.
pub fn parse_graph_strings(lines: Vec<String>) -> (graph: Graph)
    requires
        is_puzzle(lines.deep_view()),
    ensures
        graph.wf(),
        graph@ == board_of(lines.deep_view()),
{
    let mut graph = Graph::new();
    let ghost text = lines.deep_view();
    for y in 0..9usize
        invariant
            text == lines.deep_view(),
            is_puzzle(text),
            graph.wf(),
            forall|a: int, b: int|
                0 <= a < 9 && 0 <= b < 9 ==> #[trigger] graph@[index_of((a, b))] == if b < y {
                    given(text[b][a])
                } else {
                    None
                },
    {
        let line = lines[y].as_str();
        assert(line@ == text[y as int]);
        for x in 0..9usize
            invariant
                y < 9,
                text == lines.deep_view(),
                is_puzzle(text),
                line@ == text[y as int],
                graph.wf(),
                forall|a: int, b: int|
                    0 <= a < 9 && 0 <= b < 9 ==> #[trigger] graph@[index_of((a, b))] == if b < y
                        || (b == y && a < x) {
                        given(text[b][a])
                    } else {
                        None
                    },
        {
            let c = line.get_char(x);
            assert(digit_of(text[y as int][x as int]) is Some);
            let number: u8 = (c as u32 - '0' as u32) as u8;
            if number > 0 {
                let ghost before = graph;
                let coords = CellCoord::new(x as u8, y as u8);
                graph.get_cell_mutable(&coords).set_value(number);
                proof {
                    lemma_assign(&before, &graph, (x as int, y as int), number);
                }
            }
        }
    }
    proof {
        assert forall|k: int| 0 <= k < 81 implies graph@[k] == board_of(text)[k] by {
            assert(k == index_of((k / 9, k % 9)));
        }
        assert(graph@ =~= board_of(text));
    }
    graph
}

/// The character of a digit from 1 to 9.
pub open spec fn digit_char(v: u8) -> char {
    if v == 1 {
        '1'
    } else if v == 2 {
        '2'
    } else if v == 3 {
        '3'
    } else if v == 4 {
        '4'
    } else if v == 5 {
        '5'
    } else if v == 6 {
        '6'
    } else if v == 7 {
        '7'
    } else if v == 8 {
        '8'
    } else {
        '9'
    }
}

/// How a cell is shown: its digit, or a blank, and a blank behind it.
pub open spec fn cell_text(c: Option<u8>) -> Seq<char> {
    match c {
        Some(v) => seq![digit_char(v), ' '],
        None => seq![' ', ' '],
    }
}

/// The start of the line that shows row `y`: the opening bars and the first
/// `n` cells.
pub open spec fn line_start(b: Board, y: int, n: int) -> Seq<char>
    decreases n,
{
    if n <= 0 {
        seq!['|', '|']
    } else {
        line_start(b, y, n - 1) + cell_text(b[index_of((n - 1, y))])
    }
}

/// The line that shows row `y`: bars, the nine cells, bars, and a line break.
pub open spec fn line_text(b: Board, y: int) -> Seq<char> {
    line_start(b, y, 9) + seq!['|', '|', '\n']
}

/// The lines that show the first `n` rows.
pub open spec fn rows_text(b: Board, n: int) -> Seq<char>
    decreases n,
{
    if n <= 0 {
        Seq::empty()
    } else {
        rows_text(b, n - 1) + line_text(b, n - 1)
    }
}

/// How a board is shown: its nine rows, and an empty line.
pub open spec fn board_text(b: Board) -> Seq<char> {
    rows_text(b, 9) + seq!['\n']
}

/// The text of a digit from 1 to 9.
fn digit_str(v: u8) -> (s: &'static str)
    requires
        1 <= v <= 9,
    ensures
        s@ == seq![digit_char(v)],
{
    proof {
        reveal_strlit("1");
        reveal_strlit("2");
        reveal_strlit("3");
        reveal_strlit("4");
        reveal_strlit("5");
        reveal_strlit("6");
        reveal_strlit("7");
        reveal_strlit("8");
        reveal_strlit("9");
    }
    let s = if v == 1 {
        "1"
    } else if v == 2 {
        "2"
    } else if v == 3 {
        "3"
    } else if v == 4 {
        "4"
    } else if v == 5 {
        "5"
    } else if v == 6 {
        "6"
    } else if v == 7 {
        "7"
    } else if v == 8 {
        "8"
    } else {
        "9"
    };
    assert(s@ =~= seq![digit_char(v)]);
    s
}

impl Graph {
    /// The grid as text, one line for each row: two bars, then each cell as
    /// its digit or a blank with a blank behind it, then two bars. An empty
    /// line ends the text.
    pub fn pretty_print(&self) -> (text: String)
        requires
            self.wf(),
        ensures
            text@ == board_text(self@),
    {
        let mut text = String::new();
        proof {
            reveal_strlit("||");
            reveal_strlit("||\n");
            reveal_strlit(" ");
            reveal_strlit("\n");
            self.lemma_valid();
        }
        assert(text@ =~= rows_text(self@, 0));
        for y in 0..9u8
            invariant
                self.wf(),
                valid_board(self@),
                "||"@ == seq!['|', '|'],
                "||\n"@ == seq!['|', '|', '\n'],
                " "@ == seq![' '],
                text@ == rows_text(self@, y as int),
        {
            let ghost done = text@;
            text.append("||");
            assert(text@ =~= done + line_start(self@, y as int, 0));
            for x in 0..9u8
                invariant
                    y < 9,
                    self.wf(),
                    valid_board(self@),
                    " "@ == seq![' '],
                    text@ == done + line_start(self@, y as int, x as int),
            {
                let ghost so_far = text@;
                proof {
                    self.lemma_at(x as int, y as int);
                }
                match self.get_cell(&CellCoord::new(x, y)).get_value() {
                    None => {
                        text.append(" ");
                    },
                    Some(v) => {
                        text.append(digit_str(v));
                    },
                }
                text.append(" ");
                assert(text@ =~= so_far + cell_text(self@[index_of((x as int, y as int))]));
                assert(text@ =~= done + line_start(self@, y as int, x + 1));
            }
            text.append("||\n");
            assert(text@ =~= done + line_text(self@, y as int));
        }
        text.append("\n");
        text
    }
}

} // verus!
