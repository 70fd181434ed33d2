//! Hexagonal adjacency on a square array.
//!
//! A cell `(row, col)` has six neighbours, reached by a "double step along the
//! row axis": north and south move two rows, the four diagonal directions move
//! one row and one column.
use vstd::prelude::*;

verus! {

/// Side length of the square board.
pub const BOARD_SIZE: usize = 40;

/// Where a selectable item lies.
#[derive(Debug, Clone, Copy, PartialEq, Eq, Hash, Structural)]
pub enum Location {
    Board,
    Hand,
    Nowhere,
}

/// A selectable item: a board cell `(row, col)`, or the piece at index `col`
/// of the acting player's hand.
#[derive(Debug, Clone, Copy, PartialEq, Eq, Hash, Structural)]
pub struct Selection {
    pub location: Location,
    pub row: usize,
    pub col: usize,
}

/// The six hexagonal directions, in their enumeration order.
#[derive(Debug, Clone, Copy, PartialEq, Eq, Hash, Structural)]
pub enum Direction {
    North,
    Northeast,
    Southeast,
    South,
    Southwest,
    Northwest,
}

/// Change of row when stepping once in direction `d`.
pub open spec fn row_delta(d: Direction) -> int {
    match d {
        Direction::North => -2,
        Direction::Northeast => -1,
        Direction::Southeast => 1,
        Direction::South => 2,
        Direction::Southwest => 1,
        Direction::Northwest => -1,
    }
}

/// Change of column when stepping once in direction `d`.
pub open spec fn col_delta(d: Direction) -> int {
    match d {
        Direction::North => 0,
        Direction::Northeast => 1,
        Direction::Southeast => 1,
        Direction::South => 0,
        Direction::Southwest => -1,
        Direction::Northwest => -1,
    }
}

/// The direction that undoes a step in direction `d`.
pub open spec fn opposite(d: Direction) -> Direction {
    match d {
        Direction::North => Direction::South,
        Direction::Northeast => Direction::Southwest,
        Direction::Southeast => Direction::Northwest,
        Direction::South => Direction::North,
        Direction::Southwest => Direction::Northeast,
        Direction::Northwest => Direction::Southeast,
    }
}

/// The `k`-th direction of the enumeration order
/// North, Northeast, Southeast, South, Southwest, Northwest.
pub open spec fn dir_at(k: int) -> Direction {
    if k <= 0 {
        Direction::North
    } else if k == 1 {
        Direction::Northeast
    } else if k == 2 {
        Direction::Southeast
    } else if k == 3 {
        Direction::South
    } else if k == 4 {
        Direction::Southwest
    } else {
        Direction::Northwest
    }
}

/// Position of direction `d` in the enumeration order.
pub open spec fn dir_index(d: Direction) -> int {
    match d {
        Direction::North => 0,
        Direction::Northeast => 1,
        Direction::Southeast => 2,
        Direction::South => 3,
        Direction::Southwest => 4,
        Direction::Northwest => 5,
    }
}

/// `(r, c)` indexes a cell of the board.
pub open spec fn on_board(r: int, c: int) -> bool {
    0 <= r < BOARD_SIZE && 0 <= c < BOARD_SIZE
}

/// `(r, c)` is at least two cells away from every edge. Only such cells are
/// offered as destinations for placement and movement.
pub open spec fn in_play(r: int, c: int) -> bool {
    2 <= r < BOARD_SIZE - 2 && 2 <= c < BOARD_SIZE - 2
}

/// Cell `(r2, c2)` is the neighbour of cell `(r1, c1)` in direction `d`.
pub open spec fn neighbor_in(r1: int, c1: int, d: Direction, r2: int, c2: int) -> bool {
    r2 == r1 + row_delta(d) && c2 == c1 + col_delta(d)
}

/// Cells `(r1, c1)` and `(r2, c2)` are neighbours.
pub open spec fn adjacent(r1: int, c1: int, r2: int, c2: int) -> bool {
    exists|d: Direction| #[trigger] neighbor_in(r1, c1, d, r2, c2)
}

/// What a step from `s` in direction `d` gives: the neighbouring cell, with the
/// same location tag, when it lies on the board; `s` itself as an error when
/// it does not.
pub open spec fn stepped(s: Selection, d: Direction) -> Result<Selection, Selection> {
    let r = s.row + row_delta(d);
    let c = s.col + col_delta(d);
    if on_board(r, c) {
        Ok(Selection { location: s.location, row: r as usize, col: c as usize })
    } else {
        Err(s)
    }
}

/// The `k`-th direction of the enumeration order.
pub fn direction_at(k: usize) -> (d: Direction)
    requires
        k < 6,
    ensures
        d == dir_at(k as int),
{
    if k == 0 {
        Direction::North
    } else if k == 1 {
        Direction::Northeast
    } else if k == 2 {
        Direction::Southeast
    } else if k == 3 {
        Direction::South
    } else if k == 4 {
        Direction::Southwest
    } else {
        Direction::Northwest
    }
}

/// Steps from `selection` once in `direction`.
pub fn move_selection(selection: Selection, direction: Direction) -> (r: Result<Selection, Selection>)
    ensures
        r == stepped(selection, direction),
{
    let row = selection.row;
    let col = selection.col;
    let loc = selection.location;
    match direction {
        Direction::North => {
            if row >= 2 && row - 2 < BOARD_SIZE && col < BOARD_SIZE {
                Ok(Selection { location: loc, row: row - 2, col })
            } else {
                Err(selection)
            }
        },
        Direction::Northeast => {
            if row >= 1 && row - 1 < BOARD_SIZE && col < BOARD_SIZE - 1 {
                Ok(Selection { location: loc, row: row - 1, col: col + 1 })
            } else {
                Err(selection)
            }
        },
        Direction::Southeast => {
            if row < BOARD_SIZE - 1 && col < BOARD_SIZE - 1 {
                Ok(Selection { location: loc, row: row + 1, col: col + 1 })
            } else {
                Err(selection)
            }
        },
        Direction::South => {
            if row < BOARD_SIZE - 2 && col < BOARD_SIZE {
                Ok(Selection { location: loc, row: row + 2, col })
            } else {
                Err(selection)
            }
        },
        Direction::Southwest => {
            if row < BOARD_SIZE - 1 && col >= 1 && col - 1 < BOARD_SIZE {
                Ok(Selection { location: loc, row: row + 1, col: col - 1 })
            } else {
                Err(selection)
            }
        },
        Direction::Northwest => {
            if row >= 1 && row - 1 < BOARD_SIZE && col >= 1 && col - 1 < BOARD_SIZE {
                Ok(Selection { location: loc, row: row - 1, col: col - 1 })
            } else {
                Err(selection)
            }
        },
    }
}

/// Stepping in a direction and then in its opposite returns to the starting
/// cell, whenever the first step stays on the board (the second one then does
/// too).
pub proof fn lemma_step_round_trip(s: Selection, d: Direction)
    requires
        on_board(s.row as int, s.col as int),
        stepped(s, d) is Ok,
    ensures
        stepped(stepped(s, d)->Ok_0, opposite(d)) == Ok::<Selection, Selection>(s),
{
}

/// Adjacency is symmetric.
pub proof fn lemma_adjacent_symmetric(r1: int, c1: int, r2: int, c2: int)
    requires
        adjacent(r1, c1, r2, c2),
    ensures
        adjacent(r2, c2, r1, c1),
{
    let d = choose|d: Direction| #[trigger] neighbor_in(r1, c1, d, r2, c2);
    assert(neighbor_in(r2, c2, opposite(d), r1, c1));
}

/// `v` holds a board selection of cell `(r, c)`.
pub open spec fn contains_cell(v: Seq<Selection>, r: int, c: int) -> bool {
    exists|i: int|
        0 <= i < v.len() && v[i].location == Location::Board && v[i].row == r && #[trigger] v[i].col
            == c
}

/// Every entry of `v` is a board selection.
pub open spec fn all_on_board(v: Seq<Selection>) -> bool {
    forall|i: int| 0 <= i < v.len() ==> (#[trigger] v[i]).location == Location::Board
}

/// Appending a board selection adds exactly its cell.
pub proof fn lemma_contains_cell_push(v: Seq<Selection>, s: Selection)
    requires
        s.location == Location::Board,
    ensures
        forall|r: int, c: int|
            #[trigger] contains_cell(v.push(s), r, c) <==> contains_cell(v, r, c) || (r
                == s.row && c == s.col),
{
    let w = v.push(s);
    assert forall|r: int, c: int|
        #[trigger] contains_cell(w, r, c) <==> contains_cell(v, r, c) || (r == s.row && c
            == s.col) by {
        if contains_cell(v, r, c) {
            let k = choose|k: int|
                0 <= k < v.len() && v[k].location == Location::Board && v[k].row == r
                    && #[trigger] v[k].col == c;
            assert(w[k] == v[k]);
            assert(w[k].col == c);
        }
        if r == s.row && c == s.col {
            assert(w[v.len() as int] == s);
            assert(w[v.len() as int].col == c);
        }
        if contains_cell(w, r, c) {
            let k = choose|k: int|
                0 <= k < w.len() && w[k].location == Location::Board && w[k].row == r
                    && #[trigger] w[k].col == c;
            if k < v.len() {
                assert(v[k] == w[k]);
                assert(v[k].col == c);
            }
        }
    }
}

/// Appending a new entry keeps a list free of duplicates.
pub proof fn lemma_no_duplicates_push(v: Seq<Selection>, s: Selection)
    requires
        v.no_duplicates(),
        forall|k: int| 0 <= k < v.len() ==> v[k] != s,
    ensures
        v.push(s).no_duplicates(),
{
    let w = v.push(s);
    assert forall|k1: int, k2: int|
        0 <= k1 < w.len() && 0 <= k2 < w.len() && k1 != k2 implies w[k1] != w[k2] by {
        if k1 < v.len() {
            assert(w[k1] == v[k1]);
        }
        if k2 < v.len() {
            assert(w[k2] == v[k2]);
        }
    }
}

} // verus!
