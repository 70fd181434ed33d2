//! The board: a square grid of cells, each empty or holding one piece, and
//! the occupancy queries the rules are built on.
use vstd::prelude::*;
use crate::geometry::{
    BOARD_SIZE, Direction, Location, Selection, col_delta, dir_at, direction_at, move_selection,
    on_board, row_delta,
};
use crate::piece::{Piece, PlayerNumber, empty_piece, piece_wf};

verus! {

/// Number of cells of the board.
pub const CELL_COUNT: usize = 1600;

/// Position of cell `(r, c)` in the row-major list of cells.
pub open spec fn idx(r: int, c: int) -> int {
    r * BOARD_SIZE + c
}

/// The piece in cell `(r, c)` of the cell list `b`.
pub open spec fn cell(b: Seq<Piece>, r: int, c: int) -> Piece {
    b[idx(r, c)]
}

/// Cell `(r, c)` lies on the board and holds a piece.
pub open spec fn occupied(b: Seq<Piece>, r: int, c: int) -> bool {
    on_board(r, c) && cell(b, r, c).player != PlayerNumber::Nobody
}

/// The cell list `b` with cell `(r, c)` emptied.
pub open spec fn cleared(b: Seq<Piece>, r: int, c: int) -> Seq<Piece> {
    b.update(idx(r, c), empty_piece())
}

/// Owner of the neighbour of `(r, c)` in direction `d`; `Nobody` when that
/// neighbour is empty or off the board.
pub open spec fn owner_toward(b: Seq<Piece>, r: int, c: int, d: Direction) -> PlayerNumber {
    let nr = r + row_delta(d);
    let nc = c + col_delta(d);
    if on_board(nr, nc) {
        cell(b, nr, nc).player
    } else {
        PlayerNumber::Nobody
    }
}

/// Number of occupied neighbours of `(r, c)` among the first `k` directions.
pub open spec fn occupied_count_upto(b: Seq<Piece>, r: int, c: int, k: int) -> int
    decreases k,
{
    if k <= 0 {
        0
    } else {
        occupied_count_upto(b, r, c, k - 1) + if owner_toward(b, r, c, dir_at(k - 1))
            != PlayerNumber::Nobody {
            1int
        } else {
            0int
        }
    }
}

/// Number of occupied neighbours of `(r, c)`.
pub open spec fn occupied_neighbor_count(b: Seq<Piece>, r: int, c: int) -> int {
    occupied_count_upto(b, r, c, 6)
}

/// Some neighbour of `(r, c)` is owned by `p`.
pub open spec fn has_neighbor_owned_by(b: Seq<Piece>, r: int, c: int, p: PlayerNumber) -> bool {
    exists|d: Direction| owner_toward(b, r, c, d) == p
}

/// The pieces on the neighbours of `(r, c)` that lie on the board, among the
/// first `k` directions, in direction order.
pub open spec fn neighbor_pieces_upto(b: Seq<Piece>, r: int, c: int, k: int) -> Seq<Piece>
    decreases k,
{
    if k <= 0 {
        Seq::empty()
    } else {
        let prev = neighbor_pieces_upto(b, r, c, k - 1);
        let d = dir_at(k - 1);
        let nr = r + row_delta(d);
        let nc = c + col_delta(d);
        if on_board(nr, nc) {
            prev.push(cell(b, nr, nc))
        } else {
            prev
        }
    }
}

/// Number of occupied cells among the first `n` cells of `b`.
pub open spec fn occupied_prefix(b: Seq<Piece>, n: int) -> int
    decreases n,
{
    if n <= 0 {
        0
    } else {
        occupied_prefix(b, n - 1) + if b[n - 1].player != PlayerNumber::Nobody {
            1int
        } else {
            0int
        }
    }
}

/// Number of occupied cells of the board `b`.
pub open spec fn occupied_total(b: Seq<Piece>) -> int {
    occupied_prefix(b, CELL_COUNT as int)
}

/// Cell `(r, c)` has a position in the cell list, from which its row and
/// column can be read back.
pub proof fn lemma_idx_inverse(r: int, c: int)
    requires
        on_board(r, c),
    ensures
        0 <= idx(r, c) < CELL_COUNT,
        idx(r, c) / (BOARD_SIZE as int) == r,
        idx(r, c) % (BOARD_SIZE as int) == c,
{
    assert(0 <= idx(r, c) < CELL_COUNT);
    vstd::arithmetic::div_mod::lemma_fundamental_div_mod_converse(
        idx(r, c),
        BOARD_SIZE as int,
        r,
        c,
    );
}

/// Different cells have different positions in the cell list.
pub proof fn lemma_idx_injective(r1: int, c1: int, r2: int, c2: int)
    requires
        on_board(r1, c1),
        on_board(r2, c2),
        idx(r1, c1) == idx(r2, c2),
    ensures
        r1 == r2,
        c1 == c2,
{
    lemma_idx_inverse(r1, c1);
    lemma_idx_inverse(r2, c2);
}

/// The grid of cells, row by row.
#[derive(Debug)]
pub struct Board {
    pub cells: Vec<Piece>,
}

impl View for Board {
    type V = Seq<Piece>;

    open spec fn view(&self) -> Seq<Piece> {
        self.cells@
    }
}

/// `b` has one entry per cell, and every unowned entry is empty.
pub open spec fn cells_wf(b: Seq<Piece>) -> bool {
    &&& b.len() == CELL_COUNT
    &&& forall|i: int| 0 <= i < b.len() ==> piece_wf(#[trigger] b[i])
}

impl Board {
    pub open spec fn wf(&self) -> bool {
        cells_wf(self@)
    }

    /// A board with every cell empty.
    pub fn new() -> (r: Board)
        ensures
            r.wf(),
            forall|i: int| 0 <= i < CELL_COUNT ==> r@[i] == empty_piece(),
    {
        let mut cells: Vec<Piece> = Vec::new();
        let mut i: usize = 0;
        while i < CELL_COUNT
            invariant
                i <= CELL_COUNT,
                cells.len() == i,
                forall|j: int| 0 <= j < i ==> cells@[j] == empty_piece(),
            decreases CELL_COUNT - i,
        {
            cells.push(Piece::empty());
            i = i + 1;
        }
        Board { cells }
    }

    /// The piece in cell `(row, col)`.
    pub fn get(&self, row: usize, col: usize) -> (p: Piece)
        requires
            self.wf(),
            on_board(row as int, col as int),
        ensures
            p == cell(self@, row as int, col as int),
    {
        self.cells[row * BOARD_SIZE + col]
    }

    /// Puts `piece` in cell `(row, col)`.
    pub fn set(&mut self, row: usize, col: usize, piece: Piece)
        requires
            old(self).wf(),
            on_board(row as int, col as int),
            piece_wf(piece),
        ensures
            final(self).wf(),
            final(self)@ == old(self)@.update(idx(row as int, col as int), piece),
    {
        self.cells.set(row * BOARD_SIZE + col, piece);
    }

    /// Cell `(row, col)` holds a piece.
    pub fn is_occupied(&self, row: usize, col: usize) -> (r: bool)
        requires
            self.wf(),
            on_board(row as int, col as int),
        ensures
            r == occupied(self@, row as int, col as int),
    {
        self.get(row, col).player != PlayerNumber::Nobody
    }

    /// A copy of the board with cell `(row, col)` emptied.
    pub fn with_cell_cleared(&self, row: usize, col: usize) -> (r: Board)
        requires
            self.wf(),
            on_board(row as int, col as int),
        ensures
            r.wf(),
            r@ == cleared(self@, row as int, col as int),
    {
        let mut cells: Vec<Piece> = Vec::new();
        let mut i: usize = 0;
        while i < CELL_COUNT
            invariant
                i <= CELL_COUNT,
                cells_wf(self@),
                cells@ =~= self@.subrange(0, i as int),
            decreases CELL_COUNT - i,
        {
            cells.push(self.cells[i]);
            i = i + 1;
        }
        let mut b = Board { cells };
        b.set(row, col, Piece::empty());
        b
    }

    /// Number of occupied cells.
    pub fn count_occupied(&self) -> (n: usize)
        requires
            self.wf(),
        ensures
            n == occupied_total(self@),
    {
        let mut n: usize = 0;
        let mut i: usize = 0;
        while i < CELL_COUNT
            invariant
                i <= CELL_COUNT,
                self.wf(),
                n == occupied_prefix(self@, i as int),
                n <= i,
            decreases CELL_COUNT - i,
        {
            if self.cells[i].player != PlayerNumber::Nobody {
                n = n + 1;
            }
            i = i + 1;
        }
        n
    }
}

/// Cell `(row, col)` holds a piece.
pub fn check_for_occupied_location(board: &Board, row: usize, col: usize) -> (r: bool)
    requires
        board.wf(),
        on_board(row as int, col as int),
    ensures
        r == occupied(board@, row as int, col as int),
{
    board.is_occupied(row, col)
}

/// Owner of the neighbour of `(row, col)` in direction `d`, `Nobody` where
/// there is none.
pub fn neighbor_owner(board: &Board, row: usize, col: usize, d: Direction) -> (p: PlayerNumber)
    requires
        board.wf(),
    ensures
        p == owner_toward(board@, row as int, col as int, d),
{
    match move_selection(Selection { location: Location::Board, row, col }, d) {
        Ok(s) => board.get(s.row, s.col).player,
        Err(_) => PlayerNumber::Nobody,
    }
}

/// Number of occupied neighbours of `(row, col)`.
pub fn count_occupied_neighbors(board: &Board, row: usize, col: usize) -> (n: usize)
    requires
        board.wf(),
    ensures
        n == occupied_neighbor_count(board@, row as int, col as int),
        n <= 6,
{
    let mut n: usize = 0;
    let mut k: usize = 0;
    while k < 6
        invariant
            k <= 6,
            n <= k,
            board.wf(),
            n == occupied_count_upto(board@, row as int, col as int, k as int),
        decreases 6 - k,
    {
        if neighbor_owner(board, row, col, direction_at(k)) != PlayerNumber::Nobody {
            n = n + 1;
        }
        k = k + 1;
    }
    n
}

/// The pieces on the neighbours of `(row, col)` that lie on the board, in the
/// order North, Northeast, Southeast, South, Southwest, Northwest.
pub fn get_neighboring_piece_vec(board: &Board, row: usize, col: usize) -> (v: Vec<Piece>)
    requires
        board.wf(),
    ensures
        v@ == neighbor_pieces_upto(board@, row as int, col as int, 6),
{
    let mut v: Vec<Piece> = Vec::new();
    let mut k: usize = 0;
    while k < 6
        invariant
            k <= 6,
            board.wf(),
            v@ == neighbor_pieces_upto(board@, row as int, col as int, k as int),
        decreases 6 - k,
    {
        let d = direction_at(k);
        match move_selection(Selection { location: Location::Board, row, col }, d) {
            Ok(s) => {
                v.push(board.get(s.row, s.col));
            },
            Err(_) => {},
        }
        k = k + 1;
    }
    v
}

/// Some neighbour of `(row, col)` holds a piece.
pub fn check_for_neighboring_piece(board: &Board, row: usize, col: usize) -> (r: bool)
    requires
        board.wf(),
    ensures
        r == (occupied_neighbor_count(board@, row as int, col as int) > 0),
{
    count_occupied_neighbors(board, row, col) > 0
}

/// A tile can slide into `(row, col)`: at most four of its neighbours are
/// occupied.
pub fn check_for_slide_in(board: &Board, row: usize, col: usize) -> (r: bool)
    requires
        board.wf(),
    ensures
        r == (occupied_neighbor_count(board@, row as int, col as int) <= 4),
{
    count_occupied_neighbors(board, row, col) <= 4
}

/// A neighbour owned by a player makes the count of occupied neighbours
/// positive.
pub proof fn lemma_owned_neighbor_counts(b: Seq<Piece>, r: int, c: int, d: Direction)
    requires
        owner_toward(b, r, c, d) != PlayerNumber::Nobody,
    ensures
        occupied_neighbor_count(b, r, c) >= 1,
{
    lemma_count_upto_at_least(b, r, c, crate::geometry::dir_index(d) + 1, crate::geometry::dir_index(d));
    assert(dir_at(crate::geometry::dir_index(d)) == d);
    lemma_count_upto_monotone(b, r, c, crate::geometry::dir_index(d) + 1, 6);
}

proof fn lemma_count_upto_at_least(b: Seq<Piece>, r: int, c: int, k: int, j: int)
    requires
        0 <= j < k,
        owner_toward(b, r, c, dir_at(j)) != PlayerNumber::Nobody,
    ensures
        occupied_count_upto(b, r, c, k) >= 1,
    decreases k,
{
    if j < k - 1 {
        lemma_count_upto_at_least(b, r, c, k - 1, j);
    } else {
        lemma_count_upto_monotone(b, r, c, 0, k - 1);
    }
}

proof fn lemma_count_upto_monotone(b: Seq<Piece>, r: int, c: int, k1: int, k2: int)
    requires
        0 <= k1 <= k2,
    ensures
        occupied_count_upto(b, r, c, k1) <= occupied_count_upto(b, r, c, k2),
    decreases k2,
{
    if k1 < k2 {
        lemma_count_upto_monotone(b, r, c, k1, k2 - 1);
    }
}

} // verus!
