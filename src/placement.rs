//! Where a player may put a piece from its reserve.
use vstd::prelude::*;
use crate::board::{
    Board, CELL_COUNT, has_neighbor_owned_by, idx, neighbor_owner, occupied, occupied_total,
    owner_toward,
};
use crate::geometry::{
    BOARD_SIZE, Direction, Location, Selection, adjacent, all_on_board, contains_cell, dir_index,
    direction_at, in_play, lemma_contains_cell_push, lemma_no_duplicates_push, move_selection, neighbor_in,
};
use crate::hive::{find_unmarked_piece, unmarked_grid};
use crate::piece::{Piece, PlayerNumber, opponent};

verus! {

/// Row and column of the cell where the first piece of a game goes.
pub const CENTER: usize = BOARD_SIZE / 2;

/// `player` may put a piece from its reserve in cell `(r, c)` of board `b`.
///
/// On an empty board only the center cell is allowed. With a single piece on
/// the board, the neighbours of that piece are. Otherwise the cell must be
/// empty, away from the edges, touch a piece of `player` and touch no piece
/// of its opponent.
pub open spec fn placeable(b: Seq<Piece>, player: PlayerNumber, r: int, c: int) -> bool {
    let n = occupied_total(b);
    if n == 0 {
        r == CENTER && c == CENTER
    } else if n == 1 {
        in_play(r, c) && exists|r1: int, c1: int|
            #[trigger] occupied(b, r1, c1) && adjacent(r1, c1, r, c)
    } else {
        &&& in_play(r, c)
        &&& !occupied(b, r, c)
        &&& !has_neighbor_owned_by(b, r, c, opponent(player))
        &&& has_neighbor_owned_by(b, r, c, player)
    }
}

/// Cell `(row, col)` touches a piece of `player` and none of its opponent.
pub fn touches_only_own(board: &Board, row: usize, col: usize, player: PlayerNumber) -> (r: bool)
    requires
        board.wf(),
        player != PlayerNumber::Nobody,
    ensures
        r == (has_neighbor_owned_by(board@, row as int, col as int, player)
            && !has_neighbor_owned_by(board@, row as int, col as int, opponent(player))),
{
    let ghost b = board@;
    let enemy = match player {
        PlayerNumber::One => PlayerNumber::Two,
        _ => PlayerNumber::One,
    };
    let mut own = false;
    let mut other = false;
    let mut m: usize = 0;
    while m < 6
        invariant
            m <= 6,
            board.wf(),
            b == board@,
            enemy == opponent(player),
            player != PlayerNumber::Nobody,
            own <==> exists|d: Direction|
                dir_index(d) < m && #[trigger] owner_toward(b, row as int, col as int, d) == player,
            other <==> exists|d: Direction|
                dir_index(d) < m && #[trigger] owner_toward(b, row as int, col as int, d) == enemy,
        decreases 6 - m,
    {
        let d = direction_at(m);
        assert(dir_index(d) == m);
        let owner = neighbor_owner(board, row, col, d);
        if owner == player {
            own = true;
        } else if owner == enemy {
            other = true;
        }
        proof {
            assert forall|dd: Direction| dir_index(dd) == m implies dd == d by {}
        }
        m = m + 1;
    }
    proof {
        assert forall|d: Direction| dir_index(d) < 6 by {}
    }
    own && !other
}

/// The cells, away from the edges, next to the only occupied cell
/// `(row, col)`, in direction order.
fn neighbors_in_play(row: usize, col: usize) -> (v: Vec<Selection>)
    ensures
        all_on_board(v@),
        v@.no_duplicates(),
        forall|r: int, c: int|
            #[trigger] contains_cell(v@, r, c) <==> in_play(r, c) && adjacent(
                row as int,
                col as int,
                r,
                c,
            ),
{
    let here = Selection { location: Location::Board, row, col };
    let mut v: Vec<Selection> = Vec::new();
    let mut m: usize = 0;
    while m < 6
        invariant
            m <= 6,
            here.row == row && here.col == col && here.location == Location::Board,
            all_on_board(v@),
            v@.no_duplicates(),
            forall|r: int, c: int|
                #[trigger] contains_cell(v@, r, c) <==> in_play(r, c) && exists|d: Direction|
                    dir_index(d) < m && #[trigger] neighbor_in(row as int, col as int, d, r, c),
        decreases 6 - m,
    {
        let d = direction_at(m);
        assert(dir_index(d) == m);
        let ghost old_v = v@;
        match move_selection(here, d) {
            Ok(q) => {
                if 2 <= q.row && q.row < BOARD_SIZE - 2 && 2 <= q.col && q.col < BOARD_SIZE - 2 {
                    proof {
                        assert forall|i: int| 0 <= i < old_v.len() implies old_v[i] != q by {
                            if old_v[i] == q {
                                assert(old_v[i].col == q.col);
                                assert(contains_cell(old_v, q.row as int, q.col as int));
                                let dd = choose|dd: Direction|
                                    dir_index(dd) < m && #[trigger] neighbor_in(row as int, col as int, dd, q.row as int, q.col as int);
                                match dd {
                                    Direction::North => {},
                                    Direction::Northeast => {},
                                    Direction::Southeast => {},
                                    Direction::South => {},
                                    Direction::Southwest => {},
                                    Direction::Northwest => {},
                                }
                            }
                        }
                        lemma_no_duplicates_push(old_v, q);
                    }
                    v.push(q);
                    proof {
                        lemma_contains_cell_push(old_v, q);
                    }
                }
                proof {
                    assert(neighbor_in(row as int, col as int, d, q.row as int, q.col as int));
                }
            },
            Err(_) => {},
        }
        proof {
            assert forall|r: int, c: int|
                #[trigger] contains_cell(v@, r, c) <==> in_play(r, c) && exists|dd: Direction|
                    dir_index(dd) < m + 1 && #[trigger] neighbor_in(row as int, col as int, dd, r, c) by {
                if exists|dd: Direction|
                    dir_index(dd) < m + 1 && #[trigger] neighbor_in(row as int, col as int, dd, r, c) {
                    let dd = choose|dd: Direction|
                        dir_index(dd) < m + 1 && #[trigger] neighbor_in(row as int, col as int, dd, r, c);
                    if dir_index(dd) == m {
                        assert(dd == d);
                    }
                }
            }
        }
        m = m + 1;
    }
    proof {
        assert forall|r: int, c: int|
            #[trigger] contains_cell(v@, r, c) <==> in_play(r, c) && adjacent(row as int, col as int, r, c) by {
            if adjacent(row as int, col as int, r, c) {
                let d = choose|d: Direction| #[trigger] neighbor_in(row as int, col as int, d, r, c);
                assert(dir_index(d) < 6);
            }
        }
    }
    v
}

/// The cells where `player` may put a piece from its reserve.
pub fn placeable_positions(board: &Board, player: PlayerNumber) -> (v: Vec<Selection>)
    requires
        board.wf(),
        player != PlayerNumber::Nobody,
    ensures
        all_on_board(v@),
        v@.no_duplicates(),
        forall|r: int, c: int|
            #[trigger] contains_cell(v@, r, c) <==> placeable(board@, player, r, c),
{
    let ghost b = board@;
    let n = board.count_occupied();
    if n == 0 {
        let mut v: Vec<Selection> = Vec::new();
        let s = Selection { location: Location::Board, row: CENTER, col: CENTER };
        v.push(s);
        proof {
            lemma_contains_cell_push(Seq::empty(), s);
            assert(v@ == Seq::<Selection>::empty().push(s));
            lemma_no_duplicates_push(Seq::empty(), s);
            assert forall|r: int, c: int| #[trigger] contains_cell(Seq::<Selection>::empty(), r, c) implies false by {}
        }
        return v;
    }
    if n == 1 {
        let visited = unmarked_grid();
        match find_unmarked_piece(board, &visited) {
            Some(only) => {
                let v = neighbors_in_play(only.row, only.col);
                proof {
                    let (r1, c1) = (only.row as int, only.col as int);
                    assert forall|r: int, c: int|
                        #[trigger] contains_cell(v@, r, c) <==> placeable(b, player, r, c) by {
                        if exists|r2: int, c2: int| #[trigger] occupied(b, r2, c2) && adjacent(r2, c2, r, c) {
                            let (r2, c2) = choose|r2: int, c2: int| #[trigger] occupied(b, r2, c2) && adjacent(r2, c2, r, c);
                            lemma_single_occupied(b, r1, c1, r2, c2);
                        }
                    }
                }
                return v;
            },
            None => {
                proof {
                    lemma_none_occupied(b);
                }
                return Vec::new();
            },
        }
    }
    let mut v: Vec<Selection> = Vec::new();
    let mut i: usize = 0;
    while i < BOARD_SIZE
        invariant
            i <= BOARD_SIZE,
            board.wf(),
            b == board@,
            player != PlayerNumber::Nobody,
            occupied_total(b) >= 2,
            all_on_board(v@),
            v@.no_duplicates(),
            forall|k: int| 0 <= k < v.len() ==> #[trigger] v@[k].row < i,
            forall|r: int, c: int|
                #[trigger] contains_cell(v@, r, c) <==> (placeable(b, player, r, c) && r < i),
        decreases BOARD_SIZE - i,
    {
        let mut j: usize = 0;
        while j < BOARD_SIZE
            invariant
                i < BOARD_SIZE,
                j <= BOARD_SIZE,
                board.wf(),
                b == board@,
                player != PlayerNumber::Nobody,
                occupied_total(b) >= 2,
                all_on_board(v@),
                v@.no_duplicates(),
                forall|k: int|
                    0 <= k < v.len() ==> #[trigger] v@[k].row < i || (v@[k].row == i && v@[k].col
                        < j),
                forall|r: int, c: int|
                    #[trigger] contains_cell(v@, r, c) <==> (placeable(b, player, r, c) && (r < i || (
                        r == i && c < j))),
            decreases BOARD_SIZE - j,
        {
            if 2 <= i && i < BOARD_SIZE - 2 && 2 <= j && j < BOARD_SIZE - 2 && !board.is_occupied(i, j)
                && touches_only_own(board, i, j, player) {
                let ghost old_v = v@;
                let s = Selection { location: Location::Board, row: i, col: j };
                proof {
                    assert forall|k: int| 0 <= k < old_v.len() implies old_v[k] != s by {
                        assert(old_v[k].row < i || (old_v[k].row == i && old_v[k].col < j));
                    }
                    lemma_no_duplicates_push(old_v, s);
                }
                v.push(s);
                proof {
                    lemma_contains_cell_push(old_v, s);
                }
            }
            j = j + 1;
        }
        i = i + 1;
    }
    v
}

/// With exactly one occupied cell, any occupied cell is that one.
proof fn lemma_single_occupied(b: Seq<Piece>, r1: int, c1: int, r2: int, c2: int)
    requires
        b.len() == CELL_COUNT,
        occupied_total(b) == 1,
        occupied(b, r1, c1),
        occupied(b, r2, c2),
    ensures
        r1 == r2 && c1 == c2,
{
    if !(r1 == r2 && c1 == c2) {
        crate::board::lemma_idx_inverse(r1, c1);
        crate::board::lemma_idx_inverse(r2, c2);
        if idx(r1, c1) == idx(r2, c2) {
            crate::board::lemma_idx_injective(r1, c1, r2, c2);
        }
        lemma_two_occupied(b, idx(r1, c1), idx(r2, c2), CELL_COUNT as int);
    }
}

/// Two distinct occupied entries among the first `n` make the count at
/// least two.
proof fn lemma_two_occupied(b: Seq<Piece>, i1: int, i2: int, n: int)
    requires
        0 <= i1 < n,
        0 <= i2 < n,
        n <= b.len(),
        i1 != i2,
        b[i1].player != PlayerNumber::Nobody,
        b[i2].player != PlayerNumber::Nobody,
    ensures
        crate::board::occupied_prefix(b, n) >= 2,
    decreases n,
{
    if i1 == n - 1 || i2 == n - 1 {
        let other = if i1 == n - 1 { i2 } else { i1 };
        lemma_one_occupied(b, other, n - 1);
    } else {
        lemma_two_occupied(b, i1, i2, n - 1);
        lemma_prefix_monotone(b, n - 1);
    }
}

/// An occupied entry among the first `n` makes the count at least one.
proof fn lemma_one_occupied(b: Seq<Piece>, i: int, n: int)
    requires
        0 <= i < n,
        n <= b.len(),
        b[i].player != PlayerNumber::Nobody,
    ensures
        crate::board::occupied_prefix(b, n) >= 1,
    decreases n,
{
    if i < n - 1 {
        lemma_one_occupied(b, i, n - 1);
        lemma_prefix_monotone(b, n - 1);
    } else {
        lemma_prefix_nonneg(b, n - 1);
    }
}

proof fn lemma_prefix_nonneg(b: Seq<Piece>, n: int)
    ensures
        crate::board::occupied_prefix(b, n) >= 0,
    decreases n,
{
    if n > 0 {
        lemma_prefix_nonneg(b, n - 1);
    }
}

proof fn lemma_prefix_monotone(b: Seq<Piece>, n: int)
    requires
        0 <= n,
    ensures
        crate::board::occupied_prefix(b, n + 1) >= crate::board::occupied_prefix(b, n),
{
}

/// A board with no occupied cell counts none.
proof fn lemma_none_occupied(b: Seq<Piece>)
    requires
        b.len() == CELL_COUNT,
        forall|r: int, c: int| !#[trigger] occupied(b, r, c),
    ensures
        occupied_total(b) == 0,
{
    assert forall|i: int| 0 <= i < CELL_COUNT implies b[i].player == PlayerNumber::Nobody by {
        let r = i / BOARD_SIZE as int;
        let c = i % BOARD_SIZE as int;
        assert(idx(r, c) == i);
        assert(!occupied(b, r, c));
    }
    lemma_prefix_zero(b, CELL_COUNT as int);
}

proof fn lemma_prefix_zero(b: Seq<Piece>, n: int)
    requires
        0 <= n <= b.len(),
        forall|i: int| 0 <= i < n ==> b[i].player == PlayerNumber::Nobody,
    ensures
        crate::board::occupied_prefix(b, n) == 0,
    decreases n,
{
    if n > 0 {
        lemma_prefix_zero(b, n - 1);
    }
}

/// Once two or more pieces are on the board, no cell offered to a player
/// for placement touches a piece of its opponent.
pub proof fn lemma_placement_avoids_opponent(b: Seq<Piece>, player: PlayerNumber, r: int, c: int)
    requires
        occupied_total(b) >= 2,
        placeable(b, player, r, c),
    ensures
        forall|d: Direction| #[trigger] owner_toward(b, r, c, d) != opponent(player),
        !occupied(b, r, c),
{
}

} // verus!
