//! The turn and selection controller: whose turn it is, what is selected,
//! where the selection may go, and the state machine driven by input events.
use vstd::prelude::*;
use crate::board::{Board, cell, cleared, idx};
use crate::geometry::{BOARD_SIZE, Location, Selection, all_on_board, contains_cell, on_board};
use crate::hive::{check_for_broken_hive_if_empty, hive_connected};
use crate::movement::{move_target, movable_positions, slide_layers};
use crate::placement::{placeable, placeable_positions};
use crate::piece::{
    Bug, Piece, Player, PlayerNumber, empty_piece, hand_selections, initial_hand, opponent,
    piece_wf,
};

verus! {

/// Stage of a turn.
#[derive(Debug, Clone, Copy, PartialEq, Eq, Structural)]
pub enum State {
    SelectPiece,
    SelectPlacingLocation,
    ConfirmPlacingLocation,
}

/// Way a cursor moves through a list; both wrap around.
#[derive(Debug, Clone, Copy, PartialEq, Eq, Structural)]
pub enum MoveDirection {
    Next,
    Previous,
}

/// An input event of the interface.
#[derive(Debug, Clone, Copy, PartialEq, Eq, Structural)]
pub enum Event {
    Previous,
    Next,
    Advance,
    Back,
}

/// Why a request to the controller was refused.
#[derive(Debug, Clone, Copy, PartialEq, Eq, Structural)]
pub enum GameError {
    /// The source or the destination is not a legal one.
    IllegalMove,
    /// There is nothing to select.
    EmptySelectionSet,
}

/// The entries of `v` come in strictly increasing row-major order.
pub open spec fn row_major(v: Seq<Selection>) -> bool {
    forall|i: int, j: int|
        0 <= i < j < v.len() ==> (#[trigger] v[i]).row < (#[trigger] v[j]).row || (v[i].row
            == v[j].row && v[i].col < v[j].col)
}

/// Every piece of `hand` belongs to `number`.
pub open spec fn hand_wf(hand: Seq<Piece>, number: PlayerNumber) -> bool {
    forall|i: int| 0 <= i < hand.len() ==> (#[trigger] hand[i]).player == number
}

/// A cursor `i` into a list of `n` entries: on an entry, or 0 when the list
/// is empty.
pub open spec fn cursor_wf(i: usize, n: usize) -> bool {
    i < n || (n == 0 && i == 0)
}

/// The entry of `v` under cursor `i`, or a selection of nothing when `v` is
/// empty.
pub open spec fn under_cursor(v: Seq<Selection>, i: usize) -> Selection {
    if v.len() == 0 {
        Selection { location: Location::Nowhere, row: 0, col: 0 }
    } else {
        v[i as int]
    }
}

/// Where a cursor over `n` entries goes from `i`.
pub open spec fn cursor_moved(i: usize, n: usize, dir: MoveDirection) -> usize {
    match dir {
        MoveDirection::Next => if i + 1 >= n {
            0
        } else {
            (i + 1) as usize
        },
        MoveDirection::Previous => if i == 0 {
            (n - 1) as usize
        } else {
            (i - 1) as usize
        },
    }
}

/// A whole game: the board, both players, and the selection state.
#[derive(Debug)]
pub struct Game {
    pub board: Board,
    pub player_with_turn: Player,
    pub player_without_turn: Player,
    pub state: State,
    pub piece_destination_vec_index: usize,
    pub piece_destination_vec: Vec<Selection>,
    pub piece_source_vec_index: usize,
    pub piece_source_vec: Vec<Selection>,
}

impl Game {
    pub open spec fn wf(&self) -> bool {
        &&& self.board.wf()
        &&& self.player_with_turn.number != PlayerNumber::Nobody
        &&& self.player_without_turn.number == opponent(self.player_with_turn.number)
        &&& hand_wf(self.player_with_turn.hand@, self.player_with_turn.number)
        &&& hand_wf(self.player_without_turn.hand@, self.player_without_turn.number)
        &&& cursor_wf(self.piece_source_vec_index, self.piece_source_vec.len())
        &&& cursor_wf(self.piece_destination_vec_index, self.piece_destination_vec.len())
    }

    /// The player whose turn it is.
    pub open spec fn turn(&self) -> PlayerNumber {
        self.player_with_turn.number
    }

    /// `s` names a piece the acting player may take: one of its reserve, or
    /// one of its pieces on the board whose lifting keeps the hive connected.
    pub open spec fn source_legal(&self, s: Selection) -> bool {
        match s.location {
            Location::Hand => s.row == 0 && s.col < self.player_with_turn.hand.len(),
            Location::Board => on_board(s.row as int, s.col as int) && cell(
                self.board@,
                s.row as int,
                s.col as int,
            ).player == self.turn() && hive_connected(
                cleared(self.board@, s.row as int, s.col as int),
            ),
            Location::Nowhere => false,
        }
    }

    /// The piece named by the legal source `s` may go to cell `(r, c)`.
    pub open spec fn destination_legal(&self, s: Selection, r: int, c: int) -> bool {
        &&& self.source_legal(s)
        &&& match s.location {
            Location::Hand => placeable(self.board@, self.turn(), r, c),
            _ => move_target(self.board@, s.row as int, s.col as int, r, c),
        }
    }

    /// The board once the piece named by `s` has gone to `(r, c)`.
    pub open spec fn board_after(&self, s: Selection, r: int, c: int) -> Seq<Piece> {
        match s.location {
            Location::Hand => self.board@.update(idx(r, c), self.player_with_turn.hand@[s.col as int]),
            _ => cleared(self.board@, s.row as int, s.col as int).update(
                idx(r, c),
                cell(self.board@, s.row as int, s.col as int),
            ),
        }
    }

    /// The acting player's reserve once the piece named by `s` is taken.
    pub open spec fn hand_after(&self, s: Selection) -> Seq<Piece> {
        match s.location {
            Location::Hand => self.player_with_turn.hand@.remove(s.col as int),
            _ => self.player_with_turn.hand@,
        }
    }

    /// The selected source.
    pub open spec fn source(&self) -> Selection {
        under_cursor(self.piece_source_vec@, self.piece_source_vec_index)
    }

    /// The selected destination.
    pub open spec fn destination(&self) -> Selection {
        under_cursor(self.piece_destination_vec@, self.piece_destination_vec_index)
    }

    /// The source list holds exactly the legal sources, and the destination
    /// list exactly the legal destinations of the selected source.
    pub open spec fn lists_current(&self) -> bool {
        &&& forall|s: Selection| #[trigger] self.piece_source_vec@.contains(s) <==> self.source_legal(s)
        &&& self.piece_source_vec@.no_duplicates()
        &&& all_on_board(self.piece_destination_vec@)
        &&& self.piece_destination_vec@.no_duplicates()
        &&& forall|r: int, c: int|
            #[trigger] contains_cell(self.piece_destination_vec@, r, c) <==> self.destination_legal(
                self.source(),
                r,
                c,
            )
    }

    /// The player whose turn it is.
    pub fn current_player(&self) -> (p: PlayerNumber)
        ensures
            p == self.turn(),
    {
        self.player_with_turn.number
    }

    /// Forgets both selection lists.
    pub fn clear_selections(&mut self)
        requires
            old(self).wf(),
        ensures
            final(self).wf(),
            final(self).piece_source_vec@.len() == 0,
            final(self).piece_destination_vec@.len() == 0,
            final(self).piece_source_vec_index == 0,
            final(self).piece_destination_vec_index == 0,
            final(self).board == old(self).board,
            final(self).player_with_turn == old(self).player_with_turn,
            final(self).player_without_turn == old(self).player_without_turn,
            final(self).state == old(self).state,
    {
        self.piece_source_vec = Vec::new();
        self.piece_destination_vec = Vec::new();
        self.piece_source_vec_index = 0;
        self.piece_destination_vec_index = 0;
    }

    /// The selected source, or a selection of nothing when there is none.
    pub fn get_piece_source(&self) -> (s: Selection)
        requires
            self.wf(),
        ensures
            s == self.source(),
    {
        if self.piece_source_vec.len() == 0 {
            return Selection { location: Location::Nowhere, row: 0, col: 0 };
        }
        self.piece_source_vec[self.piece_source_vec_index]
    }

    /// The selected destination, or a selection of nothing when there is none.
    pub fn get_piece_destination(&self) -> (s: Selection)
        requires
            self.wf(),
        ensures
            s == self.destination(),
    {
        if self.piece_destination_vec.len() == 0 {
            return Selection { location: Location::Nowhere, row: 0, col: 0 };
        }
        self.piece_destination_vec[self.piece_destination_vec_index]
    }

    /// Moves the source cursor one entry, wrapping around.
    pub fn move_piece_cursor(&mut self, move_direction: MoveDirection) -> (r: Result<(), GameError>)
        requires
            old(self).wf(),
        ensures
            final(self).wf(),
            r is Err <==> old(self).piece_source_vec.len() == 0,
            r is Err ==> r == Err::<(), GameError>(GameError::EmptySelectionSet),
            final(self).piece_source_vec_index == if r is Ok {
                cursor_moved(
                    old(self).piece_source_vec_index,
                    old(self).piece_source_vec.len(),
                    move_direction,
                )
            } else {
                old(self).piece_source_vec_index
            },
            final(self).piece_source_vec == old(self).piece_source_vec,
            final(self).piece_destination_vec == old(self).piece_destination_vec,
            final(self).piece_destination_vec_index == old(self).piece_destination_vec_index,
            final(self).board == old(self).board,
            final(self).player_with_turn == old(self).player_with_turn,
            final(self).player_without_turn == old(self).player_without_turn,
            final(self).state == old(self).state,
    {
        let n = self.piece_source_vec.len();
        if n == 0 {
            return Err(GameError::EmptySelectionSet);
        }
        let i = self.piece_source_vec_index;
        self.piece_source_vec_index = match move_direction {
            MoveDirection::Next => if i + 1 >= n {
                0
            } else {
                i + 1
            },
            MoveDirection::Previous => if i == 0 {
                n - 1
            } else {
                i - 1
            },
        };
        Ok(())
    }

    /// Moves the destination cursor one entry, wrapping around.
    pub fn move_location_cursor(&mut self, move_direction: MoveDirection) -> (r: Result<(), GameError>)
        requires
            old(self).wf(),
        ensures
            final(self).wf(),
            r is Err <==> old(self).piece_destination_vec.len() == 0,
            r is Err ==> r == Err::<(), GameError>(GameError::EmptySelectionSet),
            final(self).piece_destination_vec_index == if r is Ok {
                cursor_moved(
                    old(self).piece_destination_vec_index,
                    old(self).piece_destination_vec.len(),
                    move_direction,
                )
            } else {
                old(self).piece_destination_vec_index
            },
            final(self).piece_source_vec == old(self).piece_source_vec,
            final(self).piece_source_vec_index == old(self).piece_source_vec_index,
            final(self).piece_destination_vec == old(self).piece_destination_vec,
            final(self).board == old(self).board,
            final(self).player_with_turn == old(self).player_with_turn,
            final(self).player_without_turn == old(self).player_without_turn,
            final(self).state == old(self).state,
    {
        let n = self.piece_destination_vec.len();
        if n == 0 {
            return Err(GameError::EmptySelectionSet);
        }
        let i = self.piece_destination_vec_index;
        self.piece_destination_vec_index = match move_direction {
            MoveDirection::Next => if i + 1 >= n {
                0
            } else {
                i + 1
            },
            MoveDirection::Previous => if i == 0 {
                n - 1
            } else {
                i - 1
            },
        };
        Ok(())
    }

    /// Hands the turn to the other player.
    pub fn advance_turn(&mut self)
        requires
            old(self).wf(),
        ensures
            final(self).wf(),
            final(self).player_with_turn == old(self).player_without_turn,
            final(self).player_without_turn == old(self).player_with_turn,
            final(self).board == old(self).board,
            final(self).state == old(self).state,
            final(self).piece_source_vec == old(self).piece_source_vec,
            final(self).piece_source_vec_index == old(self).piece_source_vec_index,
            final(self).piece_destination_vec == old(self).piece_destination_vec,
            final(self).piece_destination_vec_index == old(self).piece_destination_vec_index,
    {
        core::mem::swap(&mut self.player_with_turn, &mut self.player_without_turn);
    }
}

/// In a list of board selections, `s` is an entry exactly when it is a board
/// selection of a listed cell.
pub proof fn lemma_board_list_contains(v: Seq<Selection>, s: Selection)
    requires
        all_on_board(v),
    ensures
        v.contains(s) <==> s.location == Location::Board && contains_cell(v, s.row as int, s.col as int),
{
    if v.contains(s) {
        let i = choose|i: int| 0 <= i < v.len() && v[i] == s;
        assert(v[i].col == s.col);
    }
    if s.location == Location::Board && contains_cell(v, s.row as int, s.col as int) {
        let i = choose|i: int|
            0 <= i < v.len() && v[i].location == Location::Board && v[i].row == s.row as int
                && #[trigger] v[i].col == s.col as int;
        assert(v[i] == s);
    }
}

/// A list in strictly increasing row-major order has no duplicates.
pub proof fn lemma_row_major_distinct(v: Seq<Selection>)
    requires
        row_major(v),
    ensures
        v.no_duplicates(),
{
    assert forall|a: int, c: int| 0 <= a < v.len() && 0 <= c < v.len() && a != c implies v[a] != v[c] by {
        if a < c {
            assert(v[a].row < v[c].row || (v[a].row == v[c].row && v[a].col < v[c].col));
        } else {
            assert(v[c].row < v[a].row || (v[c].row == v[a].row && v[c].col < v[a].col));
        }
    }
}

/// A cell `(r, c)` a piece may move to or be placed in lies on the board.
pub proof fn lemma_destination_on_board(g: Game, s: Selection, r: int, c: int)
    requires
        g.destination_legal(s, r, c),
    ensures
        on_board(r, c),
{
    if s.location != Location::Hand {
        let lifted = cleared(g.board@, s.row as int, s.col as int);
        let r0 = s.row as int;
        let c0 = s.col as int;
        match cell(g.board@, r0, c0).bug {
            Bug::Grasshopper => {
                let (d, k) = choose|d: crate::geometry::Direction, k: nat|
                    #[trigger] crate::movement::hop_landing(g.board@, r0, c0, d, k)
                        && crate::movement::ray(r0, c0, d, k) == (r, c);
            },
            Bug::Spider => {
                assert(slide_layers(lifted, r0, c0, 3).0.contains((r, c)));
            },
            Bug::Queen => {
                assert(slide_layers(lifted, r0, c0, 1).0.contains((r, c)));
            },
            _ => {},
        }
    }
}

/// Whether the list `v` holds a board selection of cell `(row, col)`.
pub fn holds_cell(v: &Vec<Selection>, row: usize, col: usize) -> (r: bool)
    ensures
        r == contains_cell(v@, row as int, col as int),
{
    let mut i: usize = 0;
    while i < v.len()
        invariant
            i <= v.len(),
            forall|k: int|
                0 <= k < i ==> !(v@[k].location == Location::Board && v@[k].row == row && #[trigger] v@[k].col
                    == col),
        decreases v.len() - i,
    {
        if v[i].location == Location::Board && v[i].row == row && v[i].col == col {
            return true;
        }
        i = i + 1;
    }
    false
}

impl Game {
    /// The acting player's pieces on the board that it may lift without
    /// splitting the hive, in row-major order.
    pub fn get_board_selections(&self) -> (v: Vec<Selection>)
        requires
            self.wf(),
        ensures
            all_on_board(v@),
            row_major(v@),
            v@.no_duplicates(),
            forall|r: int, c: int|
                #[trigger] contains_cell(v@, r, c) <==> self.source_legal(
                    Selection { location: Location::Board, row: r as usize, col: c as usize },
                ) && on_board(r, c),
    {
        let turn = self.player_with_turn.number;
        let mut v: Vec<Selection> = Vec::new();
        let mut i: usize = 0;
        while i < BOARD_SIZE
            invariant
                i <= BOARD_SIZE,
                self.wf(),
                turn == self.turn(),
                all_on_board(v@),
                row_major(v@),
                forall|k: int| 0 <= k < v.len() ==> #[trigger] v@[k].row < i,
                forall|r: int, c: int|
                    #[trigger] contains_cell(v@, r, c) <==> (self.source_legal(
                        Selection { location: Location::Board, row: r as usize, col: c as usize },
                    ) && on_board(r, c) && r < i),
            decreases BOARD_SIZE - i,
        {
            let mut j: usize = 0;
            while j < BOARD_SIZE
                invariant
                    i < BOARD_SIZE,
                    j <= BOARD_SIZE,
                    self.wf(),
                    turn == self.turn(),
                    all_on_board(v@),
                    row_major(v@),
                    forall|k: int|
                        0 <= k < v.len() ==> #[trigger] v@[k].row < i || (v@[k].row == i && v@[k].col
                            < j),
                    forall|r: int, c: int|
                        #[trigger] contains_cell(v@, r, c) <==> (self.source_legal(
                            Selection { location: Location::Board, row: r as usize, col: c as usize },
                        ) && on_board(r, c) && (r < i || (r == i && c < j))),
                decreases BOARD_SIZE - j,
            {
                if self.board.get(i, j).player == turn && !check_for_broken_hive_if_empty(
                    &self.board,
                    i,
                    j,
                ) {
                    let ghost old_v = v@;
                    let s = Selection { location: Location::Board, row: i, col: j };
                    v.push(s);
                    proof {
                        crate::geometry::lemma_contains_cell_push(old_v, s);
                        assert forall|a: int, c: int|
                            0 <= a < c < v@.len() implies (#[trigger] v@[a]).row < (#[trigger] v@[c]).row
                            || (v@[a].row == v@[c].row && v@[a].col < v@[c].col) by {
                            assert(v@[a] == old_v[a]);
                            if c < old_v.len() {
                                assert(v@[c] == old_v[c]);
                            } else {
                                assert(old_v[a].row < i || (old_v[a].row == i && old_v[a].col < j));
                            }
                        }
                    }
                }
                j = j + 1;
            }
            i = i + 1;
        }
        proof {
            lemma_row_major_distinct(v@);
        }
        v
    }

    /// Every legal source: the acting player's reserve, then its pieces on
    /// the board that may be lifted.
    pub fn legal_sources(&self) -> (v: Vec<Selection>)
        requires
            self.wf(),
        ensures
            v@.subrange(0, self.player_with_turn.hand.len() as int) == hand_selections(
                self.player_with_turn.hand.len() as nat,
            ),
            all_on_board(v@.subrange(self.player_with_turn.hand.len() as int, v.len() as int)),
            row_major(v@.subrange(self.player_with_turn.hand.len() as int, v.len() as int)),
            v@.no_duplicates(),
            forall|s: Selection| #[trigger] v@.contains(s) <==> self.source_legal(s),
    {
        let mut v = self.player_with_turn.get_hand_selection_vec();
        let mut on_board_part = self.get_board_selections();
        let ghost hand_part = v@;
        let ghost board_part = on_board_part@;
        v.append(&mut on_board_part);
        proof {
            let n = self.player_with_turn.hand.len();
            assert(v@.subrange(0, n as int) =~= hand_part);
            assert(v@.subrange(n as int, v.len() as int) =~= board_part);
            assert forall|a: int, c: int| 0 <= a < v.len() && 0 <= c < v.len() && a != c implies v@[a]
                != v@[c] by {
                if a < n && c < n {
                    assert(v@[a] == hand_part[a] && v@[c] == hand_part[c]);
                } else if a >= n && c >= n {
                    assert(v@[a] == board_part[a - n] && v@[c] == board_part[c - n]);
                } else if a < n {
                    assert(v@[a] == hand_part[a] && v@[c] == board_part[c - n]);
                } else {
                    assert(v@[c] == hand_part[c] && v@[a] == board_part[a - n]);
                }
            }
            assert forall|s: Selection| #[trigger] v@.contains(s) <==> self.source_legal(s) by {
                lemma_board_list_contains(board_part, s);
                if v@.contains(s) {
                    let i = choose|i: int| 0 <= i < v@.len() && v@[i] == s;
                    if i >= n {
                        assert(board_part[i - n] == s);
                    }
                }
                if self.source_legal(s) {
                    if s.location == Location::Hand {
                        assert(v@[s.col as int] == s);
                    } else {
                        let i = choose|i: int| 0 <= i < board_part.len() && board_part[i] == s;
                        assert(v@[n + i] == s);
                    }
                }
            }
        }
        v
    }

    /// Every cell the piece named by `source` may go to; none when `source`
    /// is not a legal source.
    pub fn legal_destinations(&self, source: Selection) -> (v: Vec<Selection>)
        requires
            self.wf(),
        ensures
            all_on_board(v@),
            v@.no_duplicates(),
            forall|r: int, c: int|
                #[trigger] contains_cell(v@, r, c) <==> self.destination_legal(source, r, c),
    {
        let empty: Vec<Selection> = Vec::new();
        proof {
            assert forall|r: int, c: int| #[trigger] contains_cell(empty@, r, c) implies false by {}
        }
        match source.location {
            Location::Hand => {
                if source.row == 0 && source.col < self.player_with_turn.hand.len() {
                    placeable_positions(&self.board, self.player_with_turn.number)
                } else {
                    empty
                }
            },
            Location::Board => {
                if source.row < BOARD_SIZE && source.col < BOARD_SIZE && self.board.get(
                    source.row,
                    source.col,
                ).player == self.player_with_turn.number && !check_for_broken_hive_if_empty(
                    &self.board,
                    source.row,
                    source.col,
                ) {
                    movable_positions(&self.board, source)
                } else {
                    empty
                }
            },
            Location::Nowhere => empty,
        }
    }

    /// Recomputes the source list, keeping the cursor where it still fits.
    pub fn find_piece_sources(&mut self)
        requires
            old(self).wf(),
        ensures
            final(self).wf(),
            forall|s: Selection| #[trigger] final(self).piece_source_vec@.contains(s) <==> old(self).source_legal(s),
            final(self).piece_source_vec@.subrange(0, old(self).player_with_turn.hand.len() as int)
                == hand_selections(old(self).player_with_turn.hand.len() as nat),
            all_on_board(
                final(self).piece_source_vec@.subrange(
                    old(self).player_with_turn.hand.len() as int,
                    final(self).piece_source_vec.len() as int,
                ),
            ),
            row_major(
                final(self).piece_source_vec@.subrange(
                    old(self).player_with_turn.hand.len() as int,
                    final(self).piece_source_vec.len() as int,
                ),
            ),
            final(self).piece_source_vec@.no_duplicates(),
            final(self).piece_source_vec_index == if old(self).piece_source_vec_index < final(self).piece_source_vec.len() {
                old(self).piece_source_vec_index
            } else {
                0
            },
            final(self).board == old(self).board,
            final(self).player_with_turn == old(self).player_with_turn,
            final(self).player_without_turn == old(self).player_without_turn,
            final(self).state == old(self).state,
            final(self).piece_destination_vec == old(self).piece_destination_vec,
            final(self).piece_destination_vec_index == old(self).piece_destination_vec_index,
    {
        let v = self.legal_sources();
        if self.piece_source_vec_index >= v.len() {
            self.piece_source_vec_index = 0;
        }
        self.piece_source_vec = v;
    }

    /// Where the selected source may be placed, when it is a reserve piece.
    pub fn find_placeable_locations(&self) -> (v: Vec<Selection>)
        requires
            self.wf(),
        ensures
            all_on_board(v@),
            v@.no_duplicates(),
            forall|r: int, c: int|
                #[trigger] contains_cell(v@, r, c) <==> self.source().location == Location::Hand
                    && self.destination_legal(self.source(), r, c),
    {
        let selection = self.get_piece_source();
        if selection.location != Location::Hand {
            let v: Vec<Selection> = Vec::new();
            assert forall|r: int, c: int| #[trigger] contains_cell(v@, r, c) implies false by {}
            return v;
        }
        self.legal_destinations(selection)
    }

    /// Where the selected source may move, when it is a piece on the board.
    pub fn find_movable_locations(&self) -> (v: Vec<Selection>)
        requires
            self.wf(),
        ensures
            all_on_board(v@),
            v@.no_duplicates(),
            forall|r: int, c: int|
                #[trigger] contains_cell(v@, r, c) <==> self.source().location == Location::Board
                    && self.destination_legal(self.source(), r, c),
    {
        let selection = self.get_piece_source();
        if selection.location != Location::Board {
            let v: Vec<Selection> = Vec::new();
            assert forall|r: int, c: int| #[trigger] contains_cell(v@, r, c) implies false by {}
            return v;
        }
        self.legal_destinations(selection)
    }

    /// Recomputes the destination list for the selected source, keeping the
    /// cursor where it still fits.
    pub fn find_piece_destinations(&mut self)
        requires
            old(self).wf(),
        ensures
            final(self).wf(),
            all_on_board(final(self).piece_destination_vec@),
            final(self).piece_destination_vec@.no_duplicates(),
            forall|r: int, c: int|
                #[trigger] contains_cell(final(self).piece_destination_vec@, r, c) <==> old(self).destination_legal(
                    old(self).source(),
                    r,
                    c,
                ),
            final(self).piece_destination_vec_index == if old(self).piece_destination_vec_index < final(self).piece_destination_vec.len() {
                old(self).piece_destination_vec_index
            } else {
                0
            },
            final(self).board == old(self).board,
            final(self).player_with_turn == old(self).player_with_turn,
            final(self).player_without_turn == old(self).player_without_turn,
            final(self).state == old(self).state,
            final(self).piece_source_vec == old(self).piece_source_vec,
            final(self).piece_source_vec_index == old(self).piece_source_vec_index,
    {
        let mut v = self.find_placeable_locations();
        let mut movable = self.find_movable_locations();
        let ghost placeable_part = v@;
        let ghost movable_part = movable@;
        v.append(&mut movable);
        proof {
            let src = self.source();
            assert forall|r: int, c: int|
                #[trigger] contains_cell(v@, r, c) <==> self.destination_legal(src, r, c) by {
                if contains_cell(v@, r, c) {
                    let i = choose|i: int|
                        0 <= i < v@.len() && v@[i].location == Location::Board && v@[i].row == r
                            && #[trigger] v@[i].col == c;
                    if i < placeable_part.len() {
                        assert(placeable_part[i] == v@[i]);
                        assert(contains_cell(placeable_part, r, c));
                    } else {
                        assert(movable_part[i - placeable_part.len()] == v@[i]);
                        assert(contains_cell(movable_part, r, c));
                    }
                }
                if self.destination_legal(src, r, c) {
                    if src.location == Location::Hand {
                        assert(contains_cell(placeable_part, r, c));
                        let i = choose|i: int|
                            0 <= i < placeable_part.len() && placeable_part[i].location == Location::Board
                                && placeable_part[i].row == r && #[trigger] placeable_part[i].col == c;
                        assert(v@[i] == placeable_part[i]);
                    } else {
                        assert(contains_cell(movable_part, r, c));
                        let i = choose|i: int|
                            0 <= i < movable_part.len() && movable_part[i].location == Location::Board
                                && movable_part[i].row == r && #[trigger] movable_part[i].col == c;
                        assert(v@[placeable_part.len() + i] == movable_part[i]);
                    }
                }
            }
            if placeable_part.len() > 0 && movable_part.len() > 0 {
                assert(contains_cell(placeable_part, placeable_part[0].row as int, placeable_part[0].col as int));
                assert(contains_cell(movable_part, movable_part[0].row as int, movable_part[0].col as int));
            }
            if placeable_part.len() == 0 {
                assert(v@ =~= movable_part);
            } else {
                assert(v@ =~= placeable_part);
            }
            assert(all_on_board(v@)) by {
                assert forall|i: int| 0 <= i < v@.len() implies (#[trigger] v@[i]).location == Location::Board by {
                    if i < placeable_part.len() {
                        assert(placeable_part[i] == v@[i]);
                    } else {
                        assert(movable_part[i - placeable_part.len()] == v@[i]);
                    }
                }
            }
        }
        if self.piece_destination_vec_index >= v.len() {
            self.piece_destination_vec_index = 0;
        }
        self.piece_destination_vec = v;
    }

    /// Recomputes both lists: the legal sources, then the legal destinations
    /// of the selected source.
    pub fn update(&mut self)
        requires
            old(self).wf(),
        ensures
            final(self).wf(),
            final(self).lists_current(),
            final(self).board == old(self).board,
            final(self).player_with_turn == old(self).player_with_turn,
            final(self).player_without_turn == old(self).player_without_turn,
            final(self).state == old(self).state,
            final(self).piece_source_vec_index == cursor_kept(
                old(self).piece_source_vec_index,
                final(self).piece_source_vec.len(),
            ),
            final(self).piece_destination_vec_index == cursor_kept(
                old(self).piece_destination_vec_index,
                final(self).piece_destination_vec.len(),
            ),
            final(self).piece_source_vec@.subrange(0, final(self).player_with_turn.hand.len() as int)
                == hand_selections(final(self).player_with_turn.hand.len() as nat),
            all_on_board(
                final(self).piece_source_vec@.subrange(
                    final(self).player_with_turn.hand.len() as int,
                    final(self).piece_source_vec.len() as int,
                ),
            ),
            row_major(
                final(self).piece_source_vec@.subrange(
                    final(self).player_with_turn.hand.len() as int,
                    final(self).piece_source_vec.len() as int,
                ),
            ),
    {
        self.find_piece_sources();
        self.find_piece_destinations();
    }
}

/// The stage a turn goes to on `event`, when the event is not refused.
pub open spec fn event_state(state: State, event: Event) -> State {
    match (state, event) {
        (State::SelectPiece, Event::Advance) => State::SelectPlacingLocation,
        (State::SelectPlacingLocation, Event::Advance) => State::ConfirmPlacingLocation,
        (State::SelectPlacingLocation, Event::Back) => State::SelectPiece,
        (State::ConfirmPlacingLocation, Event::Advance) => State::SelectPiece,
        (State::ConfirmPlacingLocation, Event::Back) => State::SelectPlacingLocation,
        _ => state,
    }
}

/// `event` in `state` commits the selected move.
pub open spec fn commits(state: State, event: Event) -> bool {
    state == State::ConfirmPlacingLocation && event == Event::Advance
}

/// Where a cursor that was at `i` stands once its list has `n` entries.
pub open spec fn cursor_kept(i: usize, n: usize) -> usize {
    if i < n {
        i
    } else {
        0
    }
}

impl Game {
    /// Why the selected move cannot be made: `None` when it can be.
    pub open spec fn selected_move_error(&self) -> Option<GameError> {
        if self.source().location == Location::Nowhere || self.destination().location
            == Location::Nowhere {
            Some(GameError::EmptySelectionSet)
        } else if self.destination().location == Location::Board && self.destination_legal(
            self.source(),
            self.destination().row as int,
            self.destination().col as int,
        ) {
            None
        } else {
            Some(GameError::IllegalMove)
        }
    }

    /// The error `event` meets in the present state, if any.
    pub open spec fn event_error(&self, event: Event) -> Option<GameError> {
        match (self.state, event) {
            (State::SelectPiece, Event::Back) => None,
            (State::SelectPiece, _) => if self.piece_source_vec.len() == 0 {
                Some(GameError::EmptySelectionSet)
            } else {
                None
            },
            (State::SelectPlacingLocation, Event::Back) => None,
            (State::SelectPlacingLocation, _) => if self.piece_destination_vec.len() == 0 {
                Some(GameError::EmptySelectionSet)
            } else {
                None
            },
            (State::ConfirmPlacingLocation, Event::Advance) => self.selected_move_error(),
            (State::ConfirmPlacingLocation, _) => None,
        }
    }

    /// Moves the piece named by the legal source `source` to `(row, col)`.
    fn commit(&mut self, source: Selection, row: usize, col: usize)
        requires
            old(self).wf(),
            old(self).destination_legal(source, row as int, col as int),
        ensures
            final(self).wf(),
            final(self).board@ == old(self).board_after(source, row as int, col as int),
            final(self).player_with_turn.hand@ == old(self).hand_after(source),
            final(self).player_with_turn.number == old(self).player_with_turn.number,
            final(self).player_without_turn == old(self).player_without_turn,
            final(self).state == old(self).state,
            final(self).piece_source_vec == old(self).piece_source_vec,
            final(self).piece_source_vec_index == old(self).piece_source_vec_index,
            final(self).piece_destination_vec == old(self).piece_destination_vec,
            final(self).piece_destination_vec_index == old(self).piece_destination_vec_index,
    {
        proof {
            lemma_destination_on_board(*self, source, row as int, col as int);
        }
        let piece = match source.location {
            Location::Hand => {
                let p = self.player_with_turn.hand.remove(source.col);
                assert(p == old(self).player_with_turn.hand@[source.col as int]);
                p
            },
            _ => {
                let p = self.board.get(source.row, source.col);
                self.board.set(source.row, source.col, Piece::empty());
                p
            },
        };
        proof {
            assert(hand_wf(self.player_with_turn.hand@, self.player_with_turn.number)) by {
                assert forall|i: int| 0 <= i < self.player_with_turn.hand@.len() implies
                    (#[trigger] self.player_with_turn.hand@[i]).player == self.player_with_turn.number by {
                    if source.location == Location::Hand {
                        if i < source.col {
                            assert(self.player_with_turn.hand@[i] == old(self).player_with_turn.hand@[i]);
                        } else {
                            assert(self.player_with_turn.hand@[i] == old(self).player_with_turn.hand@[i + 1]);
                        }
                    }
                }
            }
            if source.location != Location::Hand {
                assert(piece_wf(old(self).board@[idx(source.row as int, source.col as int)]));
            }
        }
        self.board.set(row, col, piece);
    }

    /// Moves the piece named by `source` to the cell of `destination`, when
    /// both are legal; the turn does not change.
    pub fn place_piece(&mut self, source: Selection, destination: Selection) -> (r: Result<(), GameError>)
        requires
            old(self).wf(),
        ensures
            final(self).wf(),
            r is Ok <==> destination.location == Location::Board && old(self).destination_legal(
                source,
                destination.row as int,
                destination.col as int,
            ),
            r is Err ==> r == Err::<(), GameError>(GameError::IllegalMove) && *final(self) == *old(self),
            r is Ok ==> final(self).board@ == old(self).board_after(
                source,
                destination.row as int,
                destination.col as int,
            ) && final(self).player_with_turn.hand@ == old(self).hand_after(source),
            final(self).player_with_turn.number == old(self).player_with_turn.number,
            final(self).player_without_turn == old(self).player_without_turn,
            final(self).state == old(self).state,
            final(self).piece_source_vec == old(self).piece_source_vec,
            final(self).piece_source_vec_index == old(self).piece_source_vec_index,
            final(self).piece_destination_vec == old(self).piece_destination_vec,
            final(self).piece_destination_vec_index == old(self).piece_destination_vec_index,
    {
        if destination.location != Location::Board {
            return Err(GameError::IllegalMove);
        }
        let targets = self.legal_destinations(source);
        if !holds_cell(&targets, destination.row, destination.col) {
            return Err(GameError::IllegalMove);
        }
        self.commit(source, destination.row, destination.col);
        Ok(())
    }

    /// Moves the selected source to the selected destination; the turn does
    /// not change.
    pub fn place_selected_piece(&mut self) -> (r: Result<(), GameError>)
        requires
            old(self).wf(),
        ensures
            final(self).wf(),
            r is Ok <==> old(self).selected_move_error() is None,
            r matches Err(e) ==> old(self).selected_move_error() == Some(e) && *final(self) == *old(self),
            r is Ok ==> final(self).board@ == old(self).board_after(
                old(self).source(),
                old(self).destination().row as int,
                old(self).destination().col as int,
            ) && final(self).player_with_turn.hand@ == old(self).hand_after(old(self).source()),
            final(self).player_with_turn.number == old(self).player_with_turn.number,
            final(self).player_without_turn == old(self).player_without_turn,
            final(self).state == old(self).state,
            final(self).piece_source_vec == old(self).piece_source_vec,
            final(self).piece_source_vec_index == old(self).piece_source_vec_index,
            final(self).piece_destination_vec == old(self).piece_destination_vec,
            final(self).piece_destination_vec_index == old(self).piece_destination_vec_index,
    {
        let source = self.get_piece_source();
        let destination = self.get_piece_destination();
        if source.location == Location::Nowhere || destination.location == Location::Nowhere {
            return Err(GameError::EmptySelectionSet);
        }
        self.place_piece(source, destination)
    }

    /// Makes the move of the piece named by `source` to the cell of
    /// `destination` for the acting player, when both are legal; then hands
    /// the turn over, clears the selection and recomputes the lists.
    pub fn apply_move(&mut self, source: Selection, destination: Selection) -> (r: Result<(), GameError>)
        requires
            old(self).wf(),
        ensures
            final(self).wf(),
            r is Ok <==> destination.location == Location::Board && old(self).destination_legal(
                source,
                destination.row as int,
                destination.col as int,
            ),
            r is Err ==> r == Err::<(), GameError>(GameError::IllegalMove) && *final(self) == *old(self),
            r is Ok ==> {
                &&& final(self).board@ == old(self).board_after(
                    source,
                    destination.row as int,
                    destination.col as int,
                )
                &&& final(self).player_with_turn == old(self).player_without_turn
                &&& final(self).player_without_turn.number == old(self).player_with_turn.number
                &&& final(self).player_without_turn.hand@ == old(self).hand_after(source)
                &&& final(self).state == State::SelectPiece
                &&& final(self).lists_current()
            },
    {
        match self.place_piece(source, destination) {
            Ok(()) => {
                self.advance_turn();
                self.clear_selections();
                self.state = State::SelectPiece;
                self.update();
                Ok(())
            },
            Err(e) => Err(e),
        }
    }

    /// Handles one input event: moves a cursor, goes forward or back a
    /// stage, or commits the selected move and hands the turn over. The
    /// lists are recomputed afterwards. A refused event changes nothing but
    /// the lists.
    pub fn handle_event(&mut self, event: Event) -> (r: Result<(), GameError>)
        requires
            old(self).wf(),
        ensures
            final(self).wf(),
            final(self).lists_current(),
            r is Err <==> old(self).event_error(event) is Some,
            r matches Err(e) ==> old(self).event_error(event) == Some(e),
            final(self).state == if r is Ok {
                event_state(old(self).state, event)
            } else {
                old(self).state
            },
            commits(old(self).state, event) && r is Ok ==> {
                &&& final(self).board@ == old(self).board_after(
                    old(self).source(),
                    old(self).destination().row as int,
                    old(self).destination().col as int,
                )
                &&& final(self).player_with_turn == old(self).player_without_turn
                &&& final(self).player_without_turn.number == old(self).player_with_turn.number
                &&& final(self).player_without_turn.hand@ == old(self).hand_after(old(self).source())
            },
            !(commits(old(self).state, event) && r is Ok) ==> {
                &&& final(self).board == old(self).board
                &&& final(self).player_with_turn == old(self).player_with_turn
                &&& final(self).player_without_turn == old(self).player_without_turn
            },
            old(self).state == State::SelectPiece && r is Ok && (event == Event::Next || event
                == Event::Previous) ==> final(self).piece_source_vec_index == cursor_kept(
                cursor_moved(
                    old(self).piece_source_vec_index,
                    old(self).piece_source_vec.len(),
                    if event == Event::Next {
                        MoveDirection::Next
                    } else {
                        MoveDirection::Previous
                    },
                ),
                final(self).piece_source_vec.len(),
            ),
            old(self).state == State::SelectPlacingLocation && r is Ok && (event == Event::Next
                || event == Event::Previous) ==> final(self).piece_destination_vec_index
                == cursor_kept(
                cursor_moved(
                    old(self).piece_destination_vec_index,
                    old(self).piece_destination_vec.len(),
                    if event == Event::Next {
                        MoveDirection::Next
                    } else {
                        MoveDirection::Previous
                    },
                ),
                final(self).piece_destination_vec.len(),
            ),
    {
        let result = match (self.state, event) {
            (State::SelectPiece, Event::Previous) => self.move_piece_cursor(MoveDirection::Previous),
            (State::SelectPiece, Event::Next) => self.move_piece_cursor(MoveDirection::Next),
            (State::SelectPiece, Event::Advance) => {
                if self.piece_source_vec.len() == 0 {
                    Err(GameError::EmptySelectionSet)
                } else {
                    self.state = State::SelectPlacingLocation;
                    Ok(())
                }
            },
            (State::SelectPiece, Event::Back) => Ok(()),
            (State::SelectPlacingLocation, Event::Previous) => self.move_location_cursor(
                MoveDirection::Previous,
            ),
            (State::SelectPlacingLocation, Event::Next) => self.move_location_cursor(
                MoveDirection::Next,
            ),
            (State::SelectPlacingLocation, Event::Advance) => {
                if self.piece_destination_vec.len() == 0 {
                    Err(GameError::EmptySelectionSet)
                } else {
                    self.state = State::ConfirmPlacingLocation;
                    Ok(())
                }
            },
            (State::SelectPlacingLocation, Event::Back) => {
                self.state = State::SelectPiece;
                Ok(())
            },
            (State::ConfirmPlacingLocation, Event::Advance) => {
                match self.place_selected_piece() {
                    Ok(()) => {
                        self.advance_turn();
                        self.clear_selections();
                        self.state = State::SelectPiece;
                        Ok(())
                    },
                    Err(e) => Err(e),
                }
            },
            (State::ConfirmPlacingLocation, Event::Back) => {
                self.state = State::SelectPlacingLocation;
                Ok(())
            },
            (State::ConfirmPlacingLocation, _) => Ok(()),
        };
        self.update();
        result
    }

    /// A new game: an empty board, player One to act with its full reserve,
    /// player Two waiting with its own, and the lists computed.
    pub fn new() -> (g: Game)
        ensures
            g.wf(),
            g.lists_current(),
            forall|i: int| 0 <= i < crate::board::CELL_COUNT ==> g.board@[i] == empty_piece(),
            g.player_with_turn.number == PlayerNumber::One,
            g.player_with_turn.hand@ == initial_hand(PlayerNumber::One),
            g.player_without_turn.number == PlayerNumber::Two,
            g.player_without_turn.hand@ == initial_hand(PlayerNumber::Two),
            g.state == State::SelectPiece,
            g.piece_source_vec_index == 0,
            g.piece_destination_vec_index == 0,
    {
        let mut g = Game {
            board: Board::new(),
            player_with_turn: Player::new(PlayerNumber::One),
            player_without_turn: Player::new(PlayerNumber::Two),
            state: State::SelectPiece,
            piece_destination_vec_index: 0,
            piece_destination_vec: Vec::new(),
            piece_source_vec_index: 0,
            piece_source_vec: Vec::new(),
        };
        g.update();
        g
    }
}

} // verus!
