//! Pieces, players and their reserves.
use vstd::prelude::*;
use crate::geometry::{Location, Selection};

verus! {

/// Kind of a piece; `Empty` fills the bug slot of an empty cell.
#[derive(Debug, Clone, Copy, PartialEq, Eq, Hash, Structural)]
pub enum Bug {
    Empty,
    Grasshopper,
    Spider,
    Ant,
    Queen,
    Beetle,
}

/// Owner of a piece; `Nobody` marks an empty cell.
#[derive(Debug, Clone, Copy, PartialEq, Eq, Hash, Structural)]
pub enum PlayerNumber {
    Nobody,
    One,
    Two,
}

/// A piece, or with owner `Nobody` the absence of one.
#[derive(Debug, Clone, Copy, PartialEq, Eq, Hash, Structural)]
pub struct Piece {
    pub bug: Bug,
    pub player: PlayerNumber,
}

/// The content of an empty cell.
pub open spec fn empty_piece() -> Piece {
    Piece { bug: Bug::Empty, player: PlayerNumber::Nobody }
}

/// An unowned piece carries no bug.
pub open spec fn piece_wf(p: Piece) -> bool {
    p.player == PlayerNumber::Nobody ==> p.bug == Bug::Empty
}

/// The opponent of a player.
pub open spec fn opponent(p: PlayerNumber) -> PlayerNumber {
    match p {
        PlayerNumber::One => PlayerNumber::Two,
        PlayerNumber::Two => PlayerNumber::One,
        PlayerNumber::Nobody => PlayerNumber::Nobody,
    }
}

/// The reserve a player starts with: three grasshoppers, two spiders, three
/// ants, one queen and two beetles, in that order.
pub open spec fn initial_hand(player: PlayerNumber) -> Seq<Piece> {
    let p = |b: Bug| Piece { bug: b, player };
    seq![
        p(Bug::Grasshopper),
        p(Bug::Grasshopper),
        p(Bug::Grasshopper),
        p(Bug::Spider),
        p(Bug::Spider),
        p(Bug::Ant),
        p(Bug::Ant),
        p(Bug::Ant),
        p(Bug::Queen),
        p(Bug::Beetle),
        p(Bug::Beetle),
    ]
}

/// The selections that name each piece of a hand of `n` pieces, in order.
pub open spec fn hand_selections(n: nat) -> Seq<Selection> {
    Seq::new(n, |i: int| Selection { location: Location::Hand, row: 0, col: i as usize })
}

impl Piece {
    pub fn new(bug: Bug, player: PlayerNumber) -> (r: Piece)
        ensures
            r == (Piece { bug, player }),
    {
        Piece { bug, player }
    }

    /// The content of an empty cell.
    pub fn empty() -> (r: Piece)
        ensures
            r == empty_piece(),
    {
        Piece { bug: Bug::Empty, player: PlayerNumber::Nobody }
    }
}

/// Builds the starting reserve of `player`.
pub fn create_hand(player: PlayerNumber) -> (hand: Vec<Piece>)
    ensures
        hand@ == initial_hand(player),
{
    let mut hand: Vec<Piece> = Vec::new();
    hand.push(Piece::new(Bug::Grasshopper, player));
    hand.push(Piece::new(Bug::Grasshopper, player));
    hand.push(Piece::new(Bug::Grasshopper, player));
    hand.push(Piece::new(Bug::Spider, player));
    hand.push(Piece::new(Bug::Spider, player));
    hand.push(Piece::new(Bug::Ant, player));
    hand.push(Piece::new(Bug::Ant, player));
    hand.push(Piece::new(Bug::Ant, player));
    hand.push(Piece::new(Bug::Queen, player));
    hand.push(Piece::new(Bug::Beetle, player));
    hand.push(Piece::new(Bug::Beetle, player));
    assert(hand@ =~= initial_hand(player));
    hand
}

/// A player and the pieces it has not placed yet.
#[derive(Debug)]
pub struct Player {
    pub number: PlayerNumber,
    pub hand: Vec<Piece>,
}

impl Player {
    pub fn new(number: PlayerNumber) -> (r: Player)
        ensures
            r.number == number,
            r.hand@ == initial_hand(number),
    {
        Player { number, hand: create_hand(number) }
    }

    /// One selection per piece of the hand, by index.
    pub fn get_hand_selection_vec(&self) -> (r: Vec<Selection>)
        ensures
            r@ == hand_selections(self.hand.len() as nat),
    {
        let mut hand_selection_vec: Vec<Selection> = Vec::new();
        let n = self.hand.len();
        let mut i: usize = 0;
        while i < n
            invariant
                i <= n,
                n == self.hand.len(),
                hand_selection_vec@ =~= hand_selections(i as nat),
            decreases n - i,
        {
            hand_selection_vec.push(Selection { location: Location::Hand, row: 0, col: i });
            i = i + 1;
        }
        hand_selection_vec
    }
}

} // verus!
