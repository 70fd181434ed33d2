use hive::game::{Event, Game, GameError, MoveDirection, State};
use hive::geometry::{Location, Selection};
use hive::piece::{Bug, PlayerNumber};

fn at(row: usize, col: usize) -> Selection {
    Selection { location: Location::Board, row, col }
}

fn hand(col: usize) -> Selection {
    Selection { location: Location::Hand, row: 0, col }
}

fn cells(v: &[Selection]) -> Vec<(usize, usize)> {
    let mut out: Vec<(usize, usize)> = v.iter().map(|s| (s.row, s.col)).collect();
    out.sort();
    out
}

const QUEEN: usize = 8;
const GRASSHOPPER: usize = 0;

#[test]
fn new_game_offers_the_reserve_and_the_center() {
    let g = Game::new();
    assert_eq!(g.current_player(), PlayerNumber::One);
    assert_eq!(g.state, State::SelectPiece);
    assert_eq!(g.piece_source_vec.len(), 11);
    assert_eq!(g.get_piece_source(), hand(0));
    assert_eq!(cells(&g.piece_destination_vec), vec![(20, 20)]);
    assert_eq!(g.get_piece_destination(), at(20, 20));
    assert_eq!(g.board.count_occupied(), 0);
}

#[test]
fn opening_placements() {
    let mut g = Game::new();
    assert_eq!(cells(&g.legal_destinations(hand(QUEEN))), vec![(20, 20)]);
    assert_eq!(g.apply_move(hand(QUEEN), at(20, 20)), Ok(()));
    assert_eq!(g.current_player(), PlayerNumber::Two);
    assert_eq!(g.player_without_turn.hand.len(), 10);
    assert_eq!(
        cells(&g.legal_destinations(hand(0))),
        vec![(18, 20), (19, 19), (19, 21), (21, 19), (21, 21), (22, 20)]
    );
}

#[test]
fn queen_slides_around_a_two_piece_cluster() {
    let mut g = Game::new();
    assert_eq!(g.apply_move(hand(QUEEN), at(20, 20)), Ok(()));
    assert_eq!(g.apply_move(hand(GRASSHOPPER), at(18, 20)), Ok(()));
    assert_eq!(g.current_player(), PlayerNumber::One);
    let sources = g.legal_sources();
    assert_eq!(sources.len(), 11);
    assert!(sources.contains(&at(20, 20)));
    assert!(!sources.contains(&at(18, 20)));
    assert_eq!(g.legal_destinations(at(20, 20)), vec![at(19, 21), at(19, 19)]);
    assert_eq!(g.get_board_selections(), vec![at(20, 20)]);
    assert_eq!(g.apply_move(at(20, 20), at(19, 21)), Ok(()));
    assert_eq!(g.board.get(19, 21).bug, Bug::Queen);
    assert!(!g.board.is_occupied(20, 20));
}

#[test]
fn illegal_moves_are_refused() {
    let mut g = Game::new();
    assert_eq!(g.apply_move(hand(QUEEN), at(10, 10)), Err(GameError::IllegalMove));
    assert_eq!(g.apply_move(hand(11), at(20, 20)), Err(GameError::IllegalMove));
    assert_eq!(g.apply_move(at(20, 20), at(20, 20)), Err(GameError::IllegalMove));
    assert_eq!(g.current_player(), PlayerNumber::One);
    assert_eq!(g.board.count_occupied(), 0);
    assert!(g.legal_destinations(Selection { location: Location::Nowhere, row: 0, col: 0 }).is_empty());
}

#[test]
fn lifting_a_piece_that_splits_the_hive_is_not_offered() {
    let mut g = Game::new();
    assert_eq!(g.apply_move(hand(QUEEN), at(20, 20)), Ok(()));
    assert_eq!(g.apply_move(hand(QUEEN), at(18, 20)), Ok(()));
    assert_eq!(g.apply_move(hand(5), at(22, 20)), Ok(()));
    assert_eq!(g.apply_move(hand(5), at(16, 20)), Ok(()));
    // One's queen now sits between its ant and the rest of the hive
    assert!(!g.legal_sources().contains(&at(20, 20)));
    assert!(g.legal_destinations(at(20, 20)).is_empty());
    assert!(g.legal_sources().contains(&at(22, 20)));
    let sources = g.legal_sources();
    assert_eq!(&sources[..9], &g.player_with_turn.get_hand_selection_vec()[..]);
    assert_eq!(&sources[9..], &[at(22, 20)]);
}

#[test]
fn an_ant_cannot_pass_its_turn_by_staying_put() {
    let mut g = Game::new();
    assert_eq!(g.apply_move(hand(QUEEN), at(20, 20)), Ok(()));
    assert_eq!(g.apply_move(hand(QUEEN), at(18, 20)), Ok(()));
    assert_eq!(g.apply_move(hand(5), at(22, 20)), Ok(()));
    assert_eq!(g.apply_move(hand(5), at(16, 20)), Ok(()));
    assert_eq!(g.apply_move(at(22, 20), at(22, 20)), Err(GameError::IllegalMove));
    assert_eq!(g.current_player(), PlayerNumber::One);
    assert_eq!(g.apply_move(at(22, 20), at(14, 20)), Ok(()));
    assert_eq!(g.board.get(14, 20).bug, Bug::Ant);
}

#[test]
fn cursors_wrap_around() {
    let mut g = Game::new();
    assert_eq!(g.move_piece_cursor(MoveDirection::Previous), Ok(()));
    assert_eq!(g.piece_source_vec_index, 10);
    assert_eq!(g.move_piece_cursor(MoveDirection::Next), Ok(()));
    assert_eq!(g.piece_source_vec_index, 0);
    assert_eq!(g.move_location_cursor(MoveDirection::Next), Ok(()));
    assert_eq!(g.piece_destination_vec_index, 0);
}

#[test]
fn empty_lists_are_reported() {
    let mut g = Game::new();
    g.clear_selections();
    assert_eq!(g.get_piece_source().location, Location::Nowhere);
    assert_eq!(g.get_piece_destination().location, Location::Nowhere);
    assert_eq!(g.move_piece_cursor(MoveDirection::Next), Err(GameError::EmptySelectionSet));
    assert_eq!(g.move_location_cursor(MoveDirection::Previous), Err(GameError::EmptySelectionSet));
    assert_eq!(g.place_selected_piece(), Err(GameError::EmptySelectionSet));
    assert_eq!(g.find_placeable_locations().len(), 0);
    assert_eq!(g.find_movable_locations().len(), 0);
}

#[test]
fn turns_alternate() {
    let mut g = Game::new();
    g.advance_turn();
    assert_eq!(g.current_player(), PlayerNumber::Two);
    assert_eq!(g.player_without_turn.number, PlayerNumber::One);
    g.advance_turn();
    assert_eq!(g.current_player(), PlayerNumber::One);
}

#[test]
fn events_drive_a_whole_turn() {
    let mut g = Game::new();
    for _ in 0..QUEEN {
        assert_eq!(g.handle_event(Event::Next), Ok(()));
    }
    assert_eq!(g.get_piece_source(), hand(QUEEN));
    assert_eq!(g.handle_event(Event::Back), Ok(()));
    assert_eq!(g.state, State::SelectPiece);
    assert_eq!(g.handle_event(Event::Advance), Ok(()));
    assert_eq!(g.state, State::SelectPlacingLocation);
    assert_eq!(g.handle_event(Event::Back), Ok(()));
    assert_eq!(g.state, State::SelectPiece);
    assert_eq!(g.handle_event(Event::Advance), Ok(()));
    assert_eq!(g.handle_event(Event::Advance), Ok(()));
    assert_eq!(g.state, State::ConfirmPlacingLocation);
    assert_eq!(g.handle_event(Event::Back), Ok(()));
    assert_eq!(g.state, State::SelectPlacingLocation);
    assert_eq!(g.handle_event(Event::Advance), Ok(()));
    assert_eq!(g.handle_event(Event::Advance), Ok(()));
    assert_eq!(g.state, State::SelectPiece);
    assert_eq!(g.current_player(), PlayerNumber::Two);
    assert_eq!(g.board.get(20, 20).bug, Bug::Queen);
    assert_eq!(g.board.get(20, 20).player, PlayerNumber::One);
    assert_eq!(g.piece_source_vec.len(), 11);
    assert_eq!(g.piece_destination_vec.len(), 6);
}

#[test]
fn placing_the_selection_keeps_the_turn() {
    let mut g = Game::new();
    assert_eq!(g.place_selected_piece(), Ok(()));
    assert_eq!(g.current_player(), PlayerNumber::One);
    assert_eq!(g.board.get(20, 20).bug, Bug::Grasshopper);
    assert_eq!(g.player_with_turn.hand.len(), 10);
}
