use hive::board::{
    check_for_neighboring_piece, check_for_occupied_location,
    check_for_slide_in, count_occupied_neighbors, get_neighboring_piece_vec, neighbor_owner, Board,
};
use hive::hive::check_for_broken_hive_if_empty;
use hive::geometry::{direction_at, move_selection, Direction, Location, Selection};
use hive::movement::{
    find_ant_locations, find_grasshopper_movable_location, find_queen_locations,
    find_slide_locations, is_slide_target, movable_positions, test_grasshopper_direction,
    FindError,
};
use hive::piece::{create_hand, Bug, Piece, Player, PlayerNumber};
use hive::placement::{placeable_positions, touches_only_own, CENTER};

fn at(row: usize, col: usize) -> Selection {
    Selection { location: Location::Board, row, col }
}

fn board_with(pieces: &[(usize, usize, Bug, PlayerNumber)]) -> Board {
    let mut b = Board::new();
    for &(r, c, bug, player) in pieces {
        b.set(r, c, Piece::new(bug, player));
    }
    b
}

fn cells(v: &[Selection]) -> Vec<(usize, usize)> {
    let mut out: Vec<(usize, usize)> = v
        .iter()
        .map(|s| {
            assert_eq!(s.location, Location::Board);
            (s.row, s.col)
        })
        .collect();
    out.sort();
    out
}

const ONE: PlayerNumber = PlayerNumber::One;
const TWO: PlayerNumber = PlayerNumber::Two;

#[test]
fn step_and_opposite_return_to_start() {
    let pairs = [
        (Direction::North, Direction::South),
        (Direction::Northeast, Direction::Southwest),
        (Direction::Southeast, Direction::Northwest),
        (Direction::South, Direction::North),
        (Direction::Southwest, Direction::Northeast),
        (Direction::Northwest, Direction::Southeast),
    ];
    for &(r, c) in &[(20usize, 20usize), (1, 1), (0, 0), (39, 39), (2, 37)] {
        for &(d, back) in &pairs {
            if let Ok(there) = move_selection(at(r, c), d) {
                assert_eq!(move_selection(there, back), Ok(at(r, c)));
            }
        }
    }
}

#[test]
fn steps_follow_double_row_offsets() {
    assert_eq!(move_selection(at(20, 20), Direction::North), Ok(at(18, 20)));
    assert_eq!(move_selection(at(20, 20), Direction::Northeast), Ok(at(19, 21)));
    assert_eq!(move_selection(at(20, 20), Direction::Southeast), Ok(at(21, 21)));
    assert_eq!(move_selection(at(20, 20), Direction::South), Ok(at(22, 20)));
    assert_eq!(move_selection(at(20, 20), Direction::Southwest), Ok(at(21, 19)));
    assert_eq!(move_selection(at(20, 20), Direction::Northwest), Ok(at(19, 19)));
}

#[test]
fn steps_off_the_board_fail() {
    assert_eq!(move_selection(at(1, 5), Direction::North), Err(at(1, 5)));
    assert_eq!(move_selection(at(0, 5), Direction::Northeast), Err(at(0, 5)));
    assert_eq!(move_selection(at(5, 0), Direction::Southwest), Err(at(5, 0)));
    assert_eq!(move_selection(at(38, 5), Direction::South), Err(at(38, 5)));
    assert_eq!(move_selection(at(5, 39), Direction::Southeast), Err(at(5, 39)));
    assert_eq!(move_selection(at(1, 1), Direction::Northwest), Ok(at(0, 0)));
}

#[test]
fn directions_come_in_enumeration_order() {
    let all: Vec<Direction> = (0..6).map(direction_at).collect();
    assert_eq!(
        all,
        vec![
            Direction::North,
            Direction::Northeast,
            Direction::Southeast,
            Direction::South,
            Direction::Southwest,
            Direction::Northwest
        ]
    );
}

#[test]
fn starting_hand_has_eleven_pieces() {
    let hand = create_hand(TWO);
    let bugs: Vec<Bug> = hand.iter().map(|p| p.bug).collect();
    assert_eq!(
        bugs,
        vec![
            Bug::Grasshopper,
            Bug::Grasshopper,
            Bug::Grasshopper,
            Bug::Spider,
            Bug::Spider,
            Bug::Ant,
            Bug::Ant,
            Bug::Ant,
            Bug::Queen,
            Bug::Beetle,
            Bug::Beetle
        ]
    );
    assert!(hand.iter().all(|p| p.player == TWO));
}

#[test]
fn hand_selections_index_each_piece() {
    let player = Player::new(ONE);
    let sels = player.get_hand_selection_vec();
    assert_eq!(sels.len(), 11);
    for (i, s) in sels.iter().enumerate() {
        assert_eq!(*s, Selection { location: Location::Hand, row: 0, col: i });
    }
}

#[test]
fn occupancy_queries() {
    let b = board_with(&[(20, 20, Bug::Ant, ONE), (18, 20, Bug::Queen, TWO)]);
    assert!(b.is_occupied(20, 20));
    assert!(check_for_occupied_location(&b, 18, 20));
    assert!(!check_for_occupied_location(&b, 19, 20));
    assert_eq!(b.count_occupied(), 2);
    assert_eq!(b.get(18, 20), Piece::new(Bug::Queen, TWO));
    let cleared = b.with_cell_cleared(20, 20);
    assert_eq!(cleared.count_occupied(), 1);
    assert_eq!(b.count_occupied(), 2);
}

#[test]
fn neighbour_pieces_in_direction_order() {
    let b = board_with(&[(18, 20, Bug::Ant, ONE), (22, 20, Bug::Queen, TWO)]);
    let v = get_neighboring_piece_vec(&b, 20, 20);
    assert_eq!(v.len(), 6);
    assert_eq!(v[0], Piece::new(Bug::Ant, ONE));
    assert_eq!(v[3], Piece::new(Bug::Queen, TWO));
    assert_eq!(v[1].player, PlayerNumber::Nobody);
    assert_eq!(neighbor_owner(&b, 20, 20, Direction::South), TWO);
    // a corner cell has only its in-board neighbours
    assert_eq!(get_neighboring_piece_vec(&b, 0, 0).len(), 2);
    assert_eq!(get_neighboring_piece_vec(&b, 39, 20).len(), 3);
}

#[test]
fn neighbour_counts_and_slide_in() {
    let mut b = Board::new();
    assert!(!check_for_neighboring_piece(&b, 20, 20));
    for &(r, c) in &[(18, 20), (19, 21), (21, 21), (22, 20)] {
        b.set(r, c, Piece::new(Bug::Ant, ONE));
    }
    assert_eq!(count_occupied_neighbors(&b, 20, 20), 4);
    assert!(check_for_neighboring_piece(&b, 20, 20));
    assert!(check_for_slide_in(&b, 20, 20));
    b.set(21, 19, Piece::new(Bug::Ant, TWO));
    assert_eq!(count_occupied_neighbors(&b, 20, 20), 5);
    assert!(!check_for_slide_in(&b, 20, 20));
    assert!(!is_slide_target(&b, 20, 20));
}

fn vertical_line(n: usize) -> Vec<(usize, usize)> {
    (0..n).map(|k| (12 + 2 * k, 20)).collect()
}

#[test]
fn line_hive_interior_cut_breaks_it() {
    for n in 3..=6 {
        let line = vertical_line(n);
        let mut b = Board::new();
        for &(r, c) in &line {
            b.set(r, c, Piece::new(Bug::Ant, ONE));
        }
        for &(r, c) in &line[1..n - 1] {
            assert!(check_for_broken_hive_if_empty(&b, r, c));
        }
        assert!(!check_for_broken_hive_if_empty(&b, line[0].0, line[0].1));
        assert!(!check_for_broken_hive_if_empty(&b, line[n - 1].0, line[n - 1].1));
    }
}

#[test]
fn diagonal_line_of_two_stays_connected() {
    let b = board_with(&[(20, 20, Bug::Ant, ONE), (21, 21, Bug::Queen, TWO)]);
    assert!(!check_for_broken_hive_if_empty(&b, 20, 20));
    assert!(!check_for_broken_hive_if_empty(&b, 21, 21));
}

#[test]
fn empty_and_single_hives_are_connected() {
    let b = Board::new();
    assert!(!check_for_broken_hive_if_empty(&b, 20, 20));
    let b = board_with(&[(20, 20, Bug::Ant, ONE)]);
    assert!(!check_for_broken_hive_if_empty(&b, 20, 20));
    assert!(!check_for_broken_hive_if_empty(&b, 5, 5));
}

#[test]
fn two_separate_groups_are_disconnected() {
    let b = board_with(&[(20, 20, Bug::Ant, ONE), (30, 30, Bug::Queen, TWO)]);
    assert!(check_for_broken_hive_if_empty(&b, 5, 5));
    assert!(!check_for_broken_hive_if_empty(&b, 30, 30));
}

#[test]
fn first_placement_is_the_center() {
    let b = Board::new();
    assert_eq!(CENTER, 20);
    assert_eq!(placeable_positions(&b, ONE), vec![at(20, 20)]);
    assert_eq!(placeable_positions(&b, TWO), vec![at(20, 20)]);
}

#[test]
fn second_placement_touches_the_first_piece() {
    let b = board_with(&[(20, 20, Bug::Queen, ONE)]);
    assert_eq!(placeable_positions(&b, TWO).len(), 6);
    assert_eq!(
        cells(&placeable_positions(&b, TWO)),
        vec![(18, 20), (19, 19), (19, 21), (21, 19), (21, 21), (22, 20)]
    );
}

#[test]
fn placement_never_touches_an_opponent() {
    let b = board_with(&[(20, 20, Bug::Queen, ONE), (18, 20, Bug::Queen, TWO)]);
    let one = cells(&placeable_positions(&b, ONE));
    assert_eq!(one, vec![(21, 19), (21, 21), (22, 20)]);
    // (19, 19) and (19, 21) touch both players' pieces
    assert!(!one.contains(&(19, 19)));
    assert!(!touches_only_own(&b, 19, 19, ONE));
    assert!(touches_only_own(&b, 22, 20, ONE));
    let two = cells(&placeable_positions(&b, TWO));
    assert_eq!(two, vec![(16, 20), (17, 19), (17, 21)]);
}

#[test]
fn ant_reaches_every_slide_target() {
    let b = board_with(&[
        (20, 20, Bug::Queen, ONE),
        (18, 20, Bug::Queen, TWO),
        (22, 20, Bug::Ant, ONE),
    ]);
    let ant = cells(&find_ant_locations(&b, at(22, 20)));
    // without the ant, the ring around the two queens; never the ant's own cell
    assert_eq!(
        ant,
        vec![(16, 20), (17, 19), (17, 21), (19, 19), (19, 21), (21, 19), (21, 21)]
    );
    assert!(!ant.contains(&(22, 20)));
    let lifted = b.with_cell_cleared(22, 20);
    let next_to_ant: Vec<Selection> = (0..6)
        .filter_map(|k| move_selection(at(22, 20), direction_at(k)).ok())
        .collect();
    for player in [ONE, TWO] {
        for s in placeable_positions(&lifted, player) {
            if next_to_ant.contains(&s) && count_occupied_neighbors(&lifted, s.row, s.col) <= 4 {
                assert!(ant.contains(&(s.row, s.col)));
            }
        }
    }
    for &(r, c) in &ant {
        assert!(is_slide_target(&lifted, r, c));
    }
    assert_eq!(cells(&movable_positions(&b, at(22, 20))), ant);
}

#[test]
fn ant_never_stays_in_place() {
    let b = board_with(&[(20, 20, Bug::Ant, ONE), (18, 20, Bug::Queen, TWO)]);
    let ant = cells(&find_ant_locations(&b, at(20, 20)));
    assert!(!ant.contains(&(20, 20)));
    assert_eq!(ant, vec![(16, 20), (17, 19), (17, 21), (19, 19), (19, 21)]);
}

#[test]
fn ant_does_not_reach_slide_targets_cut_off_from_it() {
    // a second group far away has slide targets of its own; the ant cannot
    // reach them by sliding
    let b = board_with(&[
        (20, 20, Bug::Queen, ONE),
        (22, 20, Bug::Ant, ONE),
        (30, 30, Bug::Queen, TWO),
    ]);
    let ant = cells(&find_ant_locations(&b, at(22, 20)));
    assert!(ant.iter().all(|&(r, c)| r < 25 && c < 25));
    assert!(is_slide_target(&b.with_cell_cleared(22, 20), 28, 30));
    assert!(!ant.contains(&(28, 30)));
    assert_eq!(ant, vec![(18, 20), (19, 19), (19, 21), (21, 19), (21, 21)]);
}

#[test]
fn ant_cannot_enter_a_gap_with_five_neighbours() {
    let ring = [(18, 20), (19, 21), (21, 21), (22, 20), (21, 19)];
    let mut b = Board::new();
    for &(r, c) in &ring {
        b.set(r, c, Piece::new(Bug::Queen, ONE));
    }
    b.set(17, 19, Piece::new(Bug::Ant, ONE));
    let ant = cells(&find_ant_locations(&b, at(17, 19)));
    assert!(!ant.contains(&(20, 20)));
    assert!(ant.contains(&(19, 19)));
}

#[test]
fn grasshopper_jumps_past_one_neighbour() {
    let b = board_with(&[(20, 20, Bug::Grasshopper, ONE), (18, 20, Bug::Queen, TWO)]);
    assert_eq!(
        test_grasshopper_direction(&b, Direction::North, at(20, 20)),
        Ok(at(16, 20))
    );
    assert_eq!(
        test_grasshopper_direction(&b, Direction::South, at(20, 20)),
        Err(FindError::NotFound)
    );
    assert_eq!(find_grasshopper_movable_location(&b, at(20, 20)), vec![at(16, 20)]);
}

#[test]
fn grasshopper_jumps_a_whole_run() {
    let b = board_with(&[
        (20, 20, Bug::Grasshopper, ONE),
        (21, 21, Bug::Queen, ONE),
        (22, 22, Bug::Ant, TWO),
        (23, 23, Bug::Ant, TWO),
        (19, 19, Bug::Spider, TWO),
    ]);
    // direction order: Southeast first, then Northwest
    assert_eq!(movable_positions(&b, at(20, 20)), vec![at(24, 24), at(18, 18)]);
}

#[test]
fn grasshopper_cannot_land_near_the_edge() {
    let b = board_with(&[(5, 20, Bug::Grasshopper, ONE), (3, 20, Bug::Queen, TWO)]);
    assert_eq!(
        test_grasshopper_direction(&b, Direction::North, at(5, 20)),
        Err(FindError::NotFound)
    );
    let b = board_with(&[(3, 20, Bug::Grasshopper, ONE), (1, 20, Bug::Queen, TWO)]);
    assert_eq!(
        test_grasshopper_direction(&b, Direction::North, at(3, 20)),
        Err(FindError::NotFound)
    );
}

#[test]
fn spider_on_a_ring_goes_three_steps_around_the_outside() {
    let ring = [(18, 20), (19, 21), (21, 21), (22, 20), (21, 19), (19, 19)];
    let mut b = Board::new();
    for &(r, c) in &ring {
        b.set(r, c, Piece::new(Bug::Ant, TWO));
    }
    b.set(18, 20, Piece::new(Bug::Spider, ONE));
    let found = movable_positions(&b, at(18, 20));
    assert_eq!(found.len(), 2);
    let spider = cells(&found);
    assert_eq!(spider, vec![(20, 18), (20, 22)]);
    assert!(!spider.contains(&(20, 20)));
    assert_eq!(cells(&find_slide_locations(&b, at(18, 20), 3)), spider);
}

#[test]
fn slide_search_layers() {
    let b = board_with(&[(20, 20, Bug::Queen, ONE), (18, 20, Bug::Queen, TWO)]);
    assert_eq!(cells(&find_slide_locations(&b, at(20, 20), 0)), vec![(20, 20)]);
    assert_eq!(cells(&find_slide_locations(&b, at(20, 20), -2)), vec![(20, 20)]);
    // one slide lists the queen's moves in direction order: Northeast, Northwest
    assert_eq!(find_slide_locations(&b, at(20, 20), 1), vec![at(19, 21), at(19, 19)]);
    assert_eq!(find_queen_locations(&b, at(20, 20)), vec![at(19, 21), at(19, 19)]);
    assert_eq!(cells(&find_slide_locations(&b, at(20, 20), 2)), vec![(17, 19), (17, 21)]);
}

#[test]
fn beetles_and_empty_cells_do_not_move() {
    let b = board_with(&[(20, 20, Bug::Beetle, ONE), (18, 20, Bug::Queen, TWO)]);
    assert!(movable_positions(&b, at(20, 20)).is_empty());
    assert!(movable_positions(&b, at(10, 10)).is_empty());
}
