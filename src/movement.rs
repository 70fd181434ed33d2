//! Where a piece on the board may move, by the kind of its bug.
use vstd::prelude::*;
use crate::board::{
    Board, CELL_COUNT, check_for_neighboring_piece, check_for_occupied_location, check_for_slide_in,
    cell, cleared, idx, occupied, occupied_neighbor_count,
};
use crate::geometry::{
    dir_at,
    BOARD_SIZE, all_on_board, contains_cell, dir_index, lemma_contains_cell_push,
    lemma_no_duplicates_push, Direction, Location, Selection, adjacent, col_delta, direction_at,
    in_play, move_selection, neighbor_in, on_board, row_delta,
};
use crate::hive::{Cell, count_marked, lemma_count_marked_bound, lemma_count_marked_set};
use crate::piece::{Bug, Piece, PlayerNumber};

verus! {

/// A cell a piece can slide into on board `b`: it is not near an edge, it is
/// empty, it touches the hive, and at most four of its neighbours are
/// occupied.
pub open spec fn slide_target(b: Seq<Piece>, r: int, c: int) -> bool {
    &&& in_play(r, c)
    &&& !occupied(b, r, c)
    &&& occupied_neighbor_count(b, r, c) >= 1
    &&& occupied_neighbor_count(b, r, c) <= 4
}

/// Whether a piece can slide into cell `(row, col)` of `board`.
pub fn is_slide_target(board: &Board, row: usize, col: usize) -> (r: bool)
    requires
        board.wf(),
    ensures
        r == slide_target(board@, row as int, col as int),
{
    if !(2 <= row && row < BOARD_SIZE - 2 && 2 <= col && col < BOARD_SIZE - 2) {
        return false;
    }
    if check_for_occupied_location(board, row, col) {
        return false;
    }
    if !check_for_neighboring_piece(board, row, col) {
        return false;
    }
    check_for_slide_in(board, row, col)
}

/// An ant starting from `(r0, c0)` can reach `(r, c)` by one or more
/// slides over the slide targets of `b`.
pub open spec fn ant_target(b: Seq<Piece>, r0: int, c0: int, r: int, c: int) -> bool {
    exists|k: nat| k >= 1 && #[trigger] slide_layers(b, r0, c0, k).0.contains((r, c))
}

/// The starting cell is reached at once and never again.
pub proof fn lemma_layers_exclude_start(b: Seq<Piece>, r0: int, c0: int, k: nat)
    ensures
        slide_layers(b, r0, c0, k).1.contains((r0, c0)),
        k >= 1 ==> !slide_layers(b, r0, c0, k).0.contains((r0, c0)),
    decreases k,
{
    if k >= 1 {
        lemma_layers_exclude_start(b, r0, c0, (k - 1) as nat);
    }
}

/// Once a layer is empty, every later one is.
proof fn lemma_layers_stay_empty(b: Seq<Piece>, r0: int, c0: int, k: nat, j: nat)
    requires
        forall|q: Cell| !#[trigger] slide_layers(b, r0, c0, k).0.contains(q),
        k <= j,
    ensures
        forall|q: Cell| !#[trigger] slide_layers(b, r0, c0, j).0.contains(q),
    decreases j - k,
{
    if k < j {
        lemma_layers_stay_empty(b, r0, c0, k, (j - 1) as nat);
        let prev = slide_layers(b, r0, c0, (j - 1) as nat);
        assert forall|q: Cell| !#[trigger] slide_layers(b, r0, c0, j).0.contains(q) by {
            if slide_layers(b, r0, c0, j).0.contains(q) {
                let p = choose|p: Cell| #[trigger] prev.0.contains(p) && adjacent(p.0, p.1, q.0, q.1);
            }
        }
    }
}

/// The cells an ant at `selection` may move to: the slide targets of the
/// board without the ant that it reaches by one or more slides, found by a
/// breadth-first search and listed once each. The ant's own cell is never
/// among them.
pub fn find_ant_locations(board: &Board, selection: Selection) -> (v: Vec<Selection>)
    requires
        board.wf(),
        on_board(selection.row as int, selection.col as int),
    ensures
        all_on_board(v@),
        v@.no_duplicates(),
        forall|r: int, c: int|
            #[trigger] contains_cell(v@, r, c) <==> ant_target(
                cleared(board@, selection.row as int, selection.col as int),
                selection.row as int,
                selection.col as int,
                r,
                c,
            ),
        !contains_cell(v@, selection.row as int, selection.col as int),
{
    let lifted = board.with_cell_cleared(selection.row, selection.col);
    let ghost b = lifted@;
    let ghost r0 = selection.row as int;
    let ghost c0 = selection.col as int;
    let (mut reached, mut current) = search_start(selection);
    assert(slide_layers(b, r0, c0, 0).0 == set![(r0, c0)]);
    assert(slide_layers(b, r0, c0, 0).1 == set![(r0, c0)]);
    let mut v: Vec<Selection> = Vec::new();
    let ghost mut step: nat = 0;
    proof {
        lemma_count_marked_bound(reached@);
        assert forall|r: int, c: int| #[trigger] contains_cell(v@, r, c) implies false by {}
    }
    while current.len() > 0
        invariant
            lifted.wf(),
            b == lifted@,
            r0 == selection.row as int,
            c0 == selection.col as int,
            reached.len() == CELL_COUNT,
            count_marked(reached@) <= CELL_COUNT,
            all_on_board(current@),
            current@.no_duplicates(),
            forall|r: int, c: int|
                #[trigger] contains_cell(current@, r, c) <==> slide_layers(b, r0, c0, step).0.contains((r, c)),
            forall|r: int, c: int|
                on_board(r, c) ==> (#[trigger] reached@[idx(r, c)] <==> slide_layers(b, r0, c0, step).1.contains((r, c))),
            all_on_board(v@),
            v@.no_duplicates(),
            forall|k: int|
                0 <= k < v.len() ==> on_board(#[trigger] v@[k].row as int, v@[k].col as int)
                    && reached@[idx(v@[k].row as int, v@[k].col as int)],
            forall|r: int, c: int|
                #[trigger] contains_cell(v@, r, c) <==> exists|k: nat|
                    1 <= k <= step && #[trigger] slide_layers(b, r0, c0, k).0.contains((r, c)),
        decreases CELL_COUNT - count_marked(reached@), current.len(),
    {
        let ghost old_reached = reached@;
        let ghost old_v = v@;
        let next = next_layer(&lifted, Ghost(r0), Ghost(c0), Ghost(step), &current, &mut reached);
        proof {
            lemma_count_marked_bound(reached@);
        }
        let mut j: usize = 0;
        while j < next.len()
            invariant
                j <= next.len(),
                reached.len() == CELL_COUNT,
                old_reached.len() == CELL_COUNT,
                all_on_board(next@),
                next@.no_duplicates(),
                forall|k: int|
                    0 <= k < next.len() ==> on_board(#[trigger] next@[k].row as int, next@[k].col as int)
                        && !old_reached[idx(next@[k].row as int, next@[k].col as int)],
                forall|k: int|
                    0 <= k < old_v.len() ==> on_board(#[trigger] old_v[k].row as int, old_v[k].col as int)
                        && old_reached[idx(old_v[k].row as int, old_v[k].col as int)],
                all_on_board(old_v),
                v@ == old_v + next@.subrange(0, j as int),
                v@.no_duplicates(),
                forall|r: int, c: int|
                    #[trigger] contains_cell(v@, r, c) <==> contains_cell(old_v, r, c) || contains_cell(
                        next@.subrange(0, j as int),
                        r,
                        c,
                    ),
            decreases next.len() - j,
        {
            let t = next[j];
            proof {
                let pre = v@;
                assert(t == next@[j as int]);
                assert(on_board(next@[j as int].row as int, next@[j as int].col as int));
                assert(!old_reached[idx(t.row as int, t.col as int)]);
                assert forall|k: int| 0 <= k < pre.len() implies pre[k] != t by {
                    if k < old_v.len() {
                        assert(pre[k] == old_v[k]);
                        assert(old_reached[idx(old_v[k].row as int, old_v[k].col as int)]);
                    } else {
                        assert(pre[k] == next@[k - old_v.len()]);
                        assert(next@[k - old_v.len()] != next@[j as int]);
                    }
                }
                lemma_no_duplicates_push(pre, t);
                lemma_contains_cell_push(pre, t);
                lemma_contains_cell_push(next@.subrange(0, j as int), t);
                assert(next@.subrange(0, j + 1) == next@.subrange(0, j as int).push(t));
            }
            v.push(t);
            proof {
                assert(v@ =~= old_v + next@.subrange(0, j + 1));
            }
            j = j + 1;
        }
        proof {
            assert(next@.subrange(0, next.len() as int) == next@);
            let ns = (step + 1) as nat;
            assert forall|r: int, c: int|
                #[trigger] contains_cell(v@, r, c) <==> exists|k: nat|
                    1 <= k <= ns && #[trigger] slide_layers(b, r0, c0, k).0.contains((r, c)) by {
                if exists|k: nat| 1 <= k <= ns && #[trigger] slide_layers(b, r0, c0, k).0.contains((r, c)) {
                    let k = choose|k: nat| 1 <= k <= ns && #[trigger] slide_layers(b, r0, c0, k).0.contains((r, c));
                    if k <= step {
                        assert(contains_cell(old_v, r, c));
                    } else {
                        assert(contains_cell(next@, r, c));
                    }
                }
            }
            assert forall|k: int|
                0 <= k < v.len() implies on_board(#[trigger] v@[k].row as int, v@[k].col as int)
                    && reached@[idx(v@[k].row as int, v@[k].col as int)] by {
                if k < old_v.len() {
                    assert(v@[k] == old_v[k]);
                } else {
                    assert(v@[k] == next@[k - old_v.len()]);
                    assert(contains_cell(next@, v@[k].row as int, v@[k].col as int)) by {
                        assert(next@[k - old_v.len()].col == v@[k].col);
                    }
                }
            }
            step = ns;
        }
        current = next;
    }
    proof {
        assert forall|q: Cell| !#[trigger] slide_layers(b, r0, c0, step).0.contains(q) by {
            if slide_layers(b, r0, c0, step).0.contains(q) {
                assert(contains_cell(current@, q.0, q.1));
                let k = choose|k: int|
                    0 <= k < current@.len() && current@[k].location == Location::Board
                        && current@[k].row == q.0 && #[trigger] current@[k].col == q.1;
            }
        }
        assert forall|r: int, c: int|
            #[trigger] contains_cell(v@, r, c) <==> ant_target(b, r0, c0, r, c) by {
            if ant_target(b, r0, c0, r, c) {
                let k = choose|k: nat| k >= 1 && #[trigger] slide_layers(b, r0, c0, k).0.contains((r, c));
                if k > step {
                    lemma_layers_stay_empty(b, r0, c0, step, k);
                }
            }
        }
        if contains_cell(v@, r0, c0) {
            let k = choose|k: nat| 1 <= k <= step && #[trigger] slide_layers(b, r0, c0, k).0.contains((r0, c0));
            lemma_layers_exclude_start(b, r0, c0, k);
        }
    }
    v
}

/// The cell reached from `(r, c)` after `k` steps in direction `d`.
pub open spec fn ray(r: int, c: int, d: Direction, k: nat) -> Cell
    decreases k,
{
    if k == 0 {
        (r, c)
    } else {
        let p = ray(r, c, d, (k - 1) as nat);
        (p.0 + row_delta(d), p.1 + col_delta(d))
    }
}

/// A grasshopper at `(r, c)` jumping in direction `d` lands `k` steps away:
/// the `k - 1` cells in between, at least one, are all occupied, and the
/// landing cell is empty and not near an edge.
pub open spec fn hop_landing(b: Seq<Piece>, r: int, c: int, d: Direction, k: nat) -> bool {
    let t = ray(r, c, d, k);
    &&& k >= 2
    &&& forall|j: nat| 1 <= j < k ==> #[trigger] occupied(b, ray(r, c, d, j).0, ray(r, c, d, j).1)
    &&& on_board(t.0, t.1)
    &&& !occupied(b, t.0, t.1)
    &&& in_play(t.0, t.1)
}

/// A grasshopper at `(r0, c0)` can jump to `(r, c)`.
pub open spec fn grasshopper_target(b: Seq<Piece>, r0: int, c0: int, r: int, c: int) -> bool {
    exists|d: Direction, k: nat|
        #[trigger] hop_landing(b, r0, c0, d, k) && ray(r0, c0, d, k) == (r, c)
}

/// Why a search found no cell.
#[derive(Debug, Clone, Copy, PartialEq, Eq, Structural)]
pub enum FindError {
    NotFound,
}

/// Where a grasshopper at `selection` lands when it jumps in `direction`:
/// the first empty cell past the run of occupied cells next to it. There is
/// none when the neighbour in that direction is empty, when the run reaches
/// the edge of the board, or when the landing cell is near an edge.
pub fn test_grasshopper_direction(board: &Board, direction: Direction, selection: Selection) -> (r:
    Result<Selection, FindError>)
    requires
        board.wf(),
        on_board(selection.row as int, selection.col as int),
    ensures
        r matches Ok(s) ==> s.location == Location::Board && exists|k: nat|
            #[trigger] hop_landing(
                board@,
                selection.row as int,
                selection.col as int,
                direction,
                k,
            ) && ray(selection.row as int, selection.col as int, direction, k) == (
                s.row as int,
                s.col as int,
            ),
        r is Err ==> forall|k: nat|
            !#[trigger] hop_landing(
                board@,
                selection.row as int,
                selection.col as int,
                direction,
                k,
            ),
{
    let ghost b = board@;
    let ghost r0 = selection.row as int;
    let ghost c0 = selection.col as int;
    let mut cur = match move_selection(selection, direction) {
        Ok(s) => s,
        Err(_) => {
            assert forall|k: nat| #[trigger] hop_landing(b, r0, c0, direction, k) implies false by {
                reveal_with_fuel(ray, 2);
                assert(occupied(b, ray(r0, c0, direction, 1).0, ray(r0, c0, direction, 1).1));
            }
            return Err(FindError::NotFound);
        },
    };
    let mut k: usize = 1;
    assert(ray(r0, c0, direction, 1) == (cur.row as int, cur.col as int)) by {
        reveal_with_fuel(ray, 2);
    }
    loop
        invariant
            board.wf(),
            b == board@,
            r0 == selection.row as int,
            c0 == selection.col as int,
            1 <= k < BOARD_SIZE,
            row_delta(direction) != 0,
            on_board(r0, c0),
            on_board(cur.row as int, cur.col as int),
            ray(r0, c0, direction, k as nat) == (cur.row as int, cur.col as int),
            forall|j: nat| 1 <= j < k ==> #[trigger] occupied(b, ray(r0, c0, direction, j).0, ray(r0, c0, direction, j).1),
            row_delta(direction) < 0 ==> r0 - cur.row >= k,
            row_delta(direction) > 0 ==> cur.row - r0 >= k,
        decreases (if row_delta(direction) < 0 {
            cur.row as int
        } else {
            BOARD_SIZE - cur.row
        }),
    {
        if !board.is_occupied(cur.row, cur.col) {
            if k >= 2 && 2 <= cur.row && cur.row < BOARD_SIZE - 2 && 2 <= cur.col && cur.col
                < BOARD_SIZE - 2 {
                let s = Selection { location: Location::Board, row: cur.row, col: cur.col };
                assert(hop_landing(b, r0, c0, direction, k as nat));
                assert(ray(r0, c0, direction, k as nat) == (s.row as int, s.col as int));
                return Ok(s);
            }
            assert forall|kk: nat| #[trigger] hop_landing(b, r0, c0, direction, kk) implies false by {
                if kk > k {
                    assert(occupied(b, ray(r0, c0, direction, k as nat).0, ray(r0, c0, direction, k as nat).1));
                }
            }
            return Err(FindError::NotFound);
        }
        match move_selection(cur, direction) {
            Ok(next) => {
                assert(ray(r0, c0, direction, (k + 1) as nat) == (next.row as int, next.col as int));
                cur = next;
                k = k + 1;
            },
            Err(_) => {
                assert forall|kk: nat| #[trigger] hop_landing(b, r0, c0, direction, kk) implies false by {
                    if kk > k {
                        assert(occupied(b, ray(r0, c0, direction, (k + 1) as nat).0, ray(r0, c0, direction, (k + 1) as nat).1));
                    }
                }
                return Err(FindError::NotFound);
            },
        }
    }
}

/// The board selection of cell `q`.
pub open spec fn board_selection(q: Cell) -> Selection {
    Selection { location: Location::Board, row: q.0 as usize, col: q.1 as usize }
}

/// The landing cells of a grasshopper at `(r0, c0)` over the first `m`
/// directions, in direction order.
pub open spec fn landings_upto(b: Seq<Piece>, r0: int, c0: int, m: int) -> Seq<Selection>
    decreases m,
{
    if m <= 0 {
        Seq::empty()
    } else {
        let prev = landings_upto(b, r0, c0, m - 1);
        let d = dir_at(m - 1);
        if exists|k: nat| #[trigger] hop_landing(b, r0, c0, d, k) {
            let k = choose|k: nat| #[trigger] hop_landing(b, r0, c0, d, k);
            prev.push(board_selection(ray(r0, c0, d, k)))
        } else {
            prev
        }
    }
}

/// The neighbouring slide targets of `(r0, c0)` over the first `m`
/// directions, in direction order.
pub open spec fn neighbor_targets_upto(b: Seq<Piece>, r0: int, c0: int, m: int) -> Seq<Selection>
    decreases m,
{
    if m <= 0 {
        Seq::empty()
    } else {
        let prev = neighbor_targets_upto(b, r0, c0, m - 1);
        let d = dir_at(m - 1);
        let q = (r0 + row_delta(d), c0 + col_delta(d));
        if slide_target(b, q.0, q.1) {
            prev.push(board_selection(q))
        } else {
            prev
        }
    }
}

/// The neighbouring slide targets of `(r, c)` not marked in `marks`, over
/// the first `m` directions, in direction order.
pub open spec fn fresh_targets_upto(b: Seq<Piece>, marks: Seq<bool>, r: int, c: int, m: int) -> Seq<
    Selection,
>
    decreases m,
{
    if m <= 0 {
        Seq::empty()
    } else {
        let prev = fresh_targets_upto(b, marks, r, c, m - 1);
        let d = dir_at(m - 1);
        let q = (r + row_delta(d), c + col_delta(d));
        if slide_target(b, q.0, q.1) && !marks[idx(q.0, q.1)] {
            prev.push(board_selection(q))
        } else {
            prev
        }
    }
}

/// With only the starting cell marked, the fresh neighbouring slide targets
/// of that cell are all its neighbouring slide targets.
proof fn lemma_fresh_targets_from_start(b: Seq<Piece>, marks: Seq<bool>, r0: int, c0: int, m: int)
    requires
        forall|r: int, c: int| on_board(r, c) ==> (#[trigger] marks[idx(r, c)] <==> r == r0 && c == c0),
    ensures
        fresh_targets_upto(b, marks, r0, c0, m) == neighbor_targets_upto(b, r0, c0, m),
    decreases m,
{
    if m > 0 {
        lemma_fresh_targets_from_start(b, marks, r0, c0, m - 1);
        let d = dir_at(m - 1);
        let q = (r0 + row_delta(d), c0 + col_delta(d));
        if slide_target(b, q.0, q.1) {
            assert(marks[idx(q.0, q.1)] <==> q.0 == r0 && q.1 == c0);
        }
    }
}

/// Rays from one cell in two directions meet only when the directions are
/// the same.
#[verifier::rlimit(40)]
proof fn lemma_rays_apart(r: int, c: int, d1: Direction, d2: Direction, k1: nat, k2: nat)
    requires
        k1 >= 1,
        k2 >= 1,
        ray(r, c, d1, k1) == ray(r, c, d2, k2),
    ensures
        d1 == d2,
{
    crate::hive::lemma_ray_closed(r, c, d1, k1);
    crate::hive::lemma_ray_closed(r, c, d2, k2);
    assert(k1 * row_delta(d1) == k2 * row_delta(d2));
    assert(k1 * col_delta(d1) == k2 * col_delta(d2));
    match d1 {
        Direction::North => {
            match d2 {
                Direction::North => {},
                Direction::Northeast => {},
                Direction::Southeast => {},
                Direction::South => {},
                Direction::Southwest => {},
                Direction::Northwest => {},
            }
        },
        Direction::Northeast => {
            match d2 {
                Direction::North => {},
                Direction::Northeast => {},
                Direction::Southeast => {},
                Direction::South => {},
                Direction::Southwest => {},
                Direction::Northwest => {},
            }
        },
        Direction::Southeast => {
            match d2 {
                Direction::North => {},
                Direction::Northeast => {},
                Direction::Southeast => {},
                Direction::South => {},
                Direction::Southwest => {},
                Direction::Northwest => {},
            }
        },
        Direction::South => {
            match d2 {
                Direction::North => {},
                Direction::Northeast => {},
                Direction::Southeast => {},
                Direction::South => {},
                Direction::Southwest => {},
                Direction::Northwest => {},
            }
        },
        Direction::Southwest => {
            match d2 {
                Direction::North => {},
                Direction::Northeast => {},
                Direction::Southeast => {},
                Direction::South => {},
                Direction::Southwest => {},
                Direction::Northwest => {},
            }
        },
        Direction::Northwest => {
            match d2 {
                Direction::North => {},
                Direction::Northeast => {},
                Direction::Southeast => {},
                Direction::South => {},
                Direction::Southwest => {},
                Direction::Northwest => {},
            }
        },
    }
}

/// The cells a grasshopper at `selection` can jump to, one direction after
/// another.
pub fn find_grasshopper_movable_location(board: &Board, selection: Selection) -> (v: Vec<Selection>)
    requires
        board.wf(),
        on_board(selection.row as int, selection.col as int),
    ensures
        all_on_board(v@),
        v@ == landings_upto(board@, selection.row as int, selection.col as int, 6),
        v@.no_duplicates(),
        forall|r: int, c: int|
            #[trigger] contains_cell(v@, r, c) <==> grasshopper_target(
                board@,
                selection.row as int,
                selection.col as int,
                r,
                c,
            ),
{
    let ghost b = board@;
    let ghost r0 = selection.row as int;
    let ghost c0 = selection.col as int;
    let mut v: Vec<Selection> = Vec::new();
    let mut m: usize = 0;
    while m < 6
        invariant
            m <= 6,
            board.wf(),
            b == board@,
            r0 == selection.row as int,
            c0 == selection.col as int,
            on_board(r0, c0),
            all_on_board(v@),
            v@ == landings_upto(b, r0, c0, m as int),
            v@.no_duplicates(),
            forall|r: int, c: int|
                #[trigger] contains_cell(v@, r, c) <==> exists|d: Direction, k: nat|
                    dir_index(d) < m && #[trigger] hop_landing(b, r0, c0, d, k) && ray(r0, c0, d, k)
                        == (r, c),
        decreases 6 - m,
    {
        let d = direction_at(m);
        assert(dir_index(d) == m);
        let ghost old_v = v@;
        match test_grasshopper_direction(board, d, selection) {
            Ok(s) => {
                proof {
                    let k1 = choose|k1: nat|
                        #[trigger] hop_landing(b, r0, c0, d, k1) && ray(r0, c0, d, k1) == (
                            s.row as int,
                            s.col as int,
                        );
                    let k2 = choose|k2: nat| #[trigger] hop_landing(b, r0, c0, d, k2);
                    lemma_hop_unique(b, r0, c0, d, k1, k2);
                    assert(s == board_selection(ray(r0, c0, d, k2)));
                    assert forall|i: int| 0 <= i < old_v.len() implies old_v[i] != s by {
                        if old_v[i] == s {
                            assert(old_v[i].col == s.col);
                            assert(contains_cell(old_v, s.row as int, s.col as int));
                            let (dd, kk) = choose|dd: Direction, kk: nat|
                                dir_index(dd) < m && #[trigger] hop_landing(b, r0, c0, dd, kk)
                                    && ray(r0, c0, dd, kk) == (s.row as int, s.col as int);
                            lemma_rays_apart(r0, c0, dd, d, kk, k1);
                        }
                    }
                    lemma_no_duplicates_push(old_v, s);
                }
                v.push(s);
                proof {
                    lemma_contains_cell_push(old_v, s);
                    assert forall|r: int, c: int|
                        #[trigger] contains_cell(v@, r, c) <==> exists|dd: Direction, k: nat|
                            dir_index(dd) < m + 1 && #[trigger] hop_landing(b, r0, c0, dd, k) && ray(
                                r0,
                                c0,
                                dd,
                                k,
                            ) == (r, c) by {
                        if exists|dd: Direction, k: nat|
                            dir_index(dd) < m + 1 && #[trigger] hop_landing(b, r0, c0, dd, k) && ray(
                                r0,
                                c0,
                                dd,
                                k,
                            ) == (r, c) {
                            let (dd, k) = choose|dd: Direction, k: nat|
                                dir_index(dd) < m + 1 && #[trigger] hop_landing(b, r0, c0, dd, k)
                                    && ray(r0, c0, dd, k) == (r, c);
                            if dir_index(dd) == m {
                                assert(dd == d);
                                let k2 = choose|k2: nat|
                                    #[trigger] hop_landing(b, r0, c0, d, k2) && ray(r0, c0, d, k2) == (
                                        s.row as int,
                                        s.col as int,
                                    );
                                lemma_hop_unique(b, r0, c0, d, k, k2);
                            }
                        }
                    }
                }
            },
            Err(_) => {
                proof {
                    assert(!exists|k: nat| #[trigger] hop_landing(b, r0, c0, d, k));
                    assert forall|r: int, c: int|
                        #[trigger] contains_cell(v@, r, c) <==> exists|dd: Direction, k: nat|
                            dir_index(dd) < m + 1 && #[trigger] hop_landing(b, r0, c0, dd, k) && ray(
                                r0,
                                c0,
                                dd,
                                k,
                            ) == (r, c) by {
                        if exists|dd: Direction, k: nat|
                            dir_index(dd) < m + 1 && #[trigger] hop_landing(b, r0, c0, dd, k) && ray(
                                r0,
                                c0,
                                dd,
                                k,
                            ) == (r, c) {
                            let (dd, k) = choose|dd: Direction, k: nat|
                                dir_index(dd) < m + 1 && #[trigger] hop_landing(b, r0, c0, dd, k)
                                    && ray(r0, c0, dd, k) == (r, c);
                            if dir_index(dd) == m {
                                assert(dd == d);
                            }
                        }
                    }
                }
            },
        }
        m = m + 1;
    }
    v
}

/// A jump in one direction has at most one landing cell.
pub proof fn lemma_hop_unique(b: Seq<Piece>, r: int, c: int, d: Direction, k1: nat, k2: nat)
    requires
        hop_landing(b, r, c, d, k1),
        hop_landing(b, r, c, d, k2),
    ensures
        k1 == k2,
{
    if k1 < k2 {
        assert(occupied(b, ray(r, c, d, k1).0, ray(r, c, d, k1).1));
    } else if k2 < k1 {
        assert(occupied(b, ray(r, c, d, k2).0, ray(r, c, d, k2).1));
    }
}

/// The cells a queen at `selection` may move to: the neighbouring slide
/// targets of the board once the queen is lifted off it, in direction order.
pub fn find_queen_locations(board: &Board, selection: Selection) -> (v: Vec<Selection>)
    requires
        board.wf(),
        on_board(selection.row as int, selection.col as int),
    ensures
        all_on_board(v@),
        forall|r: int, c: int|
            #[trigger] contains_cell(v@, r, c) <==> adjacent(
                selection.row as int,
                selection.col as int,
                r,
                c,
            ) && slide_target(cleared(board@, selection.row as int, selection.col as int), r, c),
        v@ == neighbor_targets_upto(
            cleared(board@, selection.row as int, selection.col as int),
            selection.row as int,
            selection.col as int,
            6,
        ),
        v@.no_duplicates(),
{
    let lifted = board.with_cell_cleared(selection.row, selection.col);
    let ghost b = lifted@;
    let ghost r0 = selection.row as int;
    let ghost c0 = selection.col as int;
    let mut v: Vec<Selection> = Vec::new();
    let mut m: usize = 0;
    while m < 6
        invariant
            m <= 6,
            lifted.wf(),
            b == lifted@,
            r0 == selection.row as int,
            c0 == selection.col as int,
            all_on_board(v@),
            v@ == neighbor_targets_upto(b, r0, c0, m as int),
            v@.no_duplicates(),
            forall|r: int, c: int|
                #[trigger] contains_cell(v@, r, c) <==> slide_target(b, r, c) && exists|d: Direction|
                    dir_index(d) < m && #[trigger] neighbor_in(r0, c0, d, r, c),
        decreases 6 - m,
    {
        let d = direction_at(m);
        assert(dir_index(d) == m);
        let ghost old_v = v@;
        match move_selection(selection, d) {
            Ok(s) => {
                if is_slide_target(&lifted, s.row, s.col) {
                    let t = Selection { location: Location::Board, row: s.row, col: s.col };
                    proof {
                        assert forall|i: int| 0 <= i < old_v.len() implies old_v[i] != t by {
                            if old_v[i] == t {
                                assert(old_v[i].col == t.col);
                                assert(contains_cell(old_v, t.row as int, t.col as int));
                                let dd = choose|dd: Direction|
                                    dir_index(dd) < m && #[trigger] neighbor_in(r0, c0, dd, t.row as int, t.col as int);
                                match dd {
                                    Direction::North => {},
                                    Direction::Northeast => {},
                                    Direction::Southeast => {},
                                    Direction::South => {},
                                    Direction::Southwest => {},
                                    Direction::Northwest => {},
                                }
                            }
                        }
                        lemma_no_duplicates_push(old_v, t);
                    }
                    v.push(t);
                    proof {
                        lemma_contains_cell_push(old_v, t);
                    }
                }
            },
            Err(_) => {},
        }
        proof {
            assert forall|r: int, c: int|
                #[trigger] contains_cell(v@, r, c) <==> slide_target(b, r, c) && exists|dd: Direction|
                    dir_index(dd) < m + 1 && #[trigger] neighbor_in(r0, c0, dd, r, c) by {
                if exists|dd: Direction| dir_index(dd) < m + 1 && #[trigger] neighbor_in(r0, c0, dd, r, c) {
                    let dd = choose|dd: Direction|
                        dir_index(dd) < m + 1 && #[trigger] neighbor_in(r0, c0, dd, r, c);
                    if dir_index(dd) == m {
                        assert(dd == d);
                    }
                }
                if contains_cell(v@, r, c) && !contains_cell(old_v, r, c) {
                    assert(neighbor_in(r0, c0, d, r, c));
                }
            }
        }
        m = m + 1;
    }
    proof {
        assert forall|r: int, c: int|
            #[trigger] contains_cell(v@, r, c) <==> adjacent(r0, c0, r, c) && slide_target(b, r, c) by {
            if adjacent(r0, c0, r, c) {
                let d = choose|d: Direction| #[trigger] neighbor_in(r0, c0, d, r, c);
                assert(dir_index(d) < 6);
            }
        }
    }
    v
}

/// Breadth-first layers of slides from `(r0, c0)` over the slide targets of
/// `b`: `.0` holds the cells first reached after exactly `k` slides, `.1`
/// every cell reached after at most `k`. No cell is reached twice.
pub open spec fn slide_layers(b: Seq<Piece>, r0: int, c0: int, k: nat) -> (Set<Cell>, Set<Cell>)
    decreases k,
{
    if k == 0 {
        (set![(r0, c0)], set![(r0, c0)])
    } else {
        let prev = slide_layers(b, r0, c0, (k - 1) as nat);
        let next = Set::new(
            |q: Cell|
                slide_target(b, q.0, q.1) && !prev.1.contains(q) && exists|p: Cell|
                    #[trigger] prev.0.contains(p) && adjacent(p.0, p.1, q.0, q.1),
        );
        (next, prev.1.union(next))
    }
}

/// Some entry of `cur` before position `(i, m)` (entry `i`, direction index
/// `m`) has `(r, c)` as its neighbour in that direction.
pub open spec fn stepped_before(cur: Seq<Selection>, i: int, m: int, r: int, c: int) -> bool {
    exists|j: int, d: Direction|
        0 <= j < cur.len() && (j < i || (j == i && dir_index(d) < m)) && #[trigger] neighbor_in(
            cur[j].row as int,
            cur[j].col as int,
            d,
            r,
            c,
        )
}

#[verifier::rlimit(60)]
/// One round of the breadth-first search: lists once each unmarked slide
/// target of `board` next to a cell of `current`, and marks it.
fn slide_once(board: &Board, current: &Vec<Selection>, reached: &mut Vec<bool>) -> (next: Vec<
    Selection,
>)
    requires
        board.wf(),
        old(reached).len() == CELL_COUNT,
    ensures
        final(reached).len() == CELL_COUNT,
        all_on_board(next@),
        next@.no_duplicates(),
        forall|k: int|
            0 <= k < next.len() ==> on_board(#[trigger] next@[k].row as int, next@[k].col as int)
                && !old(reached)@[idx(next@[k].row as int, next@[k].col as int)],
        count_marked(final(reached)@) == count_marked(old(reached)@) + next.len(),
        current.len() == 1 ==> next@ == fresh_targets_upto(
            board@,
            old(reached)@,
            current@[0].row as int,
            current@[0].col as int,
            6,
        ),
        forall|r: int, c: int|
            #[trigger] contains_cell(next@, r, c) <==> slide_target(board@, r, c)
                && !old(reached)@[idx(r, c)] && stepped_before(current@, current.len() as int, 0, r, c),
        forall|r: int, c: int|
            on_board(r, c) ==> (#[trigger] final(reached)@[idx(r, c)] <==> old(reached)@[idx(r, c)]
                || contains_cell(next@, r, c)),
{
    let ghost b = board@;
    let ghost start = reached@;
    let ghost cur = current@;
    let mut next: Vec<Selection> = Vec::new();
    let mut i: usize = 0;
    while i < current.len()
        invariant
            board.wf(),
            b == board@,
            cur == current@,
            start.len() == CELL_COUNT,
            i <= current.len(),
            reached.len() == CELL_COUNT,
            all_on_board(next@),
            next@.no_duplicates(),
            forall|k: int|
                0 <= k < next.len() ==> on_board(#[trigger] next@[k].row as int, next@[k].col as int)
                    && !start[idx(next@[k].row as int, next@[k].col as int)]
                    && reached@[idx(next@[k].row as int, next@[k].col as int)],
            count_marked(reached@) == count_marked(start) + next.len(),
            forall|r: int, c: int|
                #[trigger] contains_cell(next@, r, c) <==> slide_target(b, r, c) && !start[idx(r, c)]
                    && stepped_before(cur, i as int, 0, r, c),
            forall|r: int, c: int|
                on_board(r, c) ==> (#[trigger] reached@[idx(r, c)] <==> start[idx(r, c)]
                    || contains_cell(next@, r, c)),
            i == 0 ==> next@.len() == 0,
            cur.len() == 1 && i == 1 ==> next@ == fresh_targets_upto(
                b,
                start,
                cur[0].row as int,
                cur[0].col as int,
                6,
            ),
        decreases current.len() - i,
    {
        let p = current[i];
        let mut m: usize = 0;
        while m < 6
            invariant
                board.wf(),
                b == board@,
                cur == current@,
                start.len() == CELL_COUNT,
                i < current.len(),
                p == cur[i as int],
                m <= 6,
                reached.len() == CELL_COUNT,
                all_on_board(next@),
                next@.no_duplicates(),
                forall|k: int|
                    0 <= k < next.len() ==> on_board(#[trigger] next@[k].row as int, next@[k].col as int)
                        && !start[idx(next@[k].row as int, next@[k].col as int)]
                        && reached@[idx(next@[k].row as int, next@[k].col as int)],
                count_marked(reached@) == count_marked(start) + next.len(),
                forall|r: int, c: int|
                    #[trigger] contains_cell(next@, r, c) <==> slide_target(b, r, c)
                        && !start[idx(r, c)] && stepped_before(cur, i as int, m as int, r, c),
                forall|r: int, c: int|
                    on_board(r, c) ==> (#[trigger] reached@[idx(r, c)] <==> start[idx(r, c)]
                        || contains_cell(next@, r, c)),
                cur.len() == 1 ==> next@ == fresh_targets_upto(
                    b,
                    start,
                    p.row as int,
                    p.col as int,
                    m as int,
                ),
            decreases 6 - m,
        {
            let d = direction_at(m);
            assert(dir_index(d) == m);
            let ghost old_next = next@;
            let ghost old_reached = reached@;
            proof {
                if cur.len() == 1 {
                    let q = (p.row + row_delta(d), p.col + col_delta(d));
                    if contains_cell(next@, q.0, q.1) {
                        let (j, dd) = choose|j: int, dd: Direction|
                            0 <= j < cur.len() && (j < i || (j == i && dir_index(dd) < m))
                                && #[trigger] neighbor_in(cur[j].row as int, cur[j].col as int, dd, q.0, q.1);
                        assert(j == 0 && i == 0);
                        assert(neighbor_in(p.row as int, p.col as int, d, q.0, q.1));
                        match dd {
                            Direction::North => {},
                            Direction::Northeast => {},
                            Direction::Southeast => {},
                            Direction::South => {},
                            Direction::Southwest => {},
                            Direction::Northwest => {},
                        }
                        assert(false);
                    }
                }
            }
            match move_selection(p, d) {
                Ok(q) => {
                    let qi = q.row * BOARD_SIZE + q.col;
                    if !reached[qi] && is_slide_target(board, q.row, q.col) {
                        let t = Selection { location: Location::Board, row: q.row, col: q.col };
                        proof {
                            crate::board::lemma_idx_inverse(q.row as int, q.col as int);
                            lemma_count_marked_set(reached@, qi as int);
                            assert forall|k: int| 0 <= k < old_next.len() implies old_next[k] != t by {
                                if old_next[k] == t {
                                    assert(reached@[idx(old_next[k].row as int, old_next[k].col as int)]);
                                }
                            }
                            lemma_no_duplicates_push(old_next, t);
                        }
                        reached.set(qi, true);
                        next.push(t);
                        proof {
                            lemma_contains_cell_push(old_next, t);
                            assert forall|k: int| 0 <= k < next.len() implies on_board(
                                #[trigger] next@[k].row as int,
                                next@[k].col as int,
                            ) && !start[idx(next@[k].row as int, next@[k].col as int)]
                                && reached@[idx(next@[k].row as int, next@[k].col as int)] by {
                                if k < old_next.len() {
                                    assert(next@[k] == old_next[k]);
                                    assert(old_reached[idx(next@[k].row as int, next@[k].col as int)]);
                                } else {
                                    assert(next@[k] == t);
                                    assert(!start[qi as int]) by {
                                        if start[qi as int] {
                                            assert(old_reached[idx(q.row as int, q.col as int)]);
                                        }
                                    }
                                }
                            }
                            assert forall|r: int, c: int|
                                on_board(r, c) implies (#[trigger] reached@[idx(r, c)] <==> start[idx(
                                    r,
                                    c,
                                )] || contains_cell(next@, r, c)) by {
                                if idx(r, c) == qi as int {
                                    crate::board::lemma_idx_injective(
                                        r,
                                        c,
                                        q.row as int,
                                        q.col as int,
                                    );
                                }
                            }
                        }
                    }
                    proof {
                        assert(neighbor_in(p.row as int, p.col as int, d, q.row as int, q.col as int));
                        if cur.len() == 1 {
                            assert(!old_reached[qi as int] <==> !start[idx(q.row as int, q.col as int)]);
                            assert(d == dir_at(m as int));
                            assert(q.row as int == p.row + row_delta(d) && q.col as int == p.col + col_delta(d));
                            let qq = (q.row as int, q.col as int);
                            assert(old_next == fresh_targets_upto(b, start, p.row as int, p.col as int, m as int));
                            assert(!contains_cell(old_next, qq.0, qq.1));
                            assert(old_reached[qi as int] <==> start[idx(qq.0, qq.1)]);
                            assert(fresh_targets_upto(b, start, p.row as int, p.col as int, m + 1) == if slide_target(
                                b,
                                qq.0,
                                qq.1,
                            ) && !start[idx(qq.0, qq.1)] {
                                old_next.push(board_selection(qq))
                            } else {
                                old_next
                            });
                            if !old_reached[qi as int] && slide_target(b, qq.0, qq.1) {
                                assert(next@ == old_next.push(board_selection(qq)));
                            } else {
                                assert(next@ == old_next);
                            }
                        }
                    }
                },
                Err(_) => {
                    proof {
                        assert(!in_play(p.row + row_delta(d), p.col + col_delta(d)));
                    }
                },
            }
            proof {
                assert forall|r: int, c: int|
                    #[trigger] contains_cell(next@, r, c) <==> slide_target(b, r, c)
                        && !start[idx(r, c)] && stepped_before(cur, i as int, m + 1, r, c) by {
                    if stepped_before(cur, i as int, m + 1, r, c) && !stepped_before(
                        cur,
                        i as int,
                        m as int,
                        r,
                        c,
                    ) {
                        let (j, dd) = choose|j: int, dd: Direction|
                            0 <= j < cur.len() && (j < i || (j == i && dir_index(dd) < m + 1))
                                && #[trigger] neighbor_in(
                                cur[j].row as int,
                                cur[j].col as int,
                                dd,
                                r,
                                c,
                            );
                        assert(j == i && dd == d);
                    }
                    if contains_cell(next@, r, c) && !contains_cell(old_next, r, c) {
                        assert(neighbor_in(cur[i as int].row as int, cur[i as int].col as int, d, r, c));
                    }
                }
            }
            m = m + 1;
        }
        proof {
            assert forall|r: int, c: int|
                stepped_before(cur, i as int, 6, r, c) <==> stepped_before(cur, i + 1, 0, r, c) by {
                if stepped_before(cur, i as int, 6, r, c) {
                    let (j, dd) = choose|j: int, dd: Direction|
                        0 <= j < cur.len() && (j < i || (j == i && dir_index(dd) < 6))
                            && #[trigger] neighbor_in(cur[j].row as int, cur[j].col as int, dd, r, c);
                    assert(j < i + 1);
                }
                if stepped_before(cur, i + 1, 0, r, c) {
                    let (j, dd) = choose|j: int, dd: Direction|
                        0 <= j < cur.len() && (j < i + 1 || (j == i + 1 && dir_index(dd) < 0))
                            && #[trigger] neighbor_in(cur[j].row as int, cur[j].col as int, dd, r, c);
                    assert(dir_index(dd) < 6);
                }
            }
        }
        i = i + 1;
    }
    next
}

/// Number of slides asked for by `slides`; a negative count asks for none.
pub open spec fn slide_count(slides: i32) -> nat {
    if slides < 0 {
        0
    } else {
        slides as nat
    }
}

/// The search state before any slide: only the starting cell is listed and
/// marked.
fn search_start(selection: Selection) -> (r: (Vec<bool>, Vec<Selection>))
    requires
        on_board(selection.row as int, selection.col as int),
    ensures
        r.0.len() == CELL_COUNT,
        all_on_board(r.1@),
        r.1@.no_duplicates(),
        r.1@ == seq![Selection { location: Location::Board, row: selection.row, col: selection.col }],
        forall|rr: int, c: int|
            #[trigger] contains_cell(r.1@, rr, c) <==> rr == selection.row && c == selection.col,
        forall|rr: int, c: int|
            on_board(rr, c) ==> (#[trigger] r.0@[idx(rr, c)] <==> rr == selection.row && c
                == selection.col),
        forall|k: int|
            0 <= k < r.1.len() ==> on_board(#[trigger] r.1@[k].row as int, r.1@[k].col as int)
                && r.0@[idx(r.1@[k].row as int, r.1@[k].col as int)],
{
    let ghost r0 = selection.row as int;
    let ghost c0 = selection.col as int;
    let mut reached = crate::hive::unmarked_grid();
    let start = Selection { location: Location::Board, row: selection.row, col: selection.col };
    reached.set(selection.row * BOARD_SIZE + selection.col, true);
    let mut current: Vec<Selection> = Vec::new();
    current.push(start);
    proof {
        lemma_contains_cell_push(Seq::empty(), start);
        assert(current@ == Seq::<Selection>::empty().push(start));
        assert(current@ =~= seq![start]);
        assert forall|r: int, c: int| #[trigger] contains_cell(Seq::<Selection>::empty(), r, c) implies false by {}
        assert forall|r: int, c: int|
            on_board(r, c) implies (#[trigger] reached@[idx(r, c)] <==> r == r0 && c == c0) by {
            if idx(r, c) == idx(r0, c0) {
                crate::board::lemma_idx_injective(r, c, r0, c0);
            }
        }
        assert forall|k: int|
            0 <= k < current.len() implies on_board(#[trigger] current@[k].row as int, current@[k].col as int)
                && reached@[idx(current@[k].row as int, current@[k].col as int)] by {
            assert(current@[k] == start);
        }
    }
    (reached, current)
}

/// One round of the breadth-first search from `(r0, c0)` over the slide
/// targets of `board`: from layer `step`, listed in `current` and marked with
/// everything before it in `reached`, to layer `step + 1`.
fn next_layer(
    board: &Board,
    r0: Ghost<int>,
    c0: Ghost<int>,
    step: Ghost<nat>,
    current: &Vec<Selection>,
    reached: &mut Vec<bool>,
) -> (next: Vec<Selection>)
    requires
        board.wf(),
        old(reached).len() == CELL_COUNT,
        all_on_board(current@),
        forall|r: int, c: int|
            #[trigger] contains_cell(current@, r, c) <==> slide_layers(board@, r0@, c0@, step@).0.contains((r, c)),
        forall|r: int, c: int|
            on_board(r, c) ==> (#[trigger] old(reached)@[idx(r, c)] <==> slide_layers(board@, r0@, c0@, step@).1.contains((r, c))),
    ensures
        final(reached).len() == CELL_COUNT,
        all_on_board(next@),
        next@.no_duplicates(),
        forall|r: int, c: int|
            #[trigger] contains_cell(next@, r, c) <==> slide_layers(board@, r0@, c0@, step@ + 1).0.contains((r, c)),
        forall|r: int, c: int|
            on_board(r, c) ==> (#[trigger] final(reached)@[idx(r, c)] <==> slide_layers(board@, r0@, c0@, step@ + 1).1.contains((r, c))),
        forall|k: int|
            0 <= k < next.len() ==> on_board(#[trigger] next@[k].row as int, next@[k].col as int)
                && !old(reached)@[idx(next@[k].row as int, next@[k].col as int)],
        forall|r: int, c: int|
            on_board(r, c) && #[trigger] old(reached)@[idx(r, c)] ==> final(reached)@[idx(r, c)],
        count_marked(final(reached)@) == count_marked(old(reached)@) + next.len(),
        current.len() == 1 ==> next@ == fresh_targets_upto(
            board@,
            old(reached)@,
            current@[0].row as int,
            current@[0].col as int,
            6,
        ),
{
    let ghost b = board@;
    let ghost layers = slide_layers(b, r0@, c0@, step@);
    let next = slide_once(board, current, reached);
    proof {
        let nl = slide_layers(b, r0@, c0@, step@ + 1);
        assert(nl == slide_layers(b, r0@, c0@, (step@ + 1) as nat));
        assert forall|r: int, c: int|
            #[trigger] contains_cell(next@, r, c) <==> nl.0.contains((r, c)) by {
            if slide_target(b, r, c) {
                if stepped_before(current@, current.len() as int, 0, r, c) {
                    let (j, d) = choose|j: int, d: Direction|
                        0 <= j < current@.len() && (j < current.len() || (j == current.len() && dir_index(d) < 0))
                            && #[trigger] neighbor_in(current@[j].row as int, current@[j].col as int, d, r, c);
                    let p = (current@[j].row as int, current@[j].col as int);
                    assert(contains_cell(current@, p.0, p.1));
                    assert(layers.0.contains(p));
                    assert(adjacent(p.0, p.1, r, c));
                }
                if exists|p: Cell| #[trigger] layers.0.contains(p) && adjacent(p.0, p.1, r, c) {
                    let p = choose|p: Cell| #[trigger] layers.0.contains(p) && adjacent(p.0, p.1, r, c);
                    assert(contains_cell(current@, p.0, p.1));
                    let j = choose|j: int|
                        0 <= j < current@.len() && current@[j].location == Location::Board
                            && current@[j].row == p.0 && #[trigger] current@[j].col == p.1;
                    let d = choose|d: Direction| #[trigger] neighbor_in(p.0, p.1, d, r, c);
                    assert(neighbor_in(current@[j].row as int, current@[j].col as int, d, r, c));
                    assert(stepped_before(current@, current.len() as int, 0, r, c));
                }
            }
        }
        assert forall|r: int, c: int|
            on_board(r, c) implies (#[trigger] reached@[idx(r, c)] <==> nl.1.contains((r, c))) by {}
    }
    next
}

/// The cells a piece at `selection` reaches in exactly `slides` slides over
/// the slide targets of the board once it is lifted off it, never passing a
/// cell twice (a breadth-first search), each listed once. With no slides,
/// the cell itself.
pub fn find_slide_locations(board: &Board, selection: Selection, slides: i32) -> (v: Vec<Selection>)
    requires
        board.wf(),
        on_board(selection.row as int, selection.col as int),
    ensures
        all_on_board(v@),
        v@.no_duplicates(),
        forall|r: int, c: int|
            #[trigger] contains_cell(v@, r, c) <==> slide_layers(
                cleared(board@, selection.row as int, selection.col as int),
                selection.row as int,
                selection.col as int,
                slide_count(slides),
            ).0.contains((r, c)),
        slides == 1 ==> v@ == neighbor_targets_upto(
            cleared(board@, selection.row as int, selection.col as int),
            selection.row as int,
            selection.col as int,
            6,
        ),
{
    let lifted = board.with_cell_cleared(selection.row, selection.col);
    let ghost b = lifted@;
    let ghost r0 = selection.row as int;
    let ghost c0 = selection.col as int;
    let (mut reached, mut current) = search_start(selection);
    assert(slide_layers(b, r0, c0, 0).0 == set![(r0, c0)]);
    assert(slide_layers(b, r0, c0, 0).1 == set![(r0, c0)]);
    let mut step: i32 = 0;
    while step < slides
        invariant
            lifted.wf(),
            b == lifted@,
            r0 == selection.row as int,
            c0 == selection.col as int,
            0 <= step,
            step <= slides || step == 0,
            step == 0 ==> current@ == seq![
                Selection { location: Location::Board, row: selection.row, col: selection.col },
            ],
            step == 1 ==> current@ == neighbor_targets_upto(b, r0, c0, 6),
            reached.len() == CELL_COUNT,
            all_on_board(current@),
            current@.no_duplicates(),
            forall|r: int, c: int|
                #[trigger] contains_cell(current@, r, c) <==> slide_layers(b, r0, c0, step as nat).0.contains((r, c)),
            forall|r: int, c: int|
                on_board(r, c) ==> (#[trigger] reached@[idx(r, c)] <==> slide_layers(b, r0, c0, step as nat).1.contains((r, c))),
        decreases slides - step,
    {
        let ghost old_reached = reached@;
        let next = next_layer(&lifted, Ghost(r0), Ghost(c0), Ghost(step as nat), &current, &mut reached);
        proof {
            if step == 0 {
                assert forall|r: int, c: int|
                    on_board(r, c) implies (#[trigger] old_reached[idx(r, c)] <==> r == r0 && c == c0) by {
                    assert(slide_layers(b, r0, c0, 0).1 == set![(r0, c0)]);
                }
                lemma_fresh_targets_from_start(b, old_reached, r0, c0, 6);
            }
        }
        current = next;
        step = step + 1;
    }
    current
}

/// Number of slides a spider makes.
pub const SPIDER_SLIDES: i32 = 3;

/// Number of slides a queen makes.
pub const QUEEN_SLIDES: i32 = 1;

/// The piece at `(r0, c0)` of board `b` may move to `(r, c)`, by the kind of
/// its bug. Beetles, and empty cells, have no moves.
pub open spec fn move_target(b: Seq<Piece>, r0: int, c0: int, r: int, c: int) -> bool {
    let lifted = cleared(b, r0, c0);
    match cell(b, r0, c0).bug {
        Bug::Grasshopper => grasshopper_target(b, r0, c0, r, c),
        Bug::Spider => slide_layers(lifted, r0, c0, SPIDER_SLIDES as nat).0.contains((r, c)),
        Bug::Ant => ant_target(lifted, r0, c0, r, c),
        Bug::Queen => slide_layers(lifted, r0, c0, QUEEN_SLIDES as nat).0.contains((r, c)),
        _ => false,
    }
}

/// The cells the piece at `selection` may move to.
pub fn movable_positions(board: &Board, selection: Selection) -> (v: Vec<Selection>)
    requires
        board.wf(),
        on_board(selection.row as int, selection.col as int),
    ensures
        all_on_board(v@),
        v@.no_duplicates(),
        forall|r: int, c: int|
            #[trigger] contains_cell(v@, r, c) <==> move_target(
                board@,
                selection.row as int,
                selection.col as int,
                r,
                c,
            ),
        cell(board@, selection.row as int, selection.col as int).bug == Bug::Grasshopper ==> v@
            == landings_upto(board@, selection.row as int, selection.col as int, 6),
        cell(board@, selection.row as int, selection.col as int).bug == Bug::Queen ==> v@
            == neighbor_targets_upto(
            cleared(board@, selection.row as int, selection.col as int),
            selection.row as int,
            selection.col as int,
            6,
        ),
{
    let piece = board.get(selection.row, selection.col);
    match piece.bug {
        Bug::Grasshopper => find_grasshopper_movable_location(board, selection),
        Bug::Spider => find_slide_locations(board, selection, SPIDER_SLIDES),
        Bug::Ant => find_ant_locations(board, selection),
        Bug::Queen => find_slide_locations(board, selection, QUEEN_SLIDES),
        _ => {
            let v: Vec<Selection> = Vec::new();
            assert forall|r: int, c: int| #[trigger] contains_cell(v@, r, c) implies false by {}
            v
        },
    }
}

/// A grasshopper next to a run of occupied cells in direction `d` lands on
/// the first empty cell past the run, when that cell is away from the edges,
/// and nowhere else in that direction.
pub proof fn lemma_grasshopper_lands_past_run(b: Seq<Piece>, r: int, c: int, d: Direction, k: nat)
    requires
        k >= 2,
        forall|j: nat| 1 <= j < k ==> #[trigger] occupied(b, ray(r, c, d, j).0, ray(r, c, d, j).1),
        !occupied(b, ray(r, c, d, k).0, ray(r, c, d, k).1),
        in_play(ray(r, c, d, k).0, ray(r, c, d, k).1),
    ensures
        hop_landing(b, r, c, d, k),
        forall|k2: nat| #[trigger] hop_landing(b, r, c, d, k2) ==> k2 == k,
{
    assert(hop_landing(b, r, c, d, k));
    assert forall|k2: nat| #[trigger] hop_landing(b, r, c, d, k2) implies k2 == k by {
        lemma_hop_unique(b, r, c, d, k, k2);
    }
}

/// An ant's moves and a player's placements use the same tests. Every cell an
/// ant may move to is, on the board without the ant, empty, away from the
/// edges, in contact with the hive (as a placement must be) and has room to
/// slide in (at most four occupied neighbours). Conversely, once the
/// bootstrap phase is over (two or more pieces besides the ant), a cell next
/// to the ant where a player could place a piece on the board without the
/// ant, and that has room to slide in, is a cell the ant may move to.
pub proof fn lemma_ant_reaches_placeable_cells(
    b: Seq<Piece>,
    r0: int,
    c0: int,
    player: PlayerNumber,
    r: int,
    c: int,
)
    requires
        crate::board::cells_wf(b),
        on_board(r0, c0),
        cell(b, r0, c0).bug == Bug::Ant,
        player != PlayerNumber::Nobody,
    ensures
        move_target(b, r0, c0, r, c) ==> slide_target(cleared(b, r0, c0), r, c),
        crate::board::occupied_total(cleared(b, r0, c0)) >= 2 && crate::placement::placeable(
            cleared(b, r0, c0),
            player,
            r,
            c,
        ) && occupied_neighbor_count(cleared(b, r0, c0), r, c) <= 4 && adjacent(r0, c0, r, c)
            ==> move_target(b, r0, c0, r, c),
{
    let lifted = cleared(b, r0, c0);
    if move_target(b, r0, c0, r, c) {
        let k = choose|k: nat| k >= 1 && #[trigger] slide_layers(lifted, r0, c0, k).0.contains((r, c));
    }
    if crate::board::occupied_total(lifted) >= 2 && crate::placement::placeable(lifted, player, r, c)
        && occupied_neighbor_count(lifted, r, c) <= 4 && adjacent(r0, c0, r, c) {
        let d = choose|d: Direction| crate::board::owner_toward(lifted, r, c, d) == player;
        crate::board::lemma_owned_neighbor_counts(lifted, r, c, d);
        lemma_one_slide_is_a_neighbor(lifted, r0, c0, r, c);
        assert(slide_layers(lifted, r0, c0, 1).0.contains((r, c)));
    }
}

/// The cells first reached after one slide are exactly the neighbouring
/// slide targets, so a queen's moves may be found either way.
pub proof fn lemma_one_slide_is_a_neighbor(b: Seq<Piece>, r0: int, c0: int, r: int, c: int)
    ensures
        slide_layers(b, r0, c0, 1).0.contains((r, c)) <==> adjacent(r0, c0, r, c) && slide_target(b, r, c),
{
    let start = slide_layers(b, r0, c0, 0);
    assert(start.0 == set![(r0, c0)]);
    if adjacent(r0, c0, r, c) && slide_target(b, r, c) {
        let d = choose|d: Direction| #[trigger] neighbor_in(r0, c0, d, r, c);
        assert((r, c) != (r0, c0));
        assert(start.0.contains((r0, c0)));
    }
}

} // verus!
