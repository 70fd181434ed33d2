//! The one-hive rule: the occupied cells must stay connected when a piece is
//! lifted off the board.
use vstd::prelude::*;
use crate::board::{Board, CELL_COUNT, cleared, idx, occupied};
use crate::geometry::{
    BOARD_SIZE, Direction, neighbor_in, Location, Selection, adjacent, col_delta, dir_at,
    direction_at, move_selection, on_board, row_delta, lemma_adjacent_symmetric,
};
use crate::movement::ray;
use crate::piece::Piece;

verus! {

/// A cell, as a row and a column.
pub type Cell = (int, int);

/// `path` is a non-empty walk over occupied cells of `b`, each a neighbour of
/// the one before it.
pub open spec fn is_hive_path(b: Seq<Piece>, path: Seq<Cell>) -> bool {
    &&& path.len() >= 1
    &&& forall|i: int| 0 <= i < path.len() ==> occupied(b, #[trigger] path[i].0, path[i].1)
    &&& forall|i: int|
        0 <= i < path.len() - 1 ==> adjacent(
            #[trigger] path[i].0,
            path[i].1,
            path[i + 1].0,
            path[i + 1].1,
        )
}

/// Cell `(r2, c2)` can be reached from cell `(r1, c1)` by stepping between
/// neighbouring occupied cells of `b`.
pub open spec fn reachable(b: Seq<Piece>, r1: int, c1: int, r2: int, c2: int) -> bool {
    exists|path: Seq<Cell>|
        #![trigger is_hive_path(b, path), path[0], path.last()]
        is_hive_path(b, path) && path[0] == (r1, c1) && path.last() == (r2, c2)
}

/// The occupied cells of `b` form one connected group (trivially so when
/// there are none or one).
pub open spec fn hive_connected(b: Seq<Piece>) -> bool {
    forall|r1: int, c1: int, r2: int, c2: int|
        occupied(b, r1, c1) && occupied(b, r2, c2) ==> #[trigger] reachable(b, r1, c1, r2, c2)
}

/// Every marked cell of `visited` that holds a piece of `b` has all its
/// occupied neighbours marked.
pub open spec fn closed_under_adjacency(b: Seq<Piece>, visited: Seq<bool>) -> bool {
    forall|r: int, c: int, d: Direction|
        on_board(r, c) && #[trigger] visited[idx(r, c)] && #[trigger] occupied(
            b,
            r + row_delta(d),
            c + col_delta(d),
        ) ==> visited[idx(r + row_delta(d), c + col_delta(d))]
}

/// Number of marked entries of `s`.
pub open spec fn count_marked(s: Seq<bool>) -> nat
    decreases s.len(),
{
    if s.len() == 0 {
        0
    } else {
        count_marked(s.drop_last()) + if s.last() {
            1nat
        } else {
            0nat
        }
    }
}

pub(crate) proof fn lemma_count_marked_bound(s: Seq<bool>)
    ensures
        count_marked(s) <= s.len(),
    decreases s.len(),
{
    if s.len() > 0 {
        lemma_count_marked_bound(s.drop_last());
    }
}

pub(crate) proof fn lemma_count_marked_none(s: Seq<bool>)
    requires
        forall|i: int| 0 <= i < s.len() ==> !s[i],
    ensures
        count_marked(s) == 0,
    decreases s.len(),
{
    if s.len() > 0 {
        lemma_count_marked_none(s.drop_last());
    }
}

pub(crate) proof fn lemma_count_marked_set(s: Seq<bool>, i: int)
    requires
        0 <= i < s.len(),
        !s[i],
    ensures
        count_marked(s.update(i, true)) == count_marked(s) + 1,
    decreases s.len(),
{
    let t = s.update(i, true);
    if i == s.len() - 1 {
        assert(t.drop_last() =~= s.drop_last());
    } else {
        assert(t.drop_last() =~= s.drop_last().update(i, true));
        lemma_count_marked_set(s.drop_last(), i);
    }
}

/// A one-cell path reaches an occupied cell from itself.
proof fn lemma_reach_self(b: Seq<Piece>, r: int, c: int)
    requires
        occupied(b, r, c),
    ensures
        reachable(b, r, c, r, c),
{
    let path = seq![(r, c)];
    assert(is_hive_path(b, path));
    assert(path.last() == (r, c));
}

/// A path reaching a cell extends to each occupied neighbour of it.
proof fn lemma_reach_extend(b: Seq<Piece>, r0: int, c0: int, r: int, c: int, nr: int, nc: int)
    requires
        reachable(b, r0, c0, r, c),
        adjacent(r, c, nr, nc),
        occupied(b, nr, nc),
    ensures
        reachable(b, r0, c0, nr, nc),
{
    let path = choose|path: Seq<Cell>|
        #![trigger is_hive_path(b, path), path[0], path.last()]
        is_hive_path(b, path) && path[0] == (r0, c0) && path.last() == (r, c);
    let longer = path.push((nr, nc));
    assert forall|i: int| 0 <= i < longer.len() - 1 implies adjacent(
        #[trigger] longer[i].0,
        longer[i].1,
        longer[i + 1].0,
        longer[i + 1].1,
    ) by {
        if i < path.len() - 1 {
            assert(longer[i] == path[i] && longer[i + 1] == path[i + 1]);
        }
    }
    assert(is_hive_path(b, longer));
    assert(longer[0] == (r0, c0));
    assert(longer.last() == (nr, nc));
}

/// Reachability is symmetric.
proof fn lemma_reach_symmetric(b: Seq<Piece>, r1: int, c1: int, r2: int, c2: int)
    requires
        reachable(b, r1, c1, r2, c2),
    ensures
        reachable(b, r2, c2, r1, c1),
{
    let path = choose|path: Seq<Cell>|
        #![trigger is_hive_path(b, path), path[0], path.last()]
        is_hive_path(b, path) && path[0] == (r1, c1) && path.last() == (r2, c2);
    let n = path.len();
    let rev = Seq::new(n, |i: int| path[n - 1 - i]);
    assert forall|i: int| 0 <= i < rev.len() implies occupied(b, #[trigger] rev[i].0, rev[i].1) by {
        assert(rev[i] == path[n - 1 - i]);
    }
    assert forall|i: int| 0 <= i < rev.len() - 1 implies adjacent(
        #[trigger] rev[i].0,
        rev[i].1,
        rev[i + 1].0,
        rev[i + 1].1,
    ) by {
        let j = n - 2 - i;
        assert(adjacent(path[j].0, path[j].1, path[j + 1].0, path[j + 1].1));
        lemma_adjacent_symmetric(path[j].0, path[j].1, path[j + 1].0, path[j + 1].1);
    }
    assert(is_hive_path(b, rev));
    assert(rev[0] == (r2, c2));
    assert(rev.last() == (r1, c1));
}

/// Reachability is transitive.
proof fn lemma_reach_transitive(
    b: Seq<Piece>,
    r1: int,
    c1: int,
    r2: int,
    c2: int,
    r3: int,
    c3: int,
)
    requires
        reachable(b, r1, c1, r2, c2),
        reachable(b, r2, c2, r3, c3),
    ensures
        reachable(b, r1, c1, r3, c3),
{
    let p = choose|path: Seq<Cell>|
        #![trigger is_hive_path(b, path), path[0], path.last()]
        is_hive_path(b, path) && path[0] == (r1, c1) && path.last() == (r2, c2);
    let q = choose|path: Seq<Cell>|
        #![trigger is_hive_path(b, path), path[0], path.last()]
        is_hive_path(b, path) && path[0] == (r2, c2) && path.last() == (r3, c3);
    let pq = p + q.subrange(1, q.len() as int);
    let np = p.len();
    assert forall|i: int| 0 <= i < pq.len() implies occupied(b, #[trigger] pq[i].0, pq[i].1) by {
        if i >= np {
            assert(pq[i] == q[i - np + 1]);
        }
    }
    assert forall|i: int| 0 <= i < pq.len() - 1 implies adjacent(
        #[trigger] pq[i].0,
        pq[i].1,
        pq[i + 1].0,
        pq[i + 1].1,
    ) by {
        if i < np - 1 {
            assert(pq[i] == p[i] && pq[i + 1] == p[i + 1]);
        } else if i == np - 1 {
            assert(pq[i] == q[0] && pq[i + 1] == q[1]);
        } else {
            assert(pq[i] == q[i - np + 1] && pq[i + 1] == q[i - np + 2]);
        }
    }
    assert(is_hive_path(b, pq));
    assert(pq[0] == (r1, c1));
    assert(pq.last() == (r3, c3));
}

/// A marking closed under adjacency that contains the start of a path
/// contains its end.
proof fn lemma_closed_contains_path(b: Seq<Piece>, visited: Seq<bool>, path: Seq<Cell>)
    requires
        visited.len() == CELL_COUNT,
        is_hive_path(b, path),
        visited[idx(path[0].0, path[0].1)],
        closed_under_adjacency(b, visited),
    ensures
        visited[idx(path.last().0, path.last().1)],
    decreases path.len(),
{
    if path.len() > 1 {
        let prefix = path.drop_last();
        assert(is_hive_path(b, prefix)) by {
            assert forall|i: int| 0 <= i < prefix.len() - 1 implies adjacent(
                #[trigger] prefix[i].0,
                prefix[i].1,
                prefix[i + 1].0,
                prefix[i + 1].1,
            ) by {
                assert(prefix[i] == path[i] && prefix[i + 1] == path[i + 1]);
            }
            assert forall|i: int| 0 <= i < prefix.len() implies occupied(
                b,
                #[trigger] prefix[i].0,
                prefix[i].1,
            ) by {
                assert(prefix[i] == path[i]);
            }
        }
        lemma_closed_contains_path(b, visited, prefix);
        let n = path.len() - 2;
        let (r, c) = path[n];
        assert(adjacent(path[n].0, path[n].1, path[n + 1].0, path[n + 1].1));
        let d = choose|d: Direction|
            #[trigger] neighbor_in(r, c, d, path[n + 1].0, path[n + 1].1);
        assert(occupied(b, path[n].0, path[n].1));
        assert(occupied(b, r + row_delta(d), c + col_delta(d)));
    }
}

/// Cell `(r, c)` is the position of some entry of `stack`.
pub open spec fn on_stack(stack: Seq<Selection>, r: int, c: int) -> bool {
    exists|j: int| 0 <= j < stack.len() && stack[j].row == r && #[trigger] stack[j].col == c
}

/// Marks in `visited` every cell that can be reached from `selection` over
/// occupied cells of `board`, and nothing else.
pub fn discover(board: &Board, selection: Selection, visited: &mut Vec<bool>)
    requires
        board.wf(),
        occupied(board@, selection.row as int, selection.col as int),
        old(visited).len() == CELL_COUNT,
        forall|i: int| 0 <= i < CELL_COUNT ==> !old(visited)[i],
    ensures
        final(visited).len() == CELL_COUNT,
        forall|r: int, c: int|
            on_board(r, c) ==> (final(visited)@[idx(r, c)] <==> reachable(
                board@,
                selection.row as int,
                selection.col as int,
                r,
                c,
            )),
{
    let ghost b = board@;
    let ghost r0 = selection.row as int;
    let ghost c0 = selection.col as int;
    let start = Selection { location: Location::Board, row: selection.row, col: selection.col };
    proof {
        crate::board::lemma_idx_inverse(r0, c0);
        lemma_count_marked_none(visited@);
        lemma_count_marked_set(visited@, idx(r0, c0));
        lemma_reach_self(b, r0, c0);
    }
    visited.set(selection.row * BOARD_SIZE + selection.col, true);
    let mut stack: Vec<Selection> = Vec::new();
    stack.push(start);
    let mut marked: usize = 1;
    proof {
        assert forall|i: int| 0 <= i < CELL_COUNT && i != idx(r0, c0) implies !visited@[i] by {}
        assert(stack@[0] == start);
        assert forall|r: int, c: int|
            on_board(r, c) && #[trigger] visited@[idx(r, c)] implies r == r0 && c == c0
            && on_stack(stack@, r, c) by {
            if idx(r, c) != idx(r0, c0) {
                assert(!visited@[idx(r, c)]);
            }
            crate::board::lemma_idx_injective(r, c, r0, c0);
            assert(stack@[0].row == r && stack@[0].col == c);
        }
    }
    while stack.len() > 0
        invariant
            board.wf(),
            b == board@,
            on_board(r0, c0),
            visited.len() == CELL_COUNT,
            marked == count_marked(visited@),
            visited@[idx(r0, c0)],
            forall|r: int, c: int|
                on_board(r, c) && #[trigger] visited@[idx(r, c)] ==> occupied(b, r, c)
                    && reachable(b, r0, c0, r, c),
            forall|j: int|
                0 <= j < stack.len() ==> on_board(#[trigger] stack@[j].row as int, stack@[j].col as int)
                    && visited@[idx(stack@[j].row as int, stack@[j].col as int)],
            forall|r: int, c: int, d: Direction|
                on_board(r, c) && #[trigger] visited@[idx(r, c)] && !on_stack(stack@, r, c)
                    && #[trigger] occupied(b, r + row_delta(d), c + col_delta(d)) ==> visited@[idx(
                    r + row_delta(d),
                    c + col_delta(d),
                )],
        decreases CELL_COUNT - marked, stack.len(),
    {
        let ghost stack_before = stack@;
        let p = stack.pop().unwrap();
        let ghost stack_after_pop = stack@;
        let ghost pr = p.row as int;
        let ghost pc = p.col as int;
        let ghost marked_before = marked;
        proof {
            lemma_count_marked_bound(visited@);
            assert(stack_before =~= stack_after_pop.push(p));
            assert forall|r: int, c: int|
                on_stack(stack_before, r, c) && !(r == pr && c == pc) implies on_stack(
                stack_after_pop,
                r,
                c,
            ) by {
                let j = choose|j: int|
                    0 <= j < stack_before.len() && stack_before[j].row == r
                        && #[trigger] stack_before[j].col == c;
                assert(j < stack_after_pop.len());
                assert(stack_after_pop[j] == stack_before[j]);
            }
        }
        let mut k: usize = 0;
        while k < 6
            invariant
                board.wf(),
                b == board@,
                on_board(r0, c0),
                on_board(pr, pc),
                p.row == pr && p.col == pc,
                visited@[idx(pr, pc)],
                k <= 6,
                visited.len() == CELL_COUNT,
                marked == count_marked(visited@),
                marked >= marked_before,
                visited@[idx(r0, c0)],
                stack@.len() >= stack_after_pop.len(),
                stack@.subrange(0, stack_after_pop.len() as int) == stack_after_pop,
                marked > marked_before || stack@.len() == stack_after_pop.len(),
                forall|r: int, c: int|
                    on_board(r, c) && #[trigger] visited@[idx(r, c)] ==> occupied(b, r, c)
                        && reachable(b, r0, c0, r, c),
                forall|j: int|
                    0 <= j < stack.len() ==> on_board(
                        #[trigger] stack@[j].row as int,
                        stack@[j].col as int,
                    ) && visited@[idx(stack@[j].row as int, stack@[j].col as int)],
                forall|r: int, c: int, d: Direction|
                    on_board(r, c) && #[trigger] visited@[idx(r, c)] && !on_stack(stack@, r, c)
                        && !(r == pr && c == pc) && #[trigger] occupied(
                        b,
                        r + row_delta(d),
                        c + col_delta(d),
                    ) ==> visited@[idx(r + row_delta(d), c + col_delta(d))],
                forall|j: int|
                    0 <= j < k ==> #[trigger] occupied(
                        b,
                        pr + row_delta(dir_at(j)),
                        pc + col_delta(dir_at(j)),
                    ) ==> visited@[idx(pr + row_delta(dir_at(j)), pc + col_delta(dir_at(j)))],
            decreases 6 - k,
        {
            let d = direction_at(k);
            match move_selection(p, d) {
                Ok(q) => {
                    let qi = q.row * BOARD_SIZE + q.col;
                    if board.is_occupied(q.row, q.col) && !visited[qi] {
                        proof {
                            crate::board::lemma_idx_inverse(q.row as int, q.col as int);
                            lemma_count_marked_set(visited@, qi as int);
                            lemma_count_marked_bound(visited@);
                            assert(neighbor_in(pr, pc, d, q.row as int, q.col as int));
                            assert(adjacent(pr, pc, q.row as int, q.col as int));
                            lemma_reach_extend(b, r0, c0, pr, pc, q.row as int, q.col as int);
                        }
                        let ghost old_visited = visited@;
                        let ghost old_stack = stack@;
                        visited.set(qi, true);
                        stack.push(Selection { location: Location::Board, row: q.row, col: q.col });
                        marked = marked + 1;
                        proof {
                            assert forall|r: int, c: int|
                                on_board(r, c) && #[trigger] visited@[idx(r, c)] implies occupied(
                                    b,
                                    r,
                                    c,
                                ) && reachable(b, r0, c0, r, c) by {
                                if idx(r, c) == qi as int {
                                    crate::board::lemma_idx_injective(
                                        r,
                                        c,
                                        q.row as int,
                                        q.col as int,
                                    );
                                } else {
                                    assert(old_visited[idx(r, c)]);
                                }
                            }
                            assert(stack@.subrange(0, stack_after_pop.len() as int) =~= stack_after_pop);
                            let ns = stack@;
                            assert(ns[ns.len() - 1].row == q.row && ns[ns.len() - 1].col == q.col);
                            assert(on_stack(ns, q.row as int, q.col as int));
                            assert forall|r: int, c: int|
                                on_stack(old_stack, r, c) implies on_stack(ns, r, c) by {
                                let j = choose|j: int|
                                    0 <= j < old_stack.len() && old_stack[j].row == r
                                        && #[trigger] old_stack[j].col == c;
                                assert(ns[j] == old_stack[j]);
                            }
                            assert forall|r: int, c: int, d: Direction|
                                on_board(r, c) && #[trigger] visited@[idx(r, c)] && !on_stack(
                                    ns,
                                    r,
                                    c,
                                ) && !(r == pr && c == pc) && #[trigger] occupied(
                                    b,
                                    r + row_delta(d),
                                    c + col_delta(d),
                                ) implies visited@[idx(r + row_delta(d), c + col_delta(d))] by {
                                if idx(r, c) == qi as int {
                                    crate::board::lemma_idx_injective(
                                        r,
                                        c,
                                        q.row as int,
                                        q.col as int,
                                    );
                                }
                                assert(old_visited[idx(r, c)]);
                            }
                        }
                    }
                },
                Err(_) => {},
            }
            k = k + 1;
        }
        proof {
            assert forall|r: int, c: int, d: Direction|
                on_board(r, c) && #[trigger] visited@[idx(r, c)] && !on_stack(stack@, r, c)
                    && #[trigger] occupied(b, r + row_delta(d), c + col_delta(d)) implies visited@[idx(
                r + row_delta(d),
                c + col_delta(d),
            )] by {
                if r == pr && c == pc {
                    let j: int = if d == Direction::North {
                        0
                    } else if d == Direction::Northeast {
                        1
                    } else if d == Direction::Southeast {
                        2
                    } else if d == Direction::South {
                        3
                    } else if d == Direction::Southwest {
                        4
                    } else {
                        5
                    };
                    assert(dir_at(j) == d);
                }
            }
            lemma_count_marked_bound(visited@);
        }
    }
    proof {
        assert(closed_under_adjacency(b, visited@)) by {
            assert forall|r: int, c: int, d: Direction|
                on_board(r, c) && #[trigger] visited@[idx(r, c)] && #[trigger] occupied(
                    b,
                    r + row_delta(d),
                    c + col_delta(d),
                ) implies visited@[idx(r + row_delta(d), c + col_delta(d))] by {
                assert(!on_stack(stack@, r, c));
            }
        }
        assert forall|r: int, c: int|
            on_board(r, c) implies (visited@[idx(r, c)] <==> reachable(b, r0, c0, r, c)) by {
            if reachable(b, r0, c0, r, c) {
                let path = choose|path: Seq<Cell>|
                    #![trigger is_hive_path(b, path), path[0], path.last()]
                    is_hive_path(b, path) && path[0] == (r0, c0) && path.last() == (r, c);
                lemma_closed_contains_path(b, visited@, path);
            }
        }
    }
}

/// A marking of the board with no cell marked.
pub(crate) fn unmarked_grid() -> (v: Vec<bool>)
    ensures
        v.len() == CELL_COUNT,
        forall|i: int| 0 <= i < CELL_COUNT ==> !v@[i],
{
    let mut v: Vec<bool> = Vec::new();
    let mut i: usize = 0;
    while i < CELL_COUNT
        invariant
            i <= CELL_COUNT,
            v.len() == i,
            forall|j: int| 0 <= j < i ==> !v@[j],
        decreases CELL_COUNT - i,
    {
        v.push(false);
        i = i + 1;
    }
    v
}

/// Some occupied cell of `board` that `visited` does not mark, if there is one.
pub fn find_unmarked_piece(board: &Board, visited: &Vec<bool>) -> (r: Option<Selection>)
    requires
        board.wf(),
        visited.len() == CELL_COUNT,
    ensures
        r matches Some(s) ==> s.location == Location::Board && occupied(
            board@,
            s.row as int,
            s.col as int,
        ) && !visited@[idx(s.row as int, s.col as int)],
        r is None ==> forall|r: int, c: int|
            #[trigger] occupied(board@, r, c) ==> visited@[idx(r, c)],
{
    let mut i: usize = 0;
    while i < BOARD_SIZE
        invariant
            i <= BOARD_SIZE,
            board.wf(),
            visited.len() == CELL_COUNT,
            forall|r: int, c: int| 0 <= r < i && #[trigger] occupied(board@, r, c) ==> visited@[idx(r, c)],
        decreases BOARD_SIZE - i,
    {
        let mut j: usize = 0;
        while j < BOARD_SIZE
            invariant
                i < BOARD_SIZE,
                j <= BOARD_SIZE,
                board.wf(),
                visited.len() == CELL_COUNT,
                forall|r: int, c: int|
                    0 <= r < i && #[trigger] occupied(board@, r, c) ==> visited@[idx(r, c)],
                forall|c: int| 0 <= c < j && #[trigger] occupied(board@, i as int, c) ==> visited@[idx(i as int, c)],
            decreases BOARD_SIZE - j,
        {
            if board.is_occupied(i, j) && !visited[i * BOARD_SIZE + j] {
                return Some(Selection { location: Location::Board, row: i, col: j });
            }
            j = j + 1;
        }
        i = i + 1;
    }
    None
}

/// Lifting the piece at `(row, col)` would split the hive: with that cell
/// emptied, the occupied cells are no longer all connected.
pub fn check_for_broken_hive_if_empty(board: &Board, row: usize, col: usize) -> (broken: bool)
    requires
        board.wf(),
        on_board(row as int, col as int),
    ensures
        broken == !hive_connected(cleared(board@, row as int, col as int)),
{
    let lifted = board.with_cell_cleared(row, col);
    let ghost b = lifted@;
    let mut visited = unmarked_grid();
    match find_unmarked_piece(&lifted, &visited) {
        None => {
            proof {
                assert forall|r1: int, c1: int, r2: int, c2: int|
                    occupied(b, r1, c1) && occupied(b, r2, c2) implies #[trigger] reachable(
                    b,
                    r1,
                    c1,
                    r2,
                    c2,
                ) by {
                    assert(visited@[idx(r1, c1)]);
                    crate::board::lemma_idx_inverse(r1, c1);
                }
            }
            false
        },
        Some(start) => {
            discover(&lifted, start, &mut visited);
            let ghost r0 = start.row as int;
            let ghost c0 = start.col as int;
            match find_unmarked_piece(&lifted, &visited) {
                Some(q) => {
                    assert(!reachable(b, r0, c0, q.row as int, q.col as int));
                    true
                },
                None => {
                    proof {
                        assert forall|r1: int, c1: int, r2: int, c2: int|
                            occupied(b, r1, c1) && occupied(b, r2, c2) implies #[trigger] reachable(
                            b,
                            r1,
                            c1,
                            r2,
                            c2,
                        ) by {
                            assert(visited@[idx(r1, c1)]);
                            assert(visited@[idx(r2, c2)]);
                            lemma_reach_symmetric(b, r0, c0, r1, c1);
                            lemma_reach_transitive(b, r1, c1, r0, c0, r2, c2);
                        }
                    }
                    false
                },
            }
        },
    }
}

/// The occupied cells of `b` are exactly the `n` cells of the straight line
/// that starts at `(r, c)` and runs in direction `d`.
pub open spec fn is_line_hive(b: Seq<Piece>, r: int, c: int, d: Direction, n: nat) -> bool {
    forall|r2: int, c2: int|
        #[trigger] occupied(b, r2, c2) <==> exists|k: nat| k < n && #[trigger] ray(r, c, d, k) == (r2, c2)
}

/// Closed form of a ray.
pub(crate) proof fn lemma_ray_closed(r: int, c: int, d: Direction, k: nat)
    ensures
        ray(r, c, d, k) == (r + k * row_delta(d), c + k * col_delta(d)),
    decreases k,
{
    if k > 0 {
        lemma_ray_closed(r, c, d, (k - 1) as nat);
        let dr = row_delta(d);
        let dc = col_delta(d);
        assert((k - 1) * dr + dr == k * dr) by (nonlinear_arith);
        assert((k - 1) * dc + dc == k * dc) by (nonlinear_arith);
    }
}

/// Two cells of a ray are neighbours only when they are consecutive, and
/// equal only when they are the same step.
proof fn lemma_ray_cells(r: int, c: int, d: Direction, k1: nat, k2: nat)
    ensures
        ray(r, c, d, k1) == ray(r, c, d, k2) ==> k1 == k2,
        adjacent(ray(r, c, d, k1).0, ray(r, c, d, k1).1, ray(r, c, d, k2).0, ray(r, c, d, k2).1)
            ==> k2 == k1 + 1 || k1 == k2 + 1,
{
    lemma_ray_closed(r, c, d, k1);
    lemma_ray_closed(r, c, d, k2);
    let j = k2 - k1;
    let dr = row_delta(d);
    let dc = col_delta(d);
    assert(k2 * dr - k1 * dr == j * dr) by (nonlinear_arith)
        requires
            j == k2 - k1,
    ;
    assert(k2 * dc - k1 * dc == j * dc) by (nonlinear_arith)
        requires
            j == k2 - k1,
    ;
    if adjacent(ray(r, c, d, k1).0, ray(r, c, d, k1).1, ray(r, c, d, k2).0, ray(r, c, d, k2).1) {
        let e = choose|e: Direction|
            #[trigger] neighbor_in(
                ray(r, c, d, k1).0,
                ray(r, c, d, k1).1,
                e,
                ray(r, c, d, k2).0,
                ray(r, c, d, k2).1,
            );
        assert(j * row_delta(d) == row_delta(e) && j * col_delta(d) == col_delta(e));
        match d {
            Direction::North => {},
            Direction::Northeast => {},
            Direction::Southeast => {},
            Direction::South => {},
            Direction::Southwest => {},
            Direction::Northwest => {},
        }
    }
    match d {
        Direction::North => {},
        Direction::Northeast => {},
        Direction::Southeast => {},
        Direction::South => {},
        Direction::Southwest => {},
        Direction::Northwest => {},
    }
}

/// Emptying an on-board cell leaves the other cells as they were.
proof fn lemma_cleared_occupied(b: Seq<Piece>, ri: int, ci: int, r: int, c: int)
    requires
        b.len() == CELL_COUNT,
        on_board(ri, ci),
    ensures
        occupied(cleared(b, ri, ci), r, c) <==> occupied(b, r, c) && (r, c) != (ri, ci),
{
    crate::board::lemma_idx_inverse(ri, ci);
    if on_board(r, c) {
        crate::board::lemma_idx_inverse(r, c);
        if idx(r, c) == idx(ri, ci) {
            crate::board::lemma_idx_injective(r, c, ri, ci);
        }
    }
}

/// Consecutive occupied cells of a ray, from step `lo` to step `hi`, reach
/// each other.
proof fn lemma_ray_segment_reachable(b: Seq<Piece>, r: int, c: int, d: Direction, lo: nat, hi: nat)
    requires
        lo <= hi,
        forall|k: nat| lo <= k <= hi ==> #[trigger] occupied(b, ray(r, c, d, k).0, ray(r, c, d, k).1),
    ensures
        reachable(b, ray(r, c, d, lo).0, ray(r, c, d, lo).1, ray(r, c, d, hi).0, ray(r, c, d, hi).1),
    decreases hi - lo,
{
    let p = ray(r, c, d, lo);
    if hi == lo {
        assert(occupied(b, p.0, p.1));
        lemma_reach_self(b, p.0, p.1);
    } else {
        let h = (hi - 1) as nat;
        lemma_ray_segment_reachable(b, r, c, d, lo, h);
        let q = ray(r, c, d, h);
        let t = ray(r, c, d, hi);
        assert(neighbor_in(q.0, q.1, d, t.0, t.1));
        assert(occupied(b, t.0, t.1));
        lemma_reach_extend(b, p.0, p.1, q.0, q.1, t.0, t.1);
    }
}

/// On a line hive with step `i` emptied, a walk that starts before step `i`
/// stays before it.
proof fn lemma_path_stays_before_cut(
    b: Seq<Piece>,
    r: int,
    c: int,
    d: Direction,
    n: nat,
    i: nat,
    path: Seq<Cell>,
)
    requires
        b.len() == CELL_COUNT,
        is_line_hive(b, r, c, d, n),
        i < n,
        on_board(ray(r, c, d, i).0, ray(r, c, d, i).1),
        is_hive_path(cleared(b, ray(r, c, d, i).0, ray(r, c, d, i).1), path),
        exists|k: nat| k < i && #[trigger] ray(r, c, d, k) == path[0],
    ensures
        exists|k: nat| k < i && #[trigger] ray(r, c, d, k) == path.last(),
    decreases path.len(),
{
    let cut = ray(r, c, d, i);
    let lifted = cleared(b, cut.0, cut.1);
    if path.len() > 1 {
        let prefix = path.drop_last();
        assert(is_hive_path(lifted, prefix)) by {
            assert forall|m: int| 0 <= m < prefix.len() - 1 implies adjacent(
                #[trigger] prefix[m].0,
                prefix[m].1,
                prefix[m + 1].0,
                prefix[m + 1].1,
            ) by {
                assert(prefix[m] == path[m] && prefix[m + 1] == path[m + 1]);
            }
            assert forall|m: int| 0 <= m < prefix.len() implies occupied(
                lifted,
                #[trigger] prefix[m].0,
                prefix[m].1,
            ) by {
                assert(prefix[m] == path[m]);
            }
        }
        assert(prefix[0] == path[0]);
        lemma_path_stays_before_cut(b, r, c, d, n, i, prefix);
        let k = choose|k: nat| k < i && #[trigger] ray(r, c, d, k) == prefix.last();
        let m = path.len() - 2;
        assert(prefix.last() == path[m]);
        let last = path[m + 1];
        assert(occupied(lifted, last.0, last.1));
        lemma_cleared_occupied(b, cut.0, cut.1, last.0, last.1);
        assert(occupied(b, last.0, last.1));
        let k2 = choose|k2: nat| k2 < n && #[trigger] ray(r, c, d, k2) == (last.0, last.1);
        assert(adjacent(path[m].0, path[m].1, path[m + 1].0, path[m + 1].1));
        lemma_ray_cells(r, c, d, k, k2);
        assert(k2 != i);
        assert(ray(r, c, d, k2) == path.last());
    }
}

/// On a straight line of two or more pieces, lifting a piece inside the line
/// splits the hive, and lifting a piece at either end does not.
pub proof fn lemma_line_hive_cut(b: Seq<Piece>, r: int, c: int, d: Direction, n: nat, i: nat)
    requires
        b.len() == CELL_COUNT,
        n >= 2,
        i < n,
        is_line_hive(b, r, c, d, n),
    ensures
        0 < i < n - 1 ==> !hive_connected(cleared(b, ray(r, c, d, i).0, ray(r, c, d, i).1)),
        i == 0 || i == n - 1 ==> hive_connected(cleared(b, ray(r, c, d, i).0, ray(r, c, d, i).1)),
{
    let cut = ray(r, c, d, i);
    let lifted = cleared(b, cut.0, cut.1);
    assert(occupied(b, cut.0, cut.1));
    assert forall|k: nat| k < n implies #[trigger] occupied(b, ray(r, c, d, k).0, ray(r, c, d, k).1) by {
        let q = ray(r, c, d, k);
        assert(occupied(b, q.0, q.1));
    }
    assert forall|k: nat| k < n && k != i implies #[trigger] occupied(
        lifted,
        ray(r, c, d, k).0,
        ray(r, c, d, k).1,
    ) by {
        lemma_ray_cells(r, c, d, k, i);
        lemma_cleared_occupied(b, cut.0, cut.1, ray(r, c, d, k).0, ray(r, c, d, k).1);
    }
    if 0 < i < n - 1 {
        let first = ray(r, c, d, 0);
        let last = ray(r, c, d, (n - 1) as nat);
        assert(occupied(lifted, first.0, first.1));
        assert(occupied(lifted, last.0, last.1));
        if reachable(lifted, first.0, first.1, last.0, last.1) {
            let path = choose|path: Seq<Cell>|
                #![trigger is_hive_path(lifted, path), path[0], path.last()]
                is_hive_path(lifted, path) && path[0] == (first.0, first.1) && path.last() == (
                    last.0,
                    last.1,
                );
            assert(ray(r, c, d, 0) == path[0]);
            lemma_path_stays_before_cut(b, r, c, d, n, i, path);
            let k = choose|k: nat| k < i && #[trigger] ray(r, c, d, k) == path.last();
            lemma_ray_cells(r, c, d, k, (n - 1) as nat);
        }
    }
    if i == 0 || i == n - 1 {
        let lo: nat = if i == 0 { 1 } else { 0 };
        let hi: nat = if i == 0 { (n - 1) as nat } else { (n - 2) as nat };
        assert forall|r1: int, c1: int, r2: int, c2: int|
            occupied(lifted, r1, c1) && occupied(lifted, r2, c2) implies #[trigger] reachable(
            lifted,
            r1,
            c1,
            r2,
            c2,
        ) by {
            lemma_cleared_occupied(b, cut.0, cut.1, r1, c1);
            lemma_cleared_occupied(b, cut.0, cut.1, r2, c2);
            let k1 = choose|k: nat| k < n && #[trigger] ray(r, c, d, k) == (r1, c1);
            let k2 = choose|k: nat| k < n && #[trigger] ray(r, c, d, k) == (r2, c2);
            assert(k1 != i && k2 != i);
            assert forall|k: nat| lo <= k <= hi implies #[trigger] occupied(
                lifted,
                ray(r, c, d, k).0,
                ray(r, c, d, k).1,
            ) by {
                assert(k < n && k != i);
            }
            if k1 <= k2 {
                assert forall|k: nat| k1 <= k <= k2 implies #[trigger] occupied(
                    lifted,
                    ray(r, c, d, k).0,
                    ray(r, c, d, k).1,
                ) by {
                    assert(lo <= k <= hi);
                }
                lemma_ray_segment_reachable(lifted, r, c, d, k1, k2);
            } else {
                assert forall|k: nat| k2 <= k <= k1 implies #[trigger] occupied(
                    lifted,
                    ray(r, c, d, k).0,
                    ray(r, c, d, k).1,
                ) by {
                    assert(lo <= k <= hi);
                }
                lemma_ray_segment_reachable(lifted, r, c, d, k2, k1);
                lemma_reach_symmetric(lifted, r2, c2, r1, c1);
            }
        }
    }
}

} // verus!
