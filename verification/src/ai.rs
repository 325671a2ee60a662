//! Scoring of moves, recognition of tactical threats, and the narrow search of the computer player.
use vstd::prelude::*;
use crate::seq_facts::{
    lemma_filter_keeps_order,
    lemma_filter_subset,
    lemma_filter_take_len,
    lemma_filter_take_step,
};
use crate::board::{
    axis_count, dir_x, dir_y, direction, five_from, five_line, in_board, is_dir, on_board, open_end,
    opponent, other, placed, put, run, run_from, scan, step, walkable, winning_line, Board, Cell,
    Pos, BOARD, CENTER,
};

verus! {

/// Cut-off of the move orderings: at most this many ordinary moves are searched at the root ...
pub const ROOT_CANDIDATE_LIMIT: usize = 12;

/// ... and at most this many ordinary replies under each of them.
pub const REPLY_CANDIDATE_LIMIT: usize = 10;

/// Value of a position that is won (or, negated, lost) by force.
pub const MATE_SCORE: i64 = 1_000_000_000_000;

// ---------------------------------------------------------------------------------------------
// Lines and patterns
// ---------------------------------------------------------------------------------------------

/// Stones in a row that `p` has along `(dx, dy)` once it stands on `(x, y)`.
pub open spec fn line_count(b: Board, x: int, y: int, dx: int, dy: int, p: Cell) -> int {
    1int + run(b, x, y, dx, dy, p) + run(b, x, y, -dx, -dy, p)
}

/// Number of ends of that row (zero, one or two) that are free intersections.
pub open spec fn line_open(b: Board, x: int, y: int, dx: int, dy: int, p: Cell) -> int {
    (if open_end(b, x, y, dx, dy, p) { 1int } else { 0int }) + (if open_end(b, x, y, -dx, -dy, p) {
        1int
    } else {
        0int
    })
}

/// The two runs on either side of `(x, y)` lie on one line of the board, so together they are
/// shorter than the board is wide when `(x, y)` is on the board, and no longer when it is not.
proof fn lemma_line_span(b: Board, x: int, y: int, dx: int, dy: int, p: Cell)
    requires
        is_dir(dx, dy),
        run(b, x, y, dx, dy, p) <= BOARD,
        run(b, x, y, -dx, -dy, p) <= BOARD,
    ensures
        run(b, x, y, dx, dy, p) + run(b, x, y, -dx, -dy, p) <= BOARD,
        on_board(x, y) ==> run(b, x, y, dx, dy, p) + run(b, x, y, -dx, -dy, p) < BOARD,
{
    let f = run(b, x, y, dx, dy, p) as int;
    let k = run(b, x, y, -dx, -dy, p) as int;
    if f > 0 {
        crate::board::lemma_run_cells(b, x, y, dx, dy, p, BOARD as nat, f);
    }
    if k > 0 {
        crate::board::lemma_run_cells(b, x, y, -dx, -dy, p, BOARD as nat, k);
    }
}

/// The row of stones `p` gets along `(dx, dy)` by playing on `(x, y)`: its length, and how many
/// of its two ends are free.
pub fn line_stat(board: &Board, x: usize, y: usize, dx: i32, dy: i32, p: Cell) -> (r: (u32, u32))
    requires
        walkable(x as int, y as int),
        is_dir(dx as int, dy as int),
    ensures
        r.0 == line_count(*board, x as int, y as int, dx as int, dy as int, p),
        r.1 == line_open(*board, x as int, y as int, dx as int, dy as int, p),
        r.0 <= BOARD + 1,
        on_board(x as int, y as int) ==> r.0 <= BOARD,
        r.1 <= 2,
{
    let (fwd, fwd_open) = scan(board, x, y, dx, dy, p);
    let (back, back_open) = scan(board, x, y, -dx, -dy, p);
    proof {
        lemma_line_span(*board, x as int, y as int, dx as int, dy as int, p);
    }
    let count = 1 + fwd + back;
    let open: u32 = (if fwd_open { 1 } else { 0 }) + (if back_open { 1 } else { 0 });
    (count, open)
}

/// The value of a row of `count` stones with `open` free ends.
pub open spec fn pattern_value(count: int, open: int) -> int {
    if count >= 5 {
        10_000_000
    } else if count == 4 && open == 2 {
        1_000_000
    } else if count == 4 && open == 1 {
        120_000
    } else if count == 3 && open == 2 {
        60_000
    } else if count == 3 && open == 1 {
        2_000
    } else if count == 2 && open == 2 {
        800
    } else if count == 2 && open == 1 {
        150
    } else if count == 1 && open == 2 {
        40
    } else if count == 1 && open == 1 {
        10
    } else {
        0
    }
}

/// Longer rows and rows with more free ends are never worth less; a row shorter than five with no
/// free end is worth nothing; and five or more in a row is worth more than four shorter rows
/// together, so a move that makes five outranks every move that does not.
pub proof fn lemma_pattern_value_order(count: int, open: int, count2: int, open2: int)
    requires
        count <= count2,
        0 <= open <= open2 <= 2,
    ensures
        pattern_value(count, open) <= pattern_value(count2, open2),
        count < 5 && open == 0 ==> pattern_value(count, open) == 0,
        count < 5 && count2 >= 5 ==> 4 * pattern_value(count, open) < pattern_value(count2, open2),
{
}

/// Value of a row of `count` stones with `open` free ends: five or more wins outright, an open
/// four is next, and so on down to a lone stone; a row with no free end is worth nothing.
pub fn pattern_score(count: u32, open: u32) -> (r: i64)
    ensures
        r == pattern_value(count as int, open as int),
        0 <= r <= 10_000_000,
{
    if count >= 5 {
        10_000_000
    } else if count == 4 && open == 2 {
        1_000_000
    } else if count == 4 && open == 1 {
        120_000
    } else if count == 3 && open == 2 {
        60_000
    } else if count == 3 && open == 1 {
        2_000
    } else if count == 2 && open == 2 {
        800
    } else if count == 2 && open == 1 {
        150
    } else if count == 1 && open == 2 {
        40
    } else if count == 1 && open == 1 {
        10
    } else {
        0
    }
}

/// Value of the row that playing `p` on `(x, y)` makes along axis `k`.
pub open spec fn axis_value(b: Board, x: int, y: int, k: int, p: Cell) -> int {
    pattern_value(
        line_count(b, x, y, dir_x(k), dir_y(k), p),
        line_open(b, x, y, dir_x(k), dir_y(k), p),
    )
}

/// Value for `p` of playing on `(x, y)`: the sum over the four axes.
pub open spec fn point_value(b: Board, x: int, y: int, p: Cell) -> int {
    axis_value(b, x, y, 0, p) + axis_value(b, x, y, 1, p) + axis_value(b, x, y, 2, p) + axis_value(
        b,
        x,
        y,
        3,
        p,
    )
}

/// A move is scored on each of the four axes once: the row `(1, 0)`, the column `(0, 1)`, the
/// diagonal `(1, 1)` and the anti-diagonal `(1, -1)`, adding the pattern values of the rows it
/// makes there.
pub proof fn lemma_point_value_axes(b: Board, x: int, y: int, p: Cell)
    ensures
        point_value(b, x, y, p) == pattern_value(line_count(b, x, y, 1, 0, p), line_open(b, x, y, 1, 0, p))
            + pattern_value(line_count(b, x, y, 0, 1, p), line_open(b, x, y, 0, 1, p)) + pattern_value(
            line_count(b, x, y, 1, 1, p),
            line_open(b, x, y, 1, 1, p),
        ) + pattern_value(line_count(b, x, y, 1, -1, p), line_open(b, x, y, 1, -1, p)),
{
}

fn axis_score(board: &Board, x: usize, y: usize, k: usize, p: Cell) -> (r: i64)
    requires
        walkable(x as int, y as int),
        k < 4,
    ensures
        r == axis_value(*board, x as int, y as int, k as int, p),
        0 <= r <= 10_000_000,
{
    let (dx, dy) = direction(k);
    let (count, open) = line_stat(board, x, y, dx, dy, p);
    pattern_score(count, open)
}

/// Value for `p` of a stone on `(x, y)`: the patterns it makes, summed over the four axes.
pub fn point_score(board: &Board, x: usize, y: usize, p: Cell) -> (r: i64)
    requires
        walkable(x as int, y as int),
    ensures
        r == point_value(*board, x as int, y as int, p),
        0 <= r <= 40_000_000,
{
    let mut total: i64 = 0;
    total += axis_score(board, x, y, 0, p);
    total += axis_score(board, x, y, 1, p);
    total += axis_score(board, x, y, 2, p);
    total += axis_score(board, x, y, 3, p);
    total
}

// ---------------------------------------------------------------------------------------------
// Candidate moves
// ---------------------------------------------------------------------------------------------

/// Whether `(x + dx, y + dy)` is an occupied intersection.
pub open spec fn stone_near(b: Board, x: int, y: int, dx: int, dy: int) -> bool {
    on_board(x + dx, y + dy) && b[y + dy][x + dx] != Cell::Empty
}

/// Whether a stone stands within two lines of `(x, y)` (in the 5 x 5 square around it).
pub open spec fn has_neighbor(b: Board, x: int, y: int) -> bool {
    exists|dx: int, dy: int| -2 <= dx <= 2 && -2 <= dy <= 2 && #[trigger] stone_near(b, x, y, dx, dy)
}

/// Whether some stone stands within two lines of `(x, y)`, diagonals included.
pub fn near_stone(board: &Board, x: usize, y: usize) -> (r: bool)
    requires
        walkable(x as int, y as int),
    ensures
        r == has_neighbor(*board, x as int, y as int),
{
    let ghost b = *board;
    let mut dy: i32 = -2;
    while dy <= 2
        invariant
            walkable(x as int, y as int),
            b == *board,
            -2 <= dy <= 3,
            forall|ddx: int, ddy: int|
                -2 <= ddx <= 2 && -2 <= ddy < dy ==> !#[trigger] stone_near(b, x as int, y as int, ddx, ddy),
        decreases 3 - dy,
    {
        let mut dx: i32 = -2;
        while dx <= 2
            invariant
                walkable(x as int, y as int),
                b == *board,
                -2 <= dy <= 2,
                -2 <= dx <= 3,
                forall|ddx: int, ddy: int|
                    -2 <= ddx <= 2 && -2 <= ddy < dy ==> !#[trigger] stone_near(b, x as int, y as int, ddx, ddy),
                forall|ddx: int| -2 <= ddx < dx ==> !#[trigger] stone_near(b, x as int, y as int, ddx, dy as int),
            decreases 3 - dx,
        {
            let cx = x as i32 + dx;
            let cy = y as i32 + dy;
            if in_board(cx, cy) && board[cy as usize][cx as usize] != Cell::Empty {
                assert(stone_near(b, x as int, y as int, dx as int, dy as int));
                return true;
            }
            dx += 1;
        }
        dy += 1;
    }
    false
}

/// An empty intersection with a stone near it.
pub open spec fn is_candidate(b: Board, x: int, y: int) -> bool {
    b[y][x] == Cell::Empty && has_neighbor(b, x, y)
}

/// The `n`-th intersection in reading order (row by row, each from left to right).
pub open spec fn nth_point(n: int) -> Pos {
    ((n % BOARD as int) as usize, (n / BOARD as int) as usize)
}

/// The candidates among the first `n` intersections in reading order.
pub open spec fn candidates_upto(b: Board, n: nat) -> Seq<Pos>
    decreases n,
{
    if n == 0 {
        Seq::empty()
    } else {
        let pt = nth_point(n - 1);
        let s = candidates_upto(b, (n - 1) as nat);
        if is_candidate(b, pt.0 as int, pt.1 as int) {
            s.push(pt)
        } else {
            s
        }
    }
}

/// The moves worth looking at, in reading order: the empty intersections with a stone near them;
/// on a board that has none of these, the center if it is free.
pub open spec fn candidates(b: Board) -> Seq<Pos> {
    let s = candidates_upto(b, (BOARD * BOARD) as nat);
    if s.len() == 0 && b[CENTER as int][CENTER as int] == Cell::Empty {
        seq![(CENTER, CENTER)]
    } else {
        s
    }
}

/// A move is a free intersection of the board.
pub open spec fn is_free(b: Board, m: Pos) -> bool {
    m.0 < BOARD && m.1 < BOARD && b[m.1 as int][m.0 as int] == Cell::Empty
}

proof fn lemma_candidates_upto(b: Board, n: nat)
    requires
        n <= BOARD * BOARD,
    ensures
        forall|i: int|
            0 <= i < candidates_upto(b, n).len() ==> is_free(b, #[trigger] candidates_upto(b, n)[i]),
    decreases n,
{
    if n > 0 {
        let k = n - 1;
        lemma_candidates_upto(b, k as nat);
        assert(0 <= k / (BOARD as int) < BOARD) by (nonlinear_arith)
            requires
                0 <= k < BOARD * BOARD,
        ;
        let s = candidates_upto(b, n);
        assert forall|i: int| 0 <= i < s.len() implies is_free(b, #[trigger] s[i]) by {
            if i < candidates_upto(b, k as nat).len() {
                assert(s[i] == candidates_upto(b, k as nat)[i]);
            }
        }
    }
}

/// Every candidate move is a free intersection.
pub proof fn lemma_candidates_free(b: Board)
    ensures
        forall|i: int| 0 <= i < candidates(b).len() ==> is_free(b, #[trigger] candidates(b)[i]),
{
    lemma_candidates_upto(b, (BOARD * BOARD) as nat);
}

/// The candidate moves: every empty intersection within two lines of a stone, in reading order,
/// or the center alone on a board without any.
pub fn candidate_moves(board: &Board) -> (r: Vec<Pos>)
    ensures
        r@ == candidates(*board),
        forall|i: int| 0 <= i < r@.len() ==> is_free(*board, #[trigger] r@[i]),
{
    let ghost b = *board;
    let mut moves: Vec<Pos> = Vec::new();
    let mut k: usize = 0;
    while k < BOARD * BOARD
        invariant
            b == *board,
            k <= BOARD * BOARD,
            moves@ == candidates_upto(b, k as nat),
        decreases BOARD * BOARD - k,
    {
        let x = k % BOARD;
        let y = k / BOARD;
        if board[y][x] == Cell::Empty && near_stone(board, x, y) {
            moves.push((x, y));
        }
        k += 1;
    }
    if moves.len() == 0 && board[CENTER][CENTER] == Cell::Empty {
        moves.push((CENTER, CENTER));
    }
    proof {
        assert(moves@ =~= candidates(b));
        lemma_candidates_free(b);
    }
    moves
}


// ---------------------------------------------------------------------------------------------
// Threats
// ---------------------------------------------------------------------------------------------

/// Whether `p` playing on the free intersection `(x, y)` makes five or more in a row.
pub open spec fn winning_at(b: Board, x: int, y: int, p: Cell) -> bool {
    &&& b[y][x] == Cell::Empty
    &&& {
        ||| axis_count(b, x, y, 0, p) >= 5
        ||| axis_count(b, x, y, 1, p) >= 5
        ||| axis_count(b, x, y, 2, p) >= 5
        ||| axis_count(b, x, y, 3, p) >= 5
    }
}

pub open spec fn wins_pred(b: Board, p: Cell) -> spec_fn(Pos) -> bool {
    |m: Pos| winning_at(b, m.0 as int, m.1 as int, p)
}

/// The candidate moves that win at once for `p`, in reading order.
pub open spec fn winning_moves(b: Board, p: Cell) -> Seq<Pos> {
    candidates(b).filter(wins_pred(b, p))
}

fn axis_five(board: &Board, x: usize, y: usize, k: usize, p: Cell) -> (r: bool)
    requires
        x < BOARD,
        y < BOARD,
        k < 4,
    ensures
        r == (axis_count(*board, x as int, y as int, k as int, p) >= 5),
{
    let (dx, dy) = direction(k);
    let (count, _) = line_stat(board, x, y, dx, dy, p);
    count >= 5
}

/// Whether `p` wins by playing on the free intersection `(x, y)`.
pub fn is_winning_move(board: &Board, x: usize, y: usize, p: Cell) -> (r: bool)
    requires
        x < BOARD,
        y < BOARD,
    ensures
        r == winning_at(*board, x as int, y as int, p),
{
    board[y][x] == Cell::Empty && (axis_five(board, x, y, 0, p) || axis_five(board, x, y, 1, p)
        || axis_five(board, x, y, 2, p) || axis_five(board, x, y, 3, p))
}

/// Putting a stone on `(ox, oy)` leaves the runs that start there (or further along) unchanged:
/// they never come back to it.
proof fn lemma_run_placed(
    b: Board,
    ox: int,
    oy: int,
    k: int,
    dx: int,
    dy: int,
    p: Cell,
    c: Cell,
    fuel: nat,
)
    requires
        is_dir(dx, dy),
        k >= 0,
        on_board(ox, oy),
    ensures
        run_from(
            placed(b, ox, oy, c),
            step(ox, k, dx),
            step(oy, k, dy),
            dx,
            dy,
            p,
            fuel,
        ) == run_from(b, step(ox, k, dx), step(oy, k, dy), dx, dy, p, fuel),
    decreases fuel,
{
    if fuel > 0 {
        lemma_run_placed(b, ox, oy, k + 1, dx, dy, p, c, (fuel - 1) as nat);
        let nx = step(ox, k + 1, dx);
        let ny = step(oy, k + 1, dy);
        if on_board(nx, ny) {
            assert(placed(b, ox, oy, c)[ny][nx] == b[ny][nx]);
        }
    }
}

/// Along every axis, the row through `(x, y)` is counted the same before and after a stone is
/// put there.
proof fn lemma_axis_count_placed(b: Board, x: int, y: int, k: int, p: Cell, c: Cell)
    requires
        on_board(x, y),
        0 <= k < 4,
    ensures
        axis_count(placed(b, x, y, c), x, y, k, p) == axis_count(b, x, y, k, p),
{
    lemma_run_placed(b, x, y, 0, dir_x(k), dir_y(k), p, c, BOARD as nat);
    lemma_run_placed(b, x, y, 0, -dir_x(k), -dir_y(k), p, c, BOARD as nat);
}

/// A move wins at once exactly when it is on a free intersection and completes a line of five
/// or more, as `winning_line` finds it on the board after the move.
pub proof fn lemma_winning_move_completes_five(b: Board, x: int, y: int, p: Cell)
    requires
        on_board(x, y),
        p != Cell::Empty,
    ensures
        winning_at(b, x, y, p) <==> (b[y][x] == Cell::Empty && five_line(placed(b, x, y, p), x, y)
            is Some),
{
    let a = placed(b, x, y, p);
    assert(a[y][x] == p);
    lemma_axis_count_placed(b, x, y, 0, p, p);
    lemma_axis_count_placed(b, x, y, 1, p, p);
    lemma_axis_count_placed(b, x, y, 2, p, p);
    lemma_axis_count_placed(b, x, y, 3, p, p);
    reveal_with_fuel(five_from, 5);
}

/// The moves with which `p` wins at once, in reading order.
pub fn immediate_winning_moves(board: &Board, p: Cell) -> (r: Vec<Pos>)
    ensures
        r@ == winning_moves(*board, p),
        forall|i: int| 0 <= i < r@.len() ==> is_free(*board, #[trigger] r@[i]),
{
    let ghost b = *board;
    let ghost pred = wins_pred(b, p);
    let cands = candidate_moves(board);
    let mut out: Vec<Pos> = Vec::new();
    let mut i: usize = 0;
    while i < cands.len()
        invariant
            b == *board,
            pred == wins_pred(b, p),
            cands@ == candidates(b),
            forall|j: int| 0 <= j < cands@.len() ==> is_free(b, #[trigger] cands@[j]),
            i <= cands@.len(),
            out@ == cands@.take(i as int).filter(pred),
        decreases cands@.len() - i,
    {
        let (x, y) = cands[i];
        proof {
            lemma_filter_take_step(cands@, pred, i as int);
        }
        if is_winning_move(board, x, y, p) {
            out.push((x, y));
        }
        i += 1;
    }
    proof {
        assert(cands@.take(cands@.len() as int) =~= cands@);
        lemma_filter_subset(cands@, pred);
        assert forall|j: int| 0 <= j < out@.len() implies is_free(b, #[trigger] out@[j]) by {
            assert(cands@.contains(out@[j]));
        }
    }
    out
}

/// How many winning moves `p` has, counting no further than `stop_after` (when it is not zero).
pub open spec fn capped_win_count(b: Board, p: Cell, stop_after: int) -> int {
    let n = winning_moves(b, p).len() as int;
    if stop_after > 0 && n > stop_after {
        stop_after
    } else {
        n
    }
}

/// Counts the moves with which `p` wins at once, stopping as soon as `stop_after` are found;
/// with `stop_after` zero, counts them all.
pub fn count_immediate_wins(board: &Board, p: Cell, stop_after: usize) -> (r: usize)
    ensures
        r == capped_win_count(*board, p, stop_after as int),
{
    let ghost b = *board;
    let ghost pred = wins_pred(b, p);
    let cands = candidate_moves(board);
    let mut count: usize = 0;
    let mut i: usize = 0;
    while i < cands.len()
        invariant_except_break
            stop_after == 0 || count < stop_after,
            count == cands@.take(i as int).filter(pred).len(),
        invariant
            b == *board,
            pred == wins_pred(b, p),
            cands@ == candidates(b),
            forall|j: int| 0 <= j < cands@.len() ==> is_free(b, #[trigger] cands@[j]),
            i <= cands@.len(),
        ensures
            (i == cands@.len() && count == cands@.take(i as int).filter(pred).len() && (stop_after
                == 0 || count < stop_after)) || (stop_after
                > 0 && count == stop_after && count <= cands@.filter(pred).len()),
        decreases cands@.len() - i,
    {
        let (x, y) = cands[i];
        proof {
            lemma_filter_take_step(cands@, pred, i as int);
        }
        if is_winning_move(board, x, y, p) {
            count += 1;
            if count == stop_after {
                proof {
                    lemma_filter_take_len(cands@, pred, i + 1);
                }
                break;
            }
        }
        i += 1;
    }
    proof {
        assert(cands@.take(cands@.len() as int) =~= cands@);
    }
    count
}

pub open spec fn fork_pred(b: Board, p: Cell) -> spec_fn(Pos) -> bool {
    |m: Pos|
        !winning_at(b, m.0 as int, m.1 as int, p) && winning_moves(
            placed(b, m.0 as int, m.1 as int, p),
            p,
        ).len() >= 2
}

/// The candidate moves that do not win at once for `p` but leave it two or more winning moves
/// (a double threat), in reading order.
pub open spec fn fork_moves(b: Board, p: Cell) -> Seq<Pos> {
    candidates(b).filter(fork_pred(b, p))
}

/// The moves after which `p` has at least two moves that win at once (a double threat).
pub fn double_threat_moves(board: &Board, p: Cell) -> (r: Vec<Pos>)
    ensures
        r@ == fork_moves(*board, p),
        forall|i: int| 0 <= i < r@.len() ==> is_free(*board, #[trigger] r@[i]),
{
    let ghost b = *board;
    let ghost pred = fork_pred(b, p);
    let cands = candidate_moves(board);
    let mut threats: Vec<Pos> = Vec::new();
    let mut i: usize = 0;
    while i < cands.len()
        invariant
            b == *board,
            pred == fork_pred(b, p),
            cands@ == candidates(b),
            forall|j: int| 0 <= j < cands@.len() ==> is_free(b, #[trigger] cands@[j]),
            i <= cands@.len(),
            threats@ == cands@.take(i as int).filter(pred),
        decreases cands@.len() - i,
    {
        let (x, y) = cands[i];
        proof {
            lemma_filter_take_step(cands@, pred, i as int);
        }
        if is_winning_move(board, x, y, p) {
            i += 1;
            continue;
        }
        let mut next = *board;
        put(&mut next, x, y, p);
        if count_immediate_wins(&next, p, 2) >= 2 {
            threats.push((x, y));
        }
        i += 1;
    }
    proof {
        assert(cands@.take(cands@.len() as int) =~= cands@);
        lemma_filter_subset(cands@, pred);
        assert forall|j: int| 0 <= j < threats@.len() implies is_free(b, #[trigger] threats@[j]) by {
            assert(cands@.contains(threats@[j]));
        }
    }
    threats
}

/// `|v|`
pub open spec fn abs(v: int) -> int {
    if v < 0 {
        -v
    } else {
        v
    }
}

/// Ordering value of a move for `p`: ten times what it makes, nine times what it blocks, and a
/// small bonus for being close to the center.
#[verifier::opaque]
pub open spec fn order_value(b: Board, x: int, y: int, p: Cell) -> int {
    point_value(b, x, y, p) * 10 + point_value(b, x, y, other(p)) * 9 + (BOARD - 1) - (abs(
        x - CENTER,
    ) + abs(y - CENTER))
}

/// The value by which candidate moves of `p` are ordered.
#[verifier::rlimit(50)]
pub fn move_order_score(board: &Board, x: usize, y: usize, p: Cell) -> (r: i64)
    requires
        walkable(x as int, y as int),
    ensures
        r == order_value(*board, x as int, y as int, p),
        -0x1_0000_0000 <= r <= 800_000_000,
{
    reveal(order_value);
    let attack = point_score(board, x, y, p);
    let defend = point_score(board, x, y, opponent(p));
    let dx: i64 = if x >= CENTER { (x - CENTER) as i64 } else { (CENTER - x) as i64 };
    let dy: i64 = if y >= CENTER { (y - CENTER) as i64 } else { (CENTER - y) as i64 };
    let center_bias = (BOARD - 1) as i64 - (dx + dy);
    attack * 10 + defend * 9 + center_bias
}


// ---------------------------------------------------------------------------------------------
// Move ordering
// ---------------------------------------------------------------------------------------------

/// A move together with its ordering value.
pub type Scored = (Pos, i64);

/// `a` comes before `c`: higher value first, then the upper row, then the left column.
pub open spec fn ranks_before(a: Scored, c: Scored) -> bool {
    a.1 > c.1 || (a.1 == c.1 && (a.0.1 < c.0.1 || (a.0.1 == c.0.1 && a.0.0 < c.0.0)))
}

/// The moves of `s`, each with its ordering value for `p`.
pub open spec fn scored(b: Board, p: Cell, s: Seq<Pos>) -> Seq<Scored> {
    s.map_values(|m: Pos| (m, order_value(b, m.0 as int, m.1 as int, p) as i64))
}

/// `e` inserted into `s` before the first entry that it ranks before.
pub open spec fn insert_ranked(s: Seq<Scored>, e: Scored) -> Seq<Scored>
    decreases s.len(),
{
    if s.len() == 0 {
        seq![e]
    } else if ranks_before(e, s[0]) {
        seq![e] + s
    } else {
        seq![s[0]] + insert_ranked(s.drop_first(), e)
    }
}

/// `s` sorted by `ranks_before` (by insertion, so that entries of which neither ranks before the
/// other keep their order in `s`).
pub open spec fn sort_ranked(s: Seq<Scored>) -> Seq<Scored>
    decreases s.len(),
{
    if s.len() == 0 {
        s
    } else {
        insert_ranked(sort_ranked(s.drop_last()), s.last())
    }
}

/// The candidate moves of `p`, best first.
pub open spec fn ranking(b: Board, p: Cell) -> Seq<Pos> {
    sort_ranked(scored(b, p, candidates(b))).map_values(|e: Scored| e.0)
}

pub open spec fn in_pred(required: Seq<Pos>) -> spec_fn(Pos) -> bool {
    |m: Pos| required.contains(m)
}

pub open spec fn out_pred(required: Seq<Pos>) -> spec_fn(Pos) -> bool {
    |m: Pos| !required.contains(m)
}

/// The ranked candidates of `p`: those in `required` first, then at most `limit` others, each
/// group best first.
pub open spec fn ranked(b: Board, p: Cell, limit: int, required: Seq<Pos>) -> Seq<Pos> {
    let order = ranking(b, p);
    let rest = order.filter(out_pred(required));
    order.filter(in_pred(required)) + rest.take(
        if limit < rest.len() {
            limit
        } else {
            rest.len() as int
        },
    )
}

/// Inserting at the first place where `e` ranks before the entry there is `insert_ranked`.
proof fn lemma_insert_ranked(s: Seq<Scored>, e: Scored, j: int)
    requires
        0 <= j <= s.len(),
        forall|i: int| 0 <= i < j ==> !ranks_before(e, #[trigger] s[i]),
        j == s.len() || ranks_before(e, s[j]),
    ensures
        insert_ranked(s, e) == s.insert(j, e),
    decreases s.len(),
{
    if s.len() == 0 {
        assert(s.insert(j, e) =~= seq![e]);
    } else if j == 0 {
        assert(s.insert(j, e) =~= seq![e] + s);
    } else {
        let t = s.drop_first();
        assert forall|i: int| 0 <= i < j - 1 implies !ranks_before(e, #[trigger] t[i]) by {
            assert(t[i] == s[i + 1]);
        }
        lemma_insert_ranked(t, e, j - 1);
        assert(seq![s[0]] + t.insert(j - 1, e) =~= s.insert(j, e));
    }
}

/// Whether `m` is one of `s`.
pub fn contains_pos(s: &[Pos], m: Pos) -> (r: bool)
    ensures
        r == s@.contains(m),
{
    let mut i: usize = 0;
    while i < s.len()
        invariant
            i <= s@.len(),
            forall|j: int| 0 <= j < i ==> s@[j] != m,
        decreases s@.len() - i,
    {
        if s[i].0 == m.0 && s[i].1 == m.1 {
            assert(s@[i as int] == m);
            return true;
        }
        i += 1;
    }
    false
}

/// The first place in `sorted` whose entry `e` ranks before (the end if there is none).
fn rank_slot(sorted: &Vec<Scored>, e: Scored) -> (j: usize)
    ensures
        j <= sorted@.len(),
        forall|k: int| 0 <= k < j ==> !ranks_before(e, #[trigger] sorted@[k]),
        j == sorted@.len() || ranks_before(e, sorted@[j as int]),
{
    let mut j: usize = 0;
    while j < sorted.len() && !(e.1 > sorted[j].1 || (e.1 == sorted[j].1 && (e.0.1 < sorted[j].0.1
        || (e.0.1 == sorted[j].0.1 && e.0.0 < sorted[j].0.0))))
        invariant
            j <= sorted@.len(),
            forall|k: int| 0 <= k < j ==> !ranks_before(e, #[trigger] sorted@[k]),
        decreases sorted@.len() - j,
    {
        j += 1;
    }
    j
}

#[verifier::spinoff_prover]
fn scored_candidates(board: &Board, p: Cell) -> (r: Vec<Scored>)
    ensures
        r@ == sort_ranked(scored(*board, p, candidates(*board))),
        forall|i: int| 0 <= i < r@.len() ==> is_free(*board, #[trigger] r@[i].0),
{
    let ghost b = *board;
    let cands = candidate_moves(board);
    let mut sorted: Vec<Scored> = Vec::new();
    let mut i: usize = 0;
    while i < cands.len()
        invariant
            b == *board,
            cands@ == candidates(b),
            forall|j: int| 0 <= j < cands@.len() ==> is_free(b, #[trigger] cands@[j]),
            i <= cands@.len(),
            sorted@ == sort_ranked(scored(b, p, cands@.take(i as int))),
            forall|k: int| 0 <= k < sorted@.len() ==> is_free(b, #[trigger] sorted@[k].0),
        decreases cands@.len() - i,
    {
        let (x, y) = cands[i];
        let e: Scored = ((x, y), move_order_score(board, x, y, p));
        let j = rank_slot(&sorted, e);
        proof {
            lemma_insert_ranked(sorted@, e, j as int);
            let s1 = scored(b, p, cands@.take(i + 1));
            assert(s1.drop_last() =~= scored(b, p, cands@.take(i as int)));
            assert(s1.last() == e);
        }
        let ghost before = sorted@;
        sorted.insert(j, e);
        assert forall|k: int| 0 <= k < sorted@.len() implies is_free(b, #[trigger] sorted@[k].0) by {
            if k < j {
                assert(sorted@[k] == before[k]);
            } else if k > j {
                assert(sorted@[k] == before[k - 1]);
            }
        }
        i += 1;
    }
    proof {
        assert(cands@.take(cands@.len() as int) =~= cands@);
    }
    sorted
}

/// A filter of a prefix is a prefix of the filter.
proof fn lemma_filter_prefix(s: Seq<Pos>, pred: spec_fn(Pos) -> bool, i: int)
    requires
        0 <= i <= s.len(),
    ensures
        s.filter(pred).take(s.take(i).filter(pred).len() as int) == s.take(i).filter(pred),
        s.take(i).filter(pred).len() <= s.filter(pred).len(),
{
    assert(s =~= s.take(i) + s.skip(i));
    Seq::filter_distributes_over_add(s.take(i), s.skip(i), pred);
    assert(s.filter(pred).take(s.take(i).filter(pred).len() as int) =~= s.take(i).filter(pred));
}

/// The candidate moves of `p` in ranking order: first every one that is in `required`, then at
/// most `limit` of the others.
pub fn ranked_moves(board: &Board, p: Cell, limit: usize, required: &[Pos]) -> (r: Vec<Pos>)
    ensures
        r@ == ranked(*board, p, limit as int, required@),
        forall|i: int| 0 <= i < r@.len() ==> is_free(*board, #[trigger] r@[i]),
{
    let ghost b = *board;
    let sorted = scored_candidates(board, p);
    let ghost order = sorted@.map_values(|e: Scored| e.0);
    let ghost inp = in_pred(required@);
    let ghost outp = out_pred(required@);
    assert(order == ranking(b, p));
    let mut selected: Vec<Pos> = Vec::new();
    let mut i: usize = 0;
    while i < sorted.len()
        invariant
            order == sorted@.map_values(|e: Scored| e.0),
            inp == in_pred(required@),
            i <= sorted@.len(),
            selected@ == order.take(i as int).filter(inp),
            forall|k: int| 0 <= k < sorted@.len() ==> is_free(b, #[trigger] sorted@[k].0),
            forall|k: int| 0 <= k < selected@.len() ==> is_free(b, #[trigger] selected@[k]),
            b == *board,
        decreases sorted@.len() - i,
    {
        let m = sorted[i].0;
        proof {
            lemma_filter_take_step(order, inp, i as int);
        }
        if contains_pos(required, m) {
            selected.push(m);
        }
        i += 1;
    }
    assert(order.take(order.len() as int) =~= order);
    let ghost head = selected@;
    let mut regular: usize = 0;
    let mut i: usize = 0;
    while i < sorted.len()
        invariant
            order == sorted@.map_values(|e: Scored| e.0),
            outp == out_pred(required@),
            head == order.filter(in_pred(required@)),
            i <= sorted@.len(),
            regular <= limit,
            regular == order.take(i as int).filter(outp).len(),
            selected@ == head + order.take(i as int).filter(outp),
            forall|k: int| 0 <= k < sorted@.len() ==> is_free(b, #[trigger] sorted@[k].0),
            forall|k: int| 0 <= k < selected@.len() ==> is_free(b, #[trigger] selected@[k]),
            b == *board,
        ensures
            forall|k: int| 0 <= k < selected@.len() ==> is_free(b, #[trigger] selected@[k]),
            regular == limit || i == sorted@.len(),
            regular <= limit,
            regular == order.take(i as int).filter(outp).len(),
            selected@ == head + order.take(i as int).filter(outp),
        decreases sorted@.len() - i,
    {
        let m = sorted[i].0;
        proof {
            lemma_filter_take_step(order, outp, i as int);
        }
        if contains_pos(required, m) {
            i += 1;
            continue;
        }
        if regular == limit {
            break;
        }
        selected.push(m);
        regular += 1;
        i += 1;
    }
    proof {
        lemma_filter_prefix(order, outp, i as int);
        assert(order.take(order.len() as int) =~= order);
    }
    selected
}


proof fn lemma_insert_ranked_elems(s: Seq<Scored>, e: Scored)
    ensures
        insert_ranked(s, e).len() == s.len() + 1,
        forall|x: Scored| #[trigger]
            insert_ranked(s, e).contains(x) <==> (s.contains(x) || x == e),
    decreases s.len(),
{
    let r = insert_ranked(s, e);
    if s.len() == 0 {
        assert forall|x: Scored| #[trigger] r.contains(x) <==> (s.contains(x) || x == e) by {
            if r.contains(x) {
                let k = choose|k: int| 0 <= k < r.len() && r[k] == x;
                assert(k == 0);
            }
            if x == e {
                assert(r[0] == e);
            }
        }
    } else if ranks_before(e, s[0]) {
        assert forall|x: Scored| #[trigger] r.contains(x) <==> (s.contains(x) || x == e) by {
            if r.contains(x) {
                let k = choose|k: int| 0 <= k < r.len() && r[k] == x;
                if k > 0 {
                    assert(s[k - 1] == x);
                }
            }
            if s.contains(x) {
                let k = choose|k: int| 0 <= k < s.len() && s[k] == x;
                assert(r[k + 1] == x);
            }
            if x == e {
                assert(r[0] == e);
            }
        }
    } else {
        let t = s.drop_first();
        lemma_insert_ranked_elems(t, e);
        let u = insert_ranked(t, e);
        assert forall|x: Scored| #[trigger] r.contains(x) <==> (s.contains(x) || x == e) by {
            if r.contains(x) {
                let k = choose|k: int| 0 <= k < r.len() && r[k] == x;
                if k > 0 {
                    assert(u[k - 1] == x);
                    assert(u.contains(x));
                    if t.contains(x) {
                        let q = choose|q: int| 0 <= q < t.len() && t[q] == x;
                        assert(s[q + 1] == x);
                    }
                } else {
                    assert(s[0] == x);
                }
            }
            if s.contains(x) {
                let k = choose|k: int| 0 <= k < s.len() && s[k] == x;
                if k > 0 {
                    assert(t[k - 1] == x);
                    assert(u.contains(x));
                    let q = choose|q: int| 0 <= q < u.len() && u[q] == x;
                    assert(r[q + 1] == x);
                } else {
                    assert(r[0] == x);
                }
            }
            if x == e {
                assert(u.contains(x));
                let q = choose|q: int| 0 <= q < u.len() && u[q] == x;
                assert(r[q + 1] == x);
            }
        }
    }
}

/// Sorting keeps the entries: same length, same members.
pub proof fn lemma_sort_ranked_elems(s: Seq<Scored>)
    ensures
        sort_ranked(s).len() == s.len(),
        forall|x: Scored| #[trigger] sort_ranked(s).contains(x) <==> s.contains(x),
    decreases s.len(),
{
    if s.len() > 0 {
        let t = s.drop_last();
        lemma_sort_ranked_elems(t);
        lemma_insert_ranked_elems(sort_ranked(t), s.last());
        assert forall|x: Scored| #[trigger] sort_ranked(s).contains(x) <==> s.contains(x) by {
            if t.contains(x) {
                let k = choose|k: int| 0 <= k < t.len() && t[k] == x;
                assert(s[k] == x);
            }
            if s.contains(x) {
                let k = choose|k: int| 0 <= k < s.len() && s[k] == x;
                if k < t.len() {
                    assert(t[k] == x);
                } else {
                    assert(x == s.last());
                }
            }
        }
    }
}

/// Each entry of `s` has a place in `sort_ranked(s)`.
proof fn lemma_sort_ranked_has(s: Seq<Scored>, i: int) -> (j: int)
    requires
        0 <= i < s.len(),
    ensures
        0 <= j < sort_ranked(s).len(),
        sort_ranked(s)[j] == s[i],
{
    lemma_sort_ranked_elems(s);
    assert(s.contains(s[i]));
    assert(sort_ranked(s).contains(s[i]));
    choose|j: int| 0 <= j < sort_ranked(s).len() && sort_ranked(s)[j] == s[i]
}

/// No entry of `s` ranks before an entry that comes earlier.
pub open spec fn is_sorted_ranked(s: Seq<Scored>) -> bool {
    forall|i: int, j: int| 0 <= i < j < s.len() ==> !ranks_before(#[trigger] s[j], #[trigger] s[i])
}

proof fn lemma_insert_ranked_sorted(s: Seq<Scored>, e: Scored)
    requires
        is_sorted_ranked(s),
    ensures
        is_sorted_ranked(insert_ranked(s, e)),
    decreases s.len(),
{
    let r = insert_ranked(s, e);
    if s.len() == 0 {
    } else if ranks_before(e, s[0]) {
        assert forall|i: int, j: int| 0 <= i < j < r.len() implies !ranks_before(
            #[trigger] r[j],
            #[trigger] r[i],
        ) by {
            if i > 0 {
                assert(r[i] == s[i - 1] && r[j] == s[j - 1]);
            } else {
                assert(r[j] == s[j - 1]);
                if j - 1 > 0 {
                    assert(!ranks_before(s[j - 1], s[0]));
                }
            }
        }
    } else {
        let t = s.drop_first();
        assert forall|i: int, j: int| 0 <= i < j < t.len() implies !ranks_before(
            #[trigger] t[j],
            #[trigger] t[i],
        ) by {
            assert(t[i] == s[i + 1] && t[j] == s[j + 1]);
        }
        lemma_insert_ranked_sorted(t, e);
        lemma_insert_ranked_elems(t, e);
        let u = insert_ranked(t, e);
        assert forall|i: int, j: int| 0 <= i < j < r.len() implies !ranks_before(
            #[trigger] r[j],
            #[trigger] r[i],
        ) by {
            if i > 0 {
                assert(r[i] == u[i - 1] && r[j] == u[j - 1]);
            } else {
                assert(r[j] == u[j - 1]);
                assert(u.contains(u[j - 1]));
                if u[j - 1] != e {
                    assert(t.contains(u[j - 1]));
                    let k = choose|k: int| 0 <= k < t.len() && t[k] == u[j - 1];
                    assert(s[k + 1] == u[j - 1]);
                }
            }
        }
    }
}

/// The ranking order is sorted: no move is listed after one that it ranks before.
pub proof fn lemma_sort_ranked_sorted(s: Seq<Scored>)
    ensures
        is_sorted_ranked(sort_ranked(s)),
    decreases s.len(),
{
    if s.len() > 0 {
        lemma_sort_ranked_sorted(s.drop_last());
        lemma_insert_ranked_sorted(sort_ranked(s.drop_last()), s.last());
    }
}

/// Every candidate move appears in the ranking.
pub proof fn lemma_ranking_has_candidates(b: Board, p: Cell, m: Pos)
    requires
        candidates(b).contains(m),
    ensures
        ranking(b, p).contains(m),
{
    let c = candidates(b);
    let i = choose|i: int| 0 <= i < c.len() && c[i] == m;
    let sc = scored(b, p, c);
    assert(sc.len() == c.len());
    assert(sc[i].0 == m);
    let j = lemma_sort_ranked_has(sc, i);
    assert(ranking(b, p)[j] == sort_ranked(sc)[j].0);
}

/// Every candidate move named in `required` is among the ranked moves, ahead of all others.
pub proof fn lemma_ranked_keeps_required(b: Board, p: Cell, limit: int, required: Seq<Pos>, m: Pos)
    requires
        candidates(b).contains(m),
        required.contains(m),
    ensures
        ranking(b, p).filter(in_pred(required)).contains(m),
        ranked(b, p, limit, required).contains(m),
{
    lemma_ranking_has_candidates(b, p, m);
    let order = ranking(b, p);
    let j = choose|j: int| 0 <= j < order.len() && order[j] == m;
    order.lemma_filter_contains(in_pred(required), j);
    let head = order.filter(in_pred(required));
    let k = choose|k: int| 0 <= k < head.len() && head[k] == m;
    assert(ranked(b, p, limit, required)[k] == m);
}

/// The ordering value of a move for `p`.
pub open spec fn move_key(b: Board, p: Cell) -> spec_fn(Pos) -> int {
    |m: Pos| order_value(b, m.0 as int, m.1 as int, p)
}

/// `m` may be listed after `c`: it has a lower ordering value for `p`, or the same one and does
/// not come earlier in reading order (row by row, each from left to right).
pub open spec fn listed_after(b: Board, p: Cell) -> spec_fn(Pos, Pos) -> bool {
    |m: Pos, c: Pos|
        move_key(b, p)(m) < move_key(b, p)(c) || (move_key(b, p)(m) == move_key(b, p)(c) && (m.1
            > c.1 || (m.1 == c.1 && m.0 >= c.0)))
}

/// The ranking lists candidate moves only, from the highest ordering value down, moves of the
/// same value in reading order.
pub proof fn lemma_ranking_descending(b: Board, p: Cell)
    ensures
        forall|i: int|
            0 <= i < ranking(b, p).len() ==> candidates(b).contains(#[trigger] ranking(b, p)[i]),
        forall|i: int, j: int|
            0 <= i < j < ranking(b, p).len() ==> listed_after(b, p)(
                #[trigger] ranking(b, p)[j],
                #[trigger] ranking(b, p)[i],
            ),
{
    let c = candidates(b);
    let sc = scored(b, p, c);
    let s = sort_ranked(sc);
    let r = ranking(b, p);
    lemma_sort_ranked_elems(sc);
    lemma_sort_ranked_sorted(sc);
    lemma_candidates_free(b);
    assert forall|i: int| 0 <= i < s.len() implies (#[trigger] s[i]).1 == order_value(
        b,
        s[i].0.0 as int,
        s[i].0.1 as int,
        p,
    ) && c.contains(s[i].0) by {
        assert(s.contains(s[i]));
        let k = choose|k: int| 0 <= k < sc.len() && sc[k] == s[i];
        let m = c[k];
        assert(sc[k] == (m, order_value(b, m.0 as int, m.1 as int, p) as i64));
        assert(is_free(b, m));
        lemma_point_value_bounds(b, m.0 as int, m.1 as int, p);
        lemma_point_value_bounds(b, m.0 as int, m.1 as int, other(p));
        reveal(order_value);
        assert(0 <= order_value(b, m.0 as int, m.1 as int, p) <= 800_000_000);
    }
    assert forall|i: int| 0 <= i < r.len() implies c.contains(#[trigger] r[i]) by {
        assert(r[i] == s[i].0);
    }
    assert forall|i: int, j: int| 0 <= i < j < r.len() implies listed_after(b, p)(
        #[trigger] r[j],
        #[trigger] r[i],
    ) by {
        assert(r[i] == s[i].0 && r[j] == s[j].0);
        assert(!ranks_before(s[j], s[i]));
        assert(s[j].1 == order_value(b, s[j].0.0 as int, s[j].0.1 as int, p));
        assert(s[i].1 == order_value(b, s[i].0.0 as int, s[i].0.1 as int, p));
    }
}

/// Ranked moves come best first: all of them candidates, the required ones first, then at most
/// `limit` others (all of them when there are fewer), each group from the highest ordering value
/// (ten times what the move makes for `p`, nine times what it blocks, and its closeness to the
/// center) down, moves of the same value in reading order; and no candidate that is neither
/// required nor ranked has a higher ordering value than any of the other ranked moves.
pub proof fn lemma_ranked_best_first(b: Board, p: Cell, limit: int, required: Seq<Pos>)
    requires
        0 <= limit,
    ensures
        ({
            let r = ranked(b, p, limit, required);
            let h = ranking(b, p).filter(in_pred(required)).len();
            &&& forall|i: int, j: int|
                0 <= i < j < h ==> listed_after(b, p)(#[trigger] r[j], #[trigger] r[i])
            &&& forall|i: int, j: int|
                h <= i < j < r.len() ==> listed_after(b, p)(#[trigger] r[j], #[trigger] r[i])
            &&& forall|i: int, m: Pos|
                #![trigger r[i], move_key(b, p)(m)]
                h <= i < r.len() && candidates(b).contains(m) && !required.contains(m)
                    && !r.contains(m) ==> move_key(b, p)(m) <= move_key(b, p)(r[i])
            &&& forall|i: int| 0 <= i < r.len() ==> candidates(b).contains(#[trigger] r[i])
            &&& forall|i: int| 0 <= i < r.len() ==> (required.contains(#[trigger] r[i]) <==> i < h)
            &&& h <= r.len() <= h + limit
            &&& r.len() < h + limit ==> forall|m: Pos|
                candidates(b).contains(m) && !required.contains(m) ==> #[trigger] r.contains(m)
        }),
{
    let order = ranking(b, p);
    let key = move_key(b, p);
    let head = order.filter(in_pred(required));
    let rest = order.filter(out_pred(required));
    let r = ranked(b, p, limit, required);
    let h = head.len();
    let n = if limit < rest.len() {
        limit
    } else {
        rest.len() as int
    };
    let after = listed_after(b, p);
    lemma_ranking_descending(b, p);
    lemma_filter_keeps_order(order, in_pred(required), after);
    lemma_filter_keeps_order(order, out_pred(required), after);
    assert(r.len() == h + n);
    assert forall|i: int, j: int| 0 <= i < j < h implies after(#[trigger] r[j], #[trigger] r[i]) by {
        assert(r[i] == head[i] && r[j] == head[j]);
    }
    assert forall|i: int, j: int| h <= i < j < r.len() implies after(
        #[trigger] r[j],
        #[trigger] r[i],
    ) by {
        assert(r[i] == rest[i - h] && r[j] == rest[j - h]);
    }
    assert forall|i: int, m: Pos|
        #![trigger r[i], key(m)]
        h <= i < r.len() && candidates(b).contains(m) && !required.contains(m)
            && !r.contains(m) implies key(m) <= key(r[i]) by {
        lemma_ranking_has_candidates(b, p, m);
        let k = choose|k: int| 0 <= k < order.len() && order[k] == m;
        order.lemma_filter_contains(out_pred(required), k);
        let q = choose|q: int| 0 <= q < rest.len() && rest[q] == m;
        if q < n {
            assert(r[h + q] == m);
        }
        assert(r[i] == rest[i - h]);
        assert(after(rest[q], rest[i - h]));
    }
    lemma_filter_subset(order, in_pred(required));
    lemma_filter_subset(order, out_pred(required));
    assert forall|i: int| 0 <= i < r.len() implies candidates(b).contains(#[trigger] r[i]) && (
    required.contains(r[i]) <==> i < h) by {
        if i < h {
            assert(r[i] == head[i]);
            assert(order.contains(head[i]));
        } else {
            assert(r[i] == rest[i - h]);
            assert(order.contains(rest[i - h]));
        }
        let k = choose|k: int| 0 <= k < order.len() && order[k] == r[i];
    }
    if r.len() < h + limit {
        assert forall|m: Pos| candidates(b).contains(m) && !required.contains(m) implies #[trigger] r.contains(
            m,
        ) by {
            lemma_ranking_has_candidates(b, p, m);
            let k = choose|k: int| 0 <= k < order.len() && order[k] == m;
            order.lemma_filter_contains(out_pred(required), k);
            let q = choose|q: int| 0 <= q < rest.len() && rest[q] == m;
            assert(r[h + q] == m);
        }
    }
}

// ---------------------------------------------------------------------------------------------
// Static evaluation
// ---------------------------------------------------------------------------------------------

/// The two best point values for `p` among the moves of `s` (zero where there are fewer).
pub open spec fn top_two(b: Board, p: Cell, s: Seq<Pos>) -> (int, int)
    decreases s.len(),
{
    if s.len() == 0 {
        (0, 0)
    } else {
        let t = top_two(b, p, s.drop_last());
        let v = point_value(b, s.last().0 as int, s.last().1 as int, p);
        if v > t.0 {
            (v, t.0)
        } else if v > t.1 {
            (t.0, v)
        } else {
            t
        }
    }
}

/// How threatening the position is for `p`: four times its best move's value plus its second best.
pub open spec fn threat(b: Board, p: Cell) -> int {
    let t = top_two(b, p, candidates(b));
    t.0 * 4 + t.1
}

/// How good the position is for `ai`: its threats, weighed against its opponent's.
pub open spec fn evaluation(b: Board, ai: Cell) -> int {
    threat(b, ai) * 10 - threat(b, other(ai)) * 9
}

proof fn lemma_point_value_bounds(b: Board, x: int, y: int, p: Cell)
    ensures
        0 <= point_value(b, x, y, p) <= 40_000_000,
{
}

/// The point value for `p` of the `i`-th move of `s`.
pub open spec fn value_at(b: Board, p: Cell, s: Seq<Pos>, i: int) -> int {
    point_value(b, s[i].0 as int, s[i].1 as int, p)
}

/// `top_two` gives the highest value of `s`, and the highest of the others: no two moves both
/// beat the second, and both come from moves of `s` at distinct places (zero where there are
/// fewer moves).
proof fn lemma_top_two_pairs(b: Board, p: Cell, s: Seq<Pos>)
    ensures
        ({
            let t = top_two(b, p, s);
            &&& 0 <= t.1 <= t.0
            &&& forall|i: int| 0 <= i < s.len() ==> #[trigger] value_at(b, p, s, i) <= t.0
            &&& forall|i: int, j: int|
                0 <= i < s.len() && 0 <= j < s.len() && i != j ==> #[trigger] value_at(b, p, s, i)
                    <= t.1 || #[trigger] value_at(b, p, s, j) <= t.1
            &&& s.len() == 0 ==> t.0 == 0 && t.1 == 0
            &&& s.len() == 1 ==> t.0 == value_at(b, p, s, 0) && t.1 == 0
            &&& s.len() >= 2 ==> exists|i: int, j: int|
                0 <= i < s.len() && 0 <= j < s.len() && i != j && t.0 == #[trigger] value_at(
                    b,
                    p,
                    s,
                    i,
                ) && t.1 == #[trigger] value_at(b, p, s, j)
        }),
    decreases s.len(),
{
    if s.len() > 0 {
        let u = s.drop_last();
        let n = s.len() - 1;
        lemma_top_two_pairs(b, p, u);
        lemma_point_value_bounds(b, s[n].0 as int, s[n].1 as int, p);
        let v = value_at(b, p, s, n);
        let t = top_two(b, p, u);
        let r = top_two(b, p, s);
        assert(s.last() == s[n]);
        assert forall|k: int| 0 <= k < u.len() implies #[trigger] value_at(b, p, s, k) == value_at(
            b,
            p,
            u,
            k,
        ) by {
            assert(s[k] == u[k]);
        }
        assert forall|i: int| 0 <= i < s.len() implies #[trigger] value_at(b, p, s, i) <= r.0 by {
            if i < n {
                assert(value_at(b, p, u, i) <= t.0);
            }
        }
        assert forall|i: int, j: int|
            0 <= i < s.len() && 0 <= j < s.len() && i != j implies #[trigger] value_at(b, p, s, i)
            <= r.1 || #[trigger] value_at(b, p, s, j) <= r.1 by {
            if i < n && j < n {
                assert(value_at(b, p, u, i) <= t.1 || value_at(b, p, u, j) <= t.1);
            } else if i < n {
                assert(value_at(b, p, u, i) <= t.0);
            } else {
                assert(value_at(b, p, u, j) <= t.0);
            }
        }
        if u.len() == 1 {
            if v > t.0 {
                assert(r.0 == value_at(b, p, s, n) && r.1 == value_at(b, p, s, 0));
            } else {
                assert(r.0 == value_at(b, p, s, 0) && r.1 == value_at(b, p, s, n));
            }
        } else if u.len() >= 2 {
            let (i, j) = choose|i: int, j: int|
                0 <= i < u.len() && 0 <= j < u.len() && i != j && t.0 == #[trigger] value_at(
                    b,
                    p,
                    u,
                    i,
                ) && t.1 == #[trigger] value_at(b, p, u, j);
            if v > t.0 {
                assert(r.0 == value_at(b, p, s, n) && r.1 == value_at(b, p, s, i));
            } else if v > t.1 {
                assert(r.0 == value_at(b, p, s, i) && r.1 == value_at(b, p, s, n));
            } else {
                assert(r.0 == value_at(b, p, s, i) && r.1 == value_at(b, p, s, j));
            }
        }
    }
}

/// How threatening a position is for `p`, from the candidate moves alone: four times the value
/// of one candidate plus the value of another, for the best such pair; no pair of distinct
/// candidates does better; with one candidate, four times its value; with none, zero.
pub proof fn lemma_threat_best_pair(b: Board, p: Cell)
    ensures
        ({
            let c = candidates(b);
            &&& forall|i: int, j: int|
                0 <= i < c.len() && 0 <= j < c.len() && i != j ==> 4 * #[trigger] value_at(
                    b,
                    p,
                    c,
                    i,
                ) + #[trigger] value_at(b, p, c, j) <= threat(b, p)
            &&& forall|i: int| 0 <= i < c.len() ==> 4 * #[trigger] value_at(b, p, c, i) <= threat(b, p)
            &&& c.len() == 0 ==> threat(b, p) == 0
            &&& c.len() == 1 ==> threat(b, p) == 4 * value_at(b, p, c, 0)
            &&& c.len() >= 2 ==> exists|i: int, j: int|
                0 <= i < c.len() && 0 <= j < c.len() && i != j && threat(b, p) == 4
                    * #[trigger] value_at(b, p, c, i) + #[trigger] value_at(b, p, c, j)
        }),
{
    let c = candidates(b);
    lemma_top_two_pairs(b, p, c);
    let t = top_two(b, p, c);
    assert forall|i: int, j: int|
        0 <= i < c.len() && 0 <= j < c.len() && i != j implies 4 * #[trigger] value_at(b, p, c, i)
        + #[trigger] value_at(b, p, c, j) <= threat(b, p) by {
        assert(value_at(b, p, c, i) <= t.0 && value_at(b, p, c, j) <= t.0);
        assert(value_at(b, p, c, i) <= t.1 || value_at(b, p, c, j) <= t.1);
    }
    assert forall|i: int| 0 <= i < c.len() implies 4 * #[trigger] value_at(b, p, c, i) <= threat(
        b,
        p,
    ) by {
        assert(value_at(b, p, c, i) <= t.0);
    }
    if c.len() >= 2 {
        let (i, j) = choose|i: int, j: int|
            0 <= i < c.len() && 0 <= j < c.len() && i != j && t.0 == #[trigger] value_at(b, p, c, i)
                && t.1 == #[trigger] value_at(b, p, c, j);
        assert(threat(b, p) == 4 * value_at(b, p, c, i) + value_at(b, p, c, j));
    }
}

/// On a board without stones of `other(p)`, the opponent has no run along `(dx, dy)`, and an end
/// that is free for it is free for `p` too.
proof fn lemma_open_end_dominates(b: Board, x: int, y: int, dx: int, dy: int, p: Cell)
    requires
        is_dir(dx, dy),
        p != Cell::Empty,
        forall|u: int, v: int| on_board(u, v) ==> #[trigger] b[v][u] != other(p),
    ensures
        run(b, x, y, dx, dy, other(p)) == 0,
        open_end(b, x, y, dx, dy, other(p)) ==> open_end(b, x, y, dx, dy, p),
{
    if on_board(x + dx, y + dy) {
        assert(b[y + dy][x + dx] != other(p));
    }
    assert(step(x, 1, dx) == x + dx && step(y, 1, dy) == y + dy);
}

/// On a board without stones of `other(p)`, a move is worth at least as much to `p` along each
/// axis as to its opponent.
proof fn lemma_axis_value_dominates(b: Board, x: int, y: int, k: int, p: Cell)
    requires
        0 <= k < 4,
        p != Cell::Empty,
        forall|u: int, v: int| on_board(u, v) ==> #[trigger] b[v][u] != other(p),
    ensures
        axis_value(b, x, y, k, other(p)) <= axis_value(b, x, y, k, p),
{
    let dx = dir_x(k);
    let dy = dir_y(k);
    lemma_open_end_dominates(b, x, y, dx, dy, p);
    lemma_open_end_dominates(b, x, y, -dx, -dy, p);
    lemma_pattern_value_order(
        line_count(b, x, y, dx, dy, other(p)),
        line_open(b, x, y, dx, dy, other(p)),
        line_count(b, x, y, dx, dy, p),
        line_open(b, x, y, dx, dy, p),
    );
}

/// On a board where the opponent of `ai` has no stone, every move is worth at least as much to
/// `ai` as to its opponent, so `ai`'s threats are at least its opponent's and the position is
/// worth at least `ai`'s own threats to it: never below zero, and above zero as soon as some
/// candidate move is of any value to `ai`.
pub proof fn lemma_evaluation_own_stones(b: Board, ai: Cell)
    requires
        ai != Cell::Empty,
        forall|x: int, y: int| on_board(x, y) ==> #[trigger] b[y][x] != other(ai),
    ensures
        forall|x: int, y: int|
            point_value(b, x, y, other(ai)) <= #[trigger] point_value(b, x, y, ai),
        0 <= threat(b, other(ai)) <= threat(b, ai) <= evaluation(b, ai),
{
    let q = other(ai);
    assert forall|x: int, y: int| point_value(b, x, y, q) <= #[trigger] point_value(b, x, y, ai) by {
        lemma_axis_value_dominates(b, x, y, 0, ai);
        lemma_axis_value_dominates(b, x, y, 1, ai);
        lemma_axis_value_dominates(b, x, y, 2, ai);
        lemma_axis_value_dominates(b, x, y, 3, ai);
    }
    let c = candidates(b);
    lemma_threat_best_pair(b, ai);
    lemma_threat_best_pair(b, q);
    lemma_top_two_bounds(b, q, c);
    if c.len() == 1 {
        assert(value_at(b, q, c, 0) <= value_at(b, ai, c, 0));
    } else if c.len() >= 2 {
        let (i, j) = choose|i: int, j: int|
            0 <= i < c.len() && 0 <= j < c.len() && i != j && threat(b, q) == 4
                * #[trigger] value_at(b, q, c, i) + #[trigger] value_at(b, q, c, j);
        assert(value_at(b, q, c, i) <= value_at(b, ai, c, i));
        assert(value_at(b, q, c, j) <= value_at(b, ai, c, j));
        assert(4 * value_at(b, ai, c, i) + value_at(b, ai, c, j) <= threat(b, ai));
    }
}

/// The evaluation weighs a side's threats against its opponent's, the same way for either side:
/// ten times the value for one side and nine times the value for the other add up to nineteen
/// times the first side's threats, the opponent's cancelling out.
pub proof fn lemma_evaluation_balance(b: Board, ai: Cell)
    ensures
        evaluation(b, ai) * 10 + evaluation(b, other(ai)) * 9 == threat(b, ai) * 19,
{
    crate::board::lemma_other_involution(ai);
}

/// Four times the best point value for `p` over the candidate moves, plus the second best.
pub fn threat_value(board: &Board, p: Cell) -> (r: i64)
    ensures
        r == threat(*board, p),
        0 <= r <= 200_000_000,
{
    let ghost b = *board;
    let cands = candidate_moves(board);
    let mut first: i64 = 0;
    let mut second: i64 = 0;
    let mut i: usize = 0;
    while i < cands.len()
        invariant
            b == *board,
            cands@ == candidates(b),
            forall|j: int| 0 <= j < cands@.len() ==> is_free(b, #[trigger] cands@[j]),
            i <= cands@.len(),
            (first as int, second as int) == top_two(b, p, cands@.take(i as int)),
            0 <= second <= first <= 40_000_000,
        decreases cands@.len() - i,
    {
        let (x, y) = cands[i];
        let score = point_score(board, x, y, p);
        proof {
            assert(cands@.take(i + 1).drop_last() =~= cands@.take(i as int));
        }
        if score > first {
            second = first;
            first = score;
        } else if score > second {
            second = score;
        }
        i += 1;
    }
    proof {
        assert(cands@.take(cands@.len() as int) =~= cands@);
    }
    first * 4 + second
}

/// The static value of a position for `ai`.
pub fn evaluate_position(board: &Board, ai: Cell) -> (r: i64)
    ensures
        r == evaluation(*board, ai),
        -1_800_000_000 <= r <= 2_000_000_000,
{
    threat_value(board, ai) * 10 - threat_value(board, opponent(ai)) * 9
}

/// The value for `ai` of a position where it is to move: a win if it can win at once; a loss if
/// its opponent threatens to win in two places; after a single threat, the position once it is
/// blocked; otherwise the static value.
pub open spec fn leaf_value(b: Board, ai: Cell) -> int {
    let human_wins = winning_moves(b, other(ai));
    if winning_moves(b, ai).len() > 0 {
        MATE_SCORE as int
    } else if human_wins.len() >= 2 {
        -MATE_SCORE
    } else if human_wins.len() == 1 {
        evaluation(placed(b, human_wins[0].0 as int, human_wins[0].1 as int, ai), ai)
    } else {
        evaluation(b, ai)
    }
}

/// Value for `ai` of a position after its opponent's reply, with `ai` to move.
pub fn leaf_score(board: &Board, ai: Cell) -> (r: i64)
    ensures
        r == leaf_value(*board, ai),
        -MATE_SCORE <= r <= MATE_SCORE,
{
    let ai_wins = immediate_winning_moves(board, ai);
    if ai_wins.len() > 0 {
        return MATE_SCORE;
    }
    let human = opponent(ai);
    let human_wins = immediate_winning_moves(board, human);
    if human_wins.len() >= 2 {
        return -MATE_SCORE;
    }
    if human_wins.len() == 1 {
        let (x, y) = human_wins[0];
        let mut forced = *board;
        put(&mut forced, x, y, ai);
        return evaluate_position(&forced, ai);
    }
    evaluate_position(board, ai)
}

// ---------------------------------------------------------------------------------------------
// Search
// ---------------------------------------------------------------------------------------------

/// The value for `ai` of its opponent replying on `m`: a loss if that makes five, else the value
/// of the position that follows.
pub open spec fn reply_outcome(b: Board, ai: Cell, m: Pos) -> int {
    let next = placed(b, m.0 as int, m.1 as int, other(ai));
    if five_line(next, m.0 as int, m.1 as int) is Some {
        -MATE_SCORE
    } else {
        leaf_value(next, ai)
    }
}

/// The lowest outcome over `replies`, starting from `worst` and stopping as soon as it is at most
/// `alpha` (no better than a move already found).
pub open spec fn worst_reply(b: Board, ai: Cell, alpha: int, replies: Seq<Pos>, worst: int) -> int
    decreases replies.len(),
{
    if replies.len() == 0 {
        worst
    } else {
        let o = reply_outcome(b, ai, replies[0]);
        let w = if o < worst {
            o
        } else {
            worst
        };
        if w <= alpha {
            w
        } else {
            worst_reply(b, ai, alpha, replies.drop_first(), w)
        }
    }
}

/// The replies that the opponent of `ai` is considered to have.
pub open spec fn reply_moves(b: Board, ai: Cell, human_forks: Seq<Pos>) -> Seq<Pos> {
    let ai_wins = winning_moves(b, ai);
    if ai_wins.len() == 1 {
        ai_wins
    } else {
        ranked(b, other(ai), REPLY_CANDIDATE_LIMIT as int, human_forks)
    }
}

/// The value for `ai` of a position where its opponent is to move.
pub open spec fn reply_value(b: Board, ai: Cell, alpha: int, human_forks: Seq<Pos>) -> int {
    if winning_moves(b, other(ai)).len() > 0 {
        -MATE_SCORE
    } else if winning_moves(b, ai).len() >= 2 {
        MATE_SCORE as int
    } else if reply_moves(b, ai, human_forks).len() == 0 {
        evaluation(b, ai)
    } else {
        worst_reply(b, ai, alpha, reply_moves(b, ai, human_forks), MATE_SCORE * 2)
    }
}

/// The value for `ai` of the position after one of its root moves: a loss if the opponent wins at
/// once, a win if `ai` keeps two winning moves, otherwise the worst outcome over the replies
/// searched (a forced block when `ai` has one winning move, else the best-ranked ones).
pub fn reply_score(board: &Board, ai: Cell, alpha: i64, human_forks: &[Pos]) -> (r: i64)
    ensures
        r == reply_value(*board, ai, alpha as int, human_forks@),
        -MATE_SCORE <= r <= MATE_SCORE,
{
    let ghost b = *board;
    let human = opponent(ai);
    if immediate_winning_moves(board, human).len() > 0 {
        return -MATE_SCORE;
    }
    let ai_wins = immediate_winning_moves(board, ai);
    if ai_wins.len() >= 2 {
        return MATE_SCORE;
    }
    let replies = if ai_wins.len() == 1 {
        ai_wins
    } else {
        ranked_moves(board, human, REPLY_CANDIDATE_LIMIT, human_forks)
    };
    if replies.len() == 0 {
        return evaluate_position(board, ai);
    }
    let mut worst: i64 = MATE_SCORE * 2;
    let mut i: usize = 0;
    assert(replies@.skip(0) =~= replies@);
    while i < replies.len()
        invariant
            b == *board,
            human == other(ai),
            replies@ == reply_moves(b, ai, human_forks@),
            forall|j: int| 0 <= j < replies@.len() ==> is_free(b, #[trigger] replies@[j]),
            i <= replies@.len(),
            -MATE_SCORE <= worst <= 2 * MATE_SCORE,
            i > 0 ==> worst <= MATE_SCORE,
            replies@.len() > 0,
            worst_reply(b, ai, alpha as int, replies@, MATE_SCORE * 2) == worst_reply(
                b,
                ai,
                alpha as int,
                replies@.skip(i as int),
                worst as int,
            ),
        ensures
            worst_reply(b, ai, alpha as int, replies@, MATE_SCORE * 2) == worst,
            worst <= MATE_SCORE,
        decreases replies@.len() - i,
    {
        let (x, y) = replies[i];
        let mut next = *board;
        put(&mut next, x, y, human);
        let score = if winning_line(&next, x, y).is_some() {
            -MATE_SCORE
        } else {
            leaf_score(&next, ai)
        };
        proof {
            assert(replies@.skip(i as int)[0] == replies@[i as int]);
            assert(replies@.skip(i as int).drop_first() =~= replies@.skip(i + 1));
        }
        if score < worst {
            worst = score;
        }
        if worst <= alpha {
            break;
        }
        i += 1;
    }
    worst
}


/// The root move of `ai` kept by the search over `roots`: the first one whose value beats every
/// earlier one, each searched with the best value so far as its cut-off.
pub open spec fn best_root(
    b: Board,
    ai: Cell,
    human_forks: Seq<Pos>,
    roots: Seq<Pos>,
    best: Pos,
    best_score: int,
) -> Pos
    decreases roots.len(),
{
    if roots.len() == 0 {
        best
    } else {
        let m = roots[0];
        let v = reply_value(placed(b, m.0 as int, m.1 as int, ai), ai, best_score, human_forks);
        if v > best_score {
            best_root(b, ai, human_forks, roots.drop_first(), m, v)
        } else {
            best_root(b, ai, human_forks, roots.drop_first(), best, best_score)
        }
    }
}

/// The move of the computer player `ai`: the center to open; else a winning move; else a block
/// of the opponent's winning move; else a double threat; else the block of the opponent's only
/// double threat; else the best of the searched root moves (the opponent's double threats always
/// among them). Where several moves qualify, the best-ranked one is taken.
pub open spec fn ai_choice(b: Board, ai: Cell, move_count: int) -> Pos {
    let human = other(ai);
    let ai_wins = winning_moves(b, ai);
    let human_wins = winning_moves(b, human);
    let ai_forks = fork_moves(b, ai);
    let human_forks = fork_moves(b, human);
    let roots = ranked(b, ai, ROOT_CANDIDATE_LIMIT as int, human_forks);
    if move_count == 0 {
        (CENTER, CENTER)
    } else if ai_wins.len() > 0 {
        ranked(b, ai, 0, ai_wins)[0]
    } else if human_wins.len() > 0 {
        ranked(b, ai, 0, human_wins)[0]
    } else if ai_forks.len() > 0 {
        ranked(b, ai, 0, ai_forks)[0]
    } else if human_forks.len() == 1 {
        human_forks[0]
    } else if roots.len() == 0 {
        (CENTER, CENTER)
    } else {
        best_root(b, ai, human_forks, roots, roots[0], -MATE_SCORE * 2)
    }
}

proof fn lemma_top_two_bounds(b: Board, p: Cell, s: Seq<Pos>)
    ensures
        0 <= top_two(b, p, s).1 <= top_two(b, p, s).0 <= 40_000_000,
    decreases s.len(),
{
    if s.len() > 0 {
        lemma_top_two_bounds(b, p, s.drop_last());
        lemma_point_value_bounds(b, s.last().0 as int, s.last().1 as int, p);
    }
}

proof fn lemma_evaluation_bounds(b: Board, ai: Cell)
    ensures
        -1_800_000_000 <= evaluation(b, ai) <= 2_000_000_000,
{
    lemma_top_two_bounds(b, ai, candidates(b));
    lemma_top_two_bounds(b, other(ai), candidates(b));
}

proof fn lemma_reply_outcome_bounds(b: Board, ai: Cell, m: Pos)
    ensures
        -MATE_SCORE <= reply_outcome(b, ai, m) <= MATE_SCORE,
{
    let next = placed(b, m.0 as int, m.1 as int, other(ai));
    let human_wins = winning_moves(next, other(ai));
    lemma_evaluation_bounds(next, ai);
    if human_wins.len() == 1 {
        lemma_evaluation_bounds(
            placed(next, human_wins[0].0 as int, human_wins[0].1 as int, ai),
            ai,
        );
    }
}

/// The value for `ai` of playing `m`, every reply that the search considers looked at in full
/// (with a cut-off below every outcome).
pub open spec fn root_value(b: Board, ai: Cell, human_forks: Seq<Pos>, m: Pos) -> int {
    reply_value(placed(b, m.0 as int, m.1 as int, ai), ai, -3 * MATE_SCORE, human_forks)
}

/// Cutting the scan of replies off at `alpha` changes nothing where the lowest outcome is above
/// `alpha`, and otherwise still gives a value of at most `alpha`.
proof fn lemma_worst_reply_cut(b: Board, ai: Cell, alpha: int, replies: Seq<Pos>, worst: int)
    requires
        worst >= -MATE_SCORE,
    ensures
        ({
            let full = worst_reply(b, ai, -3 * MATE_SCORE, replies, worst);
            &&& -MATE_SCORE <= full <= worst
            &&& full > alpha ==> worst_reply(b, ai, alpha, replies, worst) == full
            &&& full <= alpha ==> worst_reply(b, ai, alpha, replies, worst) <= alpha
        }),
    decreases replies.len(),
{
    if replies.len() > 0 {
        let o = reply_outcome(b, ai, replies[0]);
        lemma_reply_outcome_bounds(b, ai, replies[0]);
        let w = if o < worst {
            o
        } else {
            worst
        };
        lemma_worst_reply_cut(b, ai, alpha, replies.drop_first(), w);
    }
}

/// Scanned in full, the replies give a value no higher than the outcome of any one of them.
proof fn lemma_worst_reply_below_each(b: Board, ai: Cell, replies: Seq<Pos>, worst: int)
    requires
        worst >= -MATE_SCORE,
    ensures
        forall|i: int|
            0 <= i < replies.len() ==> worst_reply(b, ai, -3 * MATE_SCORE, replies, worst)
                <= reply_outcome(b, ai, #[trigger] replies[i]),
    decreases replies.len(),
{
    if replies.len() > 0 {
        let o = reply_outcome(b, ai, replies[0]);
        lemma_reply_outcome_bounds(b, ai, replies[0]);
        let w = if o < worst {
            o
        } else {
            worst
        };
        let rest = replies.drop_first();
        lemma_worst_reply_below_each(b, ai, rest, w);
        lemma_worst_reply_cut(b, ai, -3 * MATE_SCORE, rest, w);
        assert forall|i: int| 0 <= i < replies.len() implies worst_reply(
            b,
            ai,
            -3 * MATE_SCORE,
            replies,
            worst,
        ) <= reply_outcome(b, ai, #[trigger] replies[i]) by {
            if i > 0 {
                assert(replies[i] == rest[i - 1]);
            }
        }
    }
}

/// The same for the value of a position where the opponent of `ai` is to move.
proof fn lemma_reply_value_cut(b: Board, ai: Cell, alpha: int, human_forks: Seq<Pos>)
    ensures
        ({
            let full = reply_value(b, ai, -3 * MATE_SCORE, human_forks);
            &&& -MATE_SCORE <= full
            &&& full > alpha ==> reply_value(b, ai, alpha, human_forks) == full
            &&& full <= alpha ==> reply_value(b, ai, alpha, human_forks) <= alpha
        }),
{
    lemma_evaluation_bounds(b, ai);
    lemma_worst_reply_cut(b, ai, alpha, reply_moves(b, ai, human_forks), MATE_SCORE * 2);
}

/// After `ai` plays `m`, its opponent has no move that makes five; and unless `ai` then has two
/// winning moves, no reply that the search considers makes five, or leaves the opponent two
/// winning moves while `ai` has none.
pub open spec fn leaves_no_win(b: Board, ai: Cell, human_forks: Seq<Pos>, m: Pos) -> bool {
    let next = placed(b, m.0 as int, m.1 as int, ai);
    &&& winning_moves(next, other(ai)).len() == 0
    &&& winning_moves(next, ai).len() < 2 ==> forall|q: Pos|
        #[trigger] reply_moves(next, ai, human_forks).contains(q) ==> {
            let after = placed(next, q.0 as int, q.1 as int, other(ai));
            &&& five_line(after, q.0 as int, q.1 as int) is None
            &&& (winning_moves(after, ai).len() > 0 || winning_moves(after, other(ai)).len() < 2)
        }
}

/// With every outcome above `-MATE_SCORE`, so is the lowest of them.
proof fn lemma_worst_reply_above(b: Board, ai: Cell, replies: Seq<Pos>, worst: int)
    requires
        worst > -MATE_SCORE,
        forall|i: int| 0 <= i < replies.len() ==> reply_outcome(b, ai, #[trigger] replies[i]) > -MATE_SCORE,
    ensures
        worst_reply(b, ai, -3 * MATE_SCORE, replies, worst) > -MATE_SCORE,
    decreases replies.len(),
{
    if replies.len() > 0 {
        let o = reply_outcome(b, ai, replies[0]);
        let w = if o < worst {
            o
        } else {
            worst
        };
        let rest = replies.drop_first();
        assert forall|i: int| 0 <= i < rest.len() implies reply_outcome(b, ai, #[trigger] rest[i])
            > -MATE_SCORE by {
            assert(rest[i] == replies[i + 1]);
        }
        lemma_worst_reply_above(b, ai, rest, w);
    }
}

/// A root move is of value above `-MATE_SCORE` exactly when it leaves the opponent no win among
/// the replies searched.
pub proof fn lemma_root_value_safe(b: Board, ai: Cell, human_forks: Seq<Pos>, m: Pos)
    ensures
        root_value(b, ai, human_forks, m) > -MATE_SCORE <==> leaves_no_win(b, ai, human_forks, m),
{
    let next = placed(b, m.0 as int, m.1 as int, ai);
    let rs = reply_moves(next, ai, human_forks);
    lemma_evaluation_bounds(next, ai);
    if winning_moves(next, other(ai)).len() == 0 && winning_moves(next, ai).len() < 2 && rs.len()
        > 0 {
        lemma_worst_reply_below_each(next, ai, rs, MATE_SCORE * 2);
        if root_value(b, ai, human_forks, m) > -MATE_SCORE {
            assert forall|q: Pos| #[trigger] rs.contains(q) implies ({
                let after = placed(next, q.0 as int, q.1 as int, other(ai));
                &&& five_line(after, q.0 as int, q.1 as int) is None
                &&& (winning_moves(after, ai).len() > 0 || winning_moves(after, other(ai)).len() < 2)
            }) by {
                let k = choose|k: int| 0 <= k < rs.len() && rs[k] == q;
                assert(reply_outcome(next, ai, rs[k]) > -MATE_SCORE);
            }
        }
        if leaves_no_win(b, ai, human_forks, m) {
            assert forall|i: int| 0 <= i < rs.len() implies reply_outcome(next, ai, #[trigger] rs[i])
                > -MATE_SCORE by {
                let q = rs[i];
                assert(rs.contains(q));
                let after = placed(next, q.0 as int, q.1 as int, other(ai));
                lemma_evaluation_bounds(after, ai);
                let hw = winning_moves(after, other(ai));
                if hw.len() == 1 {
                    lemma_evaluation_bounds(placed(after, hw[0].0 as int, hw[0].1 as int, ai), ai);
                }
            }
            lemma_worst_reply_above(next, ai, rs, MATE_SCORE * 2);
        }
    }
}

/// What the search over `roots` keeps: the move it started from when no root beats `best_score`,
/// else the first root of the highest value, which beats `best_score`; `j` is its place.
proof fn lemma_best_root(
    b: Board,
    ai: Cell,
    human_forks: Seq<Pos>,
    roots: Seq<Pos>,
    best: Pos,
    best_score: int,
) -> (j: int)
    ensures
        ({
            let r = best_root(b, ai, human_forks, roots, best, best_score);
            ||| j == -1 && r == best && forall|i: int|
                0 <= i < roots.len() ==> root_value(b, ai, human_forks, #[trigger] roots[i])
                    <= best_score
            ||| 0 <= j < roots.len() && roots[j] == r && root_value(b, ai, human_forks, r)
                > best_score && (forall|i: int|
                0 <= i < roots.len() ==> root_value(b, ai, human_forks, #[trigger] roots[i])
                    <= root_value(b, ai, human_forks, r)) && (forall|i: int|
                0 <= i < j ==> root_value(b, ai, human_forks, #[trigger] roots[i])
                    < root_value(b, ai, human_forks, r))
        }),
    decreases roots.len(),
{
    if roots.len() == 0 {
        -1
    } else {
        let m = roots[0];
        let rest = roots.drop_first();
        lemma_reply_value_cut(placed(b, m.0 as int, m.1 as int, ai), ai, best_score, human_forks);
        let f = root_value(b, ai, human_forks, m);
        let k = if f > best_score {
            lemma_best_root(b, ai, human_forks, rest, m, f)
        } else {
            lemma_best_root(b, ai, human_forks, rest, best, best_score)
        };
        assert forall|i: int| 0 < i < roots.len() implies roots[i] == rest[i - 1] by {}
        assert(roots[0] == m);
        if k == -1 {
            if f > best_score {
                0
            } else {
                -1
            }
        } else {
            k + 1
        }
    }
}

/// The search picks a best root: where the position calls for the search (no move wins at once
/// for either side, `ai` has no double threat, its opponent has no single one and some root is
/// ranked), the move chosen is one of the root moves and none of them has a higher value than it
/// once every reply considered is looked at; of several such, it is the first in rank. So where
/// some root leaves the opponent no win among the replies searched (no five, no two winning
/// moves), the chosen one does too.
pub proof fn lemma_ai_search_picks_best_root(b: Board, ai: Cell, move_count: int)
    requires
        move_count != 0,
        winning_moves(b, ai).len() == 0,
        winning_moves(b, other(ai)).len() == 0,
        fork_moves(b, ai).len() == 0,
        fork_moves(b, other(ai)).len() != 1,
        ranked(b, ai, ROOT_CANDIDATE_LIMIT as int, fork_moves(b, other(ai))).len() > 0,
    ensures
        ({
            let forks = fork_moves(b, other(ai));
            let roots = ranked(b, ai, ROOT_CANDIDATE_LIMIT as int, forks);
            let r = ai_choice(b, ai, move_count);
            &&& roots.contains(r)
            &&& forall|m: Pos|
                roots.contains(m) ==> #[trigger] root_value(b, ai, forks, m) <= root_value(
                    b,
                    ai,
                    forks,
                    r,
                )
            &&& exists|j: int|
                0 <= j < roots.len() && roots[j] == r && forall|i: int|
                    0 <= i < j ==> #[trigger] root_value(b, ai, forks, roots[i]) < root_value(
                        b,
                        ai,
                        forks,
                        r,
                    )
            &&& (exists|m: Pos| roots.contains(m) && #[trigger] leaves_no_win(b, ai, forks, m))
                ==> leaves_no_win(b, ai, forks, r)
        }),
{
    let forks = fork_moves(b, other(ai));
    let roots = ranked(b, ai, ROOT_CANDIDATE_LIMIT as int, forks);
    let r = ai_choice(b, ai, move_count);
    assert(r == best_root(b, ai, forks, roots, roots[0], -MATE_SCORE * 2));
    let j = lemma_best_root(b, ai, forks, roots, roots[0], -MATE_SCORE * 2);
    let m0 = roots[0];
    lemma_reply_value_cut(placed(b, m0.0 as int, m0.1 as int, ai), ai, 0, forks);
    assert(root_value(b, ai, forks, roots[0]) > -MATE_SCORE * 2);
    assert forall|m: Pos| roots.contains(m) implies #[trigger] root_value(b, ai, forks, m)
        <= root_value(b, ai, forks, r) by {
        let k = choose|k: int| 0 <= k < roots.len() && roots[k] == m;
        assert(root_value(b, ai, forks, roots[k]) <= root_value(b, ai, forks, r));
    }
    if exists|m: Pos| roots.contains(m) && #[trigger] leaves_no_win(b, ai, forks, m) {
        let m = choose|m: Pos| roots.contains(m) && #[trigger] leaves_no_win(b, ai, forks, m);
        lemma_root_value_safe(b, ai, forks, m);
        lemma_root_value_safe(b, ai, forks, r);
        assert(root_value(b, ai, forks, m) <= root_value(b, ai, forks, r));
    }
}

/// When some move of `required` is a candidate, the ranked moves are not empty.
proof fn lemma_ranked_first(b: Board, p: Cell, limit: int, required: Seq<Pos>)
    requires
        required.len() > 0,
        candidates(b).contains(required[0]),
    ensures
        ranked(b, p, limit, required).len() > 0,
{
    assert(required.contains(required[0]));
    lemma_ranked_keeps_required(b, p, limit, required, required[0]);
}

/// With room for one move or more, some move is ranked whenever there is a candidate.
pub proof fn lemma_ranked_nonempty(b: Board, p: Cell, limit: int, required: Seq<Pos>)
    requires
        limit >= 1,
        candidates(b).len() > 0,
    ensures
        ranked(b, p, limit, required).len() > 0,
{
    let c = candidates(b);
    let m = c[0];
    assert(c.contains(m));
    if required.contains(m) {
        lemma_ranked_keeps_required(b, p, limit, required, m);
    } else {
        lemma_ranking_has_candidates(b, p, m);
        let order = ranking(b, p);
        let j = choose|j: int| 0 <= j < order.len() && order[j] == m;
        order.lemma_filter_contains(out_pred(required), j);
    }
}

/// Facts about the moves that `winning_moves` and `fork_moves` produce.
proof fn lemma_tactical_moves_are_candidates(b: Board, p: Cell)
    ensures
        winning_moves(b, p).len() > 0 ==> candidates(b).contains(winning_moves(b, p)[0]),
        fork_moves(b, p).len() > 0 ==> candidates(b).contains(fork_moves(b, p)[0]),
{
    lemma_filter_subset(candidates(b), wins_pred(b, p));
    lemma_filter_subset(candidates(b), fork_pred(b, p));
}

/// Whether some intersection of `b` is empty.
pub open spec fn has_empty(b: Board) -> bool {
    exists|x: int, y: int| on_board(x, y) && #[trigger] b[y][x] == Cell::Empty
}

/// Between a stone and an empty intersection there is a candidate move: walking from the stone
/// towards the empty intersection, the first empty one met is next to a stone.
proof fn lemma_candidate_between(b: Board, sx: int, sy: int, ex: int, ey: int) -> (c: (int, int))
    requires
        on_board(sx, sy),
        on_board(ex, ey),
        b[sy][sx] != Cell::Empty,
        b[ey][ex] == Cell::Empty,
    ensures
        on_board(c.0, c.1),
        is_candidate(b, c.0, c.1),
    decreases abs(sx - ex) + abs(sy - ey),
{
    let nx = if sx < ex {
        sx + 1
    } else if sx > ex {
        sx - 1
    } else {
        sx
    };
    let ny = if sx != ex {
        sy
    } else if sy < ey {
        sy + 1
    } else {
        sy - 1
    };
    if b[ny][nx] == Cell::Empty {
        assert(stone_near(b, nx, ny, sx - nx, sy - ny));
        (nx, ny)
    } else {
        lemma_candidate_between(b, nx, ny, ex, ey)
    }
}

/// A candidate among the first `n` intersections in reading order is found by the scan.
proof fn lemma_candidates_upto_nonempty(b: Board, n: nat, k: int)
    requires
        0 <= k < n <= BOARD * BOARD,
        is_candidate(b, nth_point(k).0 as int, nth_point(k).1 as int),
    ensures
        candidates_upto(b, n).len() > 0,
    decreases n,
{
    if k < n - 1 {
        lemma_candidates_upto_nonempty(b, (n - 1) as nat, k);
    }
}

/// On a board with an empty intersection there is always a candidate move.
pub proof fn lemma_candidates_nonempty(b: Board)
    requires
        has_empty(b),
    ensures
        candidates(b).len() > 0,
{
    let c7 = CENTER as int;
    if b[c7][c7] != Cell::Empty {
        let (ex, ey) = choose|x: int, y: int| on_board(x, y) && #[trigger] b[y][x] == Cell::Empty;
        let c = lemma_candidate_between(b, c7, c7, ex, ey);
        let k = c.1 * (BOARD as int) + c.0;
        assert(0 <= k < BOARD * BOARD && k % (BOARD as int) == c.0 && k / (BOARD as int) == c.1)
            by (nonlinear_arith)
            requires
                0 <= c.0 < 15,
                0 <= c.1 < 15,
                k == c.1 * 15 + c.0,
        ;
        lemma_candidates_upto_nonempty(b, (BOARD * BOARD) as nat, k);
    }
}

/// Every double threat of the opponent is among the root moves that the search looks at, however
/// many other moves it leaves out.
pub proof fn lemma_opponent_forks_are_searched(b: Board, ai: Cell, m: Pos)
    requires
        fork_moves(b, other(ai)).contains(m),
    ensures
        ranked(b, ai, ROOT_CANDIDATE_LIMIT as int, fork_moves(b, other(ai))).contains(m),
{
    let f = fork_moves(b, other(ai));
    lemma_filter_subset(candidates(b), fork_pred(b, other(ai)));
    let i = choose|i: int| 0 <= i < f.len() && f[i] == m;
    assert(candidates(b).contains(f[i]));
    lemma_ranked_keeps_required(b, ai, ROOT_CANDIDATE_LIMIT as int, f, m);
}

/// The moves ranked with no room for others are moves of `required`.
pub proof fn lemma_ranked_required_only(b: Board, p: Cell, required: Seq<Pos>)
    ensures
        forall|i: int|
            0 <= i < ranked(b, p, 0, required).len() ==> required.contains(
                #[trigger] ranked(b, p, 0, required)[i],
            ),
{
    let order = ranking(b, p);
    lemma_filter_subset(order, in_pred(required));
    let head = order.filter(in_pred(required));
    let r = ranked(b, p, 0, required);
    assert(r =~= head);
}

/// The move chosen by the computer player `ai`, which has made `move_count` moves so far.
///
/// After the opening move it is always a free intersection when there is one. It wins at once
/// when it can; failing that, it blocks a move with which the opponent would win at once;
/// failing that, it makes a double threat when it can; failing that, it blocks the opponent's
/// double threat when there is only one.
pub fn ai_move(board: &Board, ai: Cell, move_count: usize) -> (r: Pos)
    ensures
        r == ai_choice(*board, ai, move_count as int),
        r.0 < BOARD && r.1 < BOARD,
        move_count > 0 && has_empty(*board) ==> is_free(*board, r),
        move_count > 0 && winning_moves(*board, ai).len() > 0 ==> winning_moves(
            *board,
            ai,
        ).contains(r),
        move_count > 0 && winning_moves(*board, ai).len() == 0 && winning_moves(
            *board,
            other(ai),
        ).len() > 0 ==> winning_moves(*board, other(ai)).contains(r),
        move_count > 0 && winning_moves(*board, ai).len() == 0 && winning_moves(
            *board,
            other(ai),
        ).len() == 0 && fork_moves(*board, ai).len() > 0 ==> fork_moves(*board, ai).contains(r),
        move_count > 0 && winning_moves(*board, ai).len() == 0 && winning_moves(
            *board,
            other(ai),
        ).len() == 0 && fork_moves(*board, ai).len() == 0 && fork_moves(*board, other(ai)).len()
            == 1 ==> r == fork_moves(*board, other(ai))[0],
{
    let ghost b = *board;
    proof {
        if has_empty(b) {
            lemma_candidates_nonempty(b);
        }
    }
    if move_count == 0 {
        return (CENTER, CENTER);
    }
    let human = opponent(ai);
    proof {
        lemma_tactical_moves_are_candidates(b, ai);
        lemma_tactical_moves_are_candidates(b, human);
    }
    let ai_wins = immediate_winning_moves(board, ai);
    if ai_wins.len() > 0 {
        let ranked = ranked_moves(board, ai, 0, ai_wins.as_slice());
        proof {
            lemma_ranked_first(b, ai, 0, ai_wins@);
            lemma_ranked_required_only(b, ai, ai_wins@);
            assert(ranked@.contains(ranked@[0]));
        }
        return ranked[0];
    }
    let human_wins = immediate_winning_moves(board, human);
    if human_wins.len() > 0 {
        let ranked = ranked_moves(board, ai, 0, human_wins.as_slice());
        proof {
            lemma_ranked_first(b, ai, 0, human_wins@);
            lemma_ranked_required_only(b, ai, human_wins@);
            assert(ranked@.contains(ranked@[0]));
        }
        return ranked[0];
    }
    let ai_forks = double_threat_moves(board, ai);
    if ai_forks.len() > 0 {
        let ranked = ranked_moves(board, ai, 0, ai_forks.as_slice());
        proof {
            lemma_ranked_first(b, ai, 0, ai_forks@);
            lemma_ranked_required_only(b, ai, ai_forks@);
            assert(ranked@.contains(ranked@[0]));
        }
        return ranked[0];
    }
    let human_forks = double_threat_moves(board, human);
    if human_forks.len() == 1 {
        proof {
            assert(human_forks@.contains(human_forks@[0]));
            lemma_filter_subset(candidates(b), fork_pred(b, human));
            lemma_candidates_free(b);
        }
        return human_forks[0];
    }
    let roots = ranked_moves(board, ai, ROOT_CANDIDATE_LIMIT, human_forks.as_slice());
    if roots.len() == 0 {
        proof {
            if candidates(b).len() > 0 {
                lemma_ranked_nonempty(b, ai, ROOT_CANDIDATE_LIMIT as int, human_forks@);
            }
        }
        return (CENTER, CENTER);
    }
    let mut best = roots[0];
    let mut best_score: i64 = -MATE_SCORE * 2;
    let mut i: usize = 0;
    assert(roots@.skip(0) =~= roots@);
    while i < roots.len()
        invariant
            b == *board,
            roots@ == ranked(b, ai, ROOT_CANDIDATE_LIMIT as int, human_forks@),
            roots@.len() > 0,
            forall|j: int| 0 <= j < roots@.len() ==> is_free(b, #[trigger] roots@[j]),
            is_free(b, best),
            i <= roots@.len(),
            -MATE_SCORE * 2 <= best_score <= MATE_SCORE * 2,
            best_root(b, ai, human_forks@, roots@, roots@[0], -MATE_SCORE * 2) == best_root(
                b,
                ai,
                human_forks@,
                roots@.skip(i as int),
                best,
                best_score as int,
            ),
        decreases roots@.len() - i,
    {
        let (x, y) = roots[i];
        let mut next = *board;
        put(&mut next, x, y, ai);
        let score = reply_score(&next, ai, best_score, human_forks.as_slice());
        proof {
            assert(roots@.skip(i as int)[0] == roots@[i as int]);
            assert(roots@.skip(i as int).drop_first() =~= roots@.skip(i + 1));
        }
        if score > best_score {
            best_score = score;
            best = (x, y);
        }
        i += 1;
    }
    best
}

/// The moves offered to the language model playing `ai`: the center to open; else its winning
/// moves; else the blocks of its opponent's winning moves; else its double threats; else the
/// searched root moves (the opponent's double threats first). Each group is best-ranked first.
pub open spec fn llm_choices(b: Board, ai: Cell, move_count: int) -> Seq<Pos> {
    let human = other(ai);
    let ai_wins = winning_moves(b, ai);
    let human_wins = winning_moves(b, human);
    let ai_forks = fork_moves(b, ai);
    if move_count == 0 {
        seq![(CENTER, CENTER)]
    } else if ai_wins.len() > 0 {
        ranked(b, ai, 0, ai_wins)
    } else if human_wins.len() > 0 {
        ranked(b, ai, 0, human_wins)
    } else if ai_forks.len() > 0 {
        ranked(b, ai, 0, ai_forks)
    } else {
        ranked(b, ai, ROOT_CANDIDATE_LIMIT as int, fork_moves(b, human))
    }
}

/// The legal moves among which the language model playing `ai` has to choose, as the tactical
/// engine filters them: forced moves only when there are any.
pub fn llm_candidate_moves(board: &Board, ai: Cell, move_count: usize) -> (r: Vec<Pos>)
    ensures
        r@ == llm_choices(*board, ai, move_count as int),
        move_count > 0 ==> forall|i: int| 0 <= i < r@.len() ==> is_free(*board, #[trigger] r@[i]),
{
    if move_count == 0 {
        let mut only = Vec::new();
        only.push((CENTER, CENTER));
        return only;
    }
    let human = opponent(ai);
    let ai_wins = immediate_winning_moves(board, ai);
    if ai_wins.len() > 0 {
        return ranked_moves(board, ai, 0, ai_wins.as_slice());
    }
    let human_wins = immediate_winning_moves(board, human);
    if human_wins.len() > 0 {
        return ranked_moves(board, ai, 0, human_wins.as_slice());
    }
    let ai_forks = double_threat_moves(board, ai);
    if ai_forks.len() > 0 {
        return ranked_moves(board, ai, 0, ai_forks.as_slice());
    }
    let human_forks = double_threat_moves(board, human);
    ranked_moves(board, ai, ROOT_CANDIDATE_LIMIT, human_forks.as_slice())
}

} // verus!
