//! The board, its intersections, and the lines of stones drawn through them.
use vstd::prelude::*;

verus! {

/// What stands on one intersection.
#[derive(Clone, Copy, Debug, PartialEq, Eq, Structural)]
pub enum Cell {
    Empty,
    Black,
    White,
}

/// Number of lines in each direction.
pub const BOARD: usize = 15;

/// Index of the middle line.
pub const CENTER: usize = 7;

/// A position: `board[y][x]` is the intersection in column `x` of row `y`.
pub type Board = [[Cell; BOARD]; BOARD];

/// An intersection, as `(x, y)`.
pub type Pos = (usize, usize);

pub open spec fn on_board(x: int, y: int) -> bool {
    0 <= x < BOARD && 0 <= y < BOARD
}

/// The board with `c` put on `(x, y)`.
pub open spec fn placed(b: Board, x: int, y: int, c: Cell) -> Board {
    vstd::array::spec_array_update(b, y, vstd::array::spec_array_update(b[y], x, c))
}

pub open spec fn other(c: Cell) -> Cell {
    match c {
        Cell::Black => Cell::White,
        Cell::White => Cell::Black,
        Cell::Empty => Cell::Empty,
    }
}

/// Swapping colors twice gives the color back.
pub proof fn lemma_other_involution(c: Cell)
    ensures
        other(other(c)) == c,
{
}

/// Whether `(x, y)` is an intersection of the board.
pub fn in_board(x: i32, y: i32) -> (r: bool)
    ensures
        r == on_board(x as int, y as int),
{
    0 <= x && x < 15 && 0 <= y && y < 15
}

/// The other player's color; an empty intersection stays empty.
pub fn opponent(c: Cell) -> (r: Cell)
    ensures
        r == other(c),
{
    match c {
        Cell::Black => Cell::White,
        Cell::White => Cell::Black,
        Cell::Empty => Cell::Empty,
    }
}

/// Puts `c` on `(x, y)`.
pub fn put(board: &mut Board, x: usize, y: usize, c: Cell)
    requires
        x < BOARD,
        y < BOARD,
    ensures
        *final(board) == placed(*old(board), x as int, y as int, c),
{
    let mut row = board[y];
    row[x] = c;
    board[y] = row;
    assert(*board =~= placed(*old(board), x as int, y as int, c));
}


/// One of the eight unit steps.
pub open spec fn is_dir(dx: int, dy: int) -> bool {
    -1 <= dx <= 1 && -1 <= dy <= 1 && !(dx == 0 && dy == 0)
}

/// `v` moved `n` unit steps along the signed direction `d`.
pub open spec fn step(v: int, n: int, d: int) -> int {
    if d > 0 {
        v + n
    } else if d < 0 {
        v - n
    } else {
        v
    }
}

/// Number of consecutive `p` stones met walking from `(x, y)` along `(dx, dy)`, not counting
/// `(x, y)` itself, looking at most `fuel` intersections ahead.
pub open spec fn run_from(b: Board, x: int, y: int, dx: int, dy: int, p: Cell, fuel: nat) -> nat
    decreases fuel,
{
    if fuel == 0 {
        0
    } else if on_board(x + dx, y + dy) && b[y + dy][x + dx] == p {
        1 + run_from(b, x + dx, y + dy, dx, dy, p, (fuel - 1) as nat)
    } else {
        0
    }
}

/// The run of `p` stones next to `(x, y)` along `(dx, dy)`; a run never covers more than the
/// width of the board.
pub open spec fn run(b: Board, x: int, y: int, dx: int, dy: int, p: Cell) -> nat {
    run_from(b, x, y, dx, dy, p, BOARD as nat)
}

/// Whether the intersection just past that run is on the board and empty.
pub open spec fn open_end(b: Board, x: int, y: int, dx: int, dy: int, p: Cell) -> bool {
    let n = run(b, x, y, dx, dy, p) + 1int;
    on_board(step(x, n, dx), step(y, n, dy)) && b[step(y, n, dy)][step(x, n, dx)] == Cell::Empty
}

/// Coordinates that stay within an `i32` two steps away in any direction.
pub open spec fn walkable(x: int, y: int) -> bool {
    0 <= x <= i32::MAX - 2 && 0 <= y <= i32::MAX - 2
}

/// Walks from `(x, y)` along `(dx, dy)` over the `p` stones: returns their number and whether
/// the walk stops on an empty intersection of the board.
pub fn scan(board: &Board, x: usize, y: usize, dx: i32, dy: i32, p: Cell) -> (res: (u32, bool))
    requires
        walkable(x as int, y as int),
        is_dir(dx as int, dy as int),
    ensures
        res.0 == run(*board, x as int, y as int, dx as int, dy as int, p),
        res.1 == open_end(*board, x as int, y as int, dx as int, dy as int, p),
        res.0 <= BOARD,
{
    let ghost b = *board;
    let mut cx: i32 = x as i32 + dx;
    let mut cy: i32 = y as i32 + dy;
    let mut n: u32 = 0;
    while in_board(cx, cy) && board[cy as usize][cx as usize] == p
        invariant
            walkable(x as int, y as int),
            b == *board,
            is_dir(dx as int, dy as int),
            n <= BOARD,
            n > 0 ==> on_board(step(x as int, 1, dx as int), step(y as int, 1, dy as int)),
            n > 0 ==> on_board(step(x as int, n as int, dx as int), step(y as int, n as int, dy as int)),
            cx == step(x as int, n + 1, dx as int),
            cy == step(y as int, n + 1, dy as int),
            run(b, x as int, y as int, dx as int, dy as int, p) == n + run_from(
                b,
                step(x as int, n as int, dx as int),
                step(y as int, n as int, dy as int),
                dx as int,
                dy as int,
                p,
                (BOARD - n) as nat,
            ),
        decreases BOARD - n,
    {
        n += 1;
        cx += dx;
        cy += dy;
    }
    let open = in_board(cx, cy) && board[cy as usize][cx as usize] == Cell::Empty;
    (n, open)
}

/// Horizontal part of the `k`-th axis: rows, columns, and the two diagonals.
pub open spec fn dir_x(k: int) -> int {
    if k == 1 {
        0
    } else {
        1
    }
}

/// Vertical part of the `k`-th axis.
pub open spec fn dir_y(k: int) -> int {
    if k == 0 {
        0
    } else if k == 3 {
        -1
    } else {
        1
    }
}

/// The unit step of the `k`-th of the four axes.
pub fn direction(k: usize) -> (r: (i32, i32))
    requires
        k < 4,
    ensures
        r.0 == dir_x(k as int),
        r.1 == dir_y(k as int),
        is_dir(r.0 as int, r.1 as int),
{
    if k == 0 {
        (1, 0)
    } else if k == 1 {
        (0, 1)
    } else if k == 2 {
        (1, 1)
    } else {
        (1, -1)
    }
}

/// Length of the unbroken line of `p` stones through `(x, y)` along axis `k`, counting
/// `(x, y)` as one of them.
pub open spec fn axis_count(b: Board, x: int, y: int, k: int, p: Cell) -> int {
    1int + run(b, x, y, dir_x(k), dir_y(k), p) + run(b, x, y, -dir_x(k), -dir_y(k), p)
}

/// The intersections of the line through the stone on `(x, y)` along axis `k`, from one end to
/// the other.
pub open spec fn axis_line(b: Board, x: int, y: int, k: int) -> Seq<Pos> {
    let p = b[y][x];
    let back = run(b, x, y, -dir_x(k), -dir_y(k), p) as int;
    Seq::new(
        axis_count(b, x, y, k, p) as nat,
        |i: int| (step(x, i - back, dir_x(k)) as usize, step(y, i - back, dir_y(k)) as usize),
    )
}

/// The first axis, from the `k`-th on, along which the stone on `(x, y)` has five or more in a row.
pub open spec fn five_from(b: Board, x: int, y: int, k: int) -> Option<Seq<Pos>>
    decreases 4 - k,
{
    if k >= 4 {
        None
    } else if axis_count(b, x, y, k, b[y][x]) >= 5 {
        Some(axis_line(b, x, y, k))
    } else {
        five_from(b, x, y, k + 1)
    }
}

/// The line of five or more that the stone on `(x, y)` completes, if any; axes are tried in the
/// order row, column, diagonal, anti-diagonal.
pub open spec fn five_line(b: Board, x: int, y: int) -> Option<Seq<Pos>> {
    if !on_board(x, y) || b[y][x] == Cell::Empty {
        None
    } else {
        five_from(b, x, y, 0)
    }
}

/// Every intersection of a run holds the run's color.
pub proof fn lemma_run_cells(b: Board, x: int, y: int, dx: int, dy: int, p: Cell, fuel: nat, j: int)
    requires
        is_dir(dx, dy),
        1 <= j <= run_from(b, x, y, dx, dy, p, fuel),
    ensures
        on_board(step(x, j, dx), step(y, j, dy)),
        b[step(y, j, dy)][step(x, j, dx)] == p,
    decreases fuel,
{
    if j > 1 {
        lemma_run_cells(b, x + dx, y + dy, dx, dy, p, (fuel - 1) as nat, j - 1);
    }
}

/// A run stops at the first intersection past it that is off the board or does not hold `p`,
/// unless it used up all the intersections it may look at.
pub proof fn lemma_run_stops(b: Board, x: int, y: int, dx: int, dy: int, p: Cell, fuel: nat)
    requires
        is_dir(dx, dy),
        run_from(b, x, y, dx, dy, p, fuel) < fuel,
    ensures
        ({
            let n = run_from(b, x, y, dx, dy, p, fuel) + 1int;
            !(on_board(step(x, n, dx), step(y, n, dy)) && b[step(y, n, dy)][step(x, n, dx)] == p)
        }),
    decreases fuel,
{
    if on_board(x + dx, y + dy) && b[y + dy][x + dx] == p {
        lemma_run_stops(b, x + dx, y + dy, dx, dy, p, (fuel - 1) as nat);
    }
}

/// The intersections of `axis_line` are on the board and hold the stone of `(x, y)`.
pub proof fn lemma_axis_line_cells(b: Board, x: int, y: int, k: int, i: int)
    requires
        on_board(x, y),
        0 <= k < 4,
        0 <= i < axis_count(b, x, y, k, b[y][x]),
    ensures
        on_board(
            step(x, i - run(b, x, y, -dir_x(k), -dir_y(k), b[y][x]), dir_x(k)),
            step(y, i - run(b, x, y, -dir_x(k), -dir_y(k), b[y][x]), dir_y(k)),
        ),
        b[step(y, i - run(b, x, y, -dir_x(k), -dir_y(k), b[y][x]), dir_y(k))][step(
            x,
            i - run(b, x, y, -dir_x(k), -dir_y(k), b[y][x]),
            dir_x(k),
        )] == b[y][x],
{
    let p = b[y][x];
    let back = run(b, x, y, -dir_x(k), -dir_y(k), p) as int;
    if i < back {
        lemma_run_cells(b, x, y, -dir_x(k), -dir_y(k), p, BOARD as nat, back - i);
    } else if i > back {
        lemma_run_cells(b, x, y, dir_x(k), dir_y(k), p, BOARD as nat, i - back);
    }
}

/// A line that `five_line` finds has five or more intersections, all on the board and all holding
/// the stone of `(x, y)`, and passes through `(x, y)`.
pub proof fn lemma_five_line_sound(b: Board, x: int, y: int)
    requires
        five_line(b, x, y) is Some,
    ensures
        ({
            let l = five_line(b, x, y)->0;
            &&& l.len() >= 5
            &&& l.contains((x as usize, y as usize))
            &&& forall|i: int|
                0 <= i < l.len() ==> on_board(#[trigger] l[i].0 as int, l[i].1 as int)
                    && b[l[i].1 as int][l[i].0 as int] == b[y][x]
        }),
{
    reveal_with_fuel(five_from, 5);
    let k = if axis_count(b, x, y, 0, b[y][x]) >= 5 {
        0
    } else if axis_count(b, x, y, 1, b[y][x]) >= 5 {
        1
    } else if axis_count(b, x, y, 2, b[y][x]) >= 5 {
        2
    } else {
        3
    };
    let l = axis_line(b, x, y, k);
    assert(five_line(b, x, y) == Some(l));
    let back = run(b, x, y, -dir_x(k), -dir_y(k), b[y][x]) as int;
    assert forall|i: int| 0 <= i < l.len() implies on_board(#[trigger] l[i].0 as int, l[i].1 as int)
        && b[l[i].1 as int][l[i].0 as int] == b[y][x] by {
        lemma_axis_line_cells(b, x, y, k, i);
    }
    assert(l[back] == (x as usize, y as usize));
}

/// `five_line` finds a line exactly when the stone on `(x, y)` has five or more in a row along
/// one of the four axes: the row `(1, 0)`, the column `(0, 1)`, the diagonal `(1, 1)` or the
/// anti-diagonal `(1, -1)`, counting the runs on both sides of it.
pub proof fn lemma_five_line_axes(b: Board, x: int, y: int)
    requires
        on_board(x, y),
    ensures
        ({
            let c = b[y][x];
            five_line(b, x, y) is Some <==> (c != Cell::Empty && (1 + run(b, x, y, 1, 0, c) + run(
                b,
                x,
                y,
                -1,
                0,
                c,
            ) >= 5 || 1 + run(b, x, y, 0, 1, c) + run(b, x, y, 0, -1, c) >= 5 || 1 + run(
                b,
                x,
                y,
                1,
                1,
                c,
            ) + run(b, x, y, -1, -1, c) >= 5 || 1 + run(b, x, y, 1, -1, c) + run(b, x, y, -1, 1, c)
                >= 5))
        }),
{
    reveal_with_fuel(five_from, 5);
}

/// The line of five or more stones through `(x, y)`, if the stone there has one.
pub fn winning_line(board: &Board, x: usize, y: usize) -> (res: Option<Vec<Pos>>)
    ensures
        match res {
            Some(v) => five_line(*board, x as int, y as int) == Some(v@),
            None => five_line(*board, x as int, y as int) is None,
        },
{
    if x >= BOARD || y >= BOARD {
        return None;
    }
    let p = board[y][x];
    if p == Cell::Empty {
        return None;
    }
    let ghost b = *board;
    let mut k: usize = 0;
    while k < 4
        invariant
            x < BOARD,
            y < BOARD,
            b == *board,
            p == b[y as int][x as int],
            p != Cell::Empty,
            k <= 4,
            five_line(b, x as int, y as int) == five_from(b, x as int, y as int, k as int),
        decreases 4 - k,
    {
        let (dx, dy) = direction(k);
        let (fwd, _) = scan(board, x, y, dx, dy, p);
        let (back, _) = scan(board, x, y, -dx, -dy, p);
        let count = 1 + fwd + back;
        if count >= 5 {
            let ghost line = axis_line(b, x as int, y as int, k as int);
            let mut cx: i32 = if dx > 0 {
                x as i32 - back as i32
            } else if dx < 0 {
                x as i32 + back as i32
            } else {
                x as i32
            };
            let mut cy: i32 = if dy > 0 {
                y as i32 - back as i32
            } else if dy < 0 {
                y as i32 + back as i32
            } else {
                y as i32
            };
            let mut v: Vec<Pos> = Vec::new();
            let mut i: u32 = 0;
            while i < count
                invariant
                    x < BOARD,
                    y < BOARD,
                    k < 4,
                    b == *board,
                    p == b[y as int][x as int],
                    dx == dir_x(k as int),
                    dy == dir_y(k as int),
                    back == run(b, x as int, y as int, -dir_x(k as int), -dir_y(k as int), p),
                    count == axis_count(b, x as int, y as int, k as int, p),
                    count < 3 * BOARD,
                    i <= count,
                    line == axis_line(b, x as int, y as int, k as int),
                    cx == step(x as int, i - back, dx as int),
                    cy == step(y as int, i - back, dy as int),
                    v@ == line.take(i as int),
                decreases count - i,
            {
                proof {
                    lemma_axis_line_cells(b, x as int, y as int, k as int, i as int);
                }
                v.push((cx as usize, cy as usize));
                proof {
                    assert(v@ =~= line.take(i + 1));
                }
                i += 1;
                cx += dx;
                cy += dy;
            }
            proof {
                assert(v@ =~= line);
            }
            return Some(v);
        }
        k += 1;
    }
    None
}

} // verus!
