//! A game in progress: whose turn it is, the moves made, the result, and taking moves back.
use vstd::prelude::*;
use crate::board::{
    five_line, on_board, opponent, other, placed, put, winning_line, Board, Cell, Pos, BOARD,
};

verus! {

/// Who plays black and white.
#[derive(Clone, Copy, Debug, PartialEq, Eq, Structural)]
pub enum Mode {
    /// A person plays black, the computer white.
    HumanVsAi,
    /// Two people share the board.
    HumanVsHuman,
}

/// Where the game stands.
#[derive(Clone, Copy, Debug, PartialEq, Eq, Structural)]
pub enum Status {
    Playing,
    /// Won by the given color.
    Won(Cell),
    /// The board filled up without five in a row.
    Draw,
}

/// What the computer player is to do next.
#[derive(Clone, Copy, Debug, PartialEq, Eq, Structural)]
pub enum AiStep {
    /// Nothing: not its turn, or a reply is already on its way.
    Idle,
    /// Ask the language model for a move.
    AskModel,
    /// Play the move of the tactical engine.
    PlayEngine,
}

/// A game of gomoku. Black moves first.
pub struct Game {
    pub board: Board,
    /// The color to move, or the winner's once the game is won.
    pub turn: Cell,
    pub status: Status,
    /// The moves made, oldest first.
    pub history: Vec<Pos>,
    /// The five (or more) in a row that won the game; empty before.
    pub win_line: Vec<Pos>,
    pub mode: Mode,
    /// Set while the computer player works on its reply.
    pub ai_thinking: bool,
}

/// The contents of a game.
pub struct GameView {
    pub board: Board,
    pub turn: Cell,
    pub status: Status,
    pub history: Seq<Pos>,
    pub win_line: Seq<Pos>,
    pub mode: Mode,
    pub ai_thinking: bool,
}

impl View for Game {
    type V = GameView;

    open spec fn view(&self) -> GameView {
        GameView {
            board: self.board,
            turn: self.turn,
            status: self.status,
            history: self.history@,
            win_line: self.win_line@,
            mode: self.mode,
            ai_thinking: self.ai_thinking,
        }
    }
}

/// The color that makes the `i`-th move (counting from zero).
pub open spec fn mover(i: int) -> Cell {
    if i % 2 == 0 {
        Cell::Black
    } else {
        Cell::White
    }
}

/// The stone that the moves `h` leave on `(x, y)`.
pub open spec fn stone_of(h: Seq<Pos>, x: int, y: int) -> Cell
    decreases h.len(),
{
    if h.len() == 0 {
        Cell::Empty
    } else if h.last().0 == x && h.last().1 == y {
        mover(h.len() - 1)
    } else {
        stone_of(h.drop_last(), x, y)
    }
}

/// Whether every intersection of `b` is empty.
pub open spec fn is_empty_board(b: Board) -> bool {
    forall|x: int, y: int| on_board(x, y) ==> #[trigger] b[y][x] == Cell::Empty
}

impl GameView {
    /// The invariant of a game: the board holds exactly the stones of the moves made, each move on
    /// a distinct intersection, colors alternating from black; the player to move is the next in
    /// turn, unless the game is won, when it is the winner, who made the last move and whose five
    /// in a row through it is recorded.
    pub open spec fn wf(self) -> bool {
        &&& forall|i: int|
            0 <= i < self.history.len() ==> #[trigger] self.history[i].0 < BOARD
                && self.history[i].1 < BOARD
        &&& forall|i: int, j: int|
            0 <= i < j < self.history.len() ==> #[trigger] self.history[i] != #[trigger] self.history[j]
        &&& forall|x: int, y: int|
            on_board(x, y) ==> #[trigger] self.board[y][x] == stone_of(self.history, x, y)
        &&& match self.status {
            Status::Won(c) => {
                &&& self.history.len() > 0
                &&& self.turn == c
                &&& c == mover(self.history.len() - 1)
                &&& five_line(self.board, self.history.last().0 as int, self.history.last().1 as int)
                    == Some(self.win_line)
            },
            _ => {
                &&& self.turn == mover(self.history.len() as int)
                &&& self.win_line.len() == 0
            },
        }
        &&& self.status == Status::Draw ==> self.history.len() == BOARD * BOARD
    }

    /// Whether the player to move may play on `(x, y)`.
    pub open spec fn can_place(self, x: int, y: int) -> bool {
        self.status == Status::Playing && on_board(x, y) && self.board[y][x] == Cell::Empty
    }

    /// The game after the player to move plays on `(x, y)`; unchanged when the move is refused.
    /// Five or more in a row wins (the winner stays the one to move); a full board without it is a
    /// draw.
    pub open spec fn after_place(self, x: int, y: int) -> GameView {
        if !self.can_place(x, y) {
            self
        } else {
            let board = placed(self.board, x, y, self.turn);
            let history = self.history.push((x as usize, y as usize));
            match five_line(board, x, y) {
                Some(line) => GameView {
                    board,
                    turn: self.turn,
                    status: Status::Won(self.turn),
                    history,
                    win_line: line,
                    mode: self.mode,
                    ai_thinking: self.ai_thinking,
                },
                None => GameView {
                    board,
                    turn: other(self.turn),
                    status: if history.len() == BOARD * BOARD {
                        Status::Draw
                    } else {
                        Status::Playing
                    },
                    history,
                    win_line: self.win_line,
                    mode: self.mode,
                    ai_thinking: self.ai_thinking,
                },
            }
        }
    }

    /// The game with its last move taken off the board; its color is the one to move.
    pub open spec fn take_back(self) -> GameView {
        let m = self.history.last();
        GameView {
            board: placed(self.board, m.0 as int, m.1 as int, Cell::Empty),
            turn: self.board[m.1 as int][m.0 as int],
            history: self.history.drop_last(),
            ..self
        }
    }

    /// Whether taking back the last move leaves a computer move before it to take back too.
    pub open spec fn undoes_round(self) -> bool {
        let m = self.history.last();
        &&& self.mode == Mode::HumanVsAi
        &&& self.board[m.1 as int][m.0 as int] == Cell::White
        &&& self.history.len() >= 2
    }

    /// The game after an undo: with no move made, only the computer player stops thinking.
    /// Otherwise the last move is taken back, and, against the computer, when that was the
    /// computer's move, the player's move before it too; the game is then in play again.
    pub open spec fn after_undo(self) -> GameView {
        if self.history.len() == 0 {
            GameView { ai_thinking: false, ..self }
        } else {
            let once = self.take_back();
            let back = if self.undoes_round() {
                once.take_back()
            } else {
                once
            };
            GameView { status: Status::Playing, win_line: Seq::empty(), ai_thinking: false, ..back }
        }
    }
}


/// A move in the history leaves a stone.
proof fn lemma_stone_of_history(h: Seq<Pos>, i: int)
    requires
        0 <= i < h.len(),
    ensures
        stone_of(h, h[i].0 as int, h[i].1 as int) != Cell::Empty,
    decreases h.len(),
{
    if i < h.len() - 1 && !(h.last().0 == h[i].0 && h.last().1 == h[i].1) {
        assert(h.drop_last()[i] == h[i]);
        lemma_stone_of_history(h.drop_last(), i);
    }
}

/// An intersection that no move of the history names stays empty.
proof fn lemma_stone_of_absent(h: Seq<Pos>, x: int, y: int)
    requires
        forall|i: int| 0 <= i < h.len() ==> !(h[i].0 == x && h[i].1 == y),
    ensures
        stone_of(h, x, y) == Cell::Empty,
    decreases h.len(),
{
    if h.len() > 0 {
        assert forall|i: int| 0 <= i < h.drop_last().len() implies !(h.drop_last()[i].0 == x
            && h.drop_last()[i].1 == y) by {
            assert(h.drop_last()[i] == h[i]);
        }
        lemma_stone_of_absent(h.drop_last(), x, y);
    }
}

/// Playing a move keeps the invariant of a game.
pub proof fn lemma_place_wf(v: GameView, x: int, y: int)
    requires
        v.wf(),
    ensures
        v.after_place(x, y).wf(),
{
    if v.can_place(x, y) {
        let w = v.after_place(x, y);
        let h = v.history;
        let h2 = w.history;
        assert(h2.drop_last() =~= h);
        assert forall|i: int| 0 <= i < h.len() implies !(#[trigger] h[i].0 == x && h[i].1 == y) by {
            lemma_stone_of_history(h, i);
        }
        assert forall|i: int, j: int| 0 <= i < j < h2.len() implies #[trigger] h2[i]
            != #[trigger] h2[j] by {
            if j == h.len() {
                assert(h2[i] == h[i]);
                assert(!(h[i].0 == x && h[i].1 == y));
                assert(h2[j] == (x as usize, y as usize));
            } else {
                assert(h2[i] == h[i] && h2[j] == h[j]);
            }
        }
        assert forall|i: int| 0 <= i < h2.len() implies #[trigger] h2[i].0 < BOARD && h2[i].1
            < BOARD by {
            if i < h.len() {
                assert(h2[i] == h[i]);
            }
        }
        assert forall|a: int, c: int| on_board(a, c) implies #[trigger] w.board[c][a] == stone_of(
            h2,
            a,
            c,
        ) by {
            if !(a == x && c == y) {
                assert(v.board[c][a] == stone_of(h, a, c));
            }
        }
    }
}

/// Taking back the last move keeps the invariant, apart from what the status asks for.
proof fn lemma_take_back(v: GameView)
    requires
        v.wf(),
        v.history.len() > 0,
    ensures
        ({
            let w = v.take_back();
            &&& forall|i: int|
                0 <= i < w.history.len() ==> #[trigger] w.history[i].0 < BOARD && w.history[i].1
                    < BOARD
            &&& forall|i: int, j: int|
                0 <= i < j < w.history.len() ==> #[trigger] w.history[i] != #[trigger] w.history[j]
            &&& forall|x: int, y: int|
                on_board(x, y) ==> #[trigger] w.board[y][x] == stone_of(w.history, x, y)
            &&& w.turn == mover(w.history.len() as int)
            &&& w.turn == mover(v.history.len() - 1)
        }),
{
    let h = v.history;
    let m = h.last();
    let w = v.take_back();
    let h2 = w.history;
    assert(h[h.len() - 1] == m);
    assert(v.board[m.1 as int][m.0 as int] == stone_of(h, m.0 as int, m.1 as int));
    assert forall|i: int| 0 <= i < h2.len() implies !(#[trigger] h2[i].0 == m.0 && h2[i].1 == m.1) by {
        assert(h2[i] == h[i]);
        assert(h[i] != h[h.len() - 1]);
    }
    lemma_stone_of_absent(h2, m.0 as int, m.1 as int);
    assert forall|i: int| 0 <= i < h2.len() implies #[trigger] h2[i].0 < BOARD && h2[i].1 < BOARD by {
        assert(h2[i] == h[i]);
    }
    assert forall|i: int, j: int| 0 <= i < j < h2.len() implies #[trigger] h2[i] != #[trigger] h2[j] by {
        assert(h2[i] == h[i] && h2[j] == h[j]);
    }
    assert forall|a: int, c: int| on_board(a, c) implies #[trigger] w.board[c][a] == stone_of(
        h2,
        a,
        c,
    ) by {
        if !(a == m.0 && c == m.1) {
            assert(v.board[c][a] == stone_of(h, a, c));
        }
    }
}

/// Undoing keeps the invariant of a game.
pub proof fn lemma_undo_wf(v: GameView)
    requires
        v.wf(),
    ensures
        v.after_undo().wf(),
{
    if v.history.len() > 0 {
        lemma_take_back(v);
        if v.undoes_round() {
            let once = v.take_back();
            let once_playing = GameView { status: Status::Playing, win_line: Seq::empty(), ..once };
            assert(once_playing.wf());
            lemma_take_back(once_playing);
        }
    }
}

/// Emptying an intersection that a stone was just put on gives the board back.
proof fn lemma_unplace(b: Board, x: int, y: int, c: Cell)
    requires
        on_board(x, y),
        b[y][x] == Cell::Empty,
    ensures
        placed(placed(b, x, y, c), x, y, Cell::Empty) == b,
{
    let r = placed(placed(b, x, y, c), x, y, Cell::Empty);
    assert(r[y] =~= b[y]);
    assert(r =~= b);
}

/// Undo takes back a move just played, and gives back the game as it was, unless it was the
/// computer's move (white, playing the computer), which goes back together with the move before.
pub proof fn lemma_undo_after_place(v: GameView, x: int, y: int)
    requires
        v.wf(),
        v.can_place(x, y),
        !(v.mode == Mode::HumanVsAi && v.turn == Cell::White),
    ensures
        v.after_place(x, y).after_undo() == (GameView { ai_thinking: false, ..v }),
{
    let w = v.after_place(x, y);
    lemma_unplace(v.board, x, y, v.turn);
    assert(w.history.drop_last() =~= v.history);
    assert(w.history.last() == (x as usize, y as usize));
    assert(v.win_line =~= Seq::empty());
    assert(w.after_undo() =~= (GameView { ai_thinking: false, ..v }));
}

/// Playing the computer, undo after the player's move and the computer's reply gives back the
/// game as it was before the player's move.
pub proof fn lemma_undo_round(v: GameView, x1: int, y1: int, x2: int, y2: int)
    requires
        v.wf(),
        v.mode == Mode::HumanVsAi,
        v.turn == Cell::Black,
        v.can_place(x1, y1),
        v.after_place(x1, y1).can_place(x2, y2),
    ensures
        v.after_place(x1, y1).after_place(x2, y2).after_undo() == (GameView {
            ai_thinking: false,
            ..v
        }),
{
    let v1 = v.after_place(x1, y1);
    let v2 = v1.after_place(x2, y2);
    assert(v1.turn == Cell::White);
    assert(v1.board[y1][x1] == Cell::Black);
    lemma_unplace(v.board, x1, y1, Cell::Black);
    lemma_unplace(v1.board, x2, y2, Cell::White);
    assert(v2.history.drop_last() =~= v1.history);
    assert(v1.history.drop_last() =~= v.history);
    assert(v2.history.last() == (x2 as usize, y2 as usize));
    assert(v1.history.last() == (x1 as usize, y1 as usize));
    assert(v2.undoes_round());
    let once = v2.take_back();
    assert(once.board == v1.board);
    assert(once.history == v1.history);
    assert(v.win_line =~= Seq::empty());
    assert(v2.after_undo() =~= (GameView { ai_thinking: false, ..v }));
}

impl GameView {
    /// Whether a person may play now: the game is on, the computer is not thinking, and, playing
    /// the computer, it is black's turn.
    pub open spec fn human_may_play(self) -> bool {
        &&& self.status == Status::Playing
        &&& !self.ai_thinking
        &&& !(self.mode == Mode::HumanVsAi && self.turn == Cell::White)
    }

    /// What the computer player (white) does next: nothing unless it plays this game, the game is
    /// on, it is white's turn, and no reply is awaited (`waiting`) or being computed; then it asks
    /// the language model when one is set up (`has_model`), else plays the engine's move.
    pub open spec fn ai_step(self, waiting: bool, has_model: bool) -> AiStep {
        if self.mode != Mode::HumanVsAi || self.status != Status::Playing || waiting
            || self.turn != Cell::White || self.ai_thinking {
            AiStep::Idle
        } else if has_model {
            AiStep::AskModel
        } else {
            AiStep::PlayEngine
        }
    }
}

/// A legal move that makes five or more in a row through it wins the game for the color that
/// made it, black or white, which stays the one to move, with that line recorded; any other legal
/// move leaves the game undecided by a win and passes the turn.
pub proof fn lemma_place_five_wins(v: GameView, x: int, y: int)
    requires
        v.can_place(x, y),
    ensures
        ({
            let after = v.after_place(x, y);
            let line = five_line(placed(v.board, x, y, v.turn), x, y);
            &&& line is Some ==> after.status == Status::Won(v.turn) && after.turn == v.turn && line
                == Some(after.win_line)
            &&& line is None ==> !(after.status is Won) && after.turn == other(v.turn)
            &&& line is None ==> (after.status == Status::Draw <==> v.history.len() + 1 == BOARD
                * BOARD)
            &&& line is None ==> (after.status == Status::Playing <==> v.history.len() + 1 != BOARD
                * BOARD)
            &&& after.board == placed(v.board, x, y, v.turn)
            &&& after.history == v.history.push((x as usize, y as usize))
        }),
{
}

/// A move that may not be played (the game is over, the intersection is off the board or taken)
/// leaves the game as it was.
pub proof fn lemma_place_refused(v: GameView, x: int, y: int)
    requires
        !v.can_place(x, y),
    ensures
        v.after_place(x, y) == v,
{
}

impl Game {
    /// Whether a person may play now (see `GameView::human_may_play`).
    pub fn human_may_play(&self) -> (r: bool)
        ensures
            r == self@.human_may_play(),
    {
        self.status == Status::Playing && !self.ai_thinking && !(self.mode == Mode::HumanVsAi
            && self.turn == Cell::White)
    }

    /// What the computer player does next (see `GameView::ai_step`).
    pub fn ai_step(&self, waiting: bool, has_model: bool) -> (r: AiStep)
        ensures
            r == self@.ai_step(waiting, has_model),
    {
        if self.mode != Mode::HumanVsAi || self.status != Status::Playing || waiting || self.turn
            != Cell::White || self.ai_thinking {
            AiStep::Idle
        } else if has_model {
            AiStep::AskModel
        } else {
            AiStep::PlayEngine
        }
    }

    /// A new game on an empty board, black to move.
    pub fn new(mode: Mode) -> (g: Game)
        ensures
            is_empty_board(g.board),
            g.turn == Cell::Black,
            g.status == Status::Playing,
            g@.history.len() == 0,
            g@.win_line.len() == 0,
            g.mode == mode,
            !g.ai_thinking,
            g@.wf(),
    {
        let g = Game {
            board: [[Cell::Empty; BOARD]; BOARD],
            turn: Cell::Black,
            status: Status::Playing,
            history: Vec::new(),
            win_line: Vec::new(),
            mode,
            ai_thinking: false,
        };
        assert forall|x: int, y: int| on_board(x, y) implies #[trigger] g.board[y][x] == Cell::Empty by {
            assert(g.board[y]@[x] == Cell::Empty);
        }
        g
    }

    /// Plays the player to move on `(x, y)`. Refuses (returning false and changing nothing) a move
    /// off the board, on a stone, or after the game is over.
    pub fn place(&mut self, x: usize, y: usize) -> (ok: bool)
        ensures
            ok == old(self)@.can_place(x as int, y as int),
            final(self)@ == old(self)@.after_place(x as int, y as int),
            old(self)@.wf() ==> final(self)@.wf(),
    {
        proof {
            if old(self)@.wf() {
                lemma_place_wf(old(self)@, x as int, y as int);
            }
        }
        if self.status != Status::Playing || x >= BOARD || y >= BOARD || self.board[y][x]
            != Cell::Empty {
            return false;
        }
        let c = self.turn;
        put(&mut self.board, x, y, c);
        self.history.push((x, y));
        match winning_line(&self.board, x, y) {
            Some(line) => {
                self.status = Status::Won(c);
                self.win_line = line;
            },
            None => {
                self.turn = opponent(c);
                if self.history.len() == BOARD * BOARD {
                    self.status = Status::Draw;
                }
            },
        }
        true
    }

    /// Takes the last move back, and returns its color, which is to move again.
    fn take_back(&mut self) -> (c: Cell)
        requires
            old(self)@.history.len() > 0,
            forall|i: int|
                0 <= i < old(self)@.history.len() ==> #[trigger] old(self)@.history[i].0 < BOARD
                    && old(self)@.history[i].1 < BOARD,
        ensures
            final(self)@ == old(self)@.take_back(),
            c == final(self).turn,
    {
        let last = self.history.len() - 1;
        let (x, y) = self.history[last];
        let c = self.board[y][x];
        put(&mut self.board, x, y, Cell::Empty);
        self.history.pop();
        self.turn = c;
        c
    }

    /// Takes back the last move; playing the computer, takes back its reply together with the
    /// player's move before it, but only the player's own move while the reply is still missing.
    pub fn undo(&mut self)
        requires
            old(self)@.wf(),
        ensures
            final(self)@ == old(self)@.after_undo(),
            final(self)@.wf(),
    {
        proof {
            lemma_undo_wf(old(self)@);
        }
        self.ai_thinking = false;
        if self.history.len() == 0 {
            return;
        }
        let ghost before = self@;
        let c = self.take_back();
        if self.mode == Mode::HumanVsAi && c == Cell::White && self.history.len() > 0 {
            proof {
                lemma_take_back(before);
            }
            self.take_back();
        }
        self.status = Status::Playing;
        self.win_line = Vec::new();
        assert(self@ =~= old(self)@.after_undo());
    }
}

} // verus!
