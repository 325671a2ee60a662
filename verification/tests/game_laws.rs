use wuziqi::ai::{
    ai_move, count_immediate_wins, evaluate_position, immediate_winning_moves, leaf_score,
    ranked_moves, reply_score, threat_value, MATE_SCORE,
};
use wuziqi::board::{winning_line, Board, Cell, BOARD, CENTER};
use wuziqi::game::{AiStep, Game, Mode, Status};

fn empty_board() -> Board {
    [[Cell::Empty; BOARD]; BOARD]
}

fn snapshot(game: &Game) -> (Board, Cell, Status, Vec<(usize, usize)>, Vec<(usize, usize)>) {
    (game.board, game.turn, game.status, game.history.clone(), game.win_line.clone())
}

#[test]
fn undo_after_a_move_gives_the_game_back() {
    let mut game = Game::new(Mode::HumanVsHuman);
    assert!(game.place(7, 7));
    assert!(game.place(8, 8));
    let before = snapshot(&game);
    assert!(game.place(3, 4));
    game.undo();
    assert_eq!(snapshot(&game), before);
}

#[test]
fn undo_after_a_round_against_the_computer_gives_the_game_back() {
    let mut game = Game::new(Mode::HumanVsAi);
    assert!(game.place(7, 7));
    assert!(game.place(6, 6));
    let before = snapshot(&game);
    assert!(game.place(8, 8));
    let (x, y) = ai_move(&game.board, Cell::White, game.history.len());
    assert!(game.place(x, y));
    game.undo();
    assert_eq!(snapshot(&game), before);
}

#[test]
fn undo_on_a_new_game_changes_nothing_but_thinking() {
    let mut game = Game::new(Mode::HumanVsAi);
    game.ai_thinking = true;
    let before = snapshot(&game);
    game.undo();
    assert_eq!(snapshot(&game), before);
    assert!(!game.ai_thinking);
}

#[test]
fn refused_moves_leave_the_game_alone() {
    let mut game = Game::new(Mode::HumanVsHuman);
    assert!(game.place(0, 0));
    let before = snapshot(&game);
    assert!(!game.place(0, 0));
    assert!(!game.place(15, 3));
    assert_eq!(snapshot(&game), before);
}

#[test]
fn a_full_board_without_five_is_a_draw() {
    // Columns of two-stone blocks in alternating colors never make five in a row.
    let mut moves = Vec::new();
    let mut black = Vec::new();
    let mut white = Vec::new();
    for y in 0..BOARD {
        for x in 0..BOARD {
            let c = if ((x / 2) + y) % 2 == 0 { Cell::Black } else { Cell::White };
            if c == Cell::Black {
                black.push((x, y));
            } else {
                white.push((x, y));
            }
        }
    }
    // Black has one stone more than white (113 against 112): interleave them, black first.
    for i in 0..white.len() {
        moves.push(black[i]);
        moves.push(white[i]);
    }
    moves.push(black[white.len()]);
    let mut game = Game::new(Mode::HumanVsHuman);
    for (i, &(x, y)) in moves.iter().enumerate() {
        assert!(game.place(x, y), "move {:?} refused", (x, y));
        if i + 1 < moves.len() {
            assert_eq!(game.status, Status::Playing);
        }
    }
    assert_eq!(game.history.len(), BOARD * BOARD);
    assert_eq!(game.status, Status::Draw);
    assert!(!game.place(0, 0));
}

#[test]
fn winning_line_stones_share_the_color() {
    let mut board = empty_board();
    for x in 3..9 {
        board[x][x] = Cell::White;
    }
    let line = winning_line(&board, 5, 5).unwrap();
    assert_eq!(line, vec![(3, 3), (4, 4), (5, 5), (6, 6), (7, 7), (8, 8)]);
    assert!(line.iter().all(|&(x, y)| board[y][x] == Cell::White));
    assert!(winning_line(&board, 0, 0).is_none());
}

#[test]
fn each_winning_move_completes_five() {
    let mut board = empty_board();
    for &(x, y) in &[(2, 2), (3, 2), (5, 2), (6, 2), (10, 10), (10, 11), (10, 12), (10, 13)] {
        board[y][x] = Cell::Black;
    }
    let wins = immediate_winning_moves(&board, Cell::Black);
    assert_eq!(wins, vec![(4, 2), (10, 9), (10, 14)]);
    for &(x, y) in &wins {
        let mut next = board;
        next[y][x] = Cell::Black;
        assert!(winning_line(&next, x, y).is_some());
    }
    assert_eq!(count_immediate_wins(&board, Cell::Black, 2), 2);
    assert_eq!(count_immediate_wins(&board, Cell::Black, 0), 3);
    assert_eq!(count_immediate_wins(&board, Cell::White, 1), 0);
}

#[test]
fn ai_fills_the_last_free_intersection() {
    let mut board = empty_board();
    for y in 0..BOARD {
        for x in 0..BOARD {
            board[y][x] = if (x + 2 * y) % 4 < 2 { Cell::Black } else { Cell::White };
        }
    }
    board[14][0] = Cell::Empty;
    assert_eq!(ai_move(&board, Cell::White, 224), (0, 14));
}

#[test]
fn ranked_moves_put_required_moves_first() {
    let mut board = empty_board();
    board[7][7] = Cell::Black;
    let ranked = ranked_moves(&board, Cell::White, 3, &[(5, 5), (0, 0)]);
    assert_eq!(ranked.len(), 4);
    assert_eq!(ranked[0], (5, 5));
    assert!(!ranked[1..].contains(&(5, 5)));
    assert!(!ranked.contains(&(0, 0)));
    let none = ranked_moves(&board, Cell::White, 0, &[]);
    assert!(none.is_empty());
}

#[test]
fn evaluation_of_the_empty_board() {
    let board = empty_board();
    // The only candidate is the center: a lone stone with two free ends on each of four axes.
    assert_eq!(threat_value(&board, Cell::Black), 160 * 4);
    assert_eq!(evaluate_position(&board, Cell::White), 640);
    assert_eq!(ai_move(&board, Cell::White, 0), (CENTER, CENTER));
}

#[test]
fn forced_values_of_the_search() {
    let mut board = empty_board();
    for x in 0..4 {
        board[7][x] = Cell::White;
    }
    assert_eq!(leaf_score(&board, Cell::White), MATE_SCORE);
    assert_eq!(reply_score(&board, Cell::Black, 0, &[]), -MATE_SCORE);
}

#[test]
fn the_computer_moves_only_on_its_turn() {
    let mut game = Game::new(Mode::HumanVsAi);
    assert!(game.human_may_play());
    assert_eq!(game.ai_step(false, true), AiStep::Idle);
    assert!(game.place(7, 7));
    assert!(!game.human_may_play());
    assert_eq!(game.ai_step(false, true), AiStep::AskModel);
    assert_eq!(game.ai_step(false, false), AiStep::PlayEngine);
    assert_eq!(game.ai_step(true, true), AiStep::Idle);
    game.ai_thinking = true;
    assert_eq!(game.ai_step(false, false), AiStep::Idle);

    let mut pvp = Game::new(Mode::HumanVsHuman);
    assert!(pvp.place(7, 7));
    assert!(pvp.human_may_play());
    assert_eq!(pvp.ai_step(false, false), AiStep::Idle);
}
