use minesweeper::board::Board;
use minesweeper::controller::GameController;
use minesweeper::types::{
    Action, CellState, Command, FlagResult, GameError, RevealResult, Status, SubmitOutcome,
};

fn reveal_cmd(x: u16, y: u16) -> Command {
    Command { x, y, action: Action::Reveal }
}

fn flag_cmd(x: u16, y: u16) -> Command {
    Command { x, y, action: Action::Flag }
}

fn board_states(c: &GameController) -> Vec<CellState> {
    c.board.cells.iter().map(|cell| cell.state).collect()
}

#[test]
fn revealing_a_mine_loses_and_uncovers_all_mines() {
    let b = Board::with_mines(4, 4, vec![(0, 0), (3, 2)]).unwrap();
    let mut c = GameController::with_board(b);
    let r = c.submit(reveal_cmd(0, 0));
    assert_eq!(r, Ok(SubmitOutcome::Reveal(RevealResult::HitMine)));
    assert_eq!(c.status, Status::Lost);
    assert_eq!(c.losses, 1);
    assert_eq!(c.wins, 0);
    for &(mx, my) in &[(0usize, 0usize), (3, 2)] {
        assert_eq!(c.board.cells[mx + my * 4].state, CellState::Revealed);
    }
    // a finished game accepts no further gameplay commands
    assert_eq!(c.submit(reveal_cmd(1, 1)), Err(GameError::IllegalTransition));
    assert_eq!(c.submit(flag_cmd(1, 1)), Err(GameError::IllegalTransition));
    assert_eq!(c.status, Status::Lost);
}

#[test]
fn revealing_every_safe_cell_wins() {
    let b = Board::with_mines(2, 2, vec![(0, 0)]).unwrap();
    let mut c = GameController::with_board(b);
    assert_eq!(
        c.submit(reveal_cmd(1, 0)),
        Ok(SubmitOutcome::Reveal(RevealResult::Revealed(1)))
    );
    assert_eq!(c.status, Status::Playing);
    assert_eq!(
        c.submit(reveal_cmd(0, 1)),
        Ok(SubmitOutcome::Reveal(RevealResult::Revealed(1)))
    );
    assert_eq!(c.status, Status::Playing);
    assert_eq!(
        c.submit(reveal_cmd(1, 1)),
        Ok(SubmitOutcome::Reveal(RevealResult::Revealed(1)))
    );
    assert_eq!(c.status, Status::Won);
    assert_eq!(c.wins, 1);
    assert_eq!(c.losses, 0);
    // won and lost are mutually exclusive: the finished game cannot lose
    assert_eq!(c.submit(reveal_cmd(0, 0)), Err(GameError::IllegalTransition));
    assert_eq!(c.status, Status::Won);
}

#[test]
fn revealing_a_revealed_cell_changes_nothing() {
    let b = Board::with_mines(3, 3, vec![(0, 0)]).unwrap();
    let mut c = GameController::with_board(b);
    assert_eq!(
        c.submit(reveal_cmd(1, 1)),
        Ok(SubmitOutcome::Reveal(RevealResult::Revealed(1)))
    );
    let states = board_states(&c);
    let (score, wins, losses, status) = (c.score, c.wins, c.losses, c.status);
    let r = c.submit(reveal_cmd(1, 1));
    assert_eq!(r, Ok(SubmitOutcome::Reveal(RevealResult::Unchanged)));
    assert_eq!(board_states(&c), states);
    assert_eq!(c.score, score);
    assert_eq!(c.wins, wins);
    assert_eq!(c.losses, losses);
    assert_eq!(c.status, status);
}

#[test]
fn example_single_mine_far_corner_flood() {
    // 4x4 board with the single mine at (0,0): its three neighbors carry
    // adjacency 1, every other cell adjacency 0.
    let b = Board::with_mines(4, 4, vec![(0, 0)]).unwrap();
    for y in 0..4usize {
        for x in 0..4usize {
            let expected = match (x, y) {
                (0, 0) => 9,
                (1, 0) | (0, 1) | (1, 1) => 1,
                _ => 0,
            };
            assert_eq!(b.cells[x + y * 4].adjacency, expected, "at ({x},{y})");
        }
    }
    // revealing the far corner floods the whole board except the mine; the
    // bordering 1-cells are revealed but do not propagate (there is nothing
    // beyond them but the mine, which stays covered until targeted).
    let mut board = Board::with_mines(4, 4, vec![(0, 0)]).unwrap();
    assert_eq!(board.reveal_cell(3, 3), Ok(RevealResult::Revealed(0)));
    for y in 0..4usize {
        for x in 0..4usize {
            let expect_revealed = (x, y) != (0, 0);
            assert_eq!(
                board.cells[x + y * 4].state == CellState::Revealed,
                expect_revealed,
                "at ({x},{y})"
            );
        }
    }
    // targeting the mine afterwards reports the hit on the board
    assert_eq!(board.reveal_cell(0, 0), Ok(RevealResult::HitMine));
    // at the controller level the same flood uncovers every safe cell, which
    // ends the game as won, so no further reveal can reach the mine.
    let b2 = Board::with_mines(4, 4, vec![(0, 0)]).unwrap();
    let mut c = GameController::with_board(b2);
    assert_eq!(
        c.submit(reveal_cmd(3, 3)),
        Ok(SubmitOutcome::Reveal(RevealResult::Revealed(0)))
    );
    assert_eq!(c.status, Status::Won);
    assert_eq!(c.submit(reveal_cmd(0, 0)), Err(GameError::IllegalTransition));
}

#[test]
fn malformed_line_is_rejected_without_any_change() {
    let b = Board::with_mines(30, 30, vec![(20, 20)]).unwrap();
    let mut c = GameController::with_board(b);
    let states = board_states(&c);
    let r = c.submit_line(b"5 x reveal");
    assert_eq!(r, Err(GameError::MalformedCommand));
    assert_eq!(c.status, Status::Playing);
    assert_eq!(c.score, 0);
    assert_eq!(c.wins, 0);
    assert_eq!(c.losses, 0);
    assert_eq!(board_states(&c), states);
}

#[test]
fn command_lines_drive_the_game() {
    let b = Board::with_mines(4, 4, vec![(0, 0)]).unwrap();
    let mut c = GameController::with_board(b);
    assert_eq!(
        c.submit_line(b"1 1 flag"),
        Ok(SubmitOutcome::Flag(FlagResult::Flagged))
    );
    assert_eq!(
        c.submit_line(b"1 1 reveal"),
        Ok(SubmitOutcome::Reveal(RevealResult::Blocked))
    );
    assert_eq!(
        c.submit_line(b"1 1 flag"),
        Ok(SubmitOutcome::Flag(FlagResult::Unflagged))
    );
    assert_eq!(
        c.submit_line(b"1 1 reveal"),
        Ok(SubmitOutcome::Reveal(RevealResult::Revealed(1)))
    );
    assert_eq!(c.submit_line(b"9 9 reveal"), Err(GameError::OutOfBounds));
    assert_eq!(c.status, Status::Playing);
}

#[test]
fn out_of_bounds_reveal_is_reported_and_harmless() {
    let b = Board::with_mines(3, 3, vec![(1, 1)]).unwrap();
    let mut c = GameController::with_board(b);
    let states = board_states(&c);
    assert_eq!(c.submit(reveal_cmd(3, 0)), Err(GameError::OutOfBounds));
    assert_eq!(c.submit(reveal_cmd(0, 3)), Err(GameError::OutOfBounds));
    assert_eq!(board_states(&c), states);
    assert_eq!(c.status, Status::Playing);
}

#[test]
fn quit_stops_the_game_from_any_point() {
    let b = Board::with_mines(3, 3, vec![(1, 1)]).unwrap();
    let mut c = GameController::with_board(b);
    assert!(c.is_running());
    c.quit();
    assert!(!c.is_running());
    assert_eq!(c.status, Status::Stopped);
    assert_eq!(c.submit(reveal_cmd(0, 0)), Err(GameError::IllegalTransition));
    assert_eq!(c.status, Status::Stopped);
}

#[test]
fn flagging_never_changes_game_status() {
    let b = Board::with_mines(2, 2, vec![(0, 0)]).unwrap();
    let mut c = GameController::with_board(b);
    c.submit(flag_cmd(0, 0)).unwrap();
    c.submit(flag_cmd(1, 1)).unwrap();
    assert_eq!(c.status, Status::Playing);
    assert_eq!(c.wins, 0);
    assert_eq!(c.losses, 0);
}

#[test]
fn random_game_rejects_impossible_mine_count() {
    assert!(matches!(GameController::new(2, 2, 4), Err(GameError::InvalidConfig)));
    let c = GameController::new(4, 4, 3).unwrap();
    assert_eq!(c.status, Status::Playing);
    assert_eq!(c.board.num_mines, 3);
}
