use vstd::prelude::*;

use crate::board::{
    Board, cell_is_mine, flag_rel, lemma_count_where_partial, lemma_idx_decompose, reveal_rel,
};
use crate::parse::{parse_command, spec_parse};
use crate::types::{Action, CellState, Command, GameError, RevealResult, Status, SubmitOutcome};

verus! {

/// An all-hidden well-formed board is never already won: the mine count
/// leaves at least one non-mine cell, and that cell is hidden.
pub proof fn lemma_hidden_board_not_won(b: Board)
    requires
        b.wf(),
        forall|x: int, y: int| b.in_bounds(x, y)
            ==> (#[trigger] b.cell(x, y)).state == CellState::Hidden,
    ensures
        !b.spec_is_won(),
{
    lemma_count_where_partial(b.cells@, |c| cell_is_mine(c));
    let i = choose|i: int| 0 <= i < b.cells@.len() && !cell_is_mine(b.cells@[i]);
    let w = b.width as int;
    let h = b.height as int;
    assert(w >= 1) by (nonlinear_arith)
        requires
            0 <= i < w * h,
            w >= 0,
            h >= 0,
    ;
    lemma_idx_decompose(w, h, i);
    let x = i % w;
    let y = i / w;
    assert(b.in_bounds(x, y));
    assert(b.cell(x, y) == b.cells@[i]);
    assert(!b.is_mine(x, y) && !b.revealed(x, y));
}

/// The per-game state machine: it owns the board, dispatches parsed commands
/// to it, and decides win and loss. `score` is reserved for game-level
/// scoring and is never altered by any command.
pub struct GameController {
    pub board: Board,
    pub status: Status,
    pub score: u64,
    pub wins: u64,
    pub losses: u64,
}

/// What one accepted or rejected command does to the controller. A finished
/// game (any status but `Playing`) rejects every command unchanged. A reveal
/// follows the board's reveal semantics; hitting a mine ends the game as
/// `Lost` with every mine uncovered, and a reveal that uncovers the last
/// non-mine cell ends it as `Won`. A flag toggle never changes the game
/// status. `score` never changes.
pub open spec fn submit_rel(
    c0: GameController,
    c1: GameController,
    cmd: Command,
    r: Result<SubmitOutcome, GameError>,
) -> bool {
    let x = cmd.x as int;
    let y = cmd.y as int;
    if c0.status != Status::Playing {
        &&& r == Err::<SubmitOutcome, GameError>(GameError::IllegalTransition)
        &&& c1 == c0
    } else {
        match cmd.action {
            Action::Reveal => {
                if !c0.board.in_bounds(x, y) {
                    &&& r == Err::<SubmitOutcome, GameError>(GameError::OutOfBounds)
                    &&& c1 == c0
                } else if c0.board.revealed(x, y) {
                    &&& r == Ok::<SubmitOutcome, GameError>(
                        SubmitOutcome::Reveal(RevealResult::Unchanged),
                    )
                    &&& c1 == c0
                } else if c0.board.cell(x, y).state == CellState::Flagged {
                    &&& r == Ok::<SubmitOutcome, GameError>(
                        SubmitOutcome::Reveal(RevealResult::Blocked),
                    )
                    &&& c1 == c0
                } else if c0.board.is_mine(x, y) {
                    &&& r == Ok::<SubmitOutcome, GameError>(
                        SubmitOutcome::Reveal(RevealResult::HitMine),
                    )
                    &&& c1.status == Status::Lost
                    &&& c1.wins == c0.wins
                    &&& c1.losses == c0.losses + 1
                    &&& c1.score == c0.score
                    &&& c1.board.width == c0.board.width
                    &&& c1.board.height == c0.board.height
                    &&& c1.board.num_mines == c0.board.num_mines
                    &&& c1.board.mines@ == c0.board.mines@
                    &&& (forall|a: int, b: int| c0.board.in_bounds(a, b)
                            ==> (#[trigger] c1.board.cell(a, b)).adjacency == c0.board.cell(
                            a,
                            b,
                        ).adjacency)
                    &&& (forall|a: int, b: int| c0.board.in_bounds(a, b)
                            ==> ((#[trigger] c1.board.revealed(a, b)) <==> c0.board.revealed(a, b)
                                || c0.board.is_mine(a, b)))
                    &&& (forall|a: int, b: int| c0.board.in_bounds(a, b) && !c0.board.is_mine(a, b)
                            ==> #[trigger] c1.board.cell(a, b) == c0.board.cell(a, b))
                    &&& !c1.board.spec_is_won()
                } else {
                    &&& r == Ok::<SubmitOutcome, GameError>(
                        SubmitOutcome::Reveal(RevealResult::Revealed(c0.board.cell(x, y).adjacency)),
                    )
                    &&& reveal_rel(
                        c0.board,
                        c1.board,
                        x,
                        y,
                        Ok(RevealResult::Revealed(c0.board.cell(x, y).adjacency)),
                    )
                    &&& c1.status == (if c1.board.spec_is_won() {
                        Status::Won
                    } else {
                        Status::Playing
                    })
                    &&& c1.wins == c0.wins + (if c1.board.spec_is_won() {
                        1int
                    } else {
                        0int
                    })
                    &&& c1.losses == c0.losses
                    &&& c1.score == c0.score
                }
            },
            Action::Flag => {
                &&& c1.status == c0.status
                &&& c1.wins == c0.wins
                &&& c1.losses == c0.losses
                &&& c1.score == c0.score
                &&& match r {
                    Ok(SubmitOutcome::Flag(f)) => flag_rel(c0.board, c1.board, x, y, Ok(f)),
                    Err(e) => flag_rel(c0.board, c1.board, x, y, Err(e)),
                    _ => false,
                }
            },
        }
    }
}

impl GameController {
    /// The controller's invariant: its board is well-formed, and while the
    /// game is running the board is not yet won and no outcome has been
    /// counted.
    pub open spec fn wf(self) -> bool {
        &&& self.board.wf()
        &&& (self.status == Status::Playing ==> !self.board.spec_is_won() && self.wins == 0
            && self.losses == 0)
    }

    /// Starts a game on a freshly built random board.
    pub fn new(width: usize, height: usize, mine_count: usize) -> (r: Result<
        GameController,
        GameError,
    >)
        requires
            (width as int) * (height as int) <= usize::MAX as int,
        ensures
            match r {
                Ok(c) => {
                    &&& (mine_count as int) < (width as int) * (height as int)
                    &&& c.wf()
                    &&& c.status == Status::Playing
                    &&& c.board.width == width
                    &&& c.board.height == height
                    &&& c.board.num_mines == mine_count
                    &&& c.score == 0
                    &&& c.wins == 0
                    &&& c.losses == 0
                },
                Err(e) => e == GameError::InvalidConfig && !((mine_count as int) < (width as int)
                    * (height as int)),
            },
    {
        match Board::new(width, height, mine_count) {
            Ok(b) => {
                proof {
                    lemma_hidden_board_not_won(b);
                }
                Ok(GameController { board: b, status: Status::Playing, score: 0, wins: 0, losses: 0 })
            },
            Err(e) => Err(e),
        }
    }

    /// Starts a game on a given board, for a chosen mine layout.
    pub fn with_board(board: Board) -> (r: GameController)
        requires
            board.wf(),
            !board.spec_is_won(),
        ensures
            r.wf(),
            r.board == board,
            r.status == Status::Playing,
            r.score == 0,
            r.wins == 0,
            r.losses == 0,
    {
        GameController { board, status: Status::Playing, score: 0, wins: 0, losses: 0 }
    }

    /// The game still accepts gameplay commands.
    pub fn is_running(&self) -> (r: bool)
        ensures
            r == (self.status == Status::Playing),
    {
        matches!(self.status, Status::Playing)
    }

    /// Ends the game unconditionally, whatever the board looks like.
    pub fn quit(&mut self)
        requires
            old(self).wf(),
        ensures
            final(self).wf(),
            final(self).status == Status::Stopped,
            final(self).board == old(self).board,
            final(self).score == old(self).score,
            final(self).wins == old(self).wins,
            final(self).losses == old(self).losses,
    {
        self.status = Status::Stopped;
    }

    /// Applies one parsed command, as `submit_rel` describes.
    pub fn submit(&mut self, cmd: Command) -> (r: Result<SubmitOutcome, GameError>)
        requires
            old(self).wf(),
        ensures
            final(self).wf(),
            submit_rel(*old(self), *final(self), cmd, r),
    {
        match self.status {
            Status::Playing => {},
            _ => {
                return Err(GameError::IllegalTransition);
            },
        }
        let x = cmd.x as usize;
        let y = cmd.y as usize;
        match cmd.action {
            Action::Reveal => {
                let ghost b0 = self.board;
                let res = self.board.reveal_cell(x, y);
                match res {
                    Err(e) => Err(e),
                    Ok(RevealResult::HitMine) => {
                        let ghost b1 = self.board;
                        self.board.reveal_all_mines();
                        self.status = Status::Lost;
                        self.losses = self.losses + 1;
                        proof {
                            assert forall|a: int, b: int| b0.in_bounds(a, b) implies ((
                            #[trigger] self.board.revealed(a, b)) <==> b0.revealed(a, b)
                                || b0.is_mine(a, b)) by {
                                assert(b1.cell(a, b).adjacency == b0.cell(a, b).adjacency);
                            }
                            assert forall|a: int, b: int| b0.in_bounds(a, b) && !b0.is_mine(a, b)
                                implies #[trigger] self.board.cell(a, b) == b0.cell(a, b) by {
                                assert(b1.cell(a, b).adjacency == b0.cell(a, b).adjacency);
                                assert(!b1.revealed(a, b) ==> b1.cell(a, b) == b0.cell(a, b));
                                if b1.revealed(a, b) {
                                    assert(b0.revealed(a, b));
                                    assert(b1.cell(a, b).state == b0.cell(a, b).state);
                                }
                                assert(b1.cell(a, b) == b0.cell(a, b));
                                assert(!b1.is_mine(a, b));
                            }
                            assert forall|a: int, b: int| self.board.in_bounds(a, b)
                                && !self.board.is_mine(a, b) implies ((
                            #[trigger] self.board.revealed(a, b)) <==> b0.revealed(a, b)) by {
                                assert(self.board.cell(a, b) == b0.cell(a, b));
                            }
                            assert(!b0.spec_is_won());
                            let (ux, uy) = choose|ux: int, uy: int|
                                b0.in_bounds(ux, uy) && !b0.is_mine(ux, uy) && !(
                                #[trigger] b0.revealed(ux, uy));
                            assert(self.board.cell(ux, uy) == b0.cell(ux, uy));
                            assert(self.board.in_bounds(ux, uy));
                            assert(!self.board.is_mine(ux, uy));
                            assert(!self.board.revealed(ux, uy));
                            assert(!self.board.spec_is_won());
                        }
                        Ok(SubmitOutcome::Reveal(RevealResult::HitMine))
                    },
                    Ok(rr) => {
                        if self.board.is_won() {
                            self.status = Status::Won;
                            self.wins = self.wins + 1;
                        }
                        Ok(SubmitOutcome::Reveal(rr))
                    },
                }
            },
            Action::Flag => {
                let ghost b0 = self.board;
                let res = self.board.flag(x, y);
                proof {
                    if !b0.in_bounds(x as int, y as int) || b0.revealed(x as int, y as int) {
                    } else {
                        assert forall|a: int, b: int| b0.in_bounds(a, b) implies ((
                        #[trigger] self.board.revealed(a, b)) <==> b0.revealed(a, b)) by {
                            if (a, b) != (x as int, y as int) {
                                assert(self.board.cell(a, b) == b0.cell(a, b));
                            }
                        }
                        assert(self.board.spec_is_won() == b0.spec_is_won()) by {
                            if self.board.spec_is_won() {
                                assert forall|a: int, b: int| b0.in_bounds(a, b) && !b0.is_mine(
                                    a,
                                    b,
                                ) implies #[trigger] b0.revealed(a, b) by {
                                    assert(self.board.cell(a, b).adjacency == b0.cell(
                                        a,
                                        b,
                                    ).adjacency);
                                    assert(self.board.revealed(a, b));
                                }
                            }
                            if b0.spec_is_won() {
                                assert forall|a: int, b: int| self.board.in_bounds(a, b)
                                    && !self.board.is_mine(a, b) implies #[trigger] self
                                    .board.revealed(a, b) by {
                                    assert(self.board.cell(a, b).adjacency == b0.cell(
                                        a,
                                        b,
                                    ).adjacency);
                                    assert(b0.revealed(a, b));
                                }
                            }
                        }
                    }
                }
                match res {
                    Ok(f) => Ok(SubmitOutcome::Flag(f)),
                    Err(e) => Err(e),
                }
            },
        }
    }

    /// Parses one command line and applies it. A line that does not parse is
    /// rejected as `MalformedCommand` and changes nothing.
    pub fn submit_line(&mut self, line: &[u8]) -> (r: Result<SubmitOutcome, GameError>)
        requires
            old(self).wf(),
        ensures
            final(self).wf(),
            match spec_parse(line@) {
                Some(cmd) => submit_rel(*old(self), *final(self), cmd, r),
                None => r == Err::<SubmitOutcome, GameError>(GameError::MalformedCommand)
                    && *final(self) == *old(self),
            },
    {
        match parse_command(line) {
            Ok(cmd) => self.submit(cmd),
            Err(e) => Err(e),
        }
    }
}

/// Law: the two endings of a game exclude each other, and a finished game
/// never moves again. From `Playing`, a command that ends the game as `Lost`
/// has uncovered every mine and leaves the board short of a win, a command
/// that ends it as `Won` has every non-mine cell revealed, and any command
/// sent to a finished game is rejected unchanged.
pub proof fn lemma_game_outcomes(
    c0: GameController,
    c1: GameController,
    cmd: Command,
    r: Result<SubmitOutcome, GameError>,
)
    requires
        c0.wf(),
        submit_rel(c0, c1, cmd, r),
    ensures
        c0.status != Status::Playing ==> c1 == c0 && r == Err::<SubmitOutcome, GameError>(
            GameError::IllegalTransition,
        ),
        c0.status == Status::Playing && c1.status == Status::Lost ==> (forall|a: int, b: int|
            c1.board.in_bounds(a, b) && #[trigger] c1.board.is_mine(a, b) ==> c1.board.revealed(
                a,
                b,
            )) && !c1.board.spec_is_won(),
        c0.status == Status::Playing && c1.status == Status::Won ==> c1.board.spec_is_won(),
        !(c1.status == Status::Won && c1.status == Status::Lost),
{
    if c0.status == Status::Playing && c1.status == Status::Lost {
        let x = cmd.x as int;
        let y = cmd.y as int;
        match cmd.action {
            Action::Reveal => {
                assert(c0.board.in_bounds(x, y) && !c0.board.revealed(x, y) && c0.board.cell(
                    x,
                    y,
                ).state != CellState::Flagged && c0.board.is_mine(x, y));
                assert forall|a: int, b: int|
                    c1.board.in_bounds(a, b) && #[trigger] c1.board.is_mine(a, b)
                    implies c1.board.revealed(a, b) by {
                    assert(c1.board.cell(a, b).adjacency == c0.board.cell(a, b).adjacency);
                    assert(c0.board.is_mine(a, b));
                }
            },
            Action::Flag => {},
        }
    }
}

} // verus!
