use vstd::prelude::*;

verus! {

/// The visibility of a single cell. A cell starts `Hidden`, may be toggled to
/// `Flagged` and back, and moves to `Revealed` at most once; a revealed cell
/// never changes again.
#[derive(Clone, Copy, Debug, PartialEq, Eq, Structural)]
pub enum CellState {
    Hidden,
    Revealed,
    Flagged,
}

/// One grid position: its visibility and its adjacency value.
/// `adjacency` is 0 through 8 for the number of mines among the up-to-8
/// neighboring cells, or 9 to mean the cell itself is a mine. The adjacency
/// value is fixed at board construction; only `state` changes afterwards.
#[derive(Clone, Copy, Debug, PartialEq, Eq, Structural)]
pub struct Cell {
    pub state: CellState,
    pub adjacency: u8,
}

/// Every way an operation can be rejected. All of these are recoverable and
/// reported to the caller; no operation of the library panics.
#[derive(Clone, Copy, Debug, PartialEq, Eq, Structural)]
pub enum GameError {
    /// A coordinate lies outside the grid.
    OutOfBounds,
    /// A board was requested whose mine count does not fit its dimensions,
    /// or whose mine list repeats or misplaces a coordinate.
    InvalidConfig,
    /// A command line could not be parsed into `(x, y, action)`.
    MalformedCommand,
    /// A gameplay command arrived while the game was already over.
    IllegalTransition,
}

/// What a reveal did to the targeted cell.
#[derive(Clone, Copy, Debug, PartialEq, Eq, Structural)]
pub enum RevealResult {
    /// The cell was already revealed; nothing changed.
    Unchanged,
    /// The cell is flagged; revealing it is blocked until it is unflagged.
    Blocked,
    /// The cell is a mine. It is now revealed; the game is lost.
    HitMine,
    /// The cell was revealed; the payload is its adjacency count (0 through 8).
    Revealed(u8),
}

/// What a flag command did to the targeted cell.
#[derive(Clone, Copy, Debug, PartialEq, Eq, Structural)]
pub enum FlagResult {
    /// A hidden cell is now flagged.
    Flagged,
    /// A flagged cell is now hidden again.
    Unflagged,
    /// The cell is already revealed; flagging it is rejected.
    Rejected,
}

/// The gameplay half of a command.
#[derive(Clone, Copy, Debug, PartialEq, Eq, Structural)]
pub enum Action {
    Reveal,
    Flag,
}

/// A fully parsed command: a target coordinate and what to do there.
#[derive(Clone, Copy, Debug, PartialEq, Eq, Structural)]
pub struct Command {
    pub x: u16,
    pub y: u16,
    pub action: Action,
}

/// What a successfully dispatched command did, for the caller's display.
#[derive(Clone, Copy, Debug, PartialEq, Eq, Structural)]
pub enum SubmitOutcome {
    /// A reveal command ran; the payload tells what the reveal did.
    Reveal(RevealResult),
    /// A flag command ran; the payload tells what the toggle did.
    Flag(FlagResult),
}

/// The controller's state machine. `Playing` is the only state that accepts
/// gameplay commands; the other three are terminal.
#[derive(Clone, Copy, Debug, PartialEq, Eq, Structural)]
pub enum Status {
    Playing,
    Won,
    Lost,
    Stopped,
}

} // verus!
