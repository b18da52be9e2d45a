use minesweeper::board::Board;
use minesweeper::types::{Cell, CellState, FlagResult, GameError, RevealResult};

fn cell(b: &Board, x: usize, y: usize) -> Cell {
    b.cells[x + y * b.width]
}

fn revealed(b: &Board, x: usize, y: usize) -> bool {
    cell(b, x, y).state == CellState::Revealed
}

fn brute_force_adjacency(b: &Board, x: usize, y: usize) -> u8 {
    let mut count = 0u8;
    for dy in -1i64..=1 {
        for dx in -1i64..=1 {
            if dx == 0 && dy == 0 {
                continue;
            }
            let nx = x as i64 + dx;
            let ny = y as i64 + dy;
            if nx >= 0 && (nx as usize) < b.width && ny >= 0 && (ny as usize) < b.height {
                if cell(b, nx as usize, ny as usize).adjacency == 9 {
                    count += 1;
                }
            }
        }
    }
    count
}

#[test]
fn mine_count_matches_configuration() {
    for &(w, h, m) in &[(8usize, 8usize, 10usize), (5, 3, 7), (1, 9, 4), (30, 30, 99)] {
        let b = Board::new(w, h, m).unwrap();
        let marker_count = b.cells.iter().filter(|c| c.adjacency == 9).count();
        assert_eq!(marker_count, m);
        assert_eq!(b.num_mines, m);
        assert_eq!(b.mines.len(), m);
        for i in 0..b.mines.len() {
            let (mx, my) = b.mines[i];
            assert!(mx < w && my < h);
            assert_eq!(cell(&b, mx, my).adjacency, 9);
            for j in 0..i {
                assert_ne!(b.mines[j], b.mines[i], "duplicate mine coordinate");
            }
        }
    }
}

#[test]
fn adjacency_matches_brute_force_scan() {
    for &(w, h, m) in &[(4usize, 4usize, 3usize), (9, 2, 5), (7, 7, 20), (12, 5, 1)] {
        let b = Board::new(w, h, m).unwrap();
        for y in 0..h {
            for x in 0..w {
                let c = cell(&b, x, y);
                if c.adjacency != 9 {
                    assert_eq!(c.adjacency, brute_force_adjacency(&b, x, y), "at ({x},{y})");
                }
            }
        }
    }
}

#[test]
fn random_placement_varies() {
    // A 1x2 board with one mine puts it at either end; over many boards both
    // ends must occur, so a placement that ignored the random draw would fail.
    let mut seen_first = false;
    let mut seen_second = false;
    for _ in 0..200 {
        let b = Board::new(1, 2, 1).unwrap();
        if b.cells[0].adjacency == 9 {
            seen_first = true;
        }
        if b.cells[1].adjacency == 9 {
            seen_second = true;
        }
    }
    assert!(seen_first && seen_second);
}

#[test]
fn invalid_configurations_rejected() {
    assert!(matches!(Board::new(2, 2, 4), Err(GameError::InvalidConfig)));
    assert!(matches!(Board::new(0, 5, 0), Err(GameError::InvalidConfig)));
    assert!(matches!(Board::new(5, 0, 0), Err(GameError::InvalidConfig)));
    assert!(matches!(Board::with_mines(2, 2, vec![(0, 0), (0, 0)]), Err(GameError::InvalidConfig)));
    assert!(matches!(Board::with_mines(2, 2, vec![(2, 0)]), Err(GameError::InvalidConfig)));
    assert!(matches!(
        Board::with_mines(2, 2, vec![(0, 0), (0, 1), (1, 0), (1, 1)]),
        Err(GameError::InvalidConfig)
    ));
}

#[test]
fn flood_fill_reveals_connected_zero_region_and_border() {
    // A vertical wall of mines at x == 2 splits the 5x5 grid; flooding from
    // (0,0) must reveal exactly the columns 0 and 1 (the zero region and its
    // border) and leave the wall and everything beyond it covered.
    let mines = vec![(2, 0), (2, 1), (2, 2), (2, 3), (2, 4)];
    let mut b = Board::with_mines(5, 5, mines).unwrap();
    let r = b.reveal_cell(0, 0);
    assert_eq!(r, Ok(RevealResult::Revealed(0)));
    for y in 0..5 {
        for x in 0..5 {
            let should_be_revealed = x <= 1;
            assert_eq!(revealed(&b, x, y), should_be_revealed, "at ({x},{y})");
        }
    }
}

#[test]
fn flood_fill_terminates_on_all_zero_board() {
    let mut b = Board::with_mines(16, 16, vec![]).unwrap();
    let r = b.reveal_cell(7, 7);
    assert_eq!(r, Ok(RevealResult::Revealed(0)));
    for y in 0..16 {
        for x in 0..16 {
            assert!(revealed(&b, x, y));
        }
    }
    assert!(b.is_won());
}

#[test]
fn reveal_results_cover_each_cell_kind() {
    let mut b = Board::with_mines(6, 1, vec![(5, 0)]).unwrap();
    assert_eq!(cell(&b, 4, 0).adjacency, 1);
    assert_eq!(b.reveal_cell(6, 0), Err(GameError::OutOfBounds));
    assert_eq!(b.reveal_cell(0, 3), Err(GameError::OutOfBounds));
    assert_eq!(b.reveal_cell(0, 0), Ok(RevealResult::Revealed(0)));
    // the flood stops at the bordering 1-cell; the mine stays hidden
    assert!(revealed(&b, 4, 0));
    assert!(!revealed(&b, 5, 0));
    assert_eq!(b.reveal_cell(0, 0), Ok(RevealResult::Unchanged));
    assert_eq!(b.reveal_cell(5, 0), Ok(RevealResult::HitMine));
    assert!(revealed(&b, 5, 0));
}

#[test]
fn reveal_single_nonzero_cell_does_not_propagate() {
    let mut b = Board::with_mines(3, 3, vec![(0, 0)]).unwrap();
    let r = b.reveal_cell(1, 1);
    assert_eq!(r, Ok(RevealResult::Revealed(1)));
    assert!(revealed(&b, 1, 1));
    for &(x, y) in &[(0usize, 0usize), (1, 0), (2, 0), (0, 1), (2, 1), (0, 2), (1, 2), (2, 2)] {
        assert!(!revealed(&b, x, y), "({x},{y}) must stay covered");
    }
}

#[test]
fn flag_toggles_and_blocks_reveal() {
    let mut b = Board::with_mines(2, 2, vec![(0, 0)]).unwrap();
    assert_eq!(b.flag(5, 5), Err(GameError::OutOfBounds));
    assert_eq!(b.flag(1, 1), Ok(FlagResult::Flagged));
    assert_eq!(cell(&b, 1, 1).state, CellState::Flagged);
    assert_eq!(b.reveal_cell(1, 1), Ok(RevealResult::Blocked));
    assert_eq!(cell(&b, 1, 1).state, CellState::Flagged);
    assert_eq!(b.flag(1, 1), Ok(FlagResult::Unflagged));
    assert_eq!(cell(&b, 1, 1).state, CellState::Hidden);
    assert_eq!(b.reveal_cell(1, 1), Ok(RevealResult::Revealed(1)));
    assert_eq!(b.flag(1, 1), Ok(FlagResult::Rejected));
    assert_eq!(cell(&b, 1, 1).state, CellState::Revealed);
}

#[test]
fn reveal_all_mines_touches_only_mines() {
    let mut b = Board::with_mines(3, 2, vec![(0, 0), (2, 1)]).unwrap();
    b.reveal_all_mines();
    for y in 0..2 {
        for x in 0..3 {
            let is_mine = (x, y) == (0, 0) || (x, y) == (2, 1);
            assert_eq!(revealed(&b, x, y), is_mine);
        }
    }
}

#[test]
fn cell_snapshot_matches_storage() {
    let b = Board::with_mines(3, 2, vec![(1, 0)]).unwrap();
    assert!(b.cell_at(3, 0).is_none());
    assert!(b.cell_at(0, 2).is_none());
    let c = b.cell_at(1, 0).unwrap();
    assert_eq!(c.adjacency, 9);
    let c = b.cell_at(0, 0).unwrap();
    assert_eq!(c.adjacency, 1);
    assert_eq!(c.state, CellState::Hidden);
}
