use minesweeper::board::{Board, BoardError, CellState, GameStatus, RevealOutcome, Revealed};

fn layout_with(rows: usize, columns: usize, mines: &[(usize, usize)]) -> Vec<bool> {
    let mut v = vec![false; rows * columns];
    for &(r, c) in mines {
        v[r * columns + c] = true;
    }
    v
}

fn changed_cells(o: RevealOutcome) -> (Vec<usize>, GameStatus) {
    match o {
        RevealOutcome::Changed { mut cells, status } => {
            cells.sort();
            (cells, status)
        }
        other => panic!("expected a change, got {:?}", other),
    }
}

#[test]
fn new_rejects_empty_dimensions() {
    assert_eq!(Board::new(0, 5, 0).err(), Some(BoardError::InvalidConfiguration));
    assert_eq!(Board::new(5, 0, 0).err(), Some(BoardError::InvalidConfiguration));
}

#[test]
fn new_rejects_too_many_mines() {
    assert_eq!(Board::new(3, 3, 9).err(), Some(BoardError::InvalidConfiguration));
    assert_eq!(Board::new(3, 3, 10).err(), Some(BoardError::InvalidConfiguration));
    assert!(Board::new(3, 3, 8).is_ok());
}

#[test]
fn new_rejects_overflowing_size() {
    assert_eq!(Board::new(usize::MAX, 2, 1).err(), Some(BoardError::InvalidConfiguration));
}

#[test]
fn new_places_exact_mine_count_and_counts_neighbours() {
    for &(rows, columns, mines) in &[(20usize, 20usize, 10usize), (1, 2, 1), (4, 7, 27), (5, 5, 0)] {
        let b = Board::new(rows, columns, mines).unwrap();
        assert_eq!(b.rows(), rows);
        assert_eq!(b.columns(), columns);
        assert_eq!(b.mine_count(), mines);
        let mut found = 0;
        for r in 0..rows {
            for c in 0..columns {
                let cell = b.cell(r, c).unwrap();
                assert_eq!(cell.state, CellState::Hidden);
                assert_eq!((cell.row, cell.column), (r, c));
                if cell.is_mine {
                    found += 1;
                }
                let mut expected = 0u8;
                for dr in -1i64..=1 {
                    for dc in -1i64..=1 {
                        let (nr, nc) = (r as i64 + dr, c as i64 + dc);
                        if (dr, dc) != (0, 0) && nr >= 0 && nc >= 0 && (nr as usize) < rows && (nc as usize) < columns {
                            if b.cell(nr as usize, nc as usize).unwrap().is_mine {
                                expected += 1;
                            }
                        }
                    }
                }
                assert_eq!(b.adjacent_mine_count(r, c).unwrap(), expected);
            }
        }
        assert_eq!(found, mines);
    }
}

#[test]
fn from_mines_rejects_bad_layouts() {
    assert_eq!(Board::from_mines(2, 2, vec![false; 3]).err(), Some(BoardError::InvalidConfiguration));
    assert_eq!(Board::from_mines(2, 2, vec![true; 4]).err(), Some(BoardError::InvalidConfiguration));
    assert_eq!(Board::from_mines(0, 2, vec![]).err(), Some(BoardError::InvalidConfiguration));
}

#[test]
fn from_mines_counts_neighbours() {
    let b = Board::from_mines(3, 3, layout_with(3, 3, &[(0, 0), (2, 1)])).unwrap();
    assert_eq!(b.mine_count(), 2);
    let expected = [[0u8, 1, 0], [2, 2, 1], [1, 0, 1]];
    for r in 0..3 {
        for c in 0..3 {
            assert_eq!(b.adjacent_mine_count(r, c).unwrap(), expected[r][c]);
        }
    }
}

#[test]
fn reveal_numbered_cell_next_to_centre_mine() {
    let mut b = Board::from_mines(3, 3, layout_with(3, 3, &[(1, 1)])).unwrap();
    for r in 0..3 {
        for c in 0..3 {
            if (r, c) != (1, 1) {
                assert_eq!(b.adjacent_mine_count(r, c).unwrap(), 1);
            }
        }
    }
    let (cells, status) = changed_cells(b.reveal_at(0, 0).unwrap());
    assert_eq!(cells, vec![0]);
    assert_eq!(status, GameStatus::InProgress);
    assert_eq!(b.cell_state(0, 0).unwrap(), CellState::Revealed(Revealed::AdjacentMines(1)));
    assert_eq!(b.cell_state(0, 1).unwrap(), CellState::Hidden);
}

#[test]
fn reveal_zero_cell_floods_to_corner_mine() {
    let mut b = Board::from_mines(3, 3, layout_with(3, 3, &[(2, 2)])).unwrap();
    let (cells, status) = changed_cells(b.reveal_at(0, 0).unwrap());
    assert_eq!(cells, vec![0, 1, 2, 3, 4, 5, 6, 7]);
    assert_eq!(status, GameStatus::Won);
    assert_eq!(b.cell_state(2, 2).unwrap(), CellState::Hidden);
    assert_eq!(b.cell_state(1, 1).unwrap(), CellState::Revealed(Revealed::AdjacentMines(1)));
    assert_eq!(b.cell_state(0, 0).unwrap(), CellState::Revealed(Revealed::AdjacentMines(0)));
    assert!(b.is_won());
    assert!(!b.is_lost());
}

#[test]
fn flood_stops_at_numbered_border() {
    // Mines down column 2 of a 4 x 4 board: revealing (0, 0) opens columns 0 and 1 only.
    let mut b = Board::from_mines(4, 4, layout_with(4, 4, &[(0, 2), (1, 2), (2, 2), (3, 2)])).unwrap();
    let (cells, status) = changed_cells(b.reveal_at(0, 0).unwrap());
    assert_eq!(cells, vec![0, 1, 4, 5, 8, 9, 12, 13]);
    assert_eq!(status, GameStatus::InProgress);
    assert_eq!(b.cell_state(0, 1).unwrap(), CellState::Revealed(Revealed::AdjacentMines(2)));
    assert_eq!(b.cell_state(1, 1).unwrap(), CellState::Revealed(Revealed::AdjacentMines(3)));
    assert_eq!(b.cell_state(0, 3).unwrap(), CellState::Hidden);
    assert!(!b.is_won());
}

#[test]
fn flood_does_not_enter_flagged_cells() {
    let mut b = Board::from_mines(3, 3, layout_with(3, 3, &[(2, 2)])).unwrap();
    assert_eq!(b.toggle_flag(0, 2).unwrap(), CellState::Flagged);
    let (cells, status) = changed_cells(b.reveal_at(0, 0).unwrap());
    assert_eq!(cells, vec![0, 1, 3, 4, 5, 6, 7]);
    assert_eq!(status, GameStatus::InProgress);
    assert_eq!(b.cell_state(0, 2).unwrap(), CellState::Flagged);
}

#[test]
fn reveal_mine_loses_without_flood() {
    let mut b = Board::from_mines(3, 3, layout_with(3, 3, &[(0, 0)])).unwrap();
    let (cells, status) = changed_cells(b.reveal_at(0, 0).unwrap());
    assert_eq!(cells, vec![0]);
    assert_eq!(status, GameStatus::Lost);
    assert_eq!(b.cell_state(0, 0).unwrap(), CellState::Revealed(Revealed::Mine));
    assert_eq!(b.cell_state(2, 2).unwrap(), CellState::Hidden);
    assert!(b.is_lost());
    assert_eq!(b.status(), GameStatus::Lost);
}

#[test]
fn reveal_flagged_or_revealed_is_a_no_op() {
    let mut b = Board::from_mines(2, 2, layout_with(2, 2, &[(1, 1)])).unwrap();
    b.toggle_flag(0, 0).unwrap();
    assert_eq!(b.reveal_at(0, 0).unwrap(), RevealOutcome::Flagged);
    assert_eq!(b.cell_state(0, 0).unwrap(), CellState::Flagged);
    b.reveal_at(0, 1).unwrap();
    assert_eq!(b.reveal_at(0, 1).unwrap(), RevealOutcome::AlreadyRevealed);
}

#[test]
fn reveal_out_of_bounds() {
    let mut b = Board::from_mines(2, 3, vec![false; 6]).unwrap();
    assert_eq!(b.reveal_at(2, 0).err(), Some(BoardError::OutOfBounds));
    assert_eq!(b.reveal_at(0, 3).err(), Some(BoardError::OutOfBounds));
    assert_eq!(b.cell_state(5, 5).err(), Some(BoardError::OutOfBounds));
    assert_eq!(b.adjacent_mine_count(2, 0).err(), Some(BoardError::OutOfBounds));
    assert_eq!(b.index_of(1, 2).unwrap(), 5);
}

#[test]
fn toggle_flag_round_trip() {
    let mut b = Board::from_mines(2, 2, layout_with(2, 2, &[(1, 1)])).unwrap();
    assert_eq!(b.toggle_flag(0, 0).unwrap(), CellState::Flagged);
    assert_eq!(b.cell_state(0, 0).unwrap(), CellState::Flagged);
    assert_eq!(b.toggle_flag(0, 0).unwrap(), CellState::Hidden);
    assert_eq!(b.cell_state(0, 0).unwrap(), CellState::Hidden);
}

#[test]
fn toggle_flag_on_revealed_is_a_no_op() {
    let mut b = Board::from_mines(2, 2, layout_with(2, 2, &[(1, 1)])).unwrap();
    b.reveal_at(0, 0).unwrap();
    let s = b.cell_state(0, 0).unwrap();
    assert_eq!(b.toggle_flag(0, 0).unwrap(), s);
    assert_eq!(b.cell_state(0, 0).unwrap(), s);
    assert_eq!(b.toggle_flag(9, 0).err(), Some(BoardError::OutOfBounds));
}

#[test]
fn won_ignores_flags_on_mines() {
    let mut b = Board::from_mines(2, 2, layout_with(2, 2, &[(1, 1)])).unwrap();
    assert!(!b.is_won());
    b.reveal_at(0, 0).unwrap();
    b.reveal_at(0, 1).unwrap();
    assert!(!b.is_won());
    b.toggle_flag(1, 1).unwrap();
    let (_, status) = changed_cells(b.reveal_at(1, 0).unwrap());
    assert_eq!(status, GameStatus::Won);
    assert!(b.is_won());
    b.toggle_flag(1, 1).unwrap();
    assert!(b.is_won());
    assert_eq!(b.status(), GameStatus::Won);
}

#[test]
fn board_without_mines_is_won_by_one_reveal() {
    let mut b = Board::new(4, 5, 0).unwrap();
    let (cells, status) = changed_cells(b.reveal_at(3, 4).unwrap());
    assert_eq!(cells.len(), 20);
    assert_eq!(status, GameStatus::Won);
}
