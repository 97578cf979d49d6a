use minesweeper_core::board::{BoardEngine, BoardError, RevealOutcome};

/// Every cell's state as (is_mine, is_revealed, adjacent_count), row-major.
fn snapshot(b: &BoardEngine) -> Vec<(bool, bool, u8)> {
    let mut v = Vec::new();
    for y in 0..b.height() {
        for x in 0..b.width() {
            v.push((
                b.is_mine(x, y).unwrap(),
                b.is_revealed(x, y).unwrap(),
                b.adjacent_count(x, y).unwrap(),
            ));
        }
    }
    v
}

fn mine_positions(b: &BoardEngine) -> Vec<(usize, usize)> {
    let mut v = Vec::new();
    for y in 0..b.height() {
        for x in 0..b.width() {
            if b.is_mine(x, y).unwrap() {
                v.push((x, y));
            }
        }
    }
    v
}

#[test]
fn generated_board_has_exactly_mine_count_mines() {
    let b = BoardEngine::new(16, 16, 40, 7).unwrap();
    assert_eq!(mine_positions(&b).len(), 40);
}

#[test]
fn mine_count_never_changes_after_construction() {
    let mut b = BoardEngine::new(8, 8, 10, 3).unwrap();
    let before = mine_positions(&b);
    for y in 0..8 {
        for x in 0..8 {
            b.reveal_cell(x, y).unwrap();
        }
    }
    assert_eq!(mine_positions(&b), before);
}

#[test]
fn adjacent_count_matches_independent_recount() {
    let mines = vec![(0, 0), (2, 1), (3, 3), (1, 3)];
    let b = BoardEngine::from_mines(4, 4, &mines).unwrap();
    for y in 0i64..4 {
        for x in 0i64..4 {
            let mut expected = 0u8;
            for dy in -1i64..=1 {
                for dx in -1i64..=1 {
                    if dx == 0 && dy == 0 {
                        continue;
                    }
                    let nx = x + dx;
                    let ny = y + dy;
                    if nx >= 0 && nx < 4 && ny >= 0 && ny < 4 {
                        if b.is_mine(nx as usize, ny as usize).unwrap() {
                            expected += 1;
                        }
                    }
                }
            }
            assert_eq!(b.adjacent_count(x as usize, y as usize).unwrap(), expected);
        }
    }
}

#[test]
fn adjacent_count_matches_recount_on_random_board() {
    let b = BoardEngine::new(16, 16, 40, 99).unwrap();
    for y in 0i64..16 {
        for x in 0i64..16 {
            let mut expected = 0u8;
            for dy in -1i64..=1 {
                for dx in -1i64..=1 {
                    if dx == 0 && dy == 0 {
                        continue;
                    }
                    let nx = x + dx;
                    let ny = y + dy;
                    if nx >= 0 && nx < 16 && ny >= 0 && ny < 16 {
                        if b.is_mine(nx as usize, ny as usize).unwrap() {
                            expected += 1;
                        }
                    }
                }
            }
            assert_eq!(b.adjacent_count(x as usize, y as usize).unwrap(), expected);
        }
    }
}

#[test]
fn reveal_is_idempotent_per_cell() {
    let mines = vec![(0, 0)];
    let mut b = BoardEngine::from_mines(3, 3, &mines).unwrap();
    let first = b.reveal_cell(1, 0).unwrap();
    assert!(matches!(first, RevealOutcome::Revealed));
    let after_first = snapshot(&b);
    let second = b.reveal_cell(1, 0).unwrap();
    assert!(matches!(second, RevealOutcome::AlreadyRevealed));
    assert_eq!(snapshot(&b), after_first);
    let third = b.reveal_cell(1, 0).unwrap();
    assert!(matches!(third, RevealOutcome::AlreadyRevealed));
    assert_eq!(snapshot(&b), after_first);
}

#[test]
fn flood_fill_reveals_whole_zero_region_but_not_the_mine() {
    let mines = vec![(2, 2)];
    let mut b = BoardEngine::from_mines(3, 3, &mines).unwrap();
    let outcome = b.reveal_cell(0, 0).unwrap();
    match outcome {
        RevealOutcome::Expanded { revealed_cells } => {
            assert_eq!(revealed_cells.len(), 8);
            let mut sorted = revealed_cells.clone();
            sorted.sort();
            let mut expected: Vec<(usize, usize)> = Vec::new();
            for y in 0..3 {
                for x in 0..3 {
                    if !(x == 2 && y == 2) {
                        expected.push((x, y));
                    }
                }
            }
            expected.sort();
            assert_eq!(sorted, expected);
        }
        other => panic!("expected Expanded, got {:?}", other),
    }
    for y in 0..3 {
        for x in 0..3 {
            if x == 2 && y == 2 {
                assert!(!b.is_revealed(x, y).unwrap());
            } else {
                assert!(b.is_revealed(x, y).unwrap());
            }
        }
    }
    assert_eq!(b.triggered_mine_count(), 0);
}

#[test]
fn flood_fill_stops_at_positive_counts() {
    // a single mine in the corner of a 4x4 grid: revealing the far corner
    // floods the zero region and reveals its border, but not the mine
    let mines = vec![(0, 0)];
    let mut b = BoardEngine::from_mines(4, 4, &mines).unwrap();
    let outcome = b.reveal_cell(3, 3).unwrap();
    assert!(matches!(outcome, RevealOutcome::Expanded { .. }));
    assert!(!b.is_revealed(0, 0).unwrap());
    for y in 0..4 {
        for x in 0..4 {
            if !(x == 0 && y == 0) {
                assert!(b.is_revealed(x, y).unwrap());
            }
        }
    }
}

#[test]
fn revealed_cells_stay_revealed() {
    let mut b = BoardEngine::new(8, 8, 10, 11).unwrap();
    let mut seen: Vec<(usize, usize)> = Vec::new();
    for y in 0..8 {
        for x in 0..8 {
            b.reveal_cell(x, y).unwrap();
            seen.push((x, y));
            for &(px, py) in &seen {
                assert!(b.is_revealed(px, py).unwrap());
            }
        }
    }
}

#[test]
fn revealing_a_mine_triggers_and_counts_once() {
    let mines = vec![(0, 0)];
    let mut b = BoardEngine::from_mines(2, 2, &mines).unwrap();
    // every other cell touches the mine, so no zero-count cell exists
    assert_eq!(b.adjacent_count(1, 0).unwrap(), 1);
    assert_eq!(b.adjacent_count(0, 1).unwrap(), 1);
    assert_eq!(b.adjacent_count(1, 1).unwrap(), 1);
    assert_eq!(b.triggered_mine_count(), 0);
    let first = b.reveal_cell(0, 0).unwrap();
    assert!(matches!(first, RevealOutcome::MineTriggered));
    assert_eq!(b.triggered_mine_count(), 1);
    let second = b.reveal_cell(0, 0).unwrap();
    assert!(matches!(second, RevealOutcome::AlreadyRevealed));
    assert_eq!(b.triggered_mine_count(), 1);
}

#[test]
fn out_of_bounds_coordinates_are_rejected() {
    let mines = vec![(1, 1)];
    let mut b = BoardEngine::from_mines(3, 3, &mines).unwrap();
    assert!(matches!(b.reveal_cell(3, 0), Err(BoardError::OutOfBounds)));
    assert!(matches!(b.reveal_cell(0, 3), Err(BoardError::OutOfBounds)));
    assert!(matches!(b.reveal_cell(usize::MAX, usize::MAX), Err(BoardError::OutOfBounds)));
    assert!(matches!(b.is_mine(3, 0), Err(BoardError::OutOfBounds)));
    assert!(matches!(b.is_revealed(0, 3), Err(BoardError::OutOfBounds)));
    assert!(matches!(b.adjacent_count(3, 3), Err(BoardError::OutOfBounds)));
    assert!(matches!(b.cell_text(3, 0), Err(BoardError::OutOfBounds)));
    // nothing was changed by the rejected calls
    for y in 0..3 {
        for x in 0..3 {
            assert!(!b.is_revealed(x, y).unwrap());
        }
    }
}

#[test]
fn same_seed_gives_same_layout() {
    let a = BoardEngine::new(16, 16, 40, 12345).unwrap();
    let b = BoardEngine::new(16, 16, 40, 12345).unwrap();
    assert_eq!(mine_positions(&a), mine_positions(&b));
    assert_eq!(snapshot(&a), snapshot(&b));
}

#[test]
fn different_seeds_give_different_layouts() {
    let a = BoardEngine::new(16, 16, 40, 1).unwrap();
    let b = BoardEngine::new(16, 16, 40, 2).unwrap();
    assert_ne!(mine_positions(&a), mine_positions(&b));
}

#[test]
fn invalid_configurations_are_rejected() {
    assert_eq!(
        BoardEngine::new(0, 5, 0, 1).map(|_| ()),
        Err(BoardError::InvalidConfiguration)
    );
    assert_eq!(
        BoardEngine::new(5, 0, 0, 1).map(|_| ()),
        Err(BoardError::InvalidConfiguration)
    );
    assert_eq!(
        BoardEngine::new(4, 4, 16, 1).map(|_| ()),
        Err(BoardError::InvalidConfiguration)
    );
    assert_eq!(
        BoardEngine::new(4, 4, 17, 1).map(|_| ()),
        Err(BoardError::InvalidConfiguration)
    );
    assert!(BoardEngine::new(4, 4, 15, 1).is_ok());
    assert!(BoardEngine::new(1, 1, 0, 1).is_ok());
}

#[test]
fn invalid_mine_lists_are_rejected() {
    // duplicate coordinate
    let dup = vec![(1, 1), (1, 1)];
    assert_eq!(
        BoardEngine::from_mines(3, 3, &dup).map(|_| ()),
        Err(BoardError::InvalidConfiguration)
    );
    // off-grid coordinate
    let oob = vec![(3, 0)];
    assert_eq!(
        BoardEngine::from_mines(3, 3, &oob).map(|_| ()),
        Err(BoardError::InvalidConfiguration)
    );
    // as many mines as cells
    let full = vec![(0, 0), (1, 0), (0, 1), (1, 1)];
    assert_eq!(
        BoardEngine::from_mines(2, 2, &full).map(|_| ()),
        Err(BoardError::InvalidConfiguration)
    );
}

#[test]
fn cell_text_shows_counts_only_on_revealed_cells() {
    let mines = vec![(0, 0), (2, 0)];
    let mut b = BoardEngine::from_mines(3, 1, &mines).unwrap();
    assert_eq!(b.cell_text(1, 0).unwrap(), "");
    b.reveal_cell(1, 0).unwrap();
    assert_eq!(b.cell_text(1, 0).unwrap(), "2");
}

#[test]
fn cell_text_is_empty_on_revealed_zero_count_cells() {
    let mines = vec![(2, 2)];
    let mut b = BoardEngine::from_mines(3, 3, &mines).unwrap();
    b.reveal_cell(0, 0).unwrap();
    assert_eq!(b.cell_text(0, 0).unwrap(), "");
    assert_eq!(b.cell_text(1, 1).unwrap(), "1");
}

#[test]
fn all_safe_revealed_tracks_the_win_condition() {
    let mines = vec![(0, 0)];
    let mut b = BoardEngine::from_mines(2, 2, &mines).unwrap();
    assert!(!b.all_safe_revealed());
    b.reveal_cell(1, 0).unwrap();
    b.reveal_cell(0, 1).unwrap();
    assert!(!b.all_safe_revealed());
    b.reveal_cell(1, 1).unwrap();
    assert!(b.all_safe_revealed());
    assert!(!b.is_revealed(0, 0).unwrap());
}

#[test]
fn expanded_list_has_no_duplicates_and_matches_newly_revealed() {
    let mines = vec![(4, 4)];
    let mut b = BoardEngine::from_mines(5, 5, &mines).unwrap();
    let before = snapshot(&b);
    let outcome = b.reveal_cell(0, 0).unwrap();
    match outcome {
        RevealOutcome::Expanded { revealed_cells } => {
            let mut sorted = revealed_cells.clone();
            sorted.sort();
            let mut dedup = sorted.clone();
            dedup.dedup();
            assert_eq!(sorted, dedup, "duplicate coordinates in the expansion list");
            for y in 0..5 {
                for x in 0..5 {
                    let was = before[y * 5 + x].1;
                    let now = b.is_revealed(x, y).unwrap();
                    assert_eq!(
                        revealed_cells.contains(&(x, y)),
                        now && !was,
                        "expansion list wrong at ({}, {})",
                        x,
                        y
                    );
                }
            }
        }
        other => panic!("expected Expanded, got {:?}", other),
    }
}
