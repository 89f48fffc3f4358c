use sweep::board::{Board, Error};

fn center_mine() -> Board {
    Board::with_mines(3, 3, &vec![4]).unwrap()
}

#[test]
fn construction_rejects_bad_sizes() {
    assert!(matches!(Board::new(0, 3, 0), Err(Error::InvalidBoard)));
    assert!(matches!(Board::new(3, 0, 0), Err(Error::InvalidBoard)));
    assert!(matches!(Board::new(2, 2, 5), Err(Error::InvalidBoard)));
    assert!(matches!(Board::new(usize::MAX, 2, 0), Err(Error::InvalidBoard)));
    assert!(matches!(Board::with_mines(3, 3, &vec![9]), Err(Error::InvalidBoard)));
}

#[test]
fn construction_allows_a_full_board() {
    let board = Board::new(2, 3, 6).unwrap();
    assert!(board.tiles.iter().all(|t| t.mine));
    assert_eq!(board.available_flags(), 6);
    assert_eq!(board.seen.len(), 0);
}

#[test]
fn repeated_mine_cells_count_once() {
    let board = Board::with_mines(3, 3, &vec![2, 2, 6]).unwrap();
    assert_eq!(board.mines, 2);
    assert!(board.tile(0, 2).unwrap().mine);
    assert!(board.tile(2, 0).unwrap().mine);
    assert_eq!(board.tile(1, 1).unwrap().adjacent_mines, 2);
}

#[test]
fn adjacency_around_a_center_mine() {
    let board = center_mine();
    for r in 0..3 {
        for c in 0..3 {
            let t = board.tile(r, c).unwrap();
            if (r, c) == (1, 1) {
                assert!(t.mine);
                assert_eq!(t.adjacent_mines, 0);
            } else {
                assert!(!t.mine);
                assert_eq!(t.adjacent_mines, 1);
            }
        }
    }
}

#[test]
fn adjacency_around_a_corner_mine() {
    let board = Board::with_mines(3, 3, &vec![0]).unwrap();
    let expected = [[0, 1, 0], [1, 1, 0], [0, 0, 0]];
    for r in 0..3 {
        for c in 0..3 {
            assert_eq!(board.tile(r, c).unwrap().adjacent_mines, expected[r][c]);
        }
    }
}

#[test]
fn flood_fill_exposes_an_empty_board() {
    let mut board = Board::new(5, 5, 0).unwrap();
    assert_eq!(board.expose((0, 0)), Ok(false));
    assert!(board.tiles.iter().all(|t| t.exposed));
    assert_eq!(board.seen.len(), 25);
    assert!(board.won());
}

#[test]
fn flood_fill_from_an_inner_cell() {
    let mut board = Board::new(4, 6, 0).unwrap();
    assert_eq!(board.expose((2, 3)), Ok(false));
    assert!(board.tiles.iter().all(|t| t.exposed));
}

#[test]
fn flood_fill_stops_at_numbered_cells() {
    let mut board = Board::with_mines(1, 5, &vec![0]).unwrap();
    assert_eq!(board.expose((0, 4)), Ok(false));
    assert!(!board.tile(0, 0).unwrap().exposed);
    for c in 1..5 {
        assert!(board.tile(0, c).unwrap().exposed);
    }
    assert_eq!(board.seen.len(), 4);
    assert!(board.won());
}

#[test]
fn flood_fill_keeps_flags() {
    let mut board = Board::with_mines(1, 5, &vec![0]).unwrap();
    assert_eq!(board.flag(0, 3), Ok(true));
    board.expose((0, 4)).unwrap();
    let t = board.tile(0, 3).unwrap();
    assert!(t.flagged);
    assert!(!t.exposed);
    assert!(board.seen.contains(3));
}

#[test]
fn mine_hit_exposes_only_the_mine() {
    let mut board = center_mine();
    assert_eq!(board.expose((1, 1)), Ok(true));
    for r in 0..3 {
        for c in 0..3 {
            assert_eq!(board.tile(r, c).unwrap().exposed, (r, c) == (1, 1));
        }
    }
    assert_eq!(board.seen.len(), 0);
}

#[test]
fn expose_out_of_range() {
    let mut board = center_mine();
    assert_eq!(board.expose((3, 0)), Err(Error::GetTile(3, 0)));
    assert_eq!(board.expose((0, 3)), Err(Error::GetTile(0, 3)));
    assert!(board.tiles.iter().all(|t| !t.exposed));
    assert!(matches!(board.tile(1, 5), Err(Error::GetTile(1, 5))));
}

#[test]
fn expose_again_changes_nothing() {
    let mut board = center_mine();
    assert_eq!(board.expose((0, 0)), Ok(false));
    assert_eq!(board.seen.len(), 1);
    let before: Vec<bool> = board.tiles.iter().map(|t| t.exposed).collect();
    assert_eq!(board.expose((0, 0)), Ok(false));
    assert_eq!(board.seen.len(), 1);
    let after: Vec<bool> = board.tiles.iter().map(|t| t.exposed).collect();
    assert_eq!(before, after);
}

#[test]
fn win_after_all_safe_cells() {
    let mut board = center_mine();
    let mut count = 0;
    for r in 0..3 {
        for c in 0..3 {
            if (r, c) != (1, 1) {
                assert!(!board.won());
                assert_eq!(board.expose((r, c)), Ok(false));
                count += 1;
            }
        }
    }
    assert_eq!(count, 8);
    assert!(board.won());
    assert_eq!(board.flag(1, 1), Ok(true));
    assert_eq!(board.available_flags(), 0);
    assert!(board.won());
}

#[test]
fn seven_of_eight_safe_cells_is_no_win() {
    let mut board = center_mine();
    for r in 0..3 {
        for c in 0..3 {
            if (r, c) != (1, 1) && (r, c) != (2, 2) {
                board.expose((r, c)).unwrap();
            }
        }
    }
    assert!(!board.won());
}

#[test]
fn flag_budget_is_the_mine_count() {
    let mut board = center_mine();
    assert_eq!(board.flag(0, 0), Ok(true));
    assert_eq!(board.available_flags(), 0);
    assert_eq!(board.flag(0, 1), Ok(true));
    assert!(!board.tile(0, 1).unwrap().flagged);
    assert_eq!(board.flagged_cells, 1);
    assert_eq!(board.correctly_flagged_mines, 0);
}

#[test]
fn flagging_a_mine_counts_it() {
    let mut board = center_mine();
    assert_eq!(board.flag(1, 1), Ok(true));
    assert_eq!(board.correctly_flagged_mines, 1);
    assert_eq!(board.flag(1, 1), Ok(false));
    assert_eq!(board.correctly_flagged_mines, 0);
    assert_eq!(board.flagged_cells, 0);
}

#[test]
fn flag_round_trip_restores_state() {
    let mut board = Board::with_mines(3, 3, &vec![4, 8]).unwrap();
    assert_eq!(board.flag(0, 2), Ok(true));
    assert_eq!(board.flag(0, 2), Ok(false));
    assert!(!board.tile(0, 2).unwrap().flagged);
    assert_eq!(board.flagged_cells, 0);
    assert_eq!(board.available_flags(), 2);
}

#[test]
fn exposed_cell_takes_no_flag() {
    let mut board = center_mine();
    board.expose((0, 0)).unwrap();
    assert_eq!(board.flag(0, 0), Ok(true));
    assert!(!board.tile(0, 0).unwrap().flagged);
    assert_eq!(board.flagged_cells, 0);
}

#[test]
fn flag_out_of_range() {
    let mut board = center_mine();
    assert_eq!(board.flag(0, 7), Err(Error::GetTile(0, 7)));
    assert_eq!(board.flagged_cells, 0);
}

#[test]
fn expose_all_reveals_every_mine() {
    let mut board = Board::with_mines(4, 4, &vec![0, 5, 15]).unwrap();
    assert_eq!(board.expose_all(), Ok(()));
    for (i, t) in board.tiles.iter().enumerate() {
        if t.mine {
            assert!(t.exposed);
        } else {
            assert!(board.seen.contains(i));
        }
    }
    assert!(board.won());
}

#[test]
fn flag_all_marks_hidden_mines() {
    let mut board = Board::with_mines(3, 3, &vec![0, 8]).unwrap();
    board.flag(1, 1).unwrap();
    board.expose((0, 0)).unwrap();
    board.flag_all();
    assert!(!board.tile(0, 0).unwrap().flagged);
    assert!(board.tile(2, 2).unwrap().flagged);
    assert!(!board.tile(1, 1).unwrap().flagged);
    assert_eq!(board.flagged_cells, 1);
    assert_eq!(board.correctly_flagged_mines, 1);
    assert_eq!(board.available_flags(), 1);
}

#[test]
fn expose_all_keeps_flagged_safe_cells_hidden() {
    let mut board = Board::with_mines(3, 3, &vec![4]).unwrap();
    assert_eq!(board.flag(0, 0), Ok(true));
    assert_eq!(board.expose_all(), Ok(()));
    let corner = board.tile(0, 0).unwrap();
    assert!(corner.flagged);
    assert!(!corner.exposed);
    assert!(board.seen.contains(0));
    for i in 1..9 {
        assert!(board.tiles[i].exposed);
    }
}

#[test]
fn expose_all_twice_changes_nothing() {
    let mut board = Board::with_mines(4, 4, &vec![3, 9]).unwrap();
    board.flag(0, 0).unwrap();
    board.expose_all().unwrap();
    let first: Vec<(bool, bool)> = board.tiles.iter().map(|t| (t.exposed, t.flagged)).collect();
    let seen_first = board.seen.len();
    board.expose_all().unwrap();
    let second: Vec<(bool, bool)> = board.tiles.iter().map(|t| (t.exposed, t.flagged)).collect();
    assert_eq!(first, second);
    assert_eq!(board.seen.len(), seen_first);
}

#[test]
fn exposed_cells_stay_exposed() {
    let mut board = Board::with_mines(1, 5, &vec![0]).unwrap();
    board.expose((0, 4)).unwrap();
    board.expose((0, 0)).unwrap();
    board.expose((0, 2)).unwrap();
    assert!(board.tiles.iter().all(|t| t.exposed));
}

#[test]
fn tile_mut_reaches_the_cell() {
    let mut board = center_mine();
    board.tile_mut(2, 1).unwrap().flagged = true;
    assert!(board.tiles[7].flagged);
    assert!(matches!(board.tile_mut(3, 1), Err(Error::GetTile(3, 1))));
}
