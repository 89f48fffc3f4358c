use sweep::board::{Board, Error};

#[test]
fn test_board_initialization() {
    let rows = 10;
    let columns = 10;
    let mines = 10;
    let board = Board::new(rows, columns, mines).unwrap();

    assert_eq!(board.rows, rows);
    assert_eq!(board.columns, columns);
    assert_eq!(board.mines, mines);
    assert_eq!(board.tiles.len(), rows * columns);
}

#[test]
fn test_mine_placement() {
    let rows = 10;
    let columns = 10;
    let mines = 10;
    let board = Board::new(rows, columns, mines).unwrap();

    let mine_count = board.tiles.iter().filter(|t| t.mine).count();
    assert_eq!(mine_count, mines);
}

#[test]
fn test_adjacency() {
    let rows = 5;
    let columns = 5;
    let mines = 5;
    let board = Board::new(rows, columns, mines).unwrap();

    for r in 0..rows {
        for c in 0..columns {
            let tile = board.tile(r, c).unwrap();
            let mut count = 0;
            for dr in -1..=1 {
                for dc in -1..=1 {
                    if dr == 0 && dc == 0 {
                        continue;
                    }
                    let nr = r as isize + dr;
                    let nc = c as isize + dc;
                    if nr >= 0 && nr < rows as isize && nc >= 0 && nc < columns as isize {
                        if board.tile(nr as usize, nc as usize).unwrap().mine {
                            count += 1;
                        }
                    }
                }
            }
            assert_eq!(tile.adjacent_mines, count, "Mismatch at ({}, {})", r, c);
        }
    }
}

#[test]
fn test_expose() {
    let rows = 5;
    let columns = 5;
    let mines = 0;
    let mut board = Board::new(rows, columns, mines).unwrap();

    board.expose((0, 0)).unwrap();

    let exposed_count = board.tiles.iter().filter(|t| t.exposed).count();
    assert_eq!(exposed_count, rows * columns);
}

#[test]
fn test_win_condition() {
    let rows = 3;
    let columns = 3;
    let mines = 1;
    let mut board = Board::new(rows, columns, mines).unwrap();

    let mut mine_coord = (0, 0);
    for r in 0..rows {
        for c in 0..columns {
            if board.tile(r, c).unwrap().mine {
                mine_coord = (r, c);
                break;
            }
        }
    }

    for r in 0..rows {
        for c in 0..columns {
            if (r, c) != mine_coord {
                board.expose((r, c)).unwrap();
            }
        }
    }

    assert!(board.won());
}

#[test]
fn test_flagging() {
    let rows = 5;
    let columns = 5;
    let mines = 5;
    let mut board = Board::new(rows, columns, mines).unwrap();

    let flags_before = board.flagged_cells;
    board.flag(0, 0).unwrap();
    assert_eq!(board.flagged_cells, flags_before + 1);
    assert!(board.tile(0, 0).unwrap().flagged);

    board.flag(0, 0).unwrap();
    assert_eq!(board.flagged_cells, flags_before);
    assert!(!board.tile(0, 0).unwrap().flagged);
}
