use minesweeper::{CellState, GameError, Minesweeper, OpenResult};

#[test]
fn test() {
    let mut ms = Minesweeper::new(10, 10, 5).unwrap();

    let _ = ms.open((5, 5));
    ms.toggle_flag((6, 6));
    let _ = ms.open((6, 6));

    println!("{:?}", ms.get_state());
}

#[test]
fn new_rejects_invalid_configurations() {
    assert!(Minesweeper::new(0, 5, 0).err() == Some(GameError::InvalidConfiguration));
    assert!(Minesweeper::new(5, 0, 0).err() == Some(GameError::InvalidConfiguration));
    // the mine count must leave at least one free cell
    assert!(Minesweeper::new(2, 2, 4).err() == Some(GameError::InvalidConfiguration));
    assert!(Minesweeper::new(2, 2, 5).err() == Some(GameError::InvalidConfiguration));
    assert!(Minesweeper::new(2, 2, 3).is_ok());
    assert!(Minesweeper::new(1, 1, 0).is_ok());
    // an area too large to represent is refused as well
    assert!(Minesweeper::new(usize::MAX, 2, 1).err() == Some(GameError::InvalidConfiguration));
}

#[test]
fn reveals_never_shrink_across_operations() {
    let mut ms = Minesweeper::new(5, 5, 3).unwrap();
    let mut opened: Vec<Option<u8>> = vec![None; 25];
    let ops: [(bool, usize, usize); 8] = [
        (true, 2, 2),
        (false, 0, 0),
        (true, 0, 0),
        (false, 0, 0),
        (true, 0, 0),
        (true, 4, 4),
        (false, 1, 1),
        (true, 3, 3),
    ];
    for &(is_open, x, y) in ops.iter() {
        if is_open {
            let _ = ms.open((x, y));
        } else {
            ms.toggle_flag((x, y));
        }
        let state = ms.get_state();
        for (i, cell) in state.iter().enumerate() {
            if let CellState::Open(n) = *cell {
                if let Some(m) = opened[i] {
                    assert!(m == n);
                }
                opened[i] = Some(n);
            } else {
                // a cell revealed as safe can never revert to anything else
                assert!(opened[i].is_none());
            }
        }
    }
}

#[test]
fn one_cell_board_wins_immediately() {
    let mut ms = Minesweeper::new(1, 1, 0).unwrap();
    assert!(!ms.is_won());
    let r = ms.open((0, 0));
    assert!(r == Some(OpenResult::NoMine(0)));
    assert!(!ms.is_lost());
    assert!(ms.is_won());
    assert!(ms.get_state() == vec![CellState::Open(0)]);
}

#[test]
fn opening_a_mine_loses_and_freezes_the_board() {
    let mut ms = Minesweeper::new(2, 1, 1).unwrap();
    let first = ms.open((0, 0));
    if first == Some(OpenResult::Mine) {
        assert!(ms.is_lost());
    } else {
        // the only mine is the other cell, and this safe cell touches it
        assert!(first == Some(OpenResult::NoMine(1)));
        assert!(!ms.is_lost());
        let second = ms.open((1, 0));
        assert!(second == Some(OpenResult::Mine));
        assert!(ms.is_lost());
    }
    assert!(!ms.is_won());
    let frozen = ms.get_state();
    let _ = ms.open((0, 0));
    let _ = ms.open((1, 0));
    ms.toggle_flag((0, 0));
    ms.toggle_flag((1, 0));
    assert!(ms.get_state() == frozen);
    assert!(ms.is_lost());
    assert!(!ms.is_won());
}

#[test]
fn flag_toggling_is_an_involution() {
    let mut ms = Minesweeper::new(3, 3, 2).unwrap();
    assert!(ms.get_state()[4] == CellState::Hidden);
    ms.toggle_flag((1, 1));
    assert!(ms.get_state()[4] == CellState::Flagged);
    // a flagged cell refuses to open
    let r = ms.open((1, 1));
    assert!(r == None);
    assert!(ms.get_state()[4] == CellState::Flagged);
    ms.toggle_flag((1, 1));
    assert!(ms.get_state()[4] == CellState::Hidden);
}

#[test]
fn neighbor_geometry_counts() {
    let ms = Minesweeper::new(3, 3, 0).unwrap();
    let corner = ms.iter_neighbors((0, 0));
    let edge = ms.iter_neighbors((1, 0));
    let interior = ms.iter_neighbors((1, 1));
    assert!(corner.len() == 3);
    assert!(edge.len() == 5);
    assert!(interior.len() == 8);
    for list in [&corner, &edge, &interior] {
        for &(x, y) in list.iter() {
            assert!(x < 3 && y < 3);
        }
    }
    assert!(!corner.contains(&(0, 0)));
    assert!(!edge.contains(&(1, 0)));
    assert!(!interior.contains(&(1, 1)));
    assert!(ms.neighboring_mines((1, 1)) == 0);
}

#[test]
fn flood_fill_clears_a_mineless_board() {
    let mut ms = Minesweeper::new(3, 3, 0).unwrap();
    let r = ms.open((1, 1));
    assert!(r == Some(OpenResult::NoMine(0)));
    let state = ms.get_state();
    assert!(state.len() == 9);
    for cell in state.iter() {
        assert!(*cell == CellState::Open(0));
    }
    // every cell is accounted for without a single flag
    assert!(ms.is_won());
    assert!(!ms.is_lost());
}

#[test]
fn chording_a_settled_cell_changes_nothing() {
    let mut ms = Minesweeper::new(3, 3, 0).unwrap();
    let _ = ms.open((1, 1));
    let settled = ms.get_state();
    let r = ms.open((1, 1));
    assert!(r == None);
    assert!(ms.get_state() == settled);
}

#[test]
fn losing_reveals_exactly_the_mines() {
    let mut ms = Minesweeper::new(4, 4, 5).unwrap();
    for x in 0..4 {
        for y in 0..4 {
            let _ = ms.open((x, y));
        }
    }
    assert!(ms.is_lost());
    let state = ms.get_state();
    assert!(state.len() == 16);
    let mines = state.iter().filter(|c| **c == CellState::Mine).count();
    assert!(mines == 5);
}

#[test]
fn accounting_for_every_cell_wins() {
    let mut ms = Minesweeper::new(2, 1, 1).unwrap();
    let first = ms.open((0, 0));
    if first == Some(OpenResult::Mine) {
        assert!(ms.is_lost());
        assert!(!ms.is_won());
    } else {
        // one cell revealed, flag the remaining (mined) cell: all accounted
        ms.toggle_flag((1, 0));
        assert!(ms.is_won());
        assert!(ms.get_state() == vec![CellState::Open(1), CellState::Flagged]);
    }
}

#[test]
fn random_range_stays_in_bounds() {
    for _ in 0..100 {
        let r = minesweeper::random_range(5, 15);
        assert!((5..15).contains(&r));
    }
}
