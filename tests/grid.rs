use sweep::events::Config;
use sweep::grid::{adjacent, coord_from_index, index_from_coord, Increment};

#[test]
fn corner_has_three_neighbors() {
    let a: Vec<usize> = adjacent((0, 0), 3, 3).iter().collect();
    assert_eq!(a, vec![1, 3, 4]);
}

#[test]
fn center_has_eight_neighbors() {
    let a: Vec<usize> = adjacent((1, 1), 3, 3).iter().collect();
    assert_eq!(a, vec![0, 1, 2, 3, 5, 6, 7, 8]);
}

#[test]
fn edge_neighbors_do_not_wrap() {
    let a: Vec<usize> = adjacent((1, 3), 3, 4).iter().collect();
    assert_eq!(a, vec![2, 3, 6, 10, 11]);
}

#[test]
fn single_cell_has_no_neighbors() {
    assert_eq!(adjacent((0, 0), 1, 1).len(), 0);
}

#[test]
fn offsets() {
    assert_eq!(Increment::One.offset(4), 5);
    assert_eq!(Increment::NegOne.offset(4), 3);
    assert_eq!(Increment::NegOne.offset(0), 0);
    assert_eq!(Increment::Zero.offset(4), 4);
}

#[test]
fn index_and_coordinate() {
    assert_eq!(index_from_coord((2, 3), 5), 13);
    assert_eq!(coord_from_index(13, 5), (2, 3));
    assert_eq!(coord_from_index(0, 7), (0, 0));
}

#[test]
fn default_tick_rate() {
    assert_eq!(Config::new().tick_rate_millis, 250);
}
