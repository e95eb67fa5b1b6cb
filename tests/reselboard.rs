use std::collections::HashSet;

use reso::resel::Resel;
use reso::reselboard::{delta_to_neighbor, get_neighbors, vecvecresel_to_reselboard, BoardError};

#[test]
fn test_delta_to_neighbor() {
    for (x, y, dx, dy, width, height, wrap, expected) in [
        // Base case
        (0, 0, 0, 0, 1, 1, true, Some((0, 0))),
        // Generic cases
        (11, 11, 1, 0, 100, 100, true, Some((12, 11))),
        (11, 11, 0, 0, 100, 100, true, Some((11, 11))),
        (11, 11, -1, -1, 100, 100, true, Some((10, 10))),
        (11, 11, -1, 1, 100, 100, true, Some((10, 12))),
        (11, 11, 1, 0, 100, 100, false, Some((12, 11))),
        (11, 11, 0, 0, 100, 100, false, Some((11, 11))),
        (11, 11, -1, -1, 100, 100, false, Some((10, 10))),
        (11, 11, -1, 1, 100, 100, false, Some((10, 12))),
        // Cases forcing a wrap (from each border/corner)
        (0, 0, -1, 0, 100, 100, true, Some((99, 0))),
        (0, 0, -1, -1, 100, 100, true, Some((99, 99))),
        (0, 0, 0, -1, 100, 100, true, Some((0, 99))),
        (99, 0, 1, 0, 100, 100, true, Some((0, 0))),
        (99, 0, 1, -1, 100, 100, true, Some((0, 99))),
        (99, 0, 0, -1, 100, 100, true, Some((99, 99))),
        (0, 99, -1, 0, 100, 100, true, Some((99, 99))),
        (0, 99, -1, 1, 100, 100, true, Some((99, 0))),
        (0, 99, 0, 1, 100, 100, true, Some((0, 0))),
        (99, 99, 1, 0, 100, 100, true, Some((0, 99))),
        (99, 99, 1, 1, 100, 100, true, Some((0, 0))),
        (99, 99, 0, 1, 100, 100, true, Some((99, 0))),
        // Cases forcing a wrap but wrap=false
        (0, 0, -1, 0, 100, 100, false, None),
        (0, 0, -1, -1, 100, 100, false, None),
        (0, 0, 0, -1, 100, 100, false, None),
        (99, 0, 1, 0, 100, 100, false, None),
        (99, 0, 1, -1, 100, 100, false, None),
        (99, 0, 0, -1, 100, 100, false, None),
        (0, 99, -1, 0, 100, 100, false, None),
        (0, 99, -1, 1, 100, 100, false, None),
        (0, 99, 0, 1, 100, 100, false, None),
        (99, 99, 1, 0, 100, 100, false, None),
        (99, 99, 1, 1, 100, 100, false, None),
        (99, 99, 0, 1, 100, 100, false, None),
        // Cases added during debug
        (0, 0, 0, -1, 3, 5, true, Some((0, 4))),
    ] {
        assert_eq!(delta_to_neighbor(x, y, dx, dy, width, height, wrap), expected)
    }
}

#[test]
fn delta_to_neighbor_wraps_large_offsets() {
    assert_eq!(delta_to_neighbor(1, 1, -7, 12, 5, 5, true), Some((4, 3)));
    assert_eq!(delta_to_neighbor(2, 2, 10, -10, 5, 5, true), Some((2, 2)));
    assert_eq!(
        delta_to_neighbor(usize::MAX - 1, 0, isize::MAX, 0, usize::MAX, 1, true),
        Some(((isize::MAX as usize) - 1, 0))
    );
    assert_eq!(delta_to_neighbor(3, 3, 5, 0, 4, 4, false), None);
}

#[test]
fn test_get_neighbors() {
    for (resel, x, y, width, height, neighbors) in [
        (Resel::Empty, 0, 0, 1, 1, Vec::<(usize, usize)>::new()),
        (Resel::AND, 4, 4, 10, 10, vec![(4, 5), (5, 4), (3, 4), (4, 3)]),
        (
            Resel::WireOrangeOn,
            4,
            4,
            10,
            10,
            vec![(4, 5), (5, 4), (3, 4), (4, 3), (5, 5), (5, 3), (3, 5), (3, 3)],
        ),
        (Resel::Input, 0, 4, 10, 10, vec![(0, 5), (1, 4), (9, 4), (0, 3)]),
        (
            Resel::WireLimeOff,
            4,
            0,
            10,
            10,
            vec![(4, 1), (5, 0), (3, 0), (4, 9), (5, 1), (5, 9), (3, 1), (3, 9)],
        ),
        (Resel::AND, 0, 0, 3, 5, vec![(0, 1), (1, 0), (2, 0), (0, 4)]),
        (Resel::AND, 2, 4, 3, 5, vec![(0, 4), (2, 0), (1, 4), (2, 3)]),
        (
            Resel::WireOrangeOn,
            0,
            0,
            3,
            5,
            vec![(1, 0), (1, 1), (0, 1), (2, 1), (2, 0), (2, 4), (0, 4), (1, 4)],
        ),
        (
            Resel::WireOrangeOn,
            2,
            4,
            3,
            5,
            vec![(0, 4), (0, 0), (2, 0), (1, 0), (1, 4), (1, 3), (2, 3), (0, 3)],
        ),
    ] {
        let neighbors_1: HashSet<(usize, usize)> =
            get_neighbors(resel.delta_neighbors(), x, y, width, height).into_iter().collect();
        let neighbors_2: HashSet<(usize, usize)> = neighbors.into_iter().collect();
        assert_eq!(neighbors_1, neighbors_2);
    }
}

#[test]
fn get_neighbors_keeps_offset_order() {
    assert_eq!(
        get_neighbors(vec![(1, 0), (0, 1), (-1, 0), (0, -1)], 0, 0, 3, 5),
        vec![(1, 0), (0, 1), (2, 0), (0, 4)]
    );
}

#[test]
fn board_neighbors_follow_the_cell_class() {
    let rb = vecvecresel_to_reselboard(vec![
        vec![Resel::WireOrangeOn, Resel::AND],
        vec![Resel::Empty, Resel::Input],
        vec![Resel::Empty, Resel::Empty],
    ])
    .unwrap();
    assert_eq!(rb.width, 3);
    assert_eq!(rb.height, 2);
    assert_eq!(rb.get_neighbors(0, 0).len(), 8);
    assert_eq!(rb.get_neighbors(0, 1), vec![(1, 1), (0, 0), (2, 1), (0, 0)]);
    assert!(rb.get_neighbors(1, 0).is_empty());
}

#[test]
fn empty_and_ragged_grids_are_refused() {
    assert_eq!(vecvecresel_to_reselboard(vec![]).unwrap_err(), BoardError::Empty);
    assert_eq!(vecvecresel_to_reselboard(vec![vec![]]).unwrap_err(), BoardError::Empty);
    assert_eq!(
        vecvecresel_to_reselboard(vec![vec![Resel::Empty, Resel::AND], vec![Resel::Input]]).unwrap_err(),
        BoardError::NotRectangular
    );
    let rb = vecvecresel_to_reselboard(vec![vec![Resel::Empty]]).unwrap();
    assert_eq!((rb.width, rb.height), (1, 1));
}
