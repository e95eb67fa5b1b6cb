use reso::regionmap::{region_map_from_reselboard, RegionMap};
use reso::resel::Resel;
use reso::reselboard::{vecvecresel_to_reselboard, ReselBoard};

/// A board from rows of glyphs: `rows[y]` holds the cells `(0, y)`,
/// `(1, y)`, ... of one row.
fn board(rows: &[&str]) -> ReselBoard {
    let height = rows.len();
    let width = rows[0].chars().count();
    let mut cols = vec![vec![Resel::Empty; height]; width];
    for (y, row) in rows.iter().enumerate() {
        for (x, ch) in row.chars().enumerate() {
            cols[x][y] = Resel::from(ch.to_string().as_str());
        }
    }
    vecvecresel_to_reselboard(cols).unwrap()
}

/// Three by five: three wires of different colours, one wrapping around
/// the corners, and two inputs.
fn board_01() -> ReselBoard {
    board(&["O+ ", "LO+", "sss", " ss", "O O"])
}

/// Five by three: three wires, one wrapping around both edges, and two
/// inputs.
fn board_06() -> ReselBoard {
    board(&["LLLLo", " S+oo", "oSo++"])
}

/// Eight by six: two input wires, an XOR for the sum and an AND for the
/// carry, each driving an output wire.
fn board_half_adder() -> ReselBoard {
    board(&[
        "        ",
        "    =lll",
        "ooo+^   ",
        "sss+&   ",
        "    =lll",
        "        ",
    ])
}

fn dense_list(rm: &RegionMap, resel: Resel) -> &Vec<usize> {
    if resel.is_wire() {
        &rm.wire_regions
    } else if resel.is_input() {
        &rm.input_regions
    } else if resel.is_logic() {
        &rm.logic_regions
    } else if resel.is_output() {
        &rm.output_regions
    } else {
        panic!("This should not be possible to reach!")
    }
}

#[test]
fn test_regon_map_basic() {
    for rb in [
        vecvecresel_to_reselboard(vec![vec![Resel::Empty]]).unwrap(),
        board_01(),
        board_06(),
        board_half_adder(),
        board(&["O O", "   ", "O O"]),
        board(&["&^=+", "sSlL", "oOoO"]),
    ] {
        let rm = region_map_from_reselboard(&rb);

        let (width, height) = (rb.board.len(), rb.board[0].len());
        let n_regions = rm.region_to_xys.len();
        let mut accounted_xy: Vec<Vec<bool>> = vec![vec![false; height]; width];
        let mut accounted_region: Vec<bool> = vec![false; n_regions];

        assert!(n_regions >= 1);

        for region_idx in 0..n_regions {
            let resel_by_region = rm.region_to_resel[region_idx];

            for (x, y) in &rm.region_to_xys[region_idx] {
                let resel_by_coord = rb.board[*x][*y];
                assert!(resel_by_coord.same(resel_by_region));

                assert!(!accounted_xy[*x][*y]);
                accounted_xy[*x][*y] = true;

                assert_eq!(rm.xy_to_region[*x][*y], region_idx);

                if !resel_by_region.is_empty() {
                    assert_eq!(
                        region_idx,
                        dense_list(&rm, resel_by_region)[rm.reverse_dense[region_idx]]
                    )
                }
            }
        }

        for x in 0..width {
            for y in 0..height {
                assert!(accounted_xy[x][y]);
            }
        }

        for region_iterator in [
            vec![0],
            rm.wire_regions.clone(),
            rm.input_regions.clone(),
            rm.logic_regions.clone(),
            rm.output_regions.clone(),
        ] {
            for region_idx in region_iterator {
                assert!(!accounted_region[region_idx]);
                accounted_region[region_idx] = true;
            }
        }

        for region_idx in 0..n_regions {
            assert!(accounted_region[region_idx])
        }

        for region_idx in 0..n_regions {
            for rj in rm.get_adjacent_regions(region_idx) {
                assert!(rm.get_adjacent_regions(rj).contains(&region_idx));
            }
        }
    }
}

#[test]
fn test_region_map_01() {
    let rb = board_01();
    let rm = region_map_from_reselboard(&rb);

    assert_eq!(rm.xy_to_region, vec![vec![1, 2, 3, 0, 1], vec![4, 1, 3, 3, 0], vec![0, 5, 3, 3, 1]]);

    assert_eq!(
        rm.region_to_xys,
        vec![
            vec![(0, 3), (1, 4), (2, 0)],
            vec![(0, 0), (0, 4), (2, 4), (1, 1)],
            vec![(0, 1)],
            vec![(0, 2), (2, 2), (2, 3), (1, 3), (1, 2)],
            vec![(1, 0)],
            vec![(2, 1)]
        ]
    );

    assert_eq!(
        rm.region_to_resel,
        vec![
            Resel::Empty,
            Resel::WireOrangeOn,
            Resel::WireLimeOn,
            Resel::WireSapphireOff,
            Resel::Input,
            Resel::Input
        ]
    );

    assert_eq!(rm.wire_regions, vec![1, 2, 3]);
    assert_eq!(rm.input_regions, vec![4, 5]);
    assert_eq!(rm.logic_regions, Vec::<usize>::new());
    assert_eq!(rm.output_regions, Vec::<usize>::new());
    assert_eq!(rm.reverse_dense, vec![0, 0, 1, 2, 0, 1]);

    assert_eq!(rm.get_adjacent_regions(0), vec![1, 3, 4, 5]);
    assert_eq!(rm.get_adjacent_regions(1), vec![0, 2, 3, 4, 5]);
    assert_eq!(rm.get_adjacent_regions(2), vec![1, 3, 5]);
    assert_eq!(rm.get_adjacent_regions(3), vec![0, 1, 2, 5]);
    assert_eq!(rm.get_adjacent_regions(4), vec![0, 1]);
    assert_eq!(rm.get_adjacent_regions(5), vec![0, 1, 2, 3]);
}

#[test]
fn test_region_map_06() {
    let rb = board_06();
    let rm = region_map_from_reselboard(&rb);

    assert_eq!(
        rm.xy_to_region,
        vec![vec![1, 0, 2], vec![1, 3, 3], vec![1, 4, 2], vec![1, 2, 5], vec![2, 2, 5]]
    );

    assert_eq!(
        rm.region_to_xys,
        vec![
            vec![(0, 1)],
            vec![(0, 0), (1, 0), (2, 0), (3, 0)],
            vec![(0, 2), (4, 1), (3, 1), (2, 2), (4, 0)],
            vec![(1, 1), (1, 2)],
            vec![(2, 1)],
            vec![(3, 2), (4, 2)]
        ]
    );

    assert_eq!(
        rm.region_to_resel,
        vec![
            Resel::Empty,
            Resel::WireLimeOn,
            Resel::WireOrangeOff,
            Resel::WireSapphireOn,
            Resel::Input,
            Resel::Input
        ]
    );

    assert_eq!(rm.wire_regions, vec![1, 2, 3]);
    assert_eq!(rm.input_regions, vec![4, 5]);
    assert_eq!(rm.logic_regions, Vec::<usize>::new());
    assert_eq!(rm.output_regions, Vec::<usize>::new());
    assert_eq!(rm.reverse_dense, vec![0, 0, 1, 2, 0, 1]);

    assert_eq!(rm.get_adjacent_regions(0), vec![1, 2, 3]);
    assert_eq!(rm.get_adjacent_regions(1), vec![0, 2, 3, 4, 5]);
    assert_eq!(rm.get_adjacent_regions(2), vec![0, 1, 3, 4, 5]);
    assert_eq!(rm.get_adjacent_regions(3), vec![0, 1, 2, 4]);
    assert_eq!(rm.get_adjacent_regions(4), vec![1, 2, 3]);
    assert_eq!(rm.get_adjacent_regions(5), vec![1, 2]);
}

#[test]
fn test_region_map_half_adder() {
    let rb = board_half_adder();
    let rm = region_map_from_reselboard(&rb);

    assert_eq!(
        rm.xy_to_region,
        vec![
            vec![0, 0, 1, 2, 0, 0],
            vec![0, 0, 1, 2, 0, 0],
            vec![0, 0, 1, 2, 0, 0],
            vec![0, 0, 3, 3, 0, 0],
            vec![0, 4, 5, 6, 7, 0],
            vec![0, 8, 0, 0, 9, 0],
            vec![0, 8, 0, 0, 9, 0],
            vec![0, 8, 0, 0, 9, 0],
        ]
    );

    for (region_idx, expected) in [
        (1, vec![(0, 2), (1, 2), (2, 2)]),
        (2, vec![(0, 3), (1, 3), (2, 3)]),
        (3, vec![(3, 2), (3, 3)]),
        (4, vec![(4, 1)]),
        (5, vec![(4, 2)]),
        (6, vec![(4, 3)]),
        (7, vec![(4, 4)]),
        (8, vec![(5, 1), (6, 1), (7, 1)]),
        (9, vec![(5, 4), (6, 4), (7, 4)]),
    ] {
        assert_eq!(rm.region_to_xys[region_idx], expected)
    }

    assert_eq!(
        rm.region_to_resel,
        vec![
            Resel::Empty,
            Resel::WireOrangeOff,
            Resel::WireSapphireOff,
            Resel::Input,
            Resel::Output,
            Resel::XOR,
            Resel::AND,
            Resel::Output,
            Resel::WireLimeOff,
            Resel::WireLimeOff
        ]
    );

    assert_eq!(rm.wire_regions, vec![1, 2, 8, 9]);
    assert_eq!(rm.input_regions, vec![3]);
    assert_eq!(rm.logic_regions, vec![5, 6]);
    assert_eq!(rm.output_regions, vec![4, 7]);
    assert_eq!(rm.reverse_dense, vec![0, 0, 1, 0, 0, 0, 1, 1, 2, 3]);

    assert_eq!(rm.get_adjacent_regions(0), vec![1, 2, 3, 4, 5, 6, 7, 8, 9]);
    assert_eq!(rm.get_adjacent_regions(1), vec![0, 2, 3]);
    assert_eq!(rm.get_adjacent_regions(2), vec![0, 1, 3]);
    assert_eq!(rm.get_adjacent_regions(3), vec![0, 1, 2, 5, 6]);
    assert_eq!(rm.get_adjacent_regions(4), vec![0, 5, 8]);
    assert_eq!(rm.get_adjacent_regions(5), vec![0, 3, 4, 6]);
    assert_eq!(rm.get_adjacent_regions(6), vec![0, 3, 5, 7]);
    assert_eq!(rm.get_adjacent_regions(7), vec![0, 6, 9]);
    assert_eq!(rm.get_adjacent_regions(8), vec![0, 4]);
    assert_eq!(rm.get_adjacent_regions(9), vec![0, 7]);
}

#[test]
fn wire_across_the_edges_is_one_region() {
    // The orange pixels sit in the first and last columns and rows only.
    let rm = region_map_from_reselboard(&board(&["O  o", "    ", "    ", "o  O"]));
    assert_eq!(rm.wire_regions, vec![1]);
    assert_eq!(rm.region_to_xys[1].len(), 4);
    assert_eq!(rm.region_to_resel[1], Resel::WireOrangeOn);
    let rm = region_map_from_reselboard(&board(&["+  +", "    "]));
    assert_eq!(rm.input_regions, vec![1]);
    // Non-wire classes only join orthogonally, also across the edges.
    let rm = region_map_from_reselboard(&board(&["+   ", "   +"]));
    assert_eq!(rm.input_regions, vec![1, 2]);
}

#[test]
fn empty_cells_stay_in_region_zero() {
    let rb = board(&["  O ", " O  ", "    "]);
    let rm = region_map_from_reselboard(&rb);
    for x in 0..rb.width {
        for y in 0..rb.height {
            assert_eq!(rb.board[x][y] == Resel::Empty, rm.xy_to_region[x][y] == 0);
        }
    }
    assert_eq!(rm.region_to_xys[0].len(), 10);
    assert_eq!(rm.region_to_resel[0], Resel::Empty);
    for list in [&rm.wire_regions, &rm.input_regions, &rm.logic_regions, &rm.output_regions] {
        assert!(!list.contains(&0));
    }
    // Diagonal orange pixels form one wire; its class is its first pixel's.
    assert_eq!(rm.wire_regions, vec![1]);
}

#[test]
fn mixed_wire_region_takes_the_first_pixel_state() {
    let rm = region_map_from_reselboard(&board(&["oOOO"]));
    assert_eq!(rm.region_to_resel, vec![Resel::Empty, Resel::WireOrangeOff]);
    let rm = region_map_from_reselboard(&board(&["Oooo"]));
    assert_eq!(rm.region_to_resel, vec![Resel::Empty, Resel::WireOrangeOn]);
}

#[test]
fn different_colours_and_classes_do_not_merge() {
    let rm = region_map_from_reselboard(&board(&["osl ", "&^= ", "+=+ "]));
    assert_eq!(rm.region_to_xys.len(), 10);
    assert_eq!(rm.region_to_xys[0].len(), 3);
    assert_eq!(rm.wire_regions.len(), 3);
    assert_eq!(rm.logic_regions.len(), 2);
    assert_eq!(rm.input_regions.len(), 2);
    assert_eq!(rm.output_regions.len(), 2);
}
