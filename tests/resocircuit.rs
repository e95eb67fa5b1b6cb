use reso::incidencemap::incidencemap_from_regionmap;
use reso::regionmap::region_map_from_reselboard;
use reso::resel::Resel;
use reso::reselboard::{vecvecresel_to_reselboard, ReselBoard};
use reso::resocircuit::ResoCircuit;

fn board(rows: &[&str]) -> ReselBoard {
    let height = rows.len();
    let width = rows[0].chars().count();
    let mut cols = vec![vec![Resel::Empty; height]; width];
    for (y, row) in rows.iter().enumerate() {
        for (x, ch) in row.chars().enumerate() {
            cols[x][y] = Resel::from(ch.to_string().as_str());
        }
    }
    vecvecresel_to_reselboard(cols).unwrap()
}

/// A half adder whose first input wire holds itself on through an input and
/// an output touching each other; the second input wire has no driver.
/// Wires by dense index: A (orange), B (sapphire), sum, carry.
fn half_adder_rows() -> [&'static str; 6] {
    [
        "         ",
        " =+  =LLL",
        " OOO+^   ",
        " SSS+&   ",
        "     =LLL",
        "         ",
    ]
}

#[test]
fn test_iterate_halfadder() {
    let mut rc = ResoCircuit::new(board(&half_adder_rows()));

    for (ri, state) in [(0, true), (1, true), (2, true), (3, true)] {
        assert_eq!(rc.wire_state[ri], state)
    }

    rc.iterate();
    rc.update_pixels();
    for (ri, state) in [(0, true), (1, false), (2, false), (3, true)] {
        assert_eq!(rc.wire_state[ri], state)
    }
    assert_eq!(
        board(&[
            "         ",
            " =+  =lll",
            " OOO+^   ",
            " sss+&   ",
            "     =LLL",
            "         ",
        ])
        .board,
        rc.rb.board
    );

    rc.iterate();
    rc.update_pixels();
    for (ri, state) in [(0, true), (1, false), (2, true), (3, false)] {
        assert_eq!(rc.wire_state[ri], state)
    }
    assert_eq!(
        board(&[
            "         ",
            " =+  =LLL",
            " OOO+^   ",
            " sss+&   ",
            "     =lll",
            "         ",
        ])
        .board,
        rc.rb.board
    );
}

#[test]
fn half_adder_truth_table() {
    for (a, b, sum, carry) in [
        ('o', 's', false, false),
        ('O', 's', true, false),
        ('o', 'S', true, false),
        ('O', 'S', false, true),
    ] {
        let row2 = format!("{}{}{}+^   ", a, a, a);
        let row3 = format!("{}{}{}+&   ", b, b, b);
        let mut rc = ResoCircuit::new(board(&[
            "        ",
            "    =lll",
            row2.as_str(),
            row3.as_str(),
            "    =lll",
            "        ",
        ]));
        rc.iterate();
        assert_eq!(rc.wire_state[2], sum);
        assert_eq!(rc.wire_state[3], carry);
        // Nothing drives the two input wires.
        assert!(!rc.wire_state[0] && !rc.wire_state[1]);
    }
}

#[test]
fn identical_circuits_tick_identically() {
    let mut a = ResoCircuit::new(board(&half_adder_rows()));
    let mut b = ResoCircuit::new(board(&half_adder_rows()));
    for _ in 0..5 {
        a.iterate();
        b.iterate();
        assert_eq!(a.wire_state, b.wire_state);
    }
}

#[test]
fn acyclic_circuit_reaches_a_fixed_point() {
    // A chain: wire -> input -> output -> wire -> input -> output -> wire.
    let mut rc = ResoCircuit::new(board(&["         ", " L+=l+=l ", "         "]));
    let mut states = vec![rc.wire_state.clone()];
    for _ in 0..4 {
        rc.iterate();
        states.push(rc.wire_state.clone());
    }
    assert_eq!(states[0], vec![true, false, false]);
    assert_eq!(states[1], vec![false, true, false]);
    assert_eq!(states[2], vec![false, false, true]);
    assert_eq!(states[3], vec![false, false, false]);
    assert_eq!(states[4], states[3]);
}

#[test]
fn feedback_loop_oscillates() {
    // An XOR gate reads the sapphire wire it drives, together with an
    // orange wire that holds itself on: the sapphire wire toggles each tick.
    let mut rc = ResoCircuit::new(board(&[
        "         ",
        " =+      ",
        " OOO+^=  ",
        "   S+ S  ",
        "   SSSS  ",
        "         ",
    ]));
    assert_eq!(rc.im.input_inc_wires, vec![vec![0], vec![0, 1]]);
    let first = rc.wire_state.clone();
    rc.iterate();
    let second = rc.wire_state.clone();
    rc.iterate();
    let third = rc.wire_state.clone();
    assert_ne!(first, second);
    assert_eq!(first, third);
}

#[test]
fn logic_gate_ors_its_input_groups() {
    // An AND gate touching two separate inputs: one reads a lit wire, the
    // other an unlit one. Each group is reduced on its own, then ORed.
    let mut rc = ResoCircuit::new(board(&[
        "      ",
        " L+   ",
        "  &=s ",
        " o+   ",
        "      ",
    ]));
    assert_eq!(rc.rm.logic_regions.len(), 1);
    assert_eq!(rc.im.logic_inc_inputs, vec![vec![0, 1]]);
    rc.iterate();
    let s = rc.rm.reverse_dense[rc.rm.xy_to_region[4][2]];
    assert!(rc.wire_state[s]);
}

#[test]
fn rendering_touches_only_wire_cells() {
    let mut rc = ResoCircuit::new(board(&half_adder_rows()));
    let before = rc.rb.board.clone();
    rc.update_pixels();
    assert_eq!(rc.rb.board, before);
    rc.iterate();
    rc.update_pixels();
    for x in 0..rc.rb.width {
        for y in 0..rc.rb.height {
            let old = before[x][y];
            let new = rc.rb.board[x][y];
            if old.is_wire() {
                assert!(new.same(old));
            } else {
                assert_eq!(new, old);
            }
        }
    }
}

#[test]
fn compiled_circuit_holds_the_grid_region_map() {
    let rb = board(&half_adder_rows());
    let rm = region_map_from_reselboard(&rb);
    let im = incidencemap_from_regionmap(&rm);
    let rc = ResoCircuit::new(rb);
    assert_eq!(rc.rm.xy_to_region, rm.xy_to_region);
    assert_eq!(rc.rm.region_to_xys, rm.region_to_xys);
    assert_eq!(rc.rm.region_to_resel, rm.region_to_resel);
    assert_eq!(rc.rm.wire_regions, rm.wire_regions);
    assert_eq!(rc.rm.input_regions, rm.input_regions);
    assert_eq!(rc.rm.logic_regions, rm.logic_regions);
    assert_eq!(rc.rm.output_regions, rm.output_regions);
    assert_eq!(rc.rm.reverse_dense, rm.reverse_dense);
    assert_eq!(rc.im.input_inc_wires, im.input_inc_wires);
    assert_eq!(rc.im.logic_inc_inputs, im.logic_inc_inputs);
    assert_eq!(rc.im.output_inc_inputs, im.output_inc_inputs);
    assert_eq!(rc.im.output_inc_logics, im.output_inc_logics);
    assert_eq!(rc.im.wire_inc_outputs, im.wire_inc_outputs);
    for (w, &r) in rc.rm.wire_regions.iter().enumerate() {
        assert_eq!(Some(rc.wire_state[w]), rc.rm.region_to_resel[r].wire_state());
    }
}
