use reso::incidencemap::incidencemap_from_regionmap;
use reso::regionmap::region_map_from_reselboard;
use reso::resel::Resel;
use reso::reselboard::{vecvecresel_to_reselboard, ReselBoard};

fn board(rows: &[&str]) -> ReselBoard {
    let height = rows.len();
    let width = rows[0].chars().count();
    let mut cols = vec![vec![Resel::Empty; height]; width];
    for (y, row) in rows.iter().enumerate() {
        for (x, ch) in row.chars().enumerate() {
            cols[x][y] = Resel::from(ch.to_string().as_str());
        }
    }
    vecvecresel_to_reselboard(cols).unwrap()
}

#[test]
fn test_incident_map_on_half_adder() {
    let rb = board(&[
        "        ",
        "    =lll",
        "ooo+^   ",
        "sss+&   ",
        "    =lll",
        "        ",
    ]);

    let rm = region_map_from_reselboard(&rb);
    let im = incidencemap_from_regionmap(&rm);

    assert_eq!(im.input_inc_wires, vec![vec![0, 1]]);
    assert_eq!(im.logic_inc_inputs, vec![vec![0], vec![0]]);
    assert_eq!(im.output_inc_inputs, vec![Vec::<usize>::new(), vec![]]);
    assert_eq!(im.output_inc_logics, vec![vec![0], vec![1],]);
    assert_eq!(im.wire_inc_outputs, vec![vec![], vec![], vec![0], vec![1],]);
}

#[test]
fn incidences_are_sorted_dense_indices() {
    // The input touches the orange and lime wires (dense 0 and 1) and the
    // output; the output drives the sapphire wire (dense 2).
    let rb = board(&[
        "      ",
        " o+=s ",
        " l+   ",
        "      ",
    ]);
    let rm = region_map_from_reselboard(&rb);
    let im = incidencemap_from_regionmap(&rm);
    assert_eq!(rm.wire_regions.len(), 3);
    assert_eq!(rm.input_regions.len(), 1);
    assert_eq!(rm.output_regions.len(), 1);
    assert_eq!(im.input_inc_wires, vec![vec![0, 1]]);
    assert_eq!(im.output_inc_inputs, vec![vec![0]]);
    assert_eq!(im.wire_inc_outputs, vec![vec![], vec![], vec![0]]);
    assert!(im.logic_inc_inputs.is_empty());
    assert_eq!(im.output_inc_logics, vec![Vec::<usize>::new()]);
}
