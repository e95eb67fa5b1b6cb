//! The five directed incidence relations between dense indices that a tick
//! of the circuit reads:
//!
//! - `input_inc_wires[i]`: the wires touching input `i`;
//! - `logic_inc_inputs[l]`: the inputs touching logic gate `l`;
//! - `output_inc_inputs[o]`: the inputs touching output `o`;
//! - `output_inc_logics[o]`: the logic gates touching output `o`;
//! - `wire_inc_outputs[w]`: the outputs touching wire `w`.
//!
//! Each list holds dense indices of the target kind in increasing order.
//! "Touching" is region adjacency: a shared orthogonal grid edge.
use vstd::prelude::*;
use crate::resel::Resel;
use crate::regionmap::{RegionMap, kind_of, strictly_sorted};

verus! {

/// The incidence relations of a compiled grid, over dense indices.
#[derive(Debug, Clone)]
pub struct IncidenceMap {
    pub input_inc_wires: Vec<Vec<usize>>,
    pub logic_inc_inputs: Vec<Vec<usize>>,
    pub output_inc_inputs: Vec<Vec<usize>>,
    pub output_inc_logics: Vec<Vec<usize>>,
    pub wire_inc_outputs: Vec<Vec<usize>>,
}

/// `rel` gives, for each region of kind `src` by dense index, the dense
/// indices of the regions of kind `dst` adjacent to it, in increasing order.
pub open spec fn relates(rm: &RegionMap, rel: Seq<Vec<usize>>, src: int, dst: int) -> bool {
    &&& rel.len() == rm.dense(src).len()
    &&& forall|i: int| 0 <= i < rel.len() ==> strictly_sorted(#[trigger] rel[i]@)
    &&& forall|i: int, j: usize|
        0 <= i < rel.len() ==> ((#[trigger] rel[i]@.contains(j)) <==> j < rm.dense(dst).len()
            && rm.adjacent(rm.dense(src)[i] as int, rm.dense(dst)[j as int] as int))
}

impl IncidenceMap {
    /// The five relations are those of `rm`: wires into inputs, inputs into
    /// logic gates, inputs into outputs, logic gates into outputs, outputs
    /// into wires.
    pub open spec fn built_from(&self, rm: &RegionMap) -> bool {
        &&& relates(rm, self.input_inc_wires@, 1, 0)
        &&& relates(rm, self.logic_inc_inputs@, 2, 1)
        &&& relates(rm, self.output_inc_inputs@, 3, 1)
        &&& relates(rm, self.output_inc_logics@, 3, 2)
        &&& relates(rm, self.wire_inc_outputs@, 0, 3)
    }
}

/// The dense list a class belongs to (see [`kind_of`]).
fn kind_index(r: Resel) -> (k: usize)
    ensures
        k == kind_of(r),
{
    if r.is_wire() {
        0
    } else if r.is_input() {
        1
    } else if r.is_logic() {
        2
    } else if r.is_output() {
        3
    } else {
        4
    }
}

/// For each region of `sources` (the dense list of kind `src`), the dense
/// indices of its adjacent regions of kind `dst`.
fn incident(rm: &RegionMap, sources: &Vec<usize>, src: usize, dst: usize) -> (rel: Vec<Vec<usize>>)
    requires
        rm.wf(),
        src < 4,
        dst < 4,
        sources@ == rm.dense(src as int),
    ensures
        relates(rm, rel@, src as int, dst as int),
{
    let ghost dl = rm.dense(dst as int);
    let mut rel: Vec<Vec<usize>> = Vec::new();
    let mut i: usize = 0;
    while i < sources.len()
        invariant
            rm.wf(),
            src < 4,
            dst < 4,
            sources@ == rm.dense(src as int),
            dl == rm.dense(dst as int),
            0 <= i <= sources@.len(),
            rel@.len() == i,
            forall|i2: int| 0 <= i2 < i ==> strictly_sorted(#[trigger] rel@[i2]@),
            forall|i2: int, j: usize|
                0 <= i2 < i ==> ((#[trigger] rel@[i2]@.contains(j)) <==> j < dl.len() && rm.adjacent(
                    sources@[i2] as int,
                    dl[j as int] as int,
                )),
        decreases sources@.len() - i,
    {
        let ri = sources[i];
        proof {
            assert(1 <= ri < rm.n_regions());
        }
        let adj = rm.get_adjacent_regions(ri);
        let mut row: Vec<usize> = Vec::new();
        let mut t: usize = 0;
        while t < adj.len()
            invariant
                rm.wf(),
                dst < 4,
                dl == rm.dense(dst as int),
                strictly_sorted(adj@),
                forall|b: usize| adj@.contains(b) <==> rm.adjacent(ri as int, b as int),
                0 <= t <= adj@.len(),
                strictly_sorted(row@),
                forall|p: int, t2: int|
                    #![trigger row@[p], adj@[t2]]
                    0 <= p < row@.len() && t <= t2 < adj@.len() ==> dl[row@[p] as int] < adj@[t2],
                forall|p: int| 0 <= p < row@.len() ==> #[trigger] row@[p] < dl.len(),
                forall|j: usize|
                    row@.contains(j) <==> exists|t2: int|
                        0 <= t2 < t && kind_of(rm.class_of(adj@[t2] as int)) == dst
                            && #[trigger] rm.reverse_dense@[adj@[t2] as int] == j,
            decreases adj@.len() - t,
        {
            let a = adj[t];
            proof {
                assert(adj@.contains(a));
                assert(rm.adjacent(ri as int, a as int));
            }
            let ghost before = row@;
            if kind_index(rm.region_to_resel[a]) == dst {
                let d = rm.reverse_dense[a];
                proof {
                    assert(a < rm.n_regions());
                    assert(rm.class_of(a as int) != Resel::Empty);
                    assert(a >= 1);
                    assert(d < dl.len() && dl[d as int] == a);
                    assert forall|p: int| 0 <= p < row@.len() implies row@[p] < d by {
                        assert(dl[row@[p] as int] < a);
                        if row@[p] >= d {
                            if row@[p] > d {
                                assert(dl[d as int] < dl[row@[p] as int]);
                            }
                        }
                    }
                }
                row.push(d);
                proof {
                    assert forall|j: usize|
                        row@.contains(j) <==> exists|t2: int|
                            0 <= t2 < t + 1 && kind_of(rm.class_of(adj@[t2] as int)) == dst
                                && #[trigger] rm.reverse_dense@[adj@[t2] as int] == j by {
                        if row@.contains(j) && j != d {
                            let p = choose|p: int| 0 <= p < row@.len() && row@[p] == j;
                            assert(before[p] == j);
                            assert(before.contains(j));
                        }
                        if j == d {
                            assert(row@[row@.len() - 1] == d);
                            assert(rm.reverse_dense@[adj@[t as int] as int] == j);
                        }
                        if exists|t2: int|
                            0 <= t2 < t + 1 && kind_of(rm.class_of(adj@[t2] as int)) == dst
                                && #[trigger] rm.reverse_dense@[adj@[t2] as int] == j {
                            if j != d {
                                let t2 = choose|t2: int|
                                    0 <= t2 < t + 1 && kind_of(rm.class_of(adj@[t2] as int)) == dst
                                        && #[trigger] rm.reverse_dense@[adj@[t2] as int] == j;
                                assert(t2 < t);
                                assert(before.contains(j));
                                let p = choose|p: int| 0 <= p < before.len() && before[p] == j;
                                assert(row@[p] == j);
                            }
                        }
                    }
                    assert forall|p: int, t2: int|
                        #![trigger row@[p], adj@[t2]]
                        0 <= p < row@.len() && t + 1 <= t2 < adj@.len() implies dl[row@[p] as int]
                            < adj@[t2] by {
                        if p < before.len() {
                            assert(dl[before[p] as int] < adj@[t2]);
                        }
                    }
                }
            } else {
                proof {
                    assert forall|j: usize|
                        row@.contains(j) <==> exists|t2: int|
                            0 <= t2 < t + 1 && kind_of(rm.class_of(adj@[t2] as int)) == dst
                                && #[trigger] rm.reverse_dense@[adj@[t2] as int] == j by {
                        if exists|t2: int|
                            0 <= t2 < t + 1 && kind_of(rm.class_of(adj@[t2] as int)) == dst
                                && #[trigger] rm.reverse_dense@[adj@[t2] as int] == j {
                            let t2 = choose|t2: int|
                                0 <= t2 < t + 1 && kind_of(rm.class_of(adj@[t2] as int)) == dst
                                    && #[trigger] rm.reverse_dense@[adj@[t2] as int] == j;
                            assert(t2 < t);
                        }
                    }
                }
            }
            t = t + 1;
        }
        proof {
            assert forall|j: usize|
                (#[trigger] row@.contains(j)) <==> j < dl.len() && rm.adjacent(
                    ri as int,
                    dl[j as int] as int,
                ) by {
                if row@.contains(j) {
                    let t2 = choose|t2: int|
                        0 <= t2 < adj@.len() && kind_of(rm.class_of(adj@[t2] as int)) == dst
                            && #[trigger] rm.reverse_dense@[adj@[t2] as int] == j;
                    let a = adj@[t2];
                    assert(adj@.contains(a));
                    assert(rm.adjacent(ri as int, a as int));
                    let (c, k) = choose|c: (usize, usize), k: int|
                        rm.in_grid(c) && rm.region_at(c) == ri && 0 <= k < 4 && #[trigger] rm.region_at(
                            rm.ortho_nb(c, k),
                        ) == a;
                    assert(a >= 1);
                    assert(dl[j as int] == a);
                }
                if j < dl.len() && rm.adjacent(ri as int, dl[j as int] as int) {
                    let a = dl[j as int];
                    assert(adj@.contains(a));
                    let t2 = choose|t2: int| 0 <= t2 < adj@.len() && adj@[t2] == a;
                    assert(rm.reverse_dense@[adj@[t2] as int] == j);
                }
            }
        }
        rel.push(row);
        proof {
            assert(rel@[i as int]@ == row@);
        }
        i = i + 1;
    }
    rel
}

/// Builds the five incidence relations of a labelled grid.
pub fn incidencemap_from_regionmap(rm: &RegionMap) -> (im: IncidenceMap)
    requires
        rm.wf(),
    ensures
        im.built_from(rm),
{
    proof {
        assert(rm.dense(0) == rm.wire_regions@);
        assert(rm.dense(1) == rm.input_regions@);
        assert(rm.dense(2) == rm.logic_regions@);
        assert(rm.dense(3) == rm.output_regions@);
    }
    IncidenceMap {
        input_inc_wires: incident(rm, &rm.input_regions, 1, 0),
        logic_inc_inputs: incident(rm, &rm.logic_regions, 2, 1),
        output_inc_inputs: incident(rm, &rm.output_regions, 3, 1),
        output_inc_logics: incident(rm, &rm.output_regions, 3, 2),
        wire_inc_outputs: incident(rm, &rm.wire_regions, 0, 3),
    }
}

} // verus!
