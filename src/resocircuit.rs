//! A compiled circuit and its tick of evaluation.
//!
//! Only `wire_state` persists between ticks. A tick runs five passes in
//! order over transient buffers that start all false:
//!
//! 1. each input records the state of every wire touching it, one value per
//!    wire;
//! 2. each logic gate reduces each touching input's values with AND
//!    (identity true) or XOR (identity false), by its class, and ORs those
//!    reductions together;
//! 3. each output ORs together the values of every touching input;
//! 4. each output also ORs in the value of every touching logic gate;
//! 5. each wire becomes the OR of the touching outputs.
use vstd::prelude::*;
use crate::grid::{at, set_at};
use crate::resel::Resel;
use crate::reselboard::ReselBoard;
use crate::regionmap::{RegionMap, region_map_from_reselboard, kind_of, lemma_sorted_unique};
use crate::incidencemap::{IncidenceMap, incidencemap_from_regionmap, relates};

verus! {

/// All of `s` is true (true when `s` is empty).
pub open spec fn all_true(s: Seq<bool>) -> bool {
    forall|p: int| 0 <= p < s.len() ==> s[p]
}

/// Some element of `s` is true (false when `s` is empty).
pub open spec fn any_true(s: Seq<bool>) -> bool {
    exists|p: int| 0 <= p < s.len() && s[p]
}

/// The XOR of all of `s` (false when `s` is empty).
pub open spec fn parity(s: Seq<bool>) -> bool
    decreases s.len(),
{
    if s.len() == 0 {
        false
    } else {
        parity(s.drop_last()) != s.last()
    }
}

/// What a logic gate of class `kind` makes of one input's values.
pub open spec fn gate(kind: Resel, s: Seq<bool>) -> bool {
    if kind == Resel::AND {
        all_true(s)
    } else {
        parity(s)
    }
}

/// The values that input `ii` records: the state of each wire touching it.
pub open spec fn input_values(im: &IncidenceMap, ws: Seq<bool>, ii: int) -> Seq<bool> {
    Seq::new(im.input_inc_wires@[ii]@.len(), |p: int| ws[im.input_inc_wires@[ii]@[p] as int])
}

/// The reduction, by logic gate `li`, of the `k`-th input touching it.
pub open spec fn logic_term(rm: &RegionMap, im: &IncidenceMap, ws: Seq<bool>, li: int, k: int) -> bool {
    gate(
        rm.class_of(rm.logic_regions@[li] as int),
        input_values(im, ws, im.logic_inc_inputs@[li]@[k] as int),
    )
}

/// The value of logic gate `li`: the OR of its reductions.
pub open spec fn logic_value(rm: &RegionMap, im: &IncidenceMap, ws: Seq<bool>, li: int) -> bool {
    exists|k: int| 0 <= k < im.logic_inc_inputs@[li]@.len() && #[trigger] logic_term(rm, im, ws, li, k)
}

/// Whether the `k`-th input touching output `oi` has a true value.
pub open spec fn output_input_term(im: &IncidenceMap, ws: Seq<bool>, oi: int, k: int) -> bool {
    any_true(input_values(im, ws, im.output_inc_inputs@[oi]@[k] as int))
}

/// The value of the `k`-th logic gate touching output `oi`.
pub open spec fn output_logic_term(
    rm: &RegionMap,
    im: &IncidenceMap,
    ws: Seq<bool>,
    oi: int,
    k: int,
) -> bool {
    logic_value(rm, im, ws, im.output_inc_logics@[oi]@[k] as int)
}

/// The value of output `oi`: the OR of its inputs' values and its logic
/// gates' values.
pub open spec fn output_value(rm: &RegionMap, im: &IncidenceMap, ws: Seq<bool>, oi: int) -> bool {
    (exists|k: int|
        0 <= k < im.output_inc_inputs@[oi]@.len() && #[trigger] output_input_term(im, ws, oi, k))
        || (exists|k: int|
        0 <= k < im.output_inc_logics@[oi]@.len() && #[trigger] output_logic_term(
            rm,
            im,
            ws,
            oi,
            k,
        ))
}

/// The value of the `k`-th output touching wire `wi`.
pub open spec fn wire_term(rm: &RegionMap, im: &IncidenceMap, ws: Seq<bool>, wi: int, k: int) -> bool {
    output_value(rm, im, ws, im.wire_inc_outputs@[wi]@[k] as int)
}

/// The wire states after one tick from `ws`: each wire is the OR of the
/// outputs touching it.
pub open spec fn tick(rm: &RegionMap, im: &IncidenceMap, ws: Seq<bool>) -> Seq<bool> {
    Seq::new(
        ws.len(),
        |wi: int|
            exists|k: int|
                0 <= k < im.wire_inc_outputs@[wi]@.len() && #[trigger] wire_term(rm, im, ws, wi, k),
    )
}

/// The wire states after `n` ticks from `ws`.
pub open spec fn ticks(rm: &RegionMap, im: &IncidenceMap, ws: Seq<bool>, n: nat) -> Seq<bool>
    decreases n,
{
    if n == 0 {
        ws
    } else {
        tick(rm, im, ticks(rm, im, ws, (n - 1) as nat))
    }
}

/// A compiled circuit: the grid, its regions and incidences, the persistent
/// wire states, and scratch buffers for a tick.
#[derive(Debug, Clone)]
pub struct ResoCircuit {
    pub rb: ReselBoard,
    pub rm: RegionMap,
    pub im: IncidenceMap,
    pub wire_state: Vec<bool>,
    /// Scratch for a tick: per input, one value per touching wire.
    pub input_state: Vec<Vec<bool>>,
    /// Scratch for a tick: per logic gate.
    pub logic_state: Vec<bool>,
    /// Scratch for a tick: per output.
    pub output_state: Vec<bool>,
}

/// Every entry of a relation is a dense index below `n`.
pub open spec fn bounded(rel: Seq<Vec<usize>>, n: int) -> bool {
    forall|i: int, p: int| 0 <= i < rel.len() && 0 <= p < rel[i]@.len() ==> #[trigger] rel[i]@[p] < n
}

proof fn lemma_relates_bounded(rm: &RegionMap, rel: Seq<Vec<usize>>, src: int, dst: int)
    requires
        relates(rm, rel, src, dst),
    ensures
        bounded(rel, rm.dense(dst).len() as int),
{
    assert forall|i: int, p: int| 0 <= i < rel.len() && 0 <= p < rel[i]@.len() implies #[trigger] rel[i]@[p]
        < rm.dense(dst).len() by {
        assert(rel[i]@.contains(rel[i]@[p]));
    }
}

impl ResoCircuit {
    /// The topology is consistent and the buffers have the shapes of the
    /// dense lists, all false between ticks.
    pub open spec fn wf(&self) -> bool {
        &&& self.topology_wf()
        &&& self.input_state@.len() == self.im.input_inc_wires@.len()
        &&& forall|ii: int|
            0 <= ii < self.input_state@.len() ==> (#[trigger] self.input_state@[ii])@.len()
                == self.im.input_inc_wires@[ii]@.len() && all_false(self.input_state@[ii]@)
        &&& self.logic_state@.len() == self.rm.logic_regions@.len()
        &&& all_false(self.logic_state@)
        &&& self.output_state@.len() == self.rm.output_regions@.len()
        &&& all_false(self.output_state@)
    }

    /// The grid, the regions, the incidences and the wire states fit
    /// together.
    pub open spec fn topology_wf(&self) -> bool {
        &&& self.rb.wf()
        &&& self.rm.wf()
        &&& self.rm.width == self.rb.width
        &&& self.rm.height == self.rb.height
        &&& self.im.built_from(&self.rm)
        &&& self.wire_state@.len() == self.rm.wire_regions@.len()
        &&& bounded(self.im.input_inc_wires@, self.rm.wire_regions@.len() as int)
        &&& bounded(self.im.logic_inc_inputs@, self.rm.input_regions@.len() as int)
        &&& bounded(self.im.output_inc_inputs@, self.rm.input_regions@.len() as int)
        &&& bounded(self.im.output_inc_logics@, self.rm.logic_regions@.len() as int)
        &&& bounded(self.im.wire_inc_outputs@, self.rm.output_regions@.len() as int)
    }

    /// The wire states after one tick.
    pub open spec fn next_wire_state(&self) -> Seq<bool> {
        tick(&self.rm, &self.im, self.wire_state@)
    }
}

pub open spec fn all_false(s: Seq<bool>) -> bool {
    forall|p: int| 0 <= p < s.len() ==> !s[p]
}

fn all_of(s: &Vec<bool>) -> (r: bool)
    ensures
        r == all_true(s@),
{
    let mut acc = true;
    let mut p: usize = 0;
    while p < s.len()
        invariant
            0 <= p <= s@.len(),
            acc == forall|q: int| 0 <= q < p ==> #[trigger] s@[q],
        decreases s@.len() - p,
    {
        acc = acc && s[p];
        p = p + 1;
    }
    acc
}

fn any_of(s: &Vec<bool>) -> (r: bool)
    ensures
        r == any_true(s@),
{
    let mut acc = false;
    let mut p: usize = 0;
    while p < s.len()
        invariant
            0 <= p <= s@.len(),
            acc == exists|q: int| 0 <= q < p && #[trigger] s@[q],
        decreases s@.len() - p,
    {
        acc = acc || s[p];
        p = p + 1;
    }
    acc
}

fn parity_of(s: &Vec<bool>) -> (r: bool)
    ensures
        r == parity(s@),
{
    let mut acc = false;
    let mut p: usize = 0;
    while p < s.len()
        invariant
            0 <= p <= s@.len(),
            acc == parity(s@.take(p as int)),
        decreases s@.len() - p,
    {
        proof {
            assert(s@.take(p + 1).drop_last() =~= s@.take(p as int));
        }
        acc = acc != s[p];
        p = p + 1;
    }
    proof {
        assert(s@.take(p as int) =~= s@);
    }
    acc
}

impl ResoCircuit {
    /// First pass: each input records the state of each wire touching it,
    /// position by position.
    fn collect_inputs(&mut self)
        requires
            old(self).wf(),
        ensures
            final(self).topology_wf(),
            final(self).rb == old(self).rb,
            final(self).rm == old(self).rm,
            final(self).im == old(self).im,
            final(self).wire_state == old(self).wire_state,
            final(self).logic_state == old(self).logic_state,
            final(self).output_state == old(self).output_state,
            final(self).input_state@.len() == final(self).im.input_inc_wires@.len(),
            forall|ii: int|
                0 <= ii < final(self).input_state@.len() ==> (#[trigger] final(self).input_state@[ii])@
                    == input_values(&final(self).im, final(self).wire_state@, ii),
    {
        let ghost ws = self.wire_state@;
        let mut ii: usize = 0;
        while ii < self.im.input_inc_wires.len()
            invariant
                self.topology_wf(),
                self.rb == old(self).rb,
                self.rm == old(self).rm,
                self.im == old(self).im,
                self.wire_state == old(self).wire_state,
                self.logic_state == old(self).logic_state,
                self.output_state == old(self).output_state,
                ws == self.wire_state@,
                0 <= ii <= self.im.input_inc_wires@.len(),
                self.input_state@.len() == self.im.input_inc_wires@.len(),
                forall|i: int|
                    0 <= i < self.input_state@.len() ==> (#[trigger] self.input_state@[i])@.len()
                        == self.im.input_inc_wires@[i]@.len(),
                forall|i: int|
                    0 <= i < ii ==> (#[trigger] self.input_state@[i])@ == input_values(
                        &self.im,
                        ws,
                        i,
                    ),
            decreases self.im.input_inc_wires@.len() - ii,
        {
            let mut p: usize = 0;
            let ghost row_len = self.im.input_inc_wires@[ii as int]@.len();
            while p < self.im.input_inc_wires[ii].len()
                invariant
                    self.topology_wf(),
                    self.rb == old(self).rb,
                    self.rm == old(self).rm,
                    self.im == old(self).im,
                    self.wire_state == old(self).wire_state,
                    self.logic_state == old(self).logic_state,
                    self.output_state == old(self).output_state,
                    ws == self.wire_state@,
                    0 <= ii < self.im.input_inc_wires@.len(),
                    row_len == self.im.input_inc_wires@[ii as int]@.len(),
                    0 <= p <= row_len,
                    self.input_state@.len() == self.im.input_inc_wires@.len(),
                    forall|i: int|
                        0 <= i < self.input_state@.len() ==> (#[trigger] self.input_state@[i])@.len()
                            == self.im.input_inc_wires@[i]@.len(),
                    forall|i: int|
                        0 <= i < ii ==> (#[trigger] self.input_state@[i])@ == input_values(
                            &self.im,
                            ws,
                            i,
                        ),
                    forall|q: int|
                        0 <= q < p ==> self.input_state@[ii as int]@[q] == #[trigger] input_values(
                            &self.im,
                            ws,
                            ii as int,
                        )[q],
                decreases row_len - p,
            {
                let wi = self.im.input_inc_wires[ii][p];
                proof {
                    assert(self.im.input_inc_wires@[ii as int]@[p as int] < self.wire_state@.len());
                }
                let v = self.wire_state[wi];
                let ghost before = self.input_state@;
                set_at(&mut self.input_state, ii, p, v);
                proof {
                    assert forall|i: int| 0 <= i < ii implies (#[trigger] self.input_state@[i])@
                        == input_values(&self.im, ws, i) by {
                        assert(self.input_state@[i] == before[i]);
                    }
                    assert forall|q: int| 0 <= q < p + 1 implies self.input_state@[ii as int]@[q]
                        == #[trigger] input_values(&self.im, ws, ii as int)[q] by {
                        if q < p {
                            assert(self.input_state@[ii as int]@[q] == before[ii as int]@[q]);
                        }
                    }
                }
                p = p + 1;
            }
            proof {
                assert(self.input_state@[ii as int]@ =~= input_values(&self.im, ws, ii as int));
            }
            ii = ii + 1;
        }
    }

    /// Second pass: each logic gate ORs together its reductions of the
    /// inputs touching it, AND or XOR by its class.
    fn collect_logic(&mut self)
        requires
            old(self).topology_wf(),
            old(self).input_state@.len() == old(self).im.input_inc_wires@.len(),
            forall|ii: int|
                0 <= ii < old(self).input_state@.len() ==> (#[trigger] old(self).input_state@[ii])@
                    == input_values(&old(self).im, old(self).wire_state@, ii),
            old(self).logic_state@.len() == old(self).rm.logic_regions@.len(),
        ensures
            final(self).rb == old(self).rb,
            final(self).rm == old(self).rm,
            final(self).im == old(self).im,
            final(self).wire_state == old(self).wire_state,
            final(self).input_state == old(self).input_state,
            final(self).output_state == old(self).output_state,
            final(self).logic_state@.len() == old(self).logic_state@.len(),
            forall|li: int|
                0 <= li < final(self).logic_state@.len() ==> #[trigger] final(self).logic_state@[li]
                    == logic_value(&final(self).rm, &final(self).im, final(self).wire_state@, li),
    {
        let ghost ws = self.wire_state@;
        proof {
            assert(self.rm.dense(2) == self.rm.logic_regions@);
        }
        let mut li: usize = 0;
        while li < self.im.logic_inc_inputs.len()
            invariant
                self.topology_wf(),
                self.rb == old(self).rb,
                self.rm == old(self).rm,
                self.im == old(self).im,
                self.wire_state == old(self).wire_state,
                self.input_state == old(self).input_state,
                self.output_state == old(self).output_state,
                ws == self.wire_state@,
                self.rm.dense(2) == self.rm.logic_regions@,
                self.input_state@.len() == self.im.input_inc_wires@.len(),
                forall|ii: int|
                    0 <= ii < self.input_state@.len() ==> (#[trigger] self.input_state@[ii])@
                        == input_values(&self.im, ws, ii),
                self.logic_state@.len() == self.rm.logic_regions@.len(),
                self.im.logic_inc_inputs@.len() == self.rm.logic_regions@.len(),
                0 <= li <= self.im.logic_inc_inputs@.len(),
                forall|l: int|
                    0 <= l < li ==> #[trigger] self.logic_state@[l] == logic_value(
                        &self.rm,
                        &self.im,
                        ws,
                        l,
                    ),
            decreases self.im.logic_inc_inputs@.len() - li,
        {
            let lri = self.rm.logic_regions[li];
            let class = self.rm.region_to_resel[lri];
            proof {
                assert(self.rm.dense(2)[li as int] == lri);
                assert(kind_of(class) == 2);
            }
            let mut acc = false;
            let mut k: usize = 0;
            while k < self.im.logic_inc_inputs[li].len()
                invariant
                    self.topology_wf(),
                    ws == self.wire_state@,
                    self.input_state@.len() == self.im.input_inc_wires@.len(),
                    forall|ii: int|
                        0 <= ii < self.input_state@.len() ==> (#[trigger] self.input_state@[ii])@
                            == input_values(&self.im, ws, ii),
                    0 <= li < self.im.logic_inc_inputs@.len(),
                    li < self.rm.logic_regions@.len(),
                    lri == self.rm.logic_regions@[li as int],
                    class == self.rm.class_of(lri as int),
                    0 <= k <= self.im.logic_inc_inputs@[li as int]@.len(),
                    acc == exists|k2: int| 0 <= k2 < k && #[trigger] logic_term(&self.rm, &self.im, ws, li as int, k2),
                decreases self.im.logic_inc_inputs@[li as int]@.len() - k,
            {
                let ii = self.im.logic_inc_inputs[li][k];
                proof {
                    assert(self.im.logic_inc_inputs@[li as int]@[k as int] < self.rm.input_regions@.len());
                    assert(self.im.input_inc_wires@.len() == self.rm.dense(1).len());
                    assert(self.rm.dense(1) == self.rm.input_regions@);
                }
                let r = if class == Resel::AND {
                    all_of(&self.input_state[ii])
                } else {
                    parity_of(&self.input_state[ii])
                };
                proof {
                    assert(r == logic_term(&self.rm, &self.im, ws, li as int, k as int));
                }
                acc = acc || r;
                k = k + 1;
            }
            self.logic_state.set(li, acc);
            li = li + 1;
        }
    }

    /// Third and fourth passes: each output ORs together the values of the
    /// inputs and the logic gates touching it.
    fn collect_outputs(&mut self)
        requires
            old(self).topology_wf(),
            old(self).input_state@.len() == old(self).im.input_inc_wires@.len(),
            forall|ii: int|
                0 <= ii < old(self).input_state@.len() ==> (#[trigger] old(self).input_state@[ii])@
                    == input_values(&old(self).im, old(self).wire_state@, ii),
            old(self).logic_state@.len() == old(self).rm.logic_regions@.len(),
            forall|li: int|
                0 <= li < old(self).logic_state@.len() ==> #[trigger] old(self).logic_state@[li]
                    == logic_value(&old(self).rm, &old(self).im, old(self).wire_state@, li),
            old(self).output_state@.len() == old(self).rm.output_regions@.len(),
        ensures
            final(self).rb == old(self).rb,
            final(self).rm == old(self).rm,
            final(self).im == old(self).im,
            final(self).wire_state == old(self).wire_state,
            final(self).input_state == old(self).input_state,
            final(self).logic_state == old(self).logic_state,
            final(self).output_state@.len() == old(self).output_state@.len(),
            forall|oi: int|
                0 <= oi < final(self).output_state@.len() ==> #[trigger] final(self).output_state@[oi]
                    == output_value(&final(self).rm, &final(self).im, final(self).wire_state@, oi),
    {
        let ghost ws = self.wire_state@;
        proof {
            assert(self.rm.dense(1) == self.rm.input_regions@);
            assert(self.rm.dense(2) == self.rm.logic_regions@);
            assert(self.rm.dense(3) == self.rm.output_regions@);
        }
        let mut oi: usize = 0;
        while oi < self.output_state.len()
            invariant
                self.topology_wf(),
                self.rb == old(self).rb,
                self.rm == old(self).rm,
                self.im == old(self).im,
                self.wire_state == old(self).wire_state,
                self.input_state == old(self).input_state,
                self.logic_state == old(self).logic_state,
                ws == self.wire_state@,
                self.rm.dense(1) == self.rm.input_regions@,
                self.rm.dense(2) == self.rm.logic_regions@,
                self.rm.dense(3) == self.rm.output_regions@,
                self.input_state@.len() == self.im.input_inc_wires@.len(),
                forall|ii: int|
                    0 <= ii < self.input_state@.len() ==> (#[trigger] self.input_state@[ii])@
                        == input_values(&self.im, ws, ii),
                self.logic_state@.len() == self.rm.logic_regions@.len(),
                forall|li: int|
                    0 <= li < self.logic_state@.len() ==> #[trigger] self.logic_state@[li]
                        == logic_value(&self.rm, &self.im, ws, li),
                self.output_state@.len() == self.rm.output_regions@.len(),
                0 <= oi <= self.output_state@.len(),
                forall|o: int|
                    0 <= o < oi ==> #[trigger] self.output_state@[o] == output_value(
                        &self.rm,
                        &self.im,
                        ws,
                        o,
                    ),
            decreases self.output_state@.len() - oi,
        {
            let mut acc = false;
            let mut k: usize = 0;
            while k < self.im.output_inc_inputs[oi].len()
                invariant
                    self.topology_wf(),
                    ws == self.wire_state@,
                    self.rm.dense(1) == self.rm.input_regions@,
                    self.rm.dense(3) == self.rm.output_regions@,
                    self.input_state@.len() == self.im.input_inc_wires@.len(),
                    forall|ii: int|
                        0 <= ii < self.input_state@.len() ==> (#[trigger] self.input_state@[ii])@
                            == input_values(&self.im, ws, ii),
                    0 <= oi < self.rm.output_regions@.len(),
                    0 <= k <= self.im.output_inc_inputs@[oi as int]@.len(),
                    acc == exists|k2: int| 0 <= k2 < k && #[trigger] output_input_term(&self.im, ws, oi as int, k2),
                decreases self.im.output_inc_inputs@[oi as int]@.len() - k,
            {
                let ii = self.im.output_inc_inputs[oi][k];
                proof {
                    assert(ii < self.rm.input_regions@.len());
                }
                let r = any_of(&self.input_state[ii]);
                proof {
                    assert(r == output_input_term(&self.im, ws, oi as int, k as int));
                }
                acc = acc || r;
                k = k + 1;
            }
            let ghost from_inputs = acc;
            let mut k: usize = 0;
            while k < self.im.output_inc_logics[oi].len()
                invariant
                    self.topology_wf(),
                    ws == self.wire_state@,
                    self.rm.dense(2) == self.rm.logic_regions@,
                    self.rm.dense(3) == self.rm.output_regions@,
                    self.logic_state@.len() == self.rm.logic_regions@.len(),
                    forall|li: int|
                        0 <= li < self.logic_state@.len() ==> #[trigger] self.logic_state@[li]
                            == logic_value(&self.rm, &self.im, ws, li),
                    0 <= oi < self.rm.output_regions@.len(),
                    0 <= k <= self.im.output_inc_logics@[oi as int]@.len(),
                    from_inputs == exists|k2: int|
                        0 <= k2 < self.im.output_inc_inputs@[oi as int]@.len()
                            && #[trigger] output_input_term(&self.im, ws, oi as int, k2),
                    acc == (from_inputs || exists|k2: int| 0 <= k2 < k && #[trigger] output_logic_term(&self.rm, &self.im, ws, oi as int, k2)),
                decreases self.im.output_inc_logics@[oi as int]@.len() - k,
            {
                let li = self.im.output_inc_logics[oi][k];
                proof {
                    assert(li < self.rm.logic_regions@.len());
                }
                let r = self.logic_state[li];
                proof {
                    assert(r == output_logic_term(&self.rm, &self.im, ws, oi as int, k as int));
                }
                acc = acc || r;
                k = k + 1;
            }
            self.output_state.set(oi, acc);
            oi = oi + 1;
        }
    }

    /// Fifth pass: each wire becomes the OR of the outputs touching it.
    fn drive_wires(&mut self)
        requires
            old(self).topology_wf(),
            old(self).output_state@.len() == old(self).rm.output_regions@.len(),
        ensures
            final(self).rb == old(self).rb,
            final(self).rm == old(self).rm,
            final(self).im == old(self).im,
            final(self).input_state == old(self).input_state,
            final(self).logic_state == old(self).logic_state,
            final(self).output_state == old(self).output_state,
            final(self).topology_wf(),
            final(self).wire_state@ == Seq::new(
                old(self).wire_state@.len(),
                |wi: int|
                    exists|k: int|
                        0 <= k < old(self).im.wire_inc_outputs@[wi]@.len()
                            && #[trigger] old(self).output_state@[old(self).im.wire_inc_outputs@[wi]@[k] as int]),
    {
        let ghost os = self.output_state@;
        proof {
            assert(self.rm.dense(0) == self.rm.wire_regions@);
            assert(self.rm.dense(3) == self.rm.output_regions@);
        }
        let mut wi: usize = 0;
        while wi < self.wire_state.len()
            invariant
                self.topology_wf(),
                self.rb == old(self).rb,
                self.rm == old(self).rm,
                self.im == old(self).im,
                self.input_state == old(self).input_state,
                self.logic_state == old(self).logic_state,
                self.output_state == old(self).output_state,
                os == self.output_state@,
                os.len() == self.rm.output_regions@.len(),
                self.rm.dense(0) == self.rm.wire_regions@,
                self.rm.dense(3) == self.rm.output_regions@,
                self.wire_state@.len() == old(self).wire_state@.len(),
                0 <= wi <= self.wire_state@.len(),
                forall|w: int|
                    0 <= w < wi ==> #[trigger] self.wire_state@[w] == exists|k: int|
                        0 <= k < self.im.wire_inc_outputs@[w]@.len()
                            && #[trigger] os[self.im.wire_inc_outputs@[w]@[k] as int],
            decreases self.wire_state@.len() - wi,
        {
            let mut acc = false;
            let mut k: usize = 0;
            while k < self.im.wire_inc_outputs[wi].len()
                invariant
                    self.topology_wf(),
                    os == self.output_state@,
                    os.len() == self.rm.output_regions@.len(),
                    self.rm.dense(0) == self.rm.wire_regions@,
                    self.rm.dense(3) == self.rm.output_regions@,
                    0 <= wi < self.rm.wire_regions@.len(),
                    0 <= k <= self.im.wire_inc_outputs@[wi as int]@.len(),
                    acc == exists|k2: int|
                        0 <= k2 < k && #[trigger] os[self.im.wire_inc_outputs@[wi as int]@[k2] as int],
                decreases self.im.wire_inc_outputs@[wi as int]@.len() - k,
            {
                let oi = self.im.wire_inc_outputs[wi][k];
                proof {
                    assert(oi < self.rm.output_regions@.len());
                }
                acc = acc || self.output_state[oi];
                k = k + 1;
            }
            self.wire_state.set(wi, acc);
            wi = wi + 1;
        }
        proof {
            assert(self.wire_state@ =~= Seq::new(
                old(self).wire_state@.len(),
                |w: int|
                    exists|k: int|
                        0 <= k < old(self).im.wire_inc_outputs@[w]@.len()
                            && #[trigger] old(self).output_state@[old(self).im.wire_inc_outputs@[w]@[k] as int]));
        }
    }

    /// Clears the scratch buffers between ticks.
    fn reset_intermediate_state(&mut self)
        ensures
            final(self).rb == old(self).rb,
            final(self).rm == old(self).rm,
            final(self).im == old(self).im,
            final(self).wire_state == old(self).wire_state,
            final(self).input_state@.len() == old(self).input_state@.len(),
            forall|ii: int|
                0 <= ii < final(self).input_state@.len() ==> (#[trigger] final(self).input_state@[ii])@.len()
                    == old(self).input_state@[ii]@.len() && all_false(final(self).input_state@[ii]@),
            final(self).logic_state@.len() == old(self).logic_state@.len(),
            all_false(final(self).logic_state@),
            final(self).output_state@.len() == old(self).output_state@.len(),
            all_false(final(self).output_state@),
    {
        let mut ii: usize = 0;
        while ii < self.input_state.len()
            invariant
                self.rb == old(self).rb,
                self.rm == old(self).rm,
                self.im == old(self).im,
                self.wire_state == old(self).wire_state,
                self.logic_state == old(self).logic_state,
                self.output_state == old(self).output_state,
                self.input_state@.len() == old(self).input_state@.len(),
                forall|i: int|
                    0 <= i < self.input_state@.len() ==> (#[trigger] self.input_state@[i])@.len()
                        == old(self).input_state@[i]@.len(),
                0 <= ii <= self.input_state@.len(),
                forall|i: int| 0 <= i < ii ==> all_false(#[trigger] self.input_state@[i]@),
            decreases self.input_state@.len() - ii,
        {
            let mut wi: usize = 0;
            while wi < self.input_state[ii].len()
                invariant
                    self.rb == old(self).rb,
                    self.rm == old(self).rm,
                    self.im == old(self).im,
                    self.wire_state == old(self).wire_state,
                    self.logic_state == old(self).logic_state,
                    self.output_state == old(self).output_state,
                    self.input_state@.len() == old(self).input_state@.len(),
                    forall|i: int|
                        0 <= i < self.input_state@.len() ==> (#[trigger] self.input_state@[i])@.len()
                            == old(self).input_state@[i]@.len(),
                    0 <= ii < self.input_state@.len(),
                    0 <= wi <= self.input_state@[ii as int]@.len(),
                    forall|i: int| 0 <= i < ii ==> all_false(#[trigger] self.input_state@[i]@),
                    forall|q: int| 0 <= q < wi ==> !self.input_state@[ii as int]@[q],
                decreases self.input_state@[ii as int]@.len() - wi,
            {
                let ghost before = self.input_state@;
                set_at(&mut self.input_state, ii, wi, false);
                proof {
                    assert forall|i: int| 0 <= i < ii implies all_false(#[trigger] self.input_state@[i]@) by {
                        assert(self.input_state@[i] == before[i]);
                    }
                    assert forall|q: int| 0 <= q < wi + 1 implies !self.input_state@[ii as int]@[q] by {
                        if q < wi {
                            assert(self.input_state@[ii as int]@[q] == before[ii as int]@[q]);
                        }
                    }
                }
                wi = wi + 1;
            }
            ii = ii + 1;
        }
        let mut li: usize = 0;
        while li < self.logic_state.len()
            invariant
                self.rb == old(self).rb,
                self.rm == old(self).rm,
                self.im == old(self).im,
                self.wire_state == old(self).wire_state,
                self.output_state == old(self).output_state,
                self.input_state@.len() == old(self).input_state@.len(),
                forall|i: int|
                    0 <= i < self.input_state@.len() ==> (#[trigger] self.input_state@[i])@.len()
                        == old(self).input_state@[i]@.len() && all_false(self.input_state@[i]@),
                self.logic_state@.len() == old(self).logic_state@.len(),
                0 <= li <= self.logic_state@.len(),
                forall|q: int| 0 <= q < li ==> !self.logic_state@[q],
            decreases self.logic_state@.len() - li,
        {
            self.logic_state.set(li, false);
            li = li + 1;
        }
        let mut oi: usize = 0;
        while oi < self.output_state.len()
            invariant
                self.rb == old(self).rb,
                self.rm == old(self).rm,
                self.im == old(self).im,
                self.wire_state == old(self).wire_state,
                self.input_state@.len() == old(self).input_state@.len(),
                forall|i: int|
                    0 <= i < self.input_state@.len() ==> (#[trigger] self.input_state@[i])@.len()
                        == old(self).input_state@[i]@.len() && all_false(self.input_state@[i]@),
                self.logic_state@.len() == old(self).logic_state@.len(),
                all_false(self.logic_state@),
                self.output_state@.len() == old(self).output_state@.len(),
                0 <= oi <= self.output_state@.len(),
                forall|q: int| 0 <= q < oi ==> !self.output_state@[q],
            decreases self.output_state@.len() - oi,
        {
            self.output_state.set(oi, false);
            oi = oi + 1;
        }
    }

    /// Runs one tick: the five passes in order, then clears the scratch
    /// buffers. Only `wire_state` changes.
    pub fn iterate(&mut self)
        requires
            old(self).wf(),
        ensures
            final(self).wf(),
            final(self).rb == old(self).rb,
            final(self).rm == old(self).rm,
            final(self).im == old(self).im,
            final(self).wire_state@ == old(self).next_wire_state(),
    {
        let ghost ws = self.wire_state@;
        self.collect_inputs();
        self.collect_logic();
        self.collect_outputs();
        let ghost os = self.output_state@;
        self.drive_wires();
        proof {
            assert(self.wire_state@ =~= tick(&self.rm, &self.im, ws)) by {
                assert forall|wi: int| 0 <= wi < ws.len() implies self.wire_state@[wi] == tick(&self.rm, &self.im, ws)[wi] by {
                    assert forall|k: int| 0 <= k < self.im.wire_inc_outputs@[wi]@.len() implies
                        os[self.im.wire_inc_outputs@[wi]@[k] as int] == #[trigger] wire_term(&self.rm, &self.im, ws, wi, k) by {
                        assert(self.im.wire_inc_outputs@[wi]@[k] < os.len());
                    }
                    if self.wire_state@[wi] {
                        let k = choose|k: int| 0 <= k < self.im.wire_inc_outputs@[wi]@.len()
                            && #[trigger] os[self.im.wire_inc_outputs@[wi]@[k] as int];
                        assert(wire_term(&self.rm, &self.im, ws, wi, k));
                    }
                    if tick(&self.rm, &self.im, ws)[wi] {
                        let k = choose|k: int| 0 <= k < self.im.wire_inc_outputs@[wi]@.len()
                            && #[trigger] wire_term(&self.rm, &self.im, ws, wi, k);
                        assert(os[self.im.wire_inc_outputs@[wi]@[k] as int]);
                    }
                }
            }
        }
        self.reset_intermediate_state();
    }
}

/// `n` false values.
fn falses(n: usize) -> (v: Vec<bool>)
    ensures
        v@.len() == n,
        all_false(v@),
{
    let mut v: Vec<bool> = Vec::new();
    while v.len() < n
        invariant
            v@.len() <= n,
            all_false(v@),
        decreases n - v@.len(),
    {
        v.push(false);
    }
    v
}

impl ResoCircuit {
    /// What rendering makes of coordinate `c`: a cell of a wire region takes
    /// the region's colour in the wire's current state; any other cell keeps
    /// its class.
    pub open spec fn rendered(&self, c: (usize, usize)) -> Resel {
        let r = self.rm.region_at(c) as int;
        if kind_of(self.rm.class_of(r)) == 0 {
            self.rm.class_of(r).spec_with_state(self.wire_state@[self.rm.reverse_dense@[r] as int])
        } else {
            self.rb.cell_at(c)
        }
    }

    /// Compiles a grid: labels its regions, builds the incidences, and
    /// starts each wire in the on/off state of its region's class. The
    /// labelling contract fixes the whole region map (see
    /// [`lemma_compiled_from`]), so the circuit holds exactly the map and
    /// incidences the mapper and builder give `rb`.
    pub fn new(rb: ReselBoard) -> (rc: ResoCircuit)
        requires
            rb.wf(),
        ensures
            rc.wf(),
            rc.rb == rb,
            rc.rm.labels(&rb),
            forall|w: int|
                0 <= w < rc.wire_state@.len() ==> rc.rm.class_of(rc.rm.wire_regions@[w] as int).spec_wire_state()
                    == Some(#[trigger] rc.wire_state@[w]),
    {
        let rm = region_map_from_reselboard(&rb);
        let im = incidencemap_from_regionmap(&rm);
        proof {
            assert(rm.dense(0) == rm.wire_regions@);
            assert(rm.dense(1) == rm.input_regions@);
            assert(rm.dense(2) == rm.logic_regions@);
            assert(rm.dense(3) == rm.output_regions@);
            lemma_relates_bounded(&rm, im.input_inc_wires@, 1, 0);
            lemma_relates_bounded(&rm, im.logic_inc_inputs@, 2, 1);
            lemma_relates_bounded(&rm, im.output_inc_inputs@, 3, 1);
            lemma_relates_bounded(&rm, im.output_inc_logics@, 3, 2);
            lemma_relates_bounded(&rm, im.wire_inc_outputs@, 0, 3);
        }
        let mut wire_state: Vec<bool> = Vec::new();
        let mut w: usize = 0;
        while w < rm.wire_regions.len()
            invariant
                rm.wf(),
                rm.dense(0) == rm.wire_regions@,
                0 <= w <= rm.wire_regions@.len(),
                wire_state@.len() == w,
                forall|i: int|
                    0 <= i < w ==> rm.class_of(rm.wire_regions@[i] as int).spec_wire_state() == Some(
                        #[trigger] wire_state@[i],
                    ),
            decreases rm.wire_regions@.len() - w,
        {
            let region = rm.wire_regions[w];
            proof {
                assert(rm.dense(0)[w as int] == region);
                assert(kind_of(rm.class_of(region as int)) == 0);
            }
            let on = match rm.region_to_resel[region].wire_state() {
                Some(b) => b,
                None => false,
            };
            wire_state.push(on);
            w = w + 1;
        }
        let mut input_state: Vec<Vec<bool>> = Vec::new();
        let mut ii: usize = 0;
        while ii < im.input_inc_wires.len()
            invariant
                0 <= ii <= im.input_inc_wires@.len(),
                input_state@.len() == ii,
                forall|i: int|
                    0 <= i < ii ==> (#[trigger] input_state@[i])@.len() == im.input_inc_wires@[i]@.len()
                        && all_false(input_state@[i]@),
            decreases im.input_inc_wires@.len() - ii,
        {
            input_state.push(falses(im.input_inc_wires[ii].len()));
            ii = ii + 1;
        }
        let logic_state = falses(rm.logic_regions.len());
        let output_state = falses(rm.output_regions.len());
        ResoCircuit { rb, rm, im, wire_state, input_state, logic_state, output_state }
    }

    /// Rewrites the board's cells of each wire region to the region's colour
    /// in the wire's current state. Cells of other regions are left as they
    /// are, and the circuit's state does not change.
    pub fn update_pixels(&mut self)
        requires
            old(self).wf(),
        ensures
            final(self).wf(),
            final(self).rm == old(self).rm,
            final(self).im == old(self).im,
            final(self).wire_state == old(self).wire_state,
            final(self).rb.width == old(self).rb.width,
            final(self).rb.height == old(self).rb.height,
            forall|c: (usize, usize)|
                c.0 < old(self).rb.width && c.1 < old(self).rb.height ==> #[trigger] final(self).rb.cell_at(c)
                    == old(self).rendered(c),
    {
        let ghost old_rb = self.rb;
        let ghost rm = self.rm;
        proof {
            assert(rm.dense(0) == rm.wire_regions@);
        }
        let mut wi: usize = 0;
        while wi < self.rm.wire_regions.len()
            invariant
                self.wf(),
                self.rm == old(self).rm,
                self.im == old(self).im,
                self.wire_state == old(self).wire_state,
                self.input_state == old(self).input_state,
                self.logic_state == old(self).logic_state,
                self.output_state == old(self).output_state,
                rm == self.rm,
                rm.dense(0) == rm.wire_regions@,
                old_rb == old(self).rb,
                self.rb.width == old_rb.width,
                self.rb.height == old_rb.height,
                0 <= wi <= rm.wire_regions@.len(),
                forall|c: (usize, usize)|
                    c.0 < old_rb.width && c.1 < old_rb.height ==> #[trigger] self.rb.cell_at(c) == if kind_of(
                        rm.class_of(rm.region_at(c) as int),
                    ) == 0 && rm.reverse_dense@[rm.region_at(c) as int] < wi {
                        old(self).rendered(c)
                    } else {
                        old_rb.cell_at(c)
                    },
            decreases rm.wire_regions@.len() - wi,
        {
            let ri = self.rm.wire_regions[wi];
            proof {
                assert(rm.dense(0)[wi as int] == ri);
            }
            let on = self.wire_state[wi];
            let lit = self.rm.region_to_resel[ri].with_state(on);
            let ghost ms = rm.members(ri as int);
            let mut j: usize = 0;
            while j < self.rm.region_to_xys[ri].len()
                invariant
                    self.wf(),
                    self.rm == old(self).rm,
                    self.im == old(self).im,
                    self.wire_state == old(self).wire_state,
                    self.input_state == old(self).input_state,
                    self.logic_state == old(self).logic_state,
                    self.output_state == old(self).output_state,
                    rm == self.rm,
                    rm.dense(0) == rm.wire_regions@,
                    old_rb == old(self).rb,
                    self.rb.width == old_rb.width,
                    self.rb.height == old_rb.height,
                    0 <= wi < rm.wire_regions@.len(),
                    ri == rm.wire_regions@[wi as int],
                    kind_of(rm.class_of(ri as int)) == 0,
                    rm.reverse_dense@[ri as int] == wi,
                    lit == rm.class_of(ri as int).spec_with_state(self.wire_state@[wi as int]),
                    ms == rm.members(ri as int),
                    0 <= j <= ms.len(),
                    forall|c: (usize, usize)|
                        c.0 < old_rb.width && c.1 < old_rb.height ==> #[trigger] self.rb.cell_at(c) == if kind_of(
                            rm.class_of(rm.region_at(c) as int),
                        ) == 0 && rm.reverse_dense@[rm.region_at(c) as int] < wi {
                            old(self).rendered(c)
                        } else if exists|q: int| 0 <= q < j && ms[q] == c {
                            lit
                        } else {
                            old_rb.cell_at(c)
                        },
                decreases ms.len() - j,
            {
                let (x, y) = self.rm.region_to_xys[ri][j];
                let ghost c0 = (x, y);
                proof {
                    assert(ms[j as int] == c0);
                    assert(rm.in_grid(c0) && rm.region_at(c0) == ri);
                    assert(!(exists|q: int| 0 <= q < j && ms[q] == c0)) by {
                        if exists|q: int| 0 <= q < j && ms[q] == c0 {
                            let q = choose|q: int| 0 <= q < j && ms[q] == c0;
                            assert(ms.no_duplicates());
                        }
                    }
                }
                let ghost before = self.rb;
                set_at(&mut self.rb.board, x, y, lit);
                proof {
                    assert forall|c: (usize, usize)|
                        c.0 < old_rb.width && c.1 < old_rb.height implies #[trigger] self.rb.cell_at(c) == if kind_of(
                            rm.class_of(rm.region_at(c) as int),
                        ) == 0 && rm.reverse_dense@[rm.region_at(c) as int] < wi {
                            old(self).rendered(c)
                        } else if exists|q: int| 0 <= q < j + 1 && ms[q] == c {
                            lit
                        } else {
                            old_rb.cell_at(c)
                        } by {
                        assert(at(self.rb.board@, c) == if c == c0 { lit } else { at(before.board@, c) });
                        assert(before.cell_at(c) == at(before.board@, c));
                        if c == c0 {
                            assert(ms[j as int] == c);
                        } else {
                            if exists|q: int| 0 <= q < j + 1 && ms[q] == c {
                                let q = choose|q: int| 0 <= q < j + 1 && ms[q] == c;
                                assert(q < j);
                            }
                        }
                    }
                }
                j = j + 1;
            }
            proof {
                assert forall|c: (usize, usize)|
                    c.0 < old_rb.width && c.1 < old_rb.height implies #[trigger] self.rb.cell_at(c) == if kind_of(
                        rm.class_of(rm.region_at(c) as int),
                    ) == 0 && rm.reverse_dense@[rm.region_at(c) as int] < wi + 1 {
                        old(self).rendered(c)
                    } else {
                        old_rb.cell_at(c)
                    } by {
                    assert(rm.in_grid(c));
                    if rm.region_at(c) == ri {
                        assert(ms.contains(c));
                        let q = choose|q: int| 0 <= q < ms.len() && ms[q] == c;
                    } else if kind_of(rm.class_of(rm.region_at(c) as int)) == 0 && rm.reverse_dense@[rm.region_at(c) as int] == wi {
                        let r = rm.region_at(c) as int;
                        assert(1 <= r < rm.n_regions()) by {
                            if r == 0 {
                                assert(rm.class_of(0) == Resel::Empty);
                            }
                        }
                        assert(rm.dense(0)[wi as int] == r);
                    }
                    if exists|q: int| 0 <= q < ms.len() && ms[q] == c {
                        let q = choose|q: int| 0 <= q < ms.len() && ms[q] == c;
                        assert(rm.region_at(ms[q]) == ri);
                    }
                }
            }
            wi = wi + 1;
        }
        proof {
            assert forall|c: (usize, usize)|
                c.0 < old_rb.width && c.1 < old_rb.height implies #[trigger] self.rb.cell_at(c)
                    == old(self).rendered(c) by {
                let r = rm.region_at(c) as int;
                assert(rm.in_grid(c));
                if kind_of(rm.class_of(r)) == 0 {
                    assert(1 <= r < rm.n_regions()) by {
                        if r == 0 {
                            assert(rm.class_of(0) == Resel::Empty);
                        }
                    }
                    let l = rm.dense(kind_of(rm.class_of(r)));
                    assert(rm.reverse_dense@[r] < l.len());
                }
            }
        }
    }
}

/// Two relations that both satisfy [`relates`] for the same region map and
/// kinds have the same rows.
proof fn lemma_relates_unique(rm: &RegionMap, r1: Seq<Vec<usize>>, r2: Seq<Vec<usize>>, src: int, dst: int)
    requires
        relates(rm, r1, src, dst),
        relates(rm, r2, src, dst),
    ensures
        r1.len() == r2.len(),
        forall|i: int| 0 <= i < r1.len() ==> (#[trigger] r1[i])@ == r2[i]@,
{
    assert forall|i: int| 0 <= i < r1.len() implies (#[trigger] r1[i])@ == r2[i]@ by {
        assert forall|x: usize| r1[i]@.contains(x) <==> r2[i]@.contains(x) by {}
        lemma_sorted_unique(r1[i]@, r2[i]@);
    }
}

/// The five relations of `a` and `b` have the same rows.
pub open spec fn same_rows(a: &IncidenceMap, b: &IncidenceMap) -> bool {
    &&& a.input_inc_wires@.len() == b.input_inc_wires@.len()
    &&& forall|i: int| 0 <= i < a.input_inc_wires@.len() ==> (#[trigger] a.input_inc_wires@[i])@ == b.input_inc_wires@[i]@
    &&& a.logic_inc_inputs@.len() == b.logic_inc_inputs@.len()
    &&& forall|i: int| 0 <= i < a.logic_inc_inputs@.len() ==> (#[trigger] a.logic_inc_inputs@[i])@ == b.logic_inc_inputs@[i]@
    &&& a.output_inc_inputs@.len() == b.output_inc_inputs@.len()
    &&& forall|i: int| 0 <= i < a.output_inc_inputs@.len() ==> (#[trigger] a.output_inc_inputs@[i])@ == b.output_inc_inputs@[i]@
    &&& a.output_inc_logics@.len() == b.output_inc_logics@.len()
    &&& forall|i: int| 0 <= i < a.output_inc_logics@.len() ==> (#[trigger] a.output_inc_logics@[i])@ == b.output_inc_logics@[i]@
    &&& a.wire_inc_outputs@.len() == b.wire_inc_outputs@.len()
    &&& forall|i: int| 0 <= i < a.wire_inc_outputs@.len() ==> (#[trigger] a.wire_inc_outputs@[i])@ == b.wire_inc_outputs@[i]@
}

proof fn lemma_tick_same_rows(
    rm: &RegionMap,
    rm2: &RegionMap,
    a: &IncidenceMap,
    b: &IncidenceMap,
    ws: Seq<bool>,
)
    requires
        same_rows(a, b),
        rm.wf(),
        a.built_from(rm),
        ws.len() == rm.wire_regions@.len(),
        rm2.logic_regions@ == rm.logic_regions@,
        forall|r: int| 0 <= r < rm.n_regions() ==> #[trigger] rm.class_of(r) == rm2.class_of(r),
    ensures
        tick(rm, a, ws) == tick(rm2, b, ws),
{
    assert(rm.dense(0) == rm.wire_regions@);
    assert(rm.dense(1) == rm.input_regions@);
    assert(rm.dense(2) == rm.logic_regions@);
    assert(rm.dense(3) == rm.output_regions@);
    lemma_relates_bounded(rm, a.input_inc_wires@, 1, 0);
    lemma_relates_bounded(rm, a.logic_inc_inputs@, 2, 1);
    lemma_relates_bounded(rm, a.output_inc_inputs@, 3, 1);
    lemma_relates_bounded(rm, a.output_inc_logics@, 3, 2);
    lemma_relates_bounded(rm, a.wire_inc_outputs@, 0, 3);
    assert forall|ii: int| 0 <= ii < a.input_inc_wires@.len() implies #[trigger] input_values(a, ws, ii)
        == input_values(b, ws, ii) by {
        assert(input_values(a, ws, ii) =~= input_values(b, ws, ii));
    }
    assert forall|li: int| 0 <= li < a.logic_inc_inputs@.len() implies #[trigger] logic_value(rm, a, ws, li)
        == logic_value(rm2, b, ws, li) by {
        assert(rm.dense(2)[li] == rm.logic_regions@[li]);
        assert forall|k: int| 0 <= k < a.logic_inc_inputs@[li]@.len() implies #[trigger] logic_term(rm, a, ws, li, k)
            == logic_term(rm2, b, ws, li, k) by {
            assert(input_values(a, ws, a.logic_inc_inputs@[li]@[k] as int) == input_values(
                b,
                ws,
                a.logic_inc_inputs@[li]@[k] as int,
            ));
        }
        if logic_value(rm, a, ws, li) {
            let k = choose|k: int| 0 <= k < a.logic_inc_inputs@[li]@.len() && #[trigger] logic_term(rm, a, ws, li, k);
            assert(logic_term(rm2, b, ws, li, k));
        }
        if logic_value(rm2, b, ws, li) {
            let k = choose|k: int| 0 <= k < b.logic_inc_inputs@[li]@.len() && #[trigger] logic_term(rm2, b, ws, li, k);
            assert(logic_term(rm, a, ws, li, k));
        }
    }
    assert forall|oi: int| 0 <= oi < a.output_inc_inputs@.len() implies #[trigger] output_value(rm, a, ws, oi)
        == output_value(rm2, b, ws, oi) by {
        assert forall|k: int| 0 <= k < a.output_inc_inputs@[oi]@.len() implies #[trigger] output_input_term(a, ws, oi, k)
            == output_input_term(b, ws, oi, k) by {
            assert(input_values(a, ws, a.output_inc_inputs@[oi]@[k] as int) == input_values(
                b,
                ws,
                a.output_inc_inputs@[oi]@[k] as int,
            ));
        }
        assert forall|k: int| 0 <= k < a.output_inc_logics@[oi]@.len() implies #[trigger] output_logic_term(rm, a, ws, oi, k)
            == output_logic_term(rm2, b, ws, oi, k) by {
            assert(logic_value(rm, a, ws, a.output_inc_logics@[oi]@[k] as int) == logic_value(
                rm2,
                b,
                ws,
                a.output_inc_logics@[oi]@[k] as int,
            ));
        }
        if exists|k: int| 0 <= k < a.output_inc_inputs@[oi]@.len() && #[trigger] output_input_term(a, ws, oi, k) {
            let k = choose|k: int| 0 <= k < a.output_inc_inputs@[oi]@.len() && #[trigger] output_input_term(a, ws, oi, k);
            assert(output_input_term(b, ws, oi, k));
        }
        if exists|k: int| 0 <= k < b.output_inc_inputs@[oi]@.len() && #[trigger] output_input_term(b, ws, oi, k) {
            let k = choose|k: int| 0 <= k < b.output_inc_inputs@[oi]@.len() && #[trigger] output_input_term(b, ws, oi, k);
            assert(output_input_term(a, ws, oi, k));
        }
        if exists|k: int| 0 <= k < a.output_inc_logics@[oi]@.len() && #[trigger] output_logic_term(rm, a, ws, oi, k) {
            let k = choose|k: int| 0 <= k < a.output_inc_logics@[oi]@.len() && #[trigger] output_logic_term(rm, a, ws, oi, k);
            assert(output_logic_term(rm2, b, ws, oi, k));
        }
        if exists|k: int| 0 <= k < b.output_inc_logics@[oi]@.len() && #[trigger] output_logic_term(rm2, b, ws, oi, k) {
            let k = choose|k: int| 0 <= k < b.output_inc_logics@[oi]@.len() && #[trigger] output_logic_term(rm2, b, ws, oi, k);
            assert(output_logic_term(rm, a, ws, oi, k));
        }
    }
    assert forall|wi: int| 0 <= wi < ws.len() implies tick(rm, a, ws)[wi] == tick(rm2, b, ws)[wi] by {
        if 0 <= wi < a.wire_inc_outputs@.len() {
            assert forall|k: int| 0 <= k < a.wire_inc_outputs@[wi]@.len() implies #[trigger] wire_term(rm, a, ws, wi, k)
                == wire_term(rm2, b, ws, wi, k) by {
                assert(output_value(rm, a, ws, a.wire_inc_outputs@[wi]@[k] as int) == output_value(
                    rm2,
                    b,
                    ws,
                    a.wire_inc_outputs@[wi]@[k] as int,
                ));
            }
            if tick(rm, a, ws)[wi] {
                let k = choose|k: int| 0 <= k < a.wire_inc_outputs@[wi]@.len() && #[trigger] wire_term(rm, a, ws, wi, k);
                assert(wire_term(rm2, b, ws, wi, k));
            }
            if tick(rm2, b, ws)[wi] {
                let k = choose|k: int| 0 <= k < b.wire_inc_outputs@[wi]@.len() && #[trigger] wire_term(rm2, b, ws, wi, k);
                assert(wire_term(rm, a, ws, wi, k));
            }
        }
    }
    assert(tick(rm, a, ws) =~= tick(rm2, b, ws));
}

/// Ticks keep the number of wires.
pub proof fn lemma_ticks_len(rm: &RegionMap, im: &IncidenceMap, ws: Seq<bool>, n: nat)
    ensures
        ticks(rm, im, ws, n).len() == ws.len(),
    decreases n,
{
    if n > 0 {
        lemma_ticks_len(rm, im, ws, (n - 1) as nat);
    }
}

/// Region maps that agree on every coordinate's region agree on adjacency.
proof fn lemma_adjacent_same(m1: &RegionMap, m2: &RegionMap, x: int, y: int)
    requires
        m1.wf(),
        m1.width == m2.width,
        m1.height == m2.height,
        forall|c: (usize, usize)| m1.in_grid(c) ==> #[trigger] m1.region_at(c) == m2.region_at(c),
    ensures
        m1.adjacent(x, y) == m2.adjacent(x, y),
{
    assert forall|c: (usize, usize), k: int| m1.in_grid(c) && 0 <= k < 4 implies m1.in_grid(
        #[trigger] m1.ortho_nb(c, k),
    ) && m1.ortho_nb(c, k) == m2.ortho_nb(c, k) by {
        let d = crate::regionmap::ortho()[k];
        crate::reselboard::lemma_wrap_inverse(c.0 as int, d.0 as int, m1.width as int);
        crate::reselboard::lemma_wrap_inverse(c.1 as int, d.1 as int, m1.height as int);
    }
    if m1.adjacent(x, y) {
        let (c, k) = choose|c: (usize, usize), k: int|
            m1.in_grid(c) && m1.region_at(c) == x && 0 <= k < 4 && #[trigger] m1.region_at(
                m1.ortho_nb(c, k),
            ) == y;
        assert(m2.region_at(m2.ortho_nb(c, k)) == y);
    }
    if m2.adjacent(x, y) {
        let (c, k) = choose|c: (usize, usize), k: int|
            m2.in_grid(c) && m2.region_at(c) == x && 0 <= k < 4 && #[trigger] m2.region_at(
                m2.ortho_nb(c, k),
            ) == y;
        assert(m1.ortho_nb(c, k) == m2.ortho_nb(c, k));
        assert(m1.region_at(m1.ortho_nb(c, k)) == y);
    }
}

proof fn lemma_relates_transfer(m1: &RegionMap, m2: &RegionMap, rel: Seq<Vec<usize>>, src: int, dst: int)
    requires
        m1.wf(),
        relates(m2, rel, src, dst),
        m1.dense(src) == m2.dense(src),
        m1.dense(dst) == m2.dense(dst),
        m1.width == m2.width,
        m1.height == m2.height,
        forall|c: (usize, usize)| m1.in_grid(c) ==> #[trigger] m1.region_at(c) == m2.region_at(c),
    ensures
        relates(m1, rel, src, dst),
{
    assert forall|i: int, j: usize|
        0 <= i < rel.len() implies ((#[trigger] rel[i]@.contains(j)) <==> j < m1.dense(dst).len()
            && m1.adjacent(m1.dense(src)[i] as int, m1.dense(dst)[j as int] as int)) by {
        lemma_adjacent_same(m1, m2, m1.dense(src)[i] as int, m1.dense(dst)[j as int] as int);
    }
}

/// A circuit compiled from `rb` holds the region map and the incidences
/// that the region mapper and the incidence builder give `rb`: for any `rm`
/// that labels `rb` (as [`region_map_from_reselboard`] ensures) and any `im`
/// built from it (as [`incidencemap_from_regionmap`] ensures), every field
/// of the circuit's region map equals that of `rm`, its incidences have the
/// rows of `im`, and each wire starts in the on/off state of its region's
/// class.
pub proof fn lemma_compiled_from(rc: &ResoCircuit, rb: &ReselBoard, rm: &RegionMap, im: &IncidenceMap)
    requires
        rb.wf(),
        rc.topology_wf(),
        rc.rm.labels(rb),
        rm.wf(),
        rm.labels(rb),
        im.built_from(rm),
    ensures
        rc.rm.width == rm.width,
        rc.rm.height == rm.height,
        rc.rm.xy_to_region@.len() == rm.xy_to_region@.len(),
        forall|x: int| 0 <= x < rm.width ==> (#[trigger] rc.rm.xy_to_region@[x])@ == rm.xy_to_region@[x]@,
        rc.rm.region_to_xys@.len() == rm.region_to_xys@.len(),
        forall|r: int| 0 <= r < rm.n_regions() ==> (#[trigger] rc.rm.region_to_xys@[r])@ == rm.region_to_xys@[r]@,
        rc.rm.region_to_resel@ == rm.region_to_resel@,
        rc.rm.wire_regions@ == rm.wire_regions@,
        rc.rm.input_regions@ == rm.input_regions@,
        rc.rm.logic_regions@ == rm.logic_regions@,
        rc.rm.output_regions@ == rm.output_regions@,
        rc.rm.reverse_dense@ == rm.reverse_dense@,
        same_rows(&rc.im, im),
{
    crate::regionmap::lemma_labelling_unique(&rc.rm, rm, rb);
    assert(rc.rm.region_to_resel@ =~= rm.region_to_resel@);
    assert forall|k: int| 0 <= k < 4 implies #[trigger] rc.rm.dense(k) == rm.dense(k) by {}
    lemma_relates_transfer(&rc.rm, rm, im.input_inc_wires@, 1, 0);
    lemma_relates_transfer(&rc.rm, rm, im.logic_inc_inputs@, 2, 1);
    lemma_relates_transfer(&rc.rm, rm, im.output_inc_inputs@, 3, 1);
    lemma_relates_transfer(&rc.rm, rm, im.output_inc_logics@, 3, 2);
    lemma_relates_transfer(&rc.rm, rm, im.wire_inc_outputs@, 0, 3);
    lemma_relates_unique(&rc.rm, rc.im.input_inc_wires@, im.input_inc_wires@, 1, 0);
    lemma_relates_unique(&rc.rm, rc.im.logic_inc_inputs@, im.logic_inc_inputs@, 2, 1);
    lemma_relates_unique(&rc.rm, rc.im.output_inc_inputs@, im.output_inc_inputs@, 3, 1);
    lemma_relates_unique(&rc.rm, rc.im.output_inc_logics@, im.output_inc_logics@, 3, 2);
    lemma_relates_unique(&rc.rm, rc.im.wire_inc_outputs@, im.wire_inc_outputs@, 0, 3);
}

/// Compiling and ticking are deterministic: two circuits compiled from the
/// same grid, each of whose region maps labels that grid and whose wires
/// start in their regions' states (as [`ResoCircuit::new`] ensures), compute
/// the same wire states tick after tick.
pub proof fn lemma_tick_determinism(a: &ResoCircuit, b: &ResoCircuit, rb: &ReselBoard, n: nat)
    requires
        rb.wf(),
        a.topology_wf(),
        b.topology_wf(),
        a.rm.labels(rb),
        b.rm.labels(rb),
        forall|w: int|
            0 <= w < a.wire_state@.len() ==> a.rm.class_of(a.rm.wire_regions@[w] as int).spec_wire_state()
                == Some(#[trigger] a.wire_state@[w]),
        forall|w: int|
            0 <= w < b.wire_state@.len() ==> b.rm.class_of(b.rm.wire_regions@[w] as int).spec_wire_state()
                == Some(#[trigger] b.wire_state@[w]),
    ensures
        ticks(&a.rm, &a.im, a.wire_state@, n) == ticks(&b.rm, &b.im, b.wire_state@, n),
{
    crate::regionmap::lemma_labelling_unique(&a.rm, &b.rm, rb);
    assert(a.rm.dense(0) == a.rm.wire_regions@);
    assert(b.rm.dense(0) == b.rm.wire_regions@);
    assert forall|k: int| 0 <= k < 4 implies #[trigger] a.rm.dense(k) == b.rm.dense(k) by {}
    assert(a.wire_state@ =~= b.wire_state@) by {
        assert forall|w: int| 0 <= w < a.wire_state@.len() implies a.wire_state@[w] == b.wire_state@[w] by {
            assert(a.rm.dense(0)[w] == a.rm.wire_regions@[w]);
            assert(a.rm.wire_regions@[w] < a.rm.n_regions());
        }
    }
    lemma_relates_transfer(&a.rm, &b.rm, b.im.input_inc_wires@, 1, 0);
    lemma_relates_transfer(&a.rm, &b.rm, b.im.logic_inc_inputs@, 2, 1);
    lemma_relates_transfer(&a.rm, &b.rm, b.im.output_inc_inputs@, 3, 1);
    lemma_relates_transfer(&a.rm, &b.rm, b.im.output_inc_logics@, 3, 2);
    lemma_relates_transfer(&a.rm, &b.rm, b.im.wire_inc_outputs@, 0, 3);
    lemma_relates_unique(&a.rm, a.im.input_inc_wires@, b.im.input_inc_wires@, 1, 0);
    lemma_relates_unique(&a.rm, a.im.logic_inc_inputs@, b.im.logic_inc_inputs@, 2, 1);
    lemma_relates_unique(&a.rm, a.im.output_inc_inputs@, b.im.output_inc_inputs@, 3, 1);
    lemma_relates_unique(&a.rm, a.im.output_inc_logics@, b.im.output_inc_logics@, 3, 2);
    lemma_relates_unique(&a.rm, a.im.wire_inc_outputs@, b.im.wire_inc_outputs@, 0, 3);
    lemma_ticks_same(a, b, n);
}

proof fn lemma_ticks_same(a: &ResoCircuit, b: &ResoCircuit, n: nat)
    requires
        a.topology_wf(),
        same_rows(&a.im, &b.im),
        a.wire_state@ == b.wire_state@,
        b.rm.logic_regions@ == a.rm.logic_regions@,
        forall|r: int| 0 <= r < a.rm.n_regions() ==> #[trigger] a.rm.class_of(r) == b.rm.class_of(r),
    ensures
        ticks(&a.rm, &a.im, a.wire_state@, n) == ticks(&b.rm, &b.im, b.wire_state@, n),
    decreases n,
{
    if n > 0 {
        lemma_ticks_same(a, b, (n - 1) as nat);
        lemma_ticks_len(&a.rm, &a.im, a.wire_state@, (n - 1) as nat);
        lemma_tick_same_rows(&a.rm, &b.rm, &a.im, &b.im, ticks(&a.rm, &a.im, a.wire_state@, (n - 1) as nat));
    }
}

/// Input `ii` reads wire `w`.
pub open spec fn input_reads(im: &IncidenceMap, ii: int, w: int) -> bool {
    exists|p: int| 0 <= p < im.input_inc_wires@[ii]@.len() && #[trigger] im.input_inc_wires@[ii]@[p] == w
}

/// Logic gate `li` reads wire `w` through one of its inputs.
pub open spec fn logic_reads(im: &IncidenceMap, li: int, w: int) -> bool {
    exists|k: int|
        0 <= k < im.logic_inc_inputs@[li]@.len() && #[trigger] input_reads(
            im,
            im.logic_inc_inputs@[li]@[k] as int,
            w,
        )
}

/// Output `oi` reads wire `w` through an input or a logic gate.
pub open spec fn output_reads(im: &IncidenceMap, oi: int, w: int) -> bool {
    ||| exists|k: int|
        0 <= k < im.output_inc_inputs@[oi]@.len() && #[trigger] input_reads(
            im,
            im.output_inc_inputs@[oi]@[k] as int,
            w,
        )
    ||| exists|k: int|
        0 <= k < im.output_inc_logics@[oi]@.len() && #[trigger] logic_reads(
            im,
            im.output_inc_logics@[oi]@[k] as int,
            w,
        )
}

/// Wire `w` feeds wire `w2`: its state reaches `w2` within one tick.
pub open spec fn feeds(im: &IncidenceMap, w: int, w2: int) -> bool {
    exists|k: int|
        0 <= k < im.wire_inc_outputs@[w2]@.len() && #[trigger] output_reads(
            im,
            im.wire_inc_outputs@[w2]@[k] as int,
            w,
        )
}

/// A tick's value for wire `w2` depends only on the wires that feed it.
proof fn lemma_tick_local(rm: &RegionMap, im: &IncidenceMap, ws1: Seq<bool>, ws2: Seq<bool>, w2: int)
    requires
        ws1.len() == ws2.len(),
        0 <= w2 < ws1.len(),
        forall|w: int| #[trigger] feeds(im, w, w2) ==> ws1[w] == ws2[w],
    ensures
        tick(rm, im, ws1)[w2] == tick(rm, im, ws2)[w2],
{
    let outs = im.wire_inc_outputs@[w2]@;
    assert forall|k: int| 0 <= k < outs.len() implies #[trigger] wire_term(rm, im, ws1, w2, k)
        == wire_term(rm, im, ws2, w2, k) by {
        let oi = outs[k] as int;
        assert forall|ii: int| (forall|w: int| #[trigger] input_reads(im, ii, w) ==> ws1[w] == ws2[w])
            implies #[trigger] input_values(im, ws1, ii) == input_values(im, ws2, ii) by {
            assert forall|p: int| 0 <= p < im.input_inc_wires@[ii]@.len() implies input_values(im, ws1, ii)[p]
                == input_values(im, ws2, ii)[p] by {
                assert(input_reads(im, ii, im.input_inc_wires@[ii]@[p] as int));
            }
            assert(input_values(im, ws1, ii) =~= input_values(im, ws2, ii));
        }
        assert forall|k2: int| 0 <= k2 < im.output_inc_inputs@[oi]@.len() implies #[trigger] output_input_term(im, ws1, oi, k2)
            == output_input_term(im, ws2, oi, k2) by {
            let ii = im.output_inc_inputs@[oi]@[k2] as int;
            assert forall|w: int| #[trigger] input_reads(im, ii, w) implies ws1[w] == ws2[w] by {
                assert(output_reads(im, oi, w));
                assert(feeds(im, w, w2));
            }
        }
        assert forall|k2: int| 0 <= k2 < im.output_inc_logics@[oi]@.len() implies #[trigger] output_logic_term(rm, im, ws1, oi, k2)
            == output_logic_term(rm, im, ws2, oi, k2) by {
            let li = im.output_inc_logics@[oi]@[k2] as int;
            assert forall|k3: int| 0 <= k3 < im.logic_inc_inputs@[li]@.len() implies #[trigger] logic_term(rm, im, ws1, li, k3)
                == logic_term(rm, im, ws2, li, k3) by {
                let ii = im.logic_inc_inputs@[li]@[k3] as int;
                assert forall|w: int| #[trigger] input_reads(im, ii, w) implies ws1[w] == ws2[w] by {
                    assert(logic_reads(im, li, w));
                    assert(output_reads(im, oi, w));
                    assert(feeds(im, w, w2));
                }
            }
            if logic_value(rm, im, ws1, li) {
                let k3 = choose|k3: int| 0 <= k3 < im.logic_inc_inputs@[li]@.len() && #[trigger] logic_term(rm, im, ws1, li, k3);
                assert(logic_term(rm, im, ws2, li, k3));
            }
            if logic_value(rm, im, ws2, li) {
                let k3 = choose|k3: int| 0 <= k3 < im.logic_inc_inputs@[li]@.len() && #[trigger] logic_term(rm, im, ws2, li, k3);
                assert(logic_term(rm, im, ws1, li, k3));
            }
        }
        if exists|k2: int| 0 <= k2 < im.output_inc_inputs@[oi]@.len() && #[trigger] output_input_term(im, ws1, oi, k2) {
            let k2 = choose|k2: int| 0 <= k2 < im.output_inc_inputs@[oi]@.len() && #[trigger] output_input_term(im, ws1, oi, k2);
            assert(output_input_term(im, ws2, oi, k2));
        }
        if exists|k2: int| 0 <= k2 < im.output_inc_inputs@[oi]@.len() && #[trigger] output_input_term(im, ws2, oi, k2) {
            let k2 = choose|k2: int| 0 <= k2 < im.output_inc_inputs@[oi]@.len() && #[trigger] output_input_term(im, ws2, oi, k2);
            assert(output_input_term(im, ws1, oi, k2));
        }
        if exists|k2: int| 0 <= k2 < im.output_inc_logics@[oi]@.len() && #[trigger] output_logic_term(rm, im, ws1, oi, k2) {
            let k2 = choose|k2: int| 0 <= k2 < im.output_inc_logics@[oi]@.len() && #[trigger] output_logic_term(rm, im, ws1, oi, k2);
            assert(output_logic_term(rm, im, ws2, oi, k2));
        }
        if exists|k2: int| 0 <= k2 < im.output_inc_logics@[oi]@.len() && #[trigger] output_logic_term(rm, im, ws2, oi, k2) {
            let k2 = choose|k2: int| 0 <= k2 < im.output_inc_logics@[oi]@.len() && #[trigger] output_logic_term(rm, im, ws2, oi, k2);
            assert(output_logic_term(rm, im, ws1, oi, k2));
        }
    }
    if tick(rm, im, ws1)[w2] {
        let k = choose|k: int| 0 <= k < outs.len() && #[trigger] wire_term(rm, im, ws1, w2, k);
        assert(wire_term(rm, im, ws2, w2, k));
    }
    if tick(rm, im, ws2)[w2] {
        let k = choose|k: int| 0 <= k < outs.len() && #[trigger] wire_term(rm, im, ws2, w2, k);
        assert(wire_term(rm, im, ws1, w2, k));
    }
}

/// `p` is a chain of wires, each feeding the next; it has `p.len() - 1`
/// edges.
pub open spec fn wire_path(im: &IncidenceMap, p: Seq<int>, nw: int) -> bool {
    &&& p.len() >= 1
    &&& forall|i: int| 0 <= i < p.len() ==> 0 <= #[trigger] p[i] < nw
    &&& forall|i: int| 0 <= i < p.len() - 1 ==> #[trigger] feeds(im, p[i], p[i + 1])
}

/// The circuit has no feedback: no chain of wires leads from a wire back to
/// itself.
pub open spec fn acyclic(im: &IncidenceMap, nw: int) -> bool {
    forall|p: Seq<int>| #[trigger] wire_path(im, p, nw) && p.len() >= 2 ==> p[0] != p.last()
}

/// Every wire that feeds a wire is a wire.
proof fn lemma_feeds_in_range(c: &ResoCircuit)
    requires
        c.topology_wf(),
    ensures
        forall|a: int, b: int|
            0 <= b < c.wire_state@.len() && #[trigger] feeds(&c.im, a, b) ==> 0 <= a < c.wire_state@.len(),
{
    assert forall|a: int, b: int|
        0 <= b < c.wire_state@.len() && #[trigger] feeds(&c.im, a, b) implies 0 <= a < c.wire_state@.len() by {
        assert(c.rm.dense(0) == c.rm.wire_regions@);
        let k = choose|k: int|
            0 <= k < c.im.wire_inc_outputs@[b]@.len() && #[trigger] output_reads(
                &c.im,
                c.im.wire_inc_outputs@[b]@[k] as int,
                a,
            );
        let oi = c.im.wire_inc_outputs@[b]@[k] as int;
        assert(0 <= oi < c.rm.output_regions@.len());
        assert(c.rm.dense(3) == c.rm.output_regions@);
        assert(c.rm.dense(1) == c.rm.input_regions@);
        assert(c.rm.dense(2) == c.rm.logic_regions@);
        if exists|k2: int|
            0 <= k2 < c.im.output_inc_inputs@[oi]@.len() && #[trigger] input_reads(
                &c.im,
                c.im.output_inc_inputs@[oi]@[k2] as int,
                a,
            ) {
            let k2 = choose|k2: int|
                0 <= k2 < c.im.output_inc_inputs@[oi]@.len() && #[trigger] input_reads(
                    &c.im,
                    c.im.output_inc_inputs@[oi]@[k2] as int,
                    a,
                );
            let ii = c.im.output_inc_inputs@[oi]@[k2] as int;
            assert(0 <= ii < c.im.input_inc_wires@.len());
            let p = choose|p: int| 0 <= p < c.im.input_inc_wires@[ii]@.len() && #[trigger] c.im.input_inc_wires@[ii]@[p] == a;
        } else {
            let k2 = choose|k2: int|
                0 <= k2 < c.im.output_inc_logics@[oi]@.len() && #[trigger] logic_reads(
                    &c.im,
                    c.im.output_inc_logics@[oi]@[k2] as int,
                    a,
                );
            let li = c.im.output_inc_logics@[oi]@[k2] as int;
            assert(0 <= li < c.im.logic_inc_inputs@.len());
            let k3 = choose|k3: int|
                0 <= k3 < c.im.logic_inc_inputs@[li]@.len() && #[trigger] input_reads(
                    &c.im,
                    c.im.logic_inc_inputs@[li]@[k3] as int,
                    a,
                );
            let ii = c.im.logic_inc_inputs@[li]@[k3] as int;
            assert(0 <= ii < c.im.input_inc_wires@.len());
            let p = choose|p: int| 0 <= p < c.im.input_inc_wires@[ii]@.len() && #[trigger] c.im.input_inc_wires@[ii]@[p] == a;
        }
    }
}

/// A wire at the end of chains of at most `d` edges holds one value from
/// tick `d + 1` on.
proof fn lemma_settled(
    rm: &RegionMap,
    im: &IncidenceMap,
    ws: Seq<bool>,
    d: nat,
    t1: nat,
    t2: nat,
    w: int,
)
    requires
        forall|a: int, b: int| 0 <= b < ws.len() && #[trigger] feeds(im, a, b) ==> 0 <= a < ws.len(),
        0 <= w < ws.len(),
        forall|p: Seq<int>| #[trigger] wire_path(im, p, ws.len() as int) && p.last() == w ==> p.len() <= d + 1,
        d < t1,
        d < t2,
    ensures
        ticks(rm, im, ws, t1)[w] == ticks(rm, im, ws, t2)[w],
    decreases d,
{
    lemma_ticks_len(rm, im, ws, (t1 - 1) as nat);
    lemma_ticks_len(rm, im, ws, (t2 - 1) as nat);
    let s1 = ticks(rm, im, ws, (t1 - 1) as nat);
    let s2 = ticks(rm, im, ws, (t2 - 1) as nat);
    assert forall|a: int| #[trigger] feeds(im, a, w) implies s1[a] == s2[a] by {
        assert(0 <= a < ws.len());
        assert forall|p: Seq<int>| #[trigger] wire_path(im, p, ws.len() as int) && p.last() == a implies p.len() <= d by {
            let q = p.push(w);
            assert(q[p.len() - 1] == a && q[p.len() as int] == w);
            assert forall|i: int| 0 <= i < q.len() - 1 implies #[trigger] feeds(im, q[i], q[i + 1]) by {
                if i < p.len() - 1 {
                    assert(q[i] == p[i] && q[i + 1] == p[i + 1]);
                }
            }
            assert forall|i: int| 0 <= i < q.len() implies 0 <= #[trigger] q[i] < ws.len() by {
                if i < p.len() {
                    assert(q[i] == p[i]);
                }
            }
            assert(wire_path(im, q, ws.len() as int));
            assert(q.last() == w);
        }
        if d == 0 {
            let q = seq![a, w];
            assert(wire_path(im, q, ws.len() as int));
        } else {
            lemma_settled(rm, im, ws, (d - 1) as nat, (t1 - 1) as nat, (t2 - 1) as nat, a);
        }
    }
    lemma_tick_local(rm, im, s1, s2, w);
}

/// A circuit settles within one tick more than its longest chain of wires:
/// when no chain of wires, each feeding the next, has more than `longest`
/// edges, then after `longest + 1` ticks the wire states no longer change.
pub proof fn lemma_acyclic_fixed_point(c: &ResoCircuit, longest: nat)
    requires
        c.topology_wf(),
        forall|p: Seq<int>| #[trigger] wire_path(&c.im, p, c.wire_state@.len() as int) ==> p.len() <= longest + 1,
    ensures
        ticks(&c.rm, &c.im, c.wire_state@, longest + 2) == ticks(&c.rm, &c.im, c.wire_state@, longest + 1),
{
    let ws = c.wire_state@;
    let n1: nat = longest + 1;
    let n2: nat = longest + 2;
    lemma_feeds_in_range(c);
    lemma_ticks_len(&c.rm, &c.im, ws, n1);
    lemma_ticks_len(&c.rm, &c.im, ws, n2);
    assert forall|w: int| 0 <= w < ws.len() implies #[trigger] ticks(&c.rm, &c.im, ws, n2)[w] == ticks(
        &c.rm,
        &c.im,
        ws,
        n1,
    )[w] by {
        lemma_settled(&c.rm, &c.im, ws, longest, n2, n1, w);
    }
    assert(ticks(&c.rm, &c.im, ws, n2) =~= ticks(&c.rm, &c.im, ws, n1));
}

/// Without feedback, every chain of wires visits each wire at most once, so
/// it has fewer edges than there are wires.
pub proof fn lemma_acyclic_paths_bounded(im: &IncidenceMap, nw: int, p: Seq<int>)
    requires
        0 <= nw,
        acyclic(im, nw),
        wire_path(im, p, nw),
    ensures
        p.len() <= nw,
{
    vstd::set_lib::lemma_int_range(0, nw);
    assert(p.to_set().subset_of(vstd::set_lib::set_int_range(0, nw))) by {
        assert forall|x: int| p.to_set().contains(x) implies vstd::set_lib::set_int_range(0, nw).contains(x) by {
            let i = choose|i: int| 0 <= i < p.len() && p[i] == x;
            assert(0 <= p[i] < nw);
        }
    }
    vstd::set_lib::lemma_len_subset(p.to_set(), vstd::set_lib::set_int_range(0, nw));
    if p.len() > nw {
        if p.no_duplicates() {
            p.unique_seq_to_set();
        } else {
            let (i, j) = choose|i: int, j: int| 0 <= i < p.len() && 0 <= j < p.len() && i != j && p[i] == p[j];
            let (lo, hi) = if i < j { (i, j) } else { (j, i) };
            let q = p.subrange(lo, hi + 1);
            assert forall|k: int| 0 <= k < q.len() - 1 implies #[trigger] feeds(im, q[k], q[k + 1]) by {
                assert(q[k] == p[lo + k] && q[k + 1] == p[lo + k + 1]);
            }
            assert forall|k: int| 0 <= k < q.len() implies 0 <= #[trigger] q[k] < nw by {
                assert(q[k] == p[lo + k]);
            }
            assert(wire_path(im, q, nw));
            assert(q[0] == q.last());
        }
    }
}

/// A circuit without feedback settles: when no chain of wires leads from a
/// wire back to itself, then after as many ticks as there are wires the wire
/// states no longer change.
pub proof fn lemma_acyclic_settles(c: &ResoCircuit)
    requires
        c.topology_wf(),
        acyclic(&c.im, c.wire_state@.len() as int),
    ensures
        ticks(&c.rm, &c.im, c.wire_state@, c.wire_state@.len() + 1) == ticks(
            &c.rm,
            &c.im,
            c.wire_state@,
            c.wire_state@.len(),
        ),
{
    let nw = c.wire_state@.len();
    if nw == 0 {
        lemma_ticks_len(&c.rm, &c.im, c.wire_state@, 1);
        lemma_ticks_len(&c.rm, &c.im, c.wire_state@, 0);
        assert(ticks(&c.rm, &c.im, c.wire_state@, 1) =~= ticks(&c.rm, &c.im, c.wire_state@, 0));
    } else {
        assert forall|p: Seq<int>| #[trigger] wire_path(&c.im, p, nw as int) implies p.len() <= (nw - 1) + 1 by {
            lemma_acyclic_paths_bounded(&c.im, nw as int, p);
        }
        lemma_acyclic_fixed_point(c, (nw - 1) as nat);
    }
}

} // verus!
