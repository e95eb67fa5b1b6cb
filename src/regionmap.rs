//! Connected-component labelling of a grid of cells into regions.
//!
//! Two non-empty cells join one region when one lies among the other's
//! neighbour offsets (all eight surrounding cells for wires, the four
//! orthogonal ones otherwise, wrapping around the grid's edges) and they are
//! the same class, on and off wires of a colour counting as one class.
//! Region 0 collects every empty cell and never grows. Every other region is
//! numbered from 1 in the order in which a row-major scan meets it, and each
//! non-empty region also gets a dense index within the list of its kind
//! (wire, input, logic, output).
use vstd::prelude::*;
use crate::grid::{at, shaped, rect, lemma_rect_finite, lemma_rect_len, set_at, filled};
use crate::resel::Resel;
use crate::reselboard::{ReselBoard, neighbor, lemma_wrap_inverse, get_neighbors};

verus! {

/// The partition of a grid into regions, with dense per-kind indices.
///
/// - `xy_to_region[x][y]`: the region of coordinate `(x, y)`;
/// - `region_to_xys[r]`: the coordinates of region `r`, in the order the
///   labelling reached them;
/// - `region_to_resel[r]`: the class of region `r`, taken from its first
///   coordinate (`Empty` for region 0);
/// - `wire_regions`, `input_regions`, `logic_regions`, `output_regions`: the
///   regions of each kind in increasing order; a region's position in its
///   list is its dense index;
/// - `reverse_dense[r]`: the dense index of region `r` within its kind's list.
#[derive(Debug, Clone)]
pub struct RegionMap {
    pub xy_to_region: Vec<Vec<usize>>,
    pub width: usize,
    pub height: usize,
    pub region_to_xys: Vec<Vec<(usize, usize)>>,
    pub region_to_resel: Vec<Resel>,
    pub wire_regions: Vec<usize>,
    pub input_regions: Vec<usize>,
    pub logic_regions: Vec<usize>,
    pub output_regions: Vec<usize>,
    pub reverse_dense: Vec<usize>,
}

/// Which dense list a class belongs to: 0 wires, 1 inputs, 2 logic gates,
/// 3 outputs; 4 for an empty cell, which has none.
pub open spec fn kind_of(r: Resel) -> int {
    if r.spec_is_wire() {
        0
    } else if r == Resel::Input {
        1
    } else if r.spec_is_logic() {
        2
    } else if r == Resel::Output {
        3
    } else {
        4
    }
}

/// The `k`-th cell that may join the region of `c`, by the offsets of `c`'s
/// class.
pub open spec fn nb(rb: &ReselBoard, c: (usize, usize), k: int) -> (usize, usize) {
    neighbor(
        c.0 as int,
        c.1 as int,
        rb.cell_at(c).spec_delta_neighbors()[k],
        rb.width as int,
        rb.height as int,
    )
}

/// The `k`-th neighbour of `c` is the same class as `c`, so the two must
/// share a region.
pub open spec fn joins(rb: &ReselBoard, c: (usize, usize), k: int) -> bool {
    &&& 0 <= k < rb.cell_at(c).spec_delta_neighbors().len()
    &&& rb.cell_at(nb(rb, c, k)).spec_same(rb.cell_at(c))
}

/// Every cell that joins `c` carries `c`'s label in `xy`.
pub open spec fn closed_at(rb: &ReselBoard, xy: Seq<Vec<usize>>, c: (usize, usize)) -> bool {
    forall|k: int| #[trigger] joins(rb, c, k) ==> at(xy, nb(rb, c, k)) == at(xy, c)
}

/// `b` is a neighbour of `a` that joins it.
pub open spec fn step(rb: &ReselBoard, a: (usize, usize), b: (usize, usize)) -> bool {
    exists|k: int| #[trigger] joins(rb, a, k) && nb(rb, a, k) == b
}

/// `path` is a walk on `rb`: each step goes from a coordinate to one of its
/// neighbours that joins it.
pub open spec fn is_walk(rb: &ReselBoard, path: Seq<(usize, usize)>) -> bool {
    &&& path.len() > 0
    &&& forall|i: int| 0 <= i < path.len() - 1 ==> #[trigger] step(rb, path[i], path[i + 1])
}

/// Some walk on `rb` leads from `a` to `b`.
pub open spec fn reachable(rb: &ReselBoard, a: (usize, usize), b: (usize, usize)) -> bool {
    exists|path: Seq<(usize, usize)>| #[trigger] is_walk(rb, path) && path[0] == a && path.last() == b
}

/// A walk to `c` extends to the neighbour of `c` that joins it.
proof fn lemma_reach_step(rb: &ReselBoard, a: (usize, usize), c: (usize, usize), k: int)
    requires
        reachable(rb, a, c),
        joins(rb, c, k),
    ensures
        reachable(rb, a, nb(rb, c, k)),
{
    let path = choose|path: Seq<(usize, usize)>| #[trigger] is_walk(rb, path) && path[0] == a && path.last() == c;
    let p2 = path.push(nb(rb, c, k));
    assert forall|i: int| 0 <= i < p2.len() - 1 implies #[trigger] step(rb, p2[i], p2[i + 1]) by {
        if i < path.len() - 1 {
            assert(p2[i] == path[i] && p2[i + 1] == path[i + 1]);
            assert(step(rb, path[i], path[i + 1]));
        } else {
            assert(p2[i] == c);
            assert(joins(rb, p2[i], k));
        }
    }
    assert(is_walk(rb, p2));
}

pub open spec fn on_board(rb: &ReselBoard, c: (usize, usize)) -> bool {
    c.0 < rb.width && c.1 < rb.height
}

/// A neighbour of a coordinate of the grid is on the grid.
pub proof fn lemma_nb_on_board(rb: &ReselBoard, c: (usize, usize), k: int)
    requires
        rb.wf(),
        on_board(rb, c),
        0 <= k < rb.cell_at(c).spec_delta_neighbors().len(),
    ensures
        on_board(rb, nb(rb, c, k)),
{
    let d = rb.cell_at(c).spec_delta_neighbors()[k];
    lemma_wrap_inverse(c.0 as int, d.0 as int, rb.width as int);
    lemma_wrap_inverse(c.1 as int, d.1 as int, rb.height as int);
}

/// Joining is symmetric: when `d`, the `k`-th neighbour of `c`, is the same
/// class as `c`, then `c` is a neighbour of `d` that joins it.
pub proof fn lemma_joins_symmetric(rb: &ReselBoard, c: (usize, usize), k: int) -> (k2: int)
    requires
        rb.wf(),
        on_board(rb, c),
        joins(rb, c, k),
    ensures
        joins(rb, nb(rb, c, k), k2),
        nb(rb, nb(rb, c, k), k2) == c,
{
    let d = nb(rb, c, k);
    let deltas = rb.cell_at(c).spec_delta_neighbors();
    let dl = deltas[k];
    lemma_wrap_inverse(c.0 as int, dl.0 as int, rb.width as int);
    lemma_wrap_inverse(c.1 as int, dl.1 as int, rb.height as int);
    assert(rb.cell_at(d).spec_delta_neighbors() == deltas);
    let k2 = if deltas.len() == 8 {
        assert(deltas[0] == (1isize, 0isize));
        assert(deltas[1] == (1isize, 1isize));
        assert(deltas[2] == (0isize, 1isize));
        assert(deltas[3] == (-1isize, 1isize));
        assert(deltas[4] == (-1isize, 0isize));
        assert(deltas[5] == (-1isize, -1isize));
        assert(deltas[6] == (0isize, -1isize));
        assert(deltas[7] == (1isize, -1isize));
        if k < 4 {
            k + 4
        } else {
            k - 4
        }
    } else {
        assert(deltas[0] == (1isize, 0isize));
        assert(deltas[1] == (0isize, 1isize));
        assert(deltas[2] == (-1isize, 0isize));
        assert(deltas[3] == (0isize, -1isize));
        if k < 2 {
            k + 2
        } else {
            k - 2
        }
    };
    assert(deltas[k2].0 == -dl.0 && deltas[k2].1 == -dl.1);
    k2
}

/// `c` comes before `(x, y)` in the row-major scan: columns by increasing
/// `x`, each column by increasing `y`.
pub open spec fn scanned_before(c: (usize, usize), x: int, y: int) -> bool {
    (c.0 as int) < x || (c.0 == x && (c.1 as int) < y)
}

/// The coordinates not yet visited.
pub open spec fn unvisited(visited: Seq<Vec<bool>>, w: int, h: int) -> Set<(usize, usize)> {
    rect(w, h).filter(|c: (usize, usize)| !at(visited, c))
}

proof fn lemma_visit_one(visited: Seq<Vec<bool>>, v2: Seq<Vec<bool>>, w: int, h: int, c: (usize, usize))
    requires
        0 <= w <= usize::MAX + 1,
        c.0 < w && c.1 < h,
        !at(visited, c),
        forall|d: (usize, usize)|
            d.0 < w && d.1 < h ==> #[trigger] at(v2, d) == (d == c || at(visited, d)),
    ensures
        unvisited(visited, w, h).finite(),
        unvisited(v2, w, h).finite(),
        unvisited(v2, w, h).len() + 1 == unvisited(visited, w, h).len(),
{
    lemma_rect_finite(w, h);
    assert(unvisited(v2, w, h) =~= unvisited(visited, w, h).remove(c));
    vstd::set_lib::lemma_set_subset_finite(rect(w, h), unvisited(visited, w, h));
}

/// The neighbours of `c`, from offset index `k` on and in offset order,
/// that the walk pushes onto `stack`: each one of class `cls` (on and off
/// wires counting as one) that is not yet in `seen`, which it joins.
pub open spec fn push_from(
    rb: &ReselBoard,
    cls: Resel,
    c: (usize, usize),
    k: int,
    stack: Seq<(usize, usize)>,
    seen: Set<(usize, usize)>,
) -> (Seq<(usize, usize)>, Set<(usize, usize)>)
    decreases rb.cell_at(c).spec_delta_neighbors().len() - k,
{
    if k < 0 || k >= rb.cell_at(c).spec_delta_neighbors().len() {
        (stack, seen)
    } else {
        let d = nb(rb, c, k);
        if rb.cell_at(d).spec_same(cls) && !seen.contains(d) {
            push_from(rb, cls, c, k + 1, stack.push(d), seen.insert(d))
        } else {
            push_from(rb, cls, c, k + 1, stack, seen)
        }
    }
}

/// One step of the depth-first walk over `(stack, seen, labelled)`: the top
/// of the stack is popped and labelled, then its neighbours are pushed.
pub open spec fn walk_step(
    rb: &ReselBoard,
    cls: Resel,
    w: (Seq<(usize, usize)>, Set<(usize, usize)>, Seq<(usize, usize)>),
) -> (Seq<(usize, usize)>, Set<(usize, usize)>, Seq<(usize, usize)>) {
    if w.0.len() == 0 {
        w
    } else {
        let c = w.0.last();
        let p = push_from(rb, cls, c, 0, w.0.drop_last(), w.1);
        (p.0, p.1, w.2.push(c))
    }
}

/// `n` steps of the walk.
pub open spec fn walk_steps(
    rb: &ReselBoard,
    cls: Resel,
    w: (Seq<(usize, usize)>, Set<(usize, usize)>, Seq<(usize, usize)>),
    n: nat,
) -> (Seq<(usize, usize)>, Set<(usize, usize)>, Seq<(usize, usize)>)
    decreases n,
{
    if n == 0 {
        w
    } else {
        walk_step(rb, cls, walk_steps(rb, cls, w, (n - 1) as nat))
    }
}

/// The coordinates of the region grown from `s`, in the order the walk
/// labels them: a stack seeded with `s`, each coordinate labelled when it is
/// popped, its joining neighbours pushed in offset order when first seen.
/// The walk ends within as many steps as the grid has coordinates.
pub open spec fn flood_order(rb: &ReselBoard, s: (usize, usize)) -> Seq<(usize, usize)> {
    walk_steps(
        rb,
        rb.cell_at(s),
        (seq![s], set![s], Seq::empty()),
        rect(rb.width as int, rb.height as int).len(),
    ).2
}

/// Once the stack is empty the walk stays where it is.
proof fn lemma_walk_done(
    rb: &ReselBoard,
    cls: Resel,
    w: (Seq<(usize, usize)>, Set<(usize, usize)>, Seq<(usize, usize)>),
    a: nat,
    b: nat,
)
    requires
        walk_steps(rb, cls, w, a).0.len() == 0,
        a <= b,
    ensures
        walk_steps(rb, cls, w, b) == walk_steps(rb, cls, w, a),
    decreases b,
{
    if b > a {
        lemma_walk_done(rb, cls, w, a, (b - 1) as nat);
    }
}

/// Grows region `region` from the unvisited, non-empty seed `(sx, sy)` with a
/// depth-first walk over a stack. Each coordinate is labelled when it leaves
/// the stack; a neighbour of the same class as the seed is pushed, and marked
/// visited, when it is first seen. Returns the region's coordinates in the
/// order they were labelled.
fn flood_region(
    rb: &ReselBoard,
    visited: &mut Vec<Vec<bool>>,
    xy: &mut Vec<Vec<usize>>,
    sx: usize,
    sy: usize,
    region: usize,
) -> (members: Vec<(usize, usize)>)
    requires
        rb.wf(),
        shaped(old(visited)@, rb.width as int, rb.height as int),
        shaped(old(xy)@, rb.width as int, rb.height as int),
        sx < rb.width,
        sy < rb.height,
        !at(old(visited)@, (sx, sy)),
        rb.cell_at((sx, sy)) != Resel::Empty,
        1 <= region,
        forall|c: (usize, usize)| on_board(rb, c) ==> #[trigger] at(old(xy)@, c) < region,
        forall|c: (usize, usize)|
            on_board(rb, c) && !at(old(visited)@, c) ==> #[trigger] at(old(xy)@, c) == 0,
        forall|c: (usize, usize)|
            on_board(rb, c) && #[trigger] at(old(visited)@, c) && rb.cell_at(c) != Resel::Empty
                ==> at(old(xy)@, c) != 0,
        forall|c: (usize, usize)|
            on_board(rb, c) && #[trigger] at(old(xy)@, c) != 0 ==> closed_at(rb, old(xy)@, c),
    ensures
        shaped(final(visited)@, rb.width as int, rb.height as int),
        shaped(final(xy)@, rb.width as int, rb.height as int),
        members@.len() > 0,
        members@[0] == (sx, sy),
        members@.no_duplicates(),
        forall|i: int|
            0 <= i < members@.len() ==> on_board(rb, #[trigger] members@[i]) && at(
                final(xy)@,
                members@[i],
            ) == region,
        forall|c: (usize, usize)|
            on_board(rb, c) && #[trigger] at(final(xy)@, c) == region ==> members@.contains(c)
                && at(final(visited)@, c) && !at(old(visited)@, c) && rb.cell_at(c).spec_same(
                rb.cell_at((sx, sy)),
            ),
        forall|c: (usize, usize)|
            on_board(rb, c) && #[trigger] at(final(xy)@, c) != region ==> at(final(xy)@, c) == at(
                old(xy)@,
                c,
            ) && at(final(visited)@, c) == at(old(visited)@, c),
        forall|c: (usize, usize)|
            on_board(rb, c) && #[trigger] at(final(xy)@, c) != 0 ==> closed_at(rb, final(xy)@, c),
        forall|c: (usize, usize)|
            on_board(rb, c) && #[trigger] at(final(xy)@, c) == region ==> reachable(rb, (sx, sy), c),
        members@ == flood_order(rb, (sx, sy)),
{
    let ghost v0 = visited@;
    let ghost x0 = xy@;
    let ghost w = rb.width as int;
    let ghost h = rb.height as int;
    let ghost seed = rb.cell_at((sx, sy));
    let mut members: Vec<(usize, usize)> = Vec::new();
    let mut stack: Vec<(usize, usize)> = Vec::new();
    set_at(visited, sx, sy, true);
    proof {
        lemma_visit_one(v0, visited@, w, h, (sx, sy));
    }
    stack.push((sx, sy));
    proof {
        assert(stack@[0] == (sx, sy));
        assert(stack@.contains((sx, sy)));
        let p = seq![(sx, sy)];
        assert(is_walk(rb, p));
        assert(reachable(rb, (sx, sy), (sx, sy)));
    }
    let ghost init = (seq![(sx, sy)], set![(sx, sy)], Seq::<(usize, usize)>::empty());
    let ghost mut seen: Set<(usize, usize)> = set![(sx, sy)];
    let ghost mut steps: nat = 0;
    proof {
        assert(stack@ =~= seq![(sx, sy)]);
        assert(members@ =~= Seq::<(usize, usize)>::empty());
        assert forall|c: (usize, usize)| seen.contains(c) <==> on_board(rb, c) && at(visited@, c) && !at(v0, c) by {}
    }
    while stack.len() > 0
        invariant
            rb.wf(),
            w == rb.width,
            h == rb.height,
            seed == rb.cell_at((sx, sy)),
            seed != Resel::Empty,
            sx < rb.width,
            sy < rb.height,
            1 <= region,
            shaped(visited@, w, h),
            shaped(xy@, w, h),
            forall|i: int|
                0 <= i < stack@.len() ==> on_board(rb, #[trigger] stack@[i]) && at(
                    visited@,
                    stack@[i],
                ) && at(xy@, stack@[i]) == 0 && !at(v0, stack@[i]) && rb.cell_at(
                    stack@[i],
                ).spec_same(seed),
            stack@.no_duplicates(),
            forall|i: int|
                0 <= i < members@.len() ==> on_board(rb, #[trigger] members@[i]) && at(
                    xy@,
                    members@[i],
                ) == region,
            members@.no_duplicates(),
            members@.len() == 0 ==> stack@ == seq![(sx, sy)],
            members@.len() > 0 ==> members@[0] == (sx, sy),
            forall|c: (usize, usize)|
                on_board(rb, c) && #[trigger] at(xy@, c) == region ==> members@.contains(c)
                    && at(visited@, c) && !at(v0, c) && rb.cell_at(c).spec_same(seed),
            forall|c: (usize, usize)|
                #![trigger at(xy@, c)]
                on_board(rb, c) && at(xy@, c) == region ==> forall|k: int|
                    #[trigger] joins(rb, c, k) ==> at(visited@, nb(rb, c, k)) && (stack@.contains(
                        nb(rb, c, k),
                    ) || at(xy@, nb(rb, c, k)) == region),
            forall|c: (usize, usize)| on_board(rb, c) ==> #[trigger] at(xy@, c) <= region,
            forall|c: (usize, usize)|
                on_board(rb, c) && !at(visited@, c) ==> #[trigger] at(xy@, c) == 0,
            forall|c: (usize, usize)|
                on_board(rb, c) && #[trigger] at(visited@, c) && rb.cell_at(c) != Resel::Empty
                    && at(xy@, c) == 0 ==> stack@.contains(c),
            forall|c: (usize, usize)|
                on_board(rb, c) && #[trigger] at(xy@, c) != region && !stack@.contains(c) ==> at(
                    xy@,
                    c,
                ) == at(x0, c) && at(visited@, c) == at(v0, c),
            forall|c: (usize, usize)|
                on_board(rb, c) && 1 <= #[trigger] at(xy@, c) < region ==> closed_at(rb, xy@, c),
            unvisited(visited@, w, h).finite(),
            forall|i: int| 0 <= i < stack@.len() ==> reachable(rb, (sx, sy), #[trigger] stack@[i]),
            forall|c: (usize, usize)|
                on_board(rb, c) && #[trigger] at(xy@, c) == region ==> reachable(rb, (sx, sy), c),
            init == (seq![(sx, sy)], set![(sx, sy)], Seq::<(usize, usize)>::empty()),
            walk_steps(rb, seed, init, steps) == (stack@, seen, members@),
            steps == members@.len(),
            forall|c: (usize, usize)| #[trigger] seen.contains(c) <==> on_board(rb, c) && at(visited@, c) && !at(v0, c),
        decreases unvisited(visited@, w, h).len() * 2 + stack@.len(),
    {
        let ghost measure = unvisited(visited@, w, h).len() * 2 + stack@.len();
        let ghost xy_before = xy@;
        let ghost stack_before = stack@;
        let ghost seen_before = seen;
        let ghost state_before = (stack_before, seen_before, members@);
        let (cx, cy) = stack.pop().unwrap();
        let ghost c0 = (cx, cy);
        proof {
            assert(stack_before.last() == c0);
            assert(stack@ == stack_before.drop_last());
            assert forall|c: (usize, usize)| stack_before.contains(c) && c != c0 implies stack@.contains(c) by {
                let i = choose|i: int| 0 <= i < stack_before.len() && stack_before[i] == c;
                assert(i < stack_before.len() - 1);
                assert(stack@[i] == c);
            }
            assert(!stack@.contains(c0));
            assert(reachable(rb, (sx, sy), stack_before[stack_before.len() - 1]));
            assert forall|i: int| 0 <= i < stack@.len() implies reachable(rb, (sx, sy), #[trigger] stack@[i]) by {
                assert(stack@[i] == stack_before[i]);
            }
        }
        set_at(xy, cx, cy, region);
        let ghost members_before = members@;
        members.push((cx, cy));
        proof {
            assert(members@.drop_last() =~= members_before);
            assert(members@[members@.len() - 1] == c0);
            assert forall|c: (usize, usize)| members_before.contains(c) implies members@.contains(c) by {
                let i = choose|i: int| 0 <= i < members_before.len() && members_before[i] == c;
                assert(members@[i] == c);
            }
            assert forall|c: (usize, usize)|
                on_board(rb, c) && 1 <= #[trigger] at(xy@, c) < region implies closed_at(
                rb,
                xy@,
                c,
            ) by {
                assert(at(xy_before, c) == at(xy@, c));
                assert(closed_at(rb, xy_before, c));
                assert forall|k: int| #[trigger] joins(rb, c, k) implies at(xy@, nb(rb, c, k))
                    == at(xy@, c) by {
                    lemma_nb_on_board(rb, c, k);
                    assert(at(xy_before, nb(rb, c, k)) == at(xy_before, c));
                }
            }
            assert forall|i: int| 0 <= i < members@.len() - 1 implies members@[i] != c0 by {
                assert(at(xy_before, members@[i]) == region);
            }
        }
        let ns = rb.get_neighbors(cx, cy);
        let ghost deltas = rb.cell_at(c0).spec_delta_neighbors();
        let mut j: usize = 0;
        while j < ns.len()
            invariant
                rb.wf(),
                w == rb.width,
                h == rb.height,
                seed == rb.cell_at((sx, sy)),
                seed != Resel::Empty,
                sx < rb.width,
                sy < rb.height,
                1 <= region,
                c0 == (cx, cy),
                on_board(rb, c0),
                rb.cell_at(c0).spec_same(seed),
                !at(v0, c0),
                ns@ == deltas.map_values(|d: (isize, isize)| neighbor(cx as int, cy as int, d, w, h)),
                deltas == rb.cell_at(c0).spec_delta_neighbors(),
                0 <= j <= ns@.len(),
                shaped(visited@, w, h),
                shaped(xy@, w, h),
                at(xy@, c0) == region,
                at(visited@, c0),
                !stack@.contains(c0),
                forall|i: int|
                    0 <= i < stack@.len() ==> on_board(rb, #[trigger] stack@[i]) && at(
                        visited@,
                        stack@[i],
                    ) && at(xy@, stack@[i]) == 0 && !at(v0, stack@[i]) && rb.cell_at(
                        stack@[i],
                    ).spec_same(seed),
                stack@.no_duplicates(),
                forall|i: int|
                    0 <= i < members@.len() ==> on_board(rb, #[trigger] members@[i]) && at(
                        xy@,
                        members@[i],
                    ) == region,
                members@.no_duplicates(),
                members@.len() > 0,
                members@[0] == (sx, sy),
                forall|c: (usize, usize)|
                    on_board(rb, c) && #[trigger] at(xy@, c) == region ==> members@.contains(c)
                        && at(visited@, c) && !at(v0, c) && rb.cell_at(c).spec_same(seed),
                forall|c: (usize, usize)|
                    #![trigger at(xy@, c)]
                    on_board(rb, c) && at(xy@, c) == region && c != c0 ==> forall|k: int|
                        #[trigger] joins(rb, c, k) ==> at(visited@, nb(rb, c, k)) && (
                        stack@.contains(nb(rb, c, k)) || at(xy@, nb(rb, c, k)) == region),
                forall|k: int|
                    0 <= k < j && #[trigger] joins(rb, c0, k) ==> at(visited@, nb(rb, c0, k)) && (
                    stack@.contains(nb(rb, c0, k)) || at(xy@, nb(rb, c0, k)) == region),
                forall|c: (usize, usize)| on_board(rb, c) ==> #[trigger] at(xy@, c) <= region,
                forall|c: (usize, usize)|
                    on_board(rb, c) && !at(visited@, c) ==> #[trigger] at(xy@, c) == 0,
                forall|c: (usize, usize)|
                    on_board(rb, c) && #[trigger] at(visited@, c) && rb.cell_at(c) != Resel::Empty
                        && at(xy@, c) == 0 ==> stack@.contains(c),
                forall|c: (usize, usize)|
                    on_board(rb, c) && #[trigger] at(xy@, c) != region && !stack@.contains(c)
                        ==> at(xy@, c) == at(x0, c) && at(visited@, c) == at(v0, c),
                forall|c: (usize, usize)|
                    on_board(rb, c) && 1 <= #[trigger] at(xy@, c) < region ==> closed_at(
                        rb,
                        xy@,
                        c,
                    ),
                unvisited(visited@, w, h).finite(),
                unvisited(visited@, w, h).len() * 2 + stack@.len() < measure,
                reachable(rb, (sx, sy), c0),
                forall|i: int| 0 <= i < stack@.len() ==> reachable(rb, (sx, sy), #[trigger] stack@[i]),
                forall|c: (usize, usize)|
                    on_board(rb, c) && #[trigger] at(xy@, c) == region ==> reachable(rb, (sx, sy), c),
                stack_before.len() > 0,
                c0 == stack_before.last(),
                init == (seq![(sx, sy)], set![(sx, sy)], Seq::<(usize, usize)>::empty()),
                walk_steps(rb, seed, init, steps) == state_before,
                state_before == (stack_before, seen_before, members@.drop_last()),
                members@.last() == c0,
                steps + 1 == members@.len(),
                push_from(rb, seed, c0, j as int, stack@, seen) == push_from(rb, seed, c0, 0, stack_before.drop_last(), seen_before),
                forall|c: (usize, usize)| #[trigger] seen.contains(c) <==> on_board(rb, c) && at(visited@, c) && !at(v0, c),
            decreases ns@.len() - j,
        {
            let (nx, ny) = ns[j];
            let ghost d = (nx, ny);
            proof {
                assert(ns@[j as int] == neighbor(cx as int, cy as int, deltas[j as int], w, h));
                assert(d == nb(rb, c0, j as int));
                lemma_nb_on_board(rb, c0, j as int);
            }
            if rb.board[nx][ny].same(rb.board[sx][sy]) && !visited[nx][ny] {
                let ghost vb = visited@;
                let ghost sb = stack@;
                let ghost seen_b = seen;
                set_at(visited, nx, ny, true);
                proof {
                    lemma_visit_one(vb, visited@, w, h, d);
                    assert(!sb.contains(d));
                    assert(at(xy@, d) == 0);
                    assert(at(vb, d) == at(v0, d));
                    assert(rb.cell_at(d).spec_same(seed));
                    assert(joins(rb, c0, j as int));
                    lemma_reach_step(rb, (sx, sy), c0, j as int);
                }
                stack.push((nx, ny));
                proof {
                    assert(stack@ == sb.push(d));
                    assert forall|c: (usize, usize)| sb.contains(c) implies stack@.contains(c) by {
                        let i = choose|i: int| 0 <= i < sb.len() && sb[i] == c;
                        assert(stack@[i] == c);
                    }
                    assert(stack@[sb.len() as int] == d);
                    assert forall|i: int| 0 <= i < stack@.len() implies on_board(rb, #[trigger] stack@[i]) && at(
                        visited@,
                        stack@[i],
                    ) && at(xy@, stack@[i]) == 0 && !at(v0, stack@[i]) && rb.cell_at(
                        stack@[i],
                    ).spec_same(seed) by {
                        if i < sb.len() {
                            assert(stack@[i] == sb[i]);
                        }
                    }
                    assert forall|a: int, b: int|
                        0 <= a < b < stack@.len() implies stack@[a] != stack@[b] by {
                        if b == sb.len() {
                            assert(sb[a] == stack@[a]);
                        }
                    }
                    assert forall|i: int| 0 <= i < stack@.len() implies reachable(rb, (sx, sy), #[trigger] stack@[i]) by {
                        if i < sb.len() {
                            assert(stack@[i] == sb[i]);
                        }
                    }
                    seen = seen.insert(d);
                    assert(!seen_b.contains(d));
                    assert(push_from(rb, seed, c0, j as int, sb, seen_b) == push_from(rb, seed, c0, j + 1, stack@, seen));
                    assert forall|c: (usize, usize)| #[trigger] seen.contains(c) <==> on_board(rb, c) && at(visited@, c) && !at(v0, c) by {
                        if c != d {
                            assert(seen.contains(c) == seen_b.contains(c));
                        }
                    }
                }
            } else {
                proof {
                    if rb.cell_at(d).spec_same(seed) {
                        assert(joins(rb, c0, j as int));
                    }
                    if joins(rb, c0, j as int) {
                        assert(rb.cell_at(d).spec_same(seed));
                        assert(at(visited@, d));
                        if !stack@.contains(d) && at(xy@, d) != region {
                            if at(xy@, d) == 0 {
                                assert(rb.cell_at(d) != Resel::Empty);
                            } else {
                                let k2 = lemma_joins_symmetric(rb, c0, j as int);
                                assert(closed_at(rb, xy@, d));
                                assert(joins(rb, d, k2));
                                assert(at(xy@, nb(rb, d, k2)) == at(xy@, d));
                            }
                        }
                        if stack@.contains(d) {
                            let i = choose|i: int| 0 <= i < stack@.len() && stack@[i] == d;
                            assert(!at(v0, stack@[i]));
                        }
                        assert(seen.contains(d));
                    }
                    assert(push_from(rb, seed, c0, j as int, stack@, seen) == push_from(rb, seed, c0, j + 1, stack@, seen));
                }
            }
            j = j + 1;
        }
        proof {
            assert(push_from(rb, seed, c0, j as int, stack@, seen) == (stack@, seen));
            assert(members@ =~= state_before.2.push(c0));
            assert(walk_step(rb, seed, state_before) == (stack@, seen, members@));
            steps = steps + 1;
        }
    }
    proof {
        lemma_rect_finite(w, h);
        assert(members@.to_set().subset_of(rect(w, h))) by {
            assert forall|c: (usize, usize)| members@.to_set().contains(c) implies rect(w, h).contains(c) by {
                let i = choose|i: int| 0 <= i < members@.len() && members@[i] == c;
            }
        }
        members@.unique_seq_to_set();
        vstd::set_lib::lemma_len_subset(members@.to_set(), rect(w, h));
        lemma_walk_done(rb, seed, init, steps, rect(w, h).len());
    }
    proof {
        assert forall|c: (usize, usize)|
            on_board(rb, c) && #[trigger] at(xy@, c) != 0 implies closed_at(rb, xy@, c) by {
            if at(xy@, c) == region {
                assert forall|k: int| #[trigger] joins(rb, c, k) implies at(xy@, nb(rb, c, k))
                    == at(xy@, c) by {}
            }
        }
    }
    members
}

/// The dense lists' consistency depends on the lists, `reverse_dense` and
/// `region_to_resel` alone.
proof fn lemma_dense_frame(a: RegionMap, b: RegionMap)
    requires
        a.dense_wf(),
        a.wire_regions@ == b.wire_regions@,
        a.input_regions@ == b.input_regions@,
        a.logic_regions@ == b.logic_regions@,
        a.output_regions@ == b.output_regions@,
        a.reverse_dense@ == b.reverse_dense@,
        a.region_to_resel@ == b.region_to_resel@,
    ensures
        b.dense_wf(),
{
    assert forall|kind: int, j: int|
        #![trigger b.dense(kind)[j]]
        0 <= kind < 4 && 0 <= j < b.dense(kind).len() implies 1 <= b.dense(kind)[j] < b.n_regions()
            && kind_of(b.class_of(b.dense(kind)[j] as int)) == kind && b.reverse_dense@[b.dense(
            kind,
        )[j] as int] == j by {
        assert(a.dense(kind) == b.dense(kind));
        assert(a.dense(kind)[j] == b.dense(kind)[j]);
    }
    assert forall|kind: int, i: int, j: int|
        0 <= kind < 4 && 0 <= i < j < b.dense(kind).len() implies #[trigger] b.dense(kind)[i]
            < #[trigger] b.dense(kind)[j] by {
        assert(a.dense(kind) == b.dense(kind));
        assert(a.dense(kind)[i] < a.dense(kind)[j]);
    }
    assert forall|r: int| 1 <= r < b.n_regions() implies {
        let l = b.dense(kind_of(#[trigger] b.class_of(r)));
        &&& b.reverse_dense@[r] < l.len()
        &&& l[b.reverse_dense@[r] as int] == r
    } by {
        assert(a.class_of(r) == b.class_of(r));
        assert(a.dense(kind_of(a.class_of(r))) == b.dense(kind_of(b.class_of(r))));
    }
}

impl RegionMap {
    #[verifier::inline]
    pub open spec fn n_regions(&self) -> int {
        self.region_to_resel@.len() as int
    }

    #[verifier::inline]
    pub open spec fn in_grid(&self, c: (usize, usize)) -> bool {
        c.0 < self.width && c.1 < self.height
    }

    /// The region of coordinate `c`.
    #[verifier::inline]
    pub open spec fn region_at(&self, c: (usize, usize)) -> usize {
        at(self.xy_to_region@, c)
    }

    /// The coordinates listed for region `r`.
    #[verifier::inline]
    pub open spec fn members(&self, r: int) -> Seq<(usize, usize)> {
        self.region_to_xys@[r]@
    }

    /// The class of region `r`.
    #[verifier::inline]
    pub open spec fn class_of(&self, r: int) -> Resel {
        self.region_to_resel@[r]
    }

    /// The dense list of a kind (see [`kind_of`]).
    pub open spec fn dense(&self, kind: int) -> Seq<usize> {
        if kind == 0 {
            self.wire_regions@
        } else if kind == 1 {
            self.input_regions@
        } else if kind == 2 {
            self.logic_regions@
        } else if kind == 3 {
            self.output_regions@
        } else {
            seq![]
        }
    }

    /// Each dense list holds, in increasing order, exactly the regions of its
    /// kind, and `reverse_dense` gives each region's position in its list.
    pub open spec fn dense_wf(&self) -> bool {
        &&& self.reverse_dense@.len() == self.n_regions()
        &&& self.reverse_dense@[0] == 0
        &&& forall|kind: int, j: int|
            #![trigger self.dense(kind)[j]]
            0 <= kind < 4 && 0 <= j < self.dense(kind).len() ==> 1 <= self.dense(kind)[j]
                < self.n_regions() && kind_of(self.class_of(self.dense(kind)[j] as int)) == kind
                && self.reverse_dense@[self.dense(kind)[j] as int] == j
        &&& forall|kind: int, i: int, j: int|
            0 <= kind < 4 && 0 <= i < j < self.dense(kind).len() ==> #[trigger] self.dense(kind)[i]
                < #[trigger] self.dense(kind)[j]
        &&& forall|r: int|
            1 <= r < self.n_regions() ==> {
                let l = self.dense(kind_of(#[trigger] self.class_of(r)));
                &&& self.reverse_dense@[r] < l.len()
                &&& l[self.reverse_dense@[r] as int] == r
            }
    }

    /// The region data is consistent: every coordinate of the grid lies in
    /// exactly the region that `xy_to_region` names, each region's list holds
    /// its coordinates once each, region 0 alone is `Empty`, and the dense
    /// lists index the other regions by kind.
    pub open spec fn wf(&self) -> bool {
        &&& self.width > 0
        &&& self.height > 0
        &&& shaped(self.xy_to_region@, self.width as int, self.height as int)
        &&& self.n_regions() >= 1
        &&& self.region_to_xys@.len() == self.n_regions()
        &&& self.class_of(0) == Resel::Empty
        &&& forall|r: int|
            1 <= r < self.n_regions() ==> #[trigger] self.class_of(r) != Resel::Empty
                && self.members(r).len() > 0
        &&& forall|c: (usize, usize)|
            self.in_grid(c) ==> #[trigger] self.region_at(c) < self.n_regions() && self.members(
                self.region_at(c) as int,
            ).contains(c)
        &&& forall|r: int, i: int|
            0 <= r < self.n_regions() && 0 <= i < self.members(r).len() ==> self.in_grid(
                #[trigger] self.members(r)[i],
            ) && self.region_at(self.members(r)[i]) == r
        &&& forall|r: int| 0 <= r < self.n_regions() ==> (#[trigger] self.members(r)).no_duplicates()
        &&& self.dense_wf()
    }

    /// The regions label the grid `rb`: an empty cell is in region 0 and any
    /// other cell in a region of its own class, whose class is that of its
    /// first listed coordinate; two cells that join lie in one region; every
    /// cell of a region is reached from its first coordinate by a walk of
    /// joining cells; and regions are numbered in scan order.
    pub open spec fn labels(&self, rb: &ReselBoard) -> bool {
        &&& self.width == rb.width
        &&& self.height == rb.height
        &&& forall|c: (usize, usize)|
            self.in_grid(c) ==> (rb.cell_at(c) == Resel::Empty <==> #[trigger] self.region_at(c)
                == 0) && rb.cell_at(c).spec_same(self.class_of(self.region_at(c) as int))
        &&& forall|r: int|
            1 <= r < self.n_regions() ==> #[trigger] self.class_of(r) == rb.cell_at(
                self.members(r)[0],
            )
        &&& forall|c: (usize, usize)|
            #![trigger self.region_at(c)]
            self.in_grid(c) ==> closed_at(rb, self.xy_to_region@, c)
        &&& forall|c: (usize, usize)|
            self.in_grid(c) && #[trigger] self.region_at(c) != 0 ==> reachable(
                rb,
                self.seed(self.region_at(c) as int),
                c,
            )
        &&& self.scan_ordered()
        &&& self.listed_in_walk_order(rb)
    }

    /// Each region lists its coordinates in the order they were labelled:
    /// region 0 in scan order, every other region in the order of the
    /// depth-first walk from its first coordinate ([`flood_order`]).
    pub open spec fn listed_in_walk_order(&self, rb: &ReselBoard) -> bool {
        &&& forall|r: int|
            1 <= r < self.n_regions() ==> #[trigger] self.region_to_xys@[r]@ == flood_order(
                rb,
                self.seed(r),
            )
        &&& forall|i: int, j: int|
            0 <= i < j < self.members(0).len() ==> scanned_before(
                #[trigger] self.members(0)[i],
                #[trigger] self.members(0)[j].0 as int,
                self.members(0)[j].1 as int,
            )
    }

    /// Every empty cell listed so far comes before position `(x, y)` of the
    /// scan.
    pub open spec fn empties_before(&self, x: int, y: int) -> bool {
        forall|i: int| 0 <= i < self.members(0).len() ==> scanned_before(#[trigger] self.members(0)[i], x, y)
    }

    /// The first listed coordinate of region `r`, where the scan met it.
    #[verifier::inline]
    pub open spec fn seed(&self, r: int) -> (usize, usize) {
        self.region_to_xys@[r]@[0]
    }

    /// Regions are numbered in the order the row-major scan meets them:
    /// each region's first listed coordinate is its first in scan order, and
    /// a region with a higher number is met later.
    pub open spec fn scan_ordered(&self) -> bool {
        &&& forall|r1: int, r2: int|
            1 <= r1 < r2 < self.n_regions() ==> scanned_before(
                #[trigger] self.seed(r1),
                #[trigger] self.seed(r2).0 as int,
                self.seed(r2).1 as int,
            )
        &&& forall|r: int, i: int|
            1 <= r < self.n_regions() && 0 <= i < self.members(r).len() ==> !scanned_before(
                #[trigger] self.members(r)[i],
                self.seed(r).0 as int,
                self.seed(r).1 as int,
            )
    }

    /// Every region has been met before position `(x, y)` of the scan.
    pub open spec fn seeds_before(&self, x: int, y: int) -> bool {
        forall|r: int| 1 <= r < self.n_regions() ==> scanned_before(#[trigger] self.seed(r), x, y)
    }

    /// The state of the labelling part way through the scan: the visited
    /// coordinates are labelled as in [`RegionMap::wf`] and
    /// [`RegionMap::labels`], the others carry region 0 and are in no list.
    pub open spec fn partial(&self, rb: &ReselBoard, visited: Seq<Vec<bool>>) -> bool {
        &&& rb.wf()
        &&& self.width == rb.width
        &&& self.height == rb.height
        &&& shaped(self.xy_to_region@, self.width as int, self.height as int)
        &&& shaped(visited, self.width as int, self.height as int)
        &&& self.n_regions() >= 1
        &&& self.region_to_xys@.len() == self.n_regions()
        &&& self.class_of(0) == Resel::Empty
        &&& forall|r: int|
            1 <= r < self.n_regions() ==> #[trigger] self.class_of(r) != Resel::Empty
                && self.members(r).len() > 0 && self.class_of(r) == rb.cell_at(self.members(r)[0])
        &&& forall|c: (usize, usize)|
            self.in_grid(c) ==> #[trigger] self.region_at(c) < self.n_regions()
        &&& forall|c: (usize, usize)|
            self.in_grid(c) && !at(visited, c) ==> #[trigger] self.region_at(c) == 0
        &&& forall|c: (usize, usize)|
            self.in_grid(c) && #[trigger] at(visited, c) ==> self.members(
                self.region_at(c) as int,
            ).contains(c) && (rb.cell_at(c) == Resel::Empty <==> self.region_at(c) == 0)
                && rb.cell_at(c).spec_same(self.class_of(self.region_at(c) as int))
        &&& forall|r: int, i: int|
            0 <= r < self.n_regions() && 0 <= i < self.members(r).len() ==> self.in_grid(
                #[trigger] self.members(r)[i],
            ) && at(visited, self.members(r)[i]) && self.region_at(self.members(r)[i]) == r
        &&& forall|r: int| 0 <= r < self.n_regions() ==> (#[trigger] self.members(r)).no_duplicates()
        &&& forall|c: (usize, usize)|
            self.in_grid(c) && #[trigger] self.region_at(c) != 0 ==> closed_at(
                rb,
                self.xy_to_region@,
                c,
            ) && reachable(rb, self.seed(self.region_at(c) as int), c)
        &&& self.dense_wf()
    }

    /// Labels the unvisited empty cell `(x, y)` with region 0.
    fn add_empty(&mut self, rb: &ReselBoard, visited: &mut Vec<Vec<bool>>, x: usize, y: usize)
        requires
            old(self).partial(rb, old(visited)@),
            x < rb.width,
            y < rb.height,
            !at(old(visited)@, (x, y)),
            rb.cell_at((x, y)) == Resel::Empty,
        ensures
            final(self).partial(rb, final(visited)@),
            forall|c: (usize, usize)|
                c.0 < rb.width && c.1 < rb.height ==> #[trigger] at(final(visited)@, c) == (c == (
                    x,
                    y,
                ) || at(old(visited)@, c)),
            final(self).n_regions() == old(self).n_regions(),
            forall|r: int| 1 <= r < old(self).n_regions() ==> #[trigger] final(self).members(r) == old(self).members(r),
            final(self).members(0) == old(self).members(0).push((x, y)),
    {
        let ghost before = self.region_to_xys@;
        set_at(visited, x, y, true);
        self.region_to_xys[0].push((x, y));
        proof {
            assert forall|r: int| 0 <= r < self.n_regions() && r != 0 implies self.members(r)
                == before[r]@ by {}
            assert(self.members(0) == before[0]@.push((x, y)));
            assert forall|c: (usize, usize)| before[0]@.contains(c) implies self.members(0).contains(c) by {
                let i = choose|i: int| 0 <= i < before[0]@.len() && before[0]@[i] == c;
                assert(self.members(0)[i] == c);
            }
            assert(self.members(0)[before[0]@.len() as int] == (x, y));
            assert(!before[0]@.contains((x, y)));
            assert(shaped(visited@, self.width as int, self.height as int));
            assert(self.members(0).no_duplicates());
            assert forall|r: int| 0 <= r < self.n_regions() implies (#[trigger] self.members(r)).no_duplicates() by {
                if r != 0 {
                    assert(old(self).members(r) == self.members(r));
                }
            }
            assert(forall|c: (usize, usize)|
            self.in_grid(c) && #[trigger] at(visited@, c) ==> self.members(
                self.region_at(c) as int,
            ).contains(c) && (rb.cell_at(c) == Resel::Empty <==> self.region_at(c) == 0)
                && rb.cell_at(c).spec_same(self.class_of(self.region_at(c) as int)));
            assert forall|r: int, i: int|
            0 <= r < self.n_regions() && 0 <= i < self.members(r).len() implies self.in_grid(
                #[trigger] self.members(r)[i],
            ) && at(visited@, self.members(r)[i]) && self.region_at(self.members(r)[i]) == r by {
                if r != 0 {
                    assert(old(self).members(r) == self.members(r));
                    assert(old(self).members(r)[i] == self.members(r)[i]);
                } else if i < before[0]@.len() {
                    assert(old(self).members(0)[i] == self.members(0)[i]);
                }
            }
            assert forall|r: int|
            1 <= r < self.n_regions() implies #[trigger] self.class_of(r) != Resel::Empty
                && self.members(r).len() > 0 && self.class_of(r) == rb.cell_at(self.members(r)[0]) by {
                assert(old(self).class_of(r) == self.class_of(r));
                assert(old(self).members(r) == self.members(r));
            }
            lemma_dense_frame(*old(self), *self);
        }
    }

    /// Appends region `n_regions()` of class `resel` with coordinates
    /// `members`, giving it the next dense index of its kind.
    fn register(&mut self, resel: Resel, members: Vec<(usize, usize)>)
        requires
            old(self).dense_wf(),
            old(self).n_regions() >= 1,
            old(self).region_to_xys@.len() == old(self).n_regions(),
            resel != Resel::Empty,
        ensures
            final(self).dense_wf(),
            final(self).region_to_resel@ == old(self).region_to_resel@.push(resel),
            final(self).region_to_xys@ == old(self).region_to_xys@.push(members),
            final(self).xy_to_region == old(self).xy_to_region,
            final(self).width == old(self).width,
            final(self).height == old(self).height,
    {
        let region = self.region_to_resel.len();
        self.region_to_xys.push(members);
        self.region_to_resel.push(resel);
        let ghost k = kind_of(resel);
        if resel.is_wire() {
            let d = self.wire_regions.len();
            self.reverse_dense.push(d);
            self.wire_regions.push(region);
        } else if resel.is_input() {
            let d = self.input_regions.len();
            self.reverse_dense.push(d);
            self.input_regions.push(region);
        } else if resel.is_logic() {
            let d = self.logic_regions.len();
            self.reverse_dense.push(d);
            self.logic_regions.push(region);
        } else {
            let d = self.output_regions.len();
            self.reverse_dense.push(d);
            self.output_regions.push(region);
        }
        proof {
            let a = *old(self);
            assert(0 <= k < 4);
            assert forall|kind: int| 0 <= kind < 4 implies #[trigger] self.dense(kind) == if kind
                == k {
                a.dense(kind).push(region)
            } else {
                a.dense(kind)
            } by {}
            assert(self.class_of(region as int) == resel);
            assert forall|r: int| 0 <= r < a.n_regions() implies #[trigger] self.class_of(r)
                == a.class_of(r) && self.reverse_dense@[r] == a.reverse_dense@[r] by {}
            assert(self.reverse_dense@[region as int] == a.dense(k).len());
            assert forall|kind: int, j: int|
                #![trigger self.dense(kind)[j]]
                0 <= kind < 4 && 0 <= j < self.dense(kind).len() implies 1 <= self.dense(kind)[j]
                    < self.n_regions() && kind_of(self.class_of(self.dense(kind)[j] as int))
                    == kind && self.reverse_dense@[self.dense(kind)[j] as int] == j by {
                if j < a.dense(kind).len() {
                    assert(self.dense(kind)[j] == a.dense(kind)[j]);
                }
            }
            assert forall|kind: int, i: int, j: int|
                0 <= kind < 4 && 0 <= i < j < self.dense(kind).len() implies #[trigger] self.dense(
                    kind,
                )[i] < #[trigger] self.dense(kind)[j] by {
                assert(self.dense(kind)[i] == a.dense(kind)[i]);
                if j < a.dense(kind).len() {
                    assert(self.dense(kind)[j] == a.dense(kind)[j]);
                }
            }
            assert forall|r: int| 1 <= r < self.n_regions() implies {
                let l = self.dense(kind_of(#[trigger] self.class_of(r)));
                &&& self.reverse_dense@[r] < l.len()
                &&& l[self.reverse_dense@[r] as int] == r
            } by {
                if r < a.n_regions() {
                    let la = a.dense(kind_of(a.class_of(r)));
                    assert(a.reverse_dense@[r] < la.len());
                    assert(la[a.reverse_dense@[r] as int] == r);
                }
            }
        }
    }

    /// Labels the unvisited non-empty cell `(x, y)` and the rest of its
    /// region with a new region number.
    fn add_region(&mut self, rb: &ReselBoard, visited: &mut Vec<Vec<bool>>, x: usize, y: usize)
        requires
            old(self).partial(rb, old(visited)@),
            x < rb.width,
            y < rb.height,
            !at(old(visited)@, (x, y)),
            rb.cell_at((x, y)) != Resel::Empty,
        ensures
            final(self).partial(rb, final(visited)@),
            at(final(visited)@, (x, y)),
            forall|c: (usize, usize)|
                c.0 < rb.width && c.1 < rb.height && #[trigger] at(old(visited)@, c) ==> at(
                    final(visited)@,
                    c,
                ),
            final(self).n_regions() == old(self).n_regions() + 1,
            forall|r: int| 0 <= r < old(self).n_regions() ==> #[trigger] final(self).members(r) == old(self).members(r),
            final(self).members(old(self).n_regions())[0] == (x, y),
            forall|i: int|
                0 <= i < final(self).members(old(self).n_regions()).len() ==> !at(
                    old(visited)@,
                    #[trigger] final(self).members(old(self).n_regions())[i],
                ),
            final(self).members(old(self).n_regions()) == flood_order(rb, (x, y)),
    {
        let region = self.region_to_resel.len();
        let resel = rb.board[x][y];
        let ghost v0 = visited@;
        let ghost a = *self;
        let members = flood_region(rb, visited, &mut self.xy_to_region, x, y, region);
        let ghost m = members@;
        let ghost xy1 = self.xy_to_region@;
        proof {
            lemma_dense_frame(a, *self);
        }
        self.register(resel, members);
        proof {
            assert forall|c: (usize, usize)|
                c.0 < rb.width && c.1 < rb.height && #[trigger] at(v0, c) implies at(visited@, c) by {
                assert(at(xy1, c) != region);
            }
            assert(self.xy_to_region@ == xy1);
            assert forall|r: int| 0 <= r < a.n_regions() implies #[trigger] self.members(r)
                == a.members(r) && self.class_of(r) == a.class_of(r) by {}
            assert(self.members(region as int) == m);
            assert(self.class_of(region as int) == resel);
            assert forall|c: (usize, usize)| self.in_grid(c) && #[trigger] at(visited@, c)
                implies self.members(self.region_at(c) as int).contains(c) && (rb.cell_at(c)
                == Resel::Empty <==> self.region_at(c) == 0) && rb.cell_at(c).spec_same(
                self.class_of(self.region_at(c) as int),
            ) by {
                if at(xy1, c) == region {
                    assert(rb.cell_at(c).spec_same(resel));
                } else {
                    assert(at(v0, c));
                }
            }
            assert forall|r: int, i: int|
                0 <= r < self.n_regions() && 0 <= i < self.members(r).len() implies self.in_grid(
                    #[trigger] self.members(r)[i],
                ) && at(visited@, self.members(r)[i]) && self.region_at(self.members(r)[i]) == r by {
                if r < region {
                    let e = a.members(r)[i];
                    assert(at(v0, e));
                    assert(at(xy1, e) != region);
                }
            }
            assert forall|r: int| 0 <= r < self.n_regions() implies (#[trigger] self.members(
                r,
            )).no_duplicates() by {}
            assert forall|c: (usize, usize)| self.in_grid(c) && !at(visited@, c) implies #[trigger] self.region_at(c) == 0 by {
                assert(at(xy1, c) != region);
            }
        }
    }
}

/// Partitions the grid into regions: scanning coordinates column by column
/// (`x` ascending, then `y` ascending), an unvisited empty cell joins region
/// 0 on its own, and an unvisited non-empty cell starts the next region,
/// which grows over every cell that joins it. The dense lists and the
/// reverse map grow as regions are created.
pub fn region_map_from_reselboard(rb: &ReselBoard) -> (rm: RegionMap)
    requires
        rb.wf(),
    ensures
        rm.wf(),
        rm.labels(rb),
{
    let width = rb.width;
    let height = rb.height;
    let mut visited: Vec<Vec<bool>> = filled(width, height, false);
    let mut rm = RegionMap {
        xy_to_region: filled(width, height, 0),
        width,
        height,
        region_to_xys: vec![Vec::new()],
        region_to_resel: vec![Resel::Empty],
        wire_regions: Vec::new(),
        input_regions: Vec::new(),
        logic_regions: Vec::new(),
        output_regions: Vec::new(),
        reverse_dense: vec![0],
    };
    proof {
        assert(rm.members(0) =~= Seq::<(usize, usize)>::empty());
        assert(rm.dense_wf()) by {
            assert forall|kind: int| 0 <= kind < 4 implies #[trigger] rm.dense(kind).len() == 0 by {}
        }
    }
    let mut x: usize = 0;
    while x < width
        invariant
            rm.partial(rb, visited@),
            width == rb.width,
            height == rb.height,
            0 <= x <= width,
            forall|c: (usize, usize)|
                c.0 < width && c.1 < height && scanned_before(c, x as int, 0) ==> #[trigger] at(
                    visited@,
                    c,
                ),
            rm.scan_ordered(),
            rm.seeds_before(x as int, 0),
            rm.listed_in_walk_order(rb),
            rm.empties_before(x as int, 0),
        decreases width - x,
    {
        let mut y: usize = 0;
        while y < height
            invariant
                rm.partial(rb, visited@),
                width == rb.width,
                height == rb.height,
                0 <= x < width,
                0 <= y <= height,
                forall|c: (usize, usize)|
                    c.0 < width && c.1 < height && scanned_before(c, x as int, y as int)
                        ==> #[trigger] at(visited@, c),
                rm.scan_ordered(),
                rm.seeds_before(x as int, y as int),
                rm.listed_in_walk_order(rb),
                rm.empties_before(x as int, y as int),
            decreases height - y,
        {
            let ghost vb = visited@;
            let ghost rb0 = rm;
            if !visited[x][y] {
                if rb.board[x][y] == Resel::Empty {
                    rm.add_empty(rb, &mut visited, x, y);
                } else {
                    rm.add_region(rb, &mut visited, x, y);
                    proof {
                        let n0 = rb0.n_regions();
                        assert forall|i: int| 0 <= i < rm.members(n0).len() implies !scanned_before(
                            #[trigger] rm.members(n0)[i],
                            x as int,
                            y as int,
                        ) by {
                            let c = rm.members(n0)[i];
                            assert(!at(vb, c));
                            assert(rm.in_grid(c));
                        }
                    }
                }
            }
            proof {
                assert forall|r: int| 1 <= r < rm.n_regions() implies scanned_before(#[trigger] rm.seed(r), x as int, y + 1) by {
                    if r < rb0.n_regions() {
                        assert(rm.members(r) == rb0.members(r));
                        assert(scanned_before(rb0.seed(r), x as int, y as int));
                    }
                }
                assert forall|r1: int, r2: int|
                    1 <= r1 < r2 < rm.n_regions() implies scanned_before(
                    #[trigger] rm.seed(r1),
                    #[trigger] rm.seed(r2).0 as int,
                    rm.seed(r2).1 as int,
                ) by {
                    assert(rm.members(r1) == rb0.members(r1));
                    assert(scanned_before(rb0.seed(r1), x as int, y as int));
                    if r2 < rb0.n_regions() {
                        assert(rm.members(r2) == rb0.members(r2));
                    }
                }
                assert forall|r: int, i: int|
                    1 <= r < rm.n_regions() && 0 <= i < rm.members(r).len() implies !scanned_before(
                    #[trigger] rm.members(r)[i],
                    rm.seed(r).0 as int,
                    rm.seed(r).1 as int,
                ) by {
                    if r < rb0.n_regions() {
                        assert(rm.members(r) == rb0.members(r));
                    }
                }
            }
            proof {
                assert forall|r: int| 1 <= r < rm.n_regions() implies #[trigger] rm.region_to_xys@[r]@
                    == flood_order(rb, rm.seed(r)) by {
                    if r < rb0.n_regions() {
                        assert(rm.members(r) == rb0.members(r));
                        assert(rb0.region_to_xys@[r]@ == flood_order(rb, rb0.seed(r)));
                    }
                }
                assert forall|i: int| 0 <= i < rm.members(0).len() implies scanned_before(
                    #[trigger] rm.members(0)[i],
                    x as int,
                    y + 1,
                ) by {
                    if i < rb0.members(0).len() {
                        assert(rm.members(0)[i] == rb0.members(0)[i]);
                        assert(scanned_before(rb0.members(0)[i], x as int, y as int));
                    }
                }
                assert forall|i: int, j: int|
                    0 <= i < j < rm.members(0).len() implies scanned_before(
                    #[trigger] rm.members(0)[i],
                    #[trigger] rm.members(0)[j].0 as int,
                    rm.members(0)[j].1 as int,
                ) by {
                    assert(rm.members(0)[i] == rb0.members(0)[i]);
                    assert(scanned_before(rb0.members(0)[i], x as int, y as int));
                    if j < rb0.members(0).len() {
                        assert(rm.members(0)[j] == rb0.members(0)[j]);
                    }
                }
            }
            proof {
                assert forall|c: (usize, usize)|
                    c.0 < width && c.1 < height && scanned_before(c, x as int, y + 1) implies #[trigger] at(
                    visited@,
                    c,
                ) by {
                    if c != (x, y) {
                        assert(at(vb, c));
                    }
                }
            }
            y = y + 1;
        }
        proof {
            assert forall|r: int| 1 <= r < rm.n_regions() implies scanned_before(#[trigger] rm.seed(r), x + 1, 0) by {
                assert(scanned_before(rm.seed(r), x as int, height as int));
            }
            assert forall|i: int| 0 <= i < rm.members(0).len() implies scanned_before(#[trigger] rm.members(0)[i], x + 1, 0) by {
                assert(scanned_before(rm.members(0)[i], x as int, height as int));
            }
        }
        x = x + 1;
    }
    proof {
        assert forall|c: (usize, usize)| rm.in_grid(c) implies #[trigger] at(visited@, c) by {
            assert(scanned_before(c, width as int, 0));
        }
        assert forall|c: (usize, usize)| rm.in_grid(c) implies (rb.cell_at(c) == Resel::Empty
            <==> #[trigger] rm.region_at(c) == 0) && rb.cell_at(c).spec_same(
            rm.class_of(rm.region_at(c) as int),
        ) && rm.members(rm.region_at(c) as int).contains(c) by {
            assert(at(visited@, c));
        }
        assert forall|c: (usize, usize)| #![trigger rm.region_at(c)] rm.in_grid(c) implies closed_at(
            rb,
            rm.xy_to_region@,
            c,
        ) by {
            assert(at(visited@, c));
            if rm.region_at(c) == 0 {
                assert(rb.cell_at(c) == Resel::Empty);
                assert forall|k: int| #[trigger] joins(rb, c, k) implies at(
                    rm.xy_to_region@,
                    nb(rb, c, k),
                ) == at(rm.xy_to_region@, c) by {}
            }
        }
    }
    rm
}

/// The four orthogonal offsets, in the order the adjacency scan uses them.
pub open spec fn ortho() -> Seq<(isize, isize)> {
    seq![(1isize, 0isize), (0isize, 1isize), (-1isize, 0isize), (0isize, -1isize)]
}

/// `v` is in strictly increasing order.
pub open spec fn strictly_sorted(v: Seq<usize>) -> bool {
    forall|i: int, j: int| 0 <= i < j < v.len() ==> v[i] < v[j]
}

/// Inserts `x` into the strictly increasing `v`, unless it is there already.
fn insert_sorted(v: &mut Vec<usize>, x: usize)
    requires
        strictly_sorted(old(v)@),
    ensures
        strictly_sorted(final(v)@),
        forall|b: usize| final(v)@.contains(b) <==> old(v)@.contains(b) || b == x,
{
    let mut i: usize = 0;
    while i < v.len() && v[i] < x
        invariant
            0 <= i <= v@.len(),
            forall|j: int| 0 <= j < i ==> v@[j] < x,
        decreases v@.len() - i,
    {
        i = i + 1;
    }
    if i < v.len() && v[i] == x {
        proof {
            assert(v@[i as int] == x);
        }
        return;
    }
    let ghost v0 = v@;
    v.insert(i, x);
    proof {
        assert(v@ == v0.insert(i as int, x));
        assert forall|b: usize| v@.contains(b) <==> v0.contains(b) || b == x by {
            if v0.contains(b) {
                let j = choose|j: int| 0 <= j < v0.len() && v0[j] == b;
                if j < i {
                    assert(v@[j] == b);
                } else {
                    assert(v@[j + 1] == b);
                }
            }
            if b == x {
                assert(v@[i as int] == x);
            }
            if v@.contains(b) {
                let j = choose|j: int| 0 <= j < v@.len() && v@[j] == b;
                if j < i {
                    assert(v0[j] == b);
                } else if j > i {
                    assert(v0[j - 1] == b);
                }
            }
        }
        assert(v0 == old(v)@);
        assert(forall|b: usize| v@.contains(b) <==> old(v)@.contains(b) || b == x);
    }
}

impl RegionMap {
    /// The orthogonal neighbour of `c` at offset `ortho()[k]`.
    pub open spec fn ortho_nb(&self, c: (usize, usize), k: int) -> (usize, usize) {
        neighbor(c.0 as int, c.1 as int, ortho()[k], self.width as int, self.height as int)
    }

    /// Regions `a` and `b` differ and share at least one orthogonal grid
    /// edge, whatever their classes.
    pub open spec fn adjacent(&self, a: int, b: int) -> bool {
        &&& a != b
        &&& exists|c: (usize, usize), k: int|
            self.in_grid(c) && self.region_at(c) == a && 0 <= k < 4 && #[trigger] self.region_at(
                self.ortho_nb(c, k),
            ) == b
    }

    /// The regions other than `region` that share an orthogonal grid edge
    /// with it, in increasing order without repeats.
    pub fn get_adjacent_regions(&self, region: usize) -> (r: Vec<usize>)
        requires
            self.wf(),
            region < self.n_regions(),
        ensures
            strictly_sorted(r@),
            forall|b: usize| r@.contains(b) <==> self.adjacent(region as int, b as int),
    {
        let mut adjacent_regions: Vec<usize> = Vec::new();
        let cells = &self.region_to_xys[region];
        let ghost ms = self.members(region as int);
        let mut i: usize = 0;
        while i < cells.len()
            invariant
                self.wf(),
                region < self.n_regions(),
                cells@ == ms,
                ms == self.members(region as int),
                0 <= i <= ms.len(),
                strictly_sorted(adjacent_regions@),
                forall|b: usize|
                    adjacent_regions@.contains(b) <==> b != region && exists|i2: int, k2: int|
                        0 <= i2 < i && 0 <= k2 < 4 && #[trigger] self.region_at(
                            self.ortho_nb(ms[i2], k2),
                        ) == b,
            decreases ms.len() - i,
        {
            let (x, y) = cells[i];
            proof {
                assert(self.in_grid(ms[i as int]));
            }
            let ns = get_neighbors(vec![(1, 0), (0, 1), (-1, 0), (0, -1)], x, y, self.width, self.height);
            let mut k: usize = 0;
            while k < ns.len()
                invariant
                    self.wf(),
                    region < self.n_regions(),
                    cells@ == ms,
                    ms == self.members(region as int),
                    0 <= i < ms.len(),
                    (x, y) == ms[i as int],
                    self.in_grid((x, y)),
                    ns@ == ortho().map_values(
                        |d: (isize, isize)|
                            neighbor(x as int, y as int, d, self.width as int, self.height as int),
                    ),
                    0 <= k <= 4,
                    strictly_sorted(adjacent_regions@),
                    forall|b: usize|
                        adjacent_regions@.contains(b) <==> b != region && exists|i2: int, k2: int|
                            (0 <= i2 < i && 0 <= k2 < 4 || i2 == i && 0 <= k2 < k)
                                && #[trigger] self.region_at(self.ortho_nb(ms[i2], k2)) == b,
                decreases 4 - k,
            {
                let (nx, ny) = ns[k];
                proof {
                    assert(ns@[k as int] == neighbor(x as int, y as int, ortho()[k as int], self.width as int, self.height as int));
                    assert((nx, ny) == self.ortho_nb(ms[i as int], k as int));
                    assert(ortho()[k as int] == (1isize, 0isize) || ortho()[k as int] == (0isize, 1isize)
                        || ortho()[k as int] == (-1isize, 0isize) || ortho()[k as int] == (0isize, -1isize));
                    let d = ortho()[k as int];
                    lemma_wrap_inverse(x as int, d.0 as int, self.width as int);
                    lemma_wrap_inverse(y as int, d.1 as int, self.height as int);
                    assert(self.in_grid((nx, ny)));
                }
                let neighbor_region = self.xy_to_region[nx][ny];
                let ghost before = adjacent_regions@;
                if neighbor_region != region {
                    insert_sorted(&mut adjacent_regions, neighbor_region);
                }
                proof {
                    assert forall|b: usize|
                        adjacent_regions@.contains(b) <==> b != region && exists|i2: int, k2: int|
                            (0 <= i2 < i && 0 <= k2 < 4 || i2 == i && 0 <= k2 < k + 1)
                                && #[trigger] self.region_at(self.ortho_nb(ms[i2], k2)) == b by {
                        if b == neighbor_region && b != region {
                            assert(self.region_at(self.ortho_nb(ms[i as int], k as int)) == b);
                        }
                        if before.contains(b) {
                            let (i2, k2) = choose|i2: int, k2: int|
                                (0 <= i2 < i && 0 <= k2 < 4 || i2 == i && 0 <= k2 < k)
                                    && #[trigger] self.region_at(self.ortho_nb(ms[i2], k2)) == b;
                            assert(self.region_at(self.ortho_nb(ms[i2], k2)) == b);
                        }
                        if b != region && exists|i2: int, k2: int|
                            (0 <= i2 < i && 0 <= k2 < 4 || i2 == i && 0 <= k2 < k + 1)
                                && #[trigger] self.region_at(self.ortho_nb(ms[i2], k2)) == b {
                            let (i2, k2) = choose|i2: int, k2: int|
                                (0 <= i2 < i && 0 <= k2 < 4 || i2 == i && 0 <= k2 < k + 1)
                                    && #[trigger] self.region_at(self.ortho_nb(ms[i2], k2)) == b;
                            if !(i2 == i && k2 == k) {
                                assert(before.contains(b));
                            }
                        }
                    }
                }
                k = k + 1;
            }
            i = i + 1;
        }
        proof {
            assert forall|b: usize| adjacent_regions@.contains(b) <==> self.adjacent(region as int, b as int) by {
                if adjacent_regions@.contains(b) {
                    let (i2, k2) = choose|i2: int, k2: int|
                        0 <= i2 < ms.len() && 0 <= k2 < 4 && #[trigger] self.region_at(
                            self.ortho_nb(ms[i2], k2),
                        ) == b;
                    assert(self.in_grid(ms[i2]) && self.region_at(ms[i2]) == region);
                }
                if self.adjacent(region as int, b as int) {
                    let (c, k2) = choose|c: (usize, usize), k2: int|
                        self.in_grid(c) && self.region_at(c) == region && 0 <= k2 < 4
                            && #[trigger] self.region_at(self.ortho_nb(c, k2)) == b;
                    assert(ms.contains(c));
                    let i2 = choose|i2: int| 0 <= i2 < ms.len() && ms[i2] == c;
                    assert(self.region_at(self.ortho_nb(ms[i2], k2)) == b);
                }
            }
        }
        adjacent_regions
    }
}

/// Every coordinate of the grid lies in exactly one region: it is listed by
/// region `r` exactly when `r` is the region `xy_to_region` gives it. Every
/// listed coordinate is on the grid, so the regions' coordinates together
/// make up the whole grid.
pub proof fn lemma_partition(rm: &RegionMap)
    requires
        rm.wf(),
    ensures
        forall|c: (usize, usize), r: int|
            rm.in_grid(c) && 0 <= r < rm.n_regions() ==> (#[trigger] rm.members(r).contains(c)
                <==> r == rm.region_at(c)),
        forall|c: (usize, usize), r: int|
            0 <= r < rm.n_regions() && #[trigger] rm.members(r).contains(c) ==> rm.in_grid(c),
        forall|c: (usize, usize)|
            rm.in_grid(c) ==> #[trigger] rm.region_at(c) < rm.n_regions() && rm.members(
                rm.region_at(c) as int,
            ).contains(c),
{
    assert forall|c: (usize, usize), r: int|
        0 <= r < rm.n_regions() && #[trigger] rm.members(r).contains(c) implies rm.in_grid(c)
            && rm.region_at(c) == r by {
        let i = choose|i: int| 0 <= i < rm.members(r).len() && rm.members(r)[i] == c;
        assert(rm.in_grid(rm.members(r)[i]));
    }
}

/// The number of coordinates listed by regions `0..k`.
pub open spec fn listed_count(rm: &RegionMap, k: int) -> int
    decreases k,
{
    if k <= 0 {
        0
    } else {
        listed_count(rm, k - 1) + rm.members(k - 1).len()
    }
}

/// The coordinates listed by regions `0..k`.
pub open spec fn listed_union(rm: &RegionMap, k: int) -> Set<(usize, usize)>
    decreases k,
{
    if k <= 0 {
        Set::empty()
    } else {
        listed_union(rm, k - 1) + rm.members(k - 1).to_set()
    }
}

proof fn lemma_listed_union(rm: &RegionMap, k: int)
    requires
        rm.wf(),
        0 <= k <= rm.n_regions(),
    ensures
        listed_union(rm, k).finite(),
        listed_union(rm, k).len() == listed_count(rm, k),
        forall|c: (usize, usize)|
            #[trigger] listed_union(rm, k).contains(c) <==> rm.in_grid(c) && rm.region_at(c) < k,
    decreases k,
{
    if k > 0 {
        lemma_listed_union(rm, k - 1);
        let m = rm.members(k - 1);
        m.unique_seq_to_set();
        assert forall|c: (usize, usize)| #[trigger] m.to_set().contains(c) <==> rm.in_grid(c)
            && rm.region_at(c) == k - 1 by {
            if m.to_set().contains(c) {
                let i = choose|i: int| 0 <= i < m.len() && m[i] == c;
                assert(rm.in_grid(m[i]));
            }
            if rm.in_grid(c) && rm.region_at(c) == k - 1 {
                assert(m.contains(c));
            }
        }
        assert(listed_union(rm, k - 1).disjoint(m.to_set()));
        vstd::set_lib::lemma_set_disjoint_lens(listed_union(rm, k - 1), m.to_set());
    }
}

/// The regions list `width * height` coordinates in all: each coordinate of
/// the grid once.
pub proof fn lemma_partition_count(rm: &RegionMap)
    requires
        rm.wf(),
    ensures
        listed_count(rm, rm.n_regions()) == rm.width * rm.height,
        listed_union(rm, rm.n_regions()) == rect(rm.width as int, rm.height as int),
{
    lemma_listed_union(rm, rm.n_regions());
    lemma_rect_len(rm.width as int, rm.height as int);
    assert(listed_union(rm, rm.n_regions()) =~= rect(rm.width as int, rm.height as int));
}

proof fn lemma_adjacent_one_way(rm: &RegionMap, a: int, b: int)
    requires
        rm.wf(),
        rm.adjacent(a, b),
    ensures
        rm.adjacent(b, a),
{
    let (c, k) = choose|c: (usize, usize), k: int|
        rm.in_grid(c) && rm.region_at(c) == a && 0 <= k < 4 && #[trigger] rm.region_at(
            rm.ortho_nb(c, k),
        ) == b;
    let d = rm.ortho_nb(c, k);
    let off = ortho()[k];
    lemma_wrap_inverse(c.0 as int, off.0 as int, rm.width as int);
    lemma_wrap_inverse(c.1 as int, off.1 as int, rm.height as int);
    let k2 = if k < 2 {
        k + 2
    } else {
        k - 2
    };
    assert(ortho()[0] == (1isize, 0isize));
    assert(ortho()[1] == (0isize, 1isize));
    assert(ortho()[2] == (-1isize, 0isize));
    assert(ortho()[3] == (0isize, -1isize));
    assert(rm.ortho_nb(d, k2) == c);
    assert(rm.region_at(rm.ortho_nb(d, k2)) == a);
}

/// Adjacency of regions is symmetric: `b` is adjacent to `a` exactly when
/// `a` is adjacent to `b`, so `b` is in `get_adjacent_regions(a)` exactly
/// when `a` is in `get_adjacent_regions(b)`.
pub proof fn lemma_adjacency_symmetric(rm: &RegionMap, a: int, b: int)
    requires
        rm.wf(),
    ensures
        rm.adjacent(a, b) <==> rm.adjacent(b, a),
{
    if rm.adjacent(a, b) {
        lemma_adjacent_one_way(rm, a, b);
    }
    if rm.adjacent(b, a) {
        lemma_adjacent_one_way(rm, b, a);
    }
}

/// A non-empty region `r` of kind `K` sits in the dense list of `K` at the
/// position `reverse_dense[r]` gives: `K_regions[reverse_dense[r]] == r`.
pub proof fn lemma_dense_round_trip(rm: &RegionMap, r: int)
    requires
        rm.wf(),
        1 <= r < rm.n_regions(),
    ensures
        0 <= kind_of(rm.class_of(r)) < 4,
        rm.reverse_dense@[r] < rm.dense(kind_of(rm.class_of(r))).len(),
        rm.dense(kind_of(rm.class_of(r)))[rm.reverse_dense@[r] as int] == r,
{
    assert(rm.class_of(r) != Resel::Empty);
}

/// No empty cell lies in a region other than 0, no region other than 0
/// lists an empty cell, and region 0 is in no dense list.
pub proof fn lemma_empty_isolation(rm: &RegionMap, rb: &ReselBoard)
    requires
        rm.wf(),
        rm.labels(rb),
    ensures
        forall|c: (usize, usize)|
            rm.in_grid(c) && rb.cell_at(c) == Resel::Empty ==> #[trigger] rm.region_at(c) == 0,
        forall|r: int, i: int|
            1 <= r < rm.n_regions() && 0 <= i < rm.members(r).len() ==> rb.cell_at(
                #[trigger] rm.members(r)[i],
            ) != Resel::Empty,
        forall|kind: int, j: int|
            0 <= kind < 4 && 0 <= j < rm.dense(kind).len() ==> #[trigger] rm.dense(kind)[j] != 0,
{
    assert forall|r: int, i: int|
        1 <= r < rm.n_regions() && 0 <= i < rm.members(r).len() implies rb.cell_at(
            #[trigger] rm.members(r)[i],
        ) != Resel::Empty by {
        assert(rm.in_grid(rm.members(r)[i]));
    }
}

/// The grid wraps around: a wire cell on the left edge and a cell of the
/// same wire colour straight across on the right edge lie in one region.
pub proof fn lemma_wraparound_horizontal(rm: &RegionMap, rb: &ReselBoard, y: usize)
    requires
        rb.wf(),
        rm.wf(),
        rm.labels(rb),
        y < rb.height,
        rb.cell_at((0, y)).spec_is_wire(),
        rb.cell_at(((rb.width - 1) as usize, y)).spec_same(rb.cell_at((0, y))),
    ensures
        rm.region_at((0, y)) == rm.region_at(((rb.width - 1) as usize, y)),
{
    let c = (0usize, y);
    assert(rb.cell_at(c).spec_delta_neighbors()[4] == (-1isize, 0isize));
    vstd::arithmetic::div_mod::lemma_small_mod(y as nat, rb.height as nat);
    vstd::arithmetic::div_mod::lemma_fundamental_div_mod_converse(-1, rb.width as int, -1, rb.width - 1);
    assert(nb(rb, c, 4) == ((rb.width - 1) as usize, y));
    assert(joins(rb, c, 4));
    assert(rm.in_grid(c));
    assert(closed_at(rb, rm.xy_to_region@, c));
}

/// The grid wraps around: a wire cell on the top edge and a cell of the same
/// wire colour straight across on the bottom edge lie in one region.
pub proof fn lemma_wraparound_vertical(rm: &RegionMap, rb: &ReselBoard, x: usize)
    requires
        rb.wf(),
        rm.wf(),
        rm.labels(rb),
        x < rb.width,
        rb.cell_at((x, 0)).spec_is_wire(),
        rb.cell_at((x, (rb.height - 1) as usize)).spec_same(rb.cell_at((x, 0))),
    ensures
        rm.region_at((x, 0)) == rm.region_at((x, (rb.height - 1) as usize)),
{
    let c = (x, 0usize);
    assert(rb.cell_at(c).spec_delta_neighbors()[6] == (0isize, -1isize));
    vstd::arithmetic::div_mod::lemma_small_mod(x as nat, rb.width as nat);
    vstd::arithmetic::div_mod::lemma_fundamental_div_mod_converse(-1, rb.height as int, -1, rb.height - 1);
    assert(nb(rb, c, 6) == (x, (rb.height - 1) as usize));
    assert(joins(rb, c, 6));
    assert(rm.in_grid(c));
    assert(closed_at(rb, rm.xy_to_region@, c));
}

/// A walk stays on the grid and within one region.
proof fn lemma_walk_in_region(rm: &RegionMap, rb: &ReselBoard, path: Seq<(usize, usize)>, i: int)
    requires
        rb.wf(),
        rm.wf(),
        rm.labels(rb),
        is_walk(rb, path),
        rm.in_grid(path[0]),
        0 <= i < path.len(),
    ensures
        rm.in_grid(path[i]),
        rm.region_at(path[i]) == rm.region_at(path[0]),
    decreases i,
{
    if i > 0 {
        lemma_walk_in_region(rm, rb, path, i - 1);
        let j = i - 1;
        let a = path[j];
        assert(step(rb, path[j], path[j + 1]));
        assert(path[j + 1] == path[i]);
        let k = choose|k: int| #[trigger] joins(rb, a, k) && nb(rb, a, k) == path[i];
        lemma_nb_on_board(rb, a, k);
        assert(closed_at(rb, rm.xy_to_region@, a));
    }
}

proof fn lemma_reachable_in_region(rm: &RegionMap, rb: &ReselBoard, a: (usize, usize), b: (usize, usize))
    requires
        rb.wf(),
        rm.wf(),
        rm.labels(rb),
        reachable(rb, a, b),
        rm.in_grid(a),
    ensures
        rm.in_grid(b),
        rm.region_at(b) == rm.region_at(a),
{
    let path = choose|path: Seq<(usize, usize)>| #[trigger] is_walk(rb, path) && path[0] == a && path.last() == b;
    lemma_walk_in_region(rm, rb, path, path.len() - 1);
}

/// Cells that share a region in one labelling of `rb` share one in another.
proof fn lemma_same_blocks(m1: &RegionMap, m2: &RegionMap, rb: &ReselBoard, c: (usize, usize), d: (usize, usize))
    requires
        rb.wf(),
        m1.wf(),
        m1.labels(rb),
        m2.wf(),
        m2.labels(rb),
        m1.in_grid(c),
        m1.in_grid(d),
        m1.region_at(c) == m1.region_at(d),
    ensures
        m2.region_at(c) == m2.region_at(d),
{
    let r = m1.region_at(c) as int;
    if r != 0 {
        let s = m1.seed(r);
        assert(m1.class_of(r) != Resel::Empty);
        assert(m1.members(r).len() > 0);
        assert(m1.in_grid(s));
        lemma_reachable_in_region(m2, rb, s, c);
        lemma_reachable_in_region(m2, rb, s, d);
    }
}

proof fn lemma_seed_of_block(m: &RegionMap, rb: &ReselBoard, c: (usize, usize))
    requires
        m.wf(),
        m.labels(rb),
        m.in_grid(c),
        m.region_at(c) != 0,
    ensures
        m.in_grid(m.seed(m.region_at(c) as int)),
        m.region_at(m.seed(m.region_at(c) as int)) == m.region_at(c),
        !scanned_before(c, m.seed(m.region_at(c) as int).0 as int, m.seed(m.region_at(c) as int).1 as int),
{
    let r = m.region_at(c) as int;
    assert(m.class_of(r) != Resel::Empty);
    assert(m.members(r).len() > 0);
    assert(m.members(r).contains(c));
    let i = choose|i: int| 0 <= i < m.members(r).len() && m.members(r)[i] == c;
    assert(!scanned_before(m.members(r)[i], m.seed(r).0 as int, m.seed(r).1 as int));
}

/// One direction of the seed comparison: when the regions below `r` have
/// the same first coordinates in both labellings, the first coordinate of
/// region `r` in `m2` comes no later than that in `m1`.
proof fn lemma_seed_not_later(m1: &RegionMap, m2: &RegionMap, rb: &ReselBoard, r: int)
    requires
        rb.wf(),
        m1.wf(),
        m1.labels(rb),
        m2.wf(),
        m2.labels(rb),
        1 <= r < m1.n_regions(),
        r < m2.n_regions(),
        forall|q: int| 1 <= q < r ==> #[trigger] m1.seed(q) == m2.seed(q),
    ensures
        !scanned_before(m1.seed(r), m2.seed(r).0 as int, m2.seed(r).1 as int),
{
    let s1 = m1.seed(r);
    assert(m1.class_of(r) != Resel::Empty);
    assert(m1.members(r).len() > 0);
    assert(m1.in_grid(s1) && m1.region_at(s1) == r);
    assert(rb.cell_at(s1) != Resel::Empty);
    let q = m2.region_at(s1) as int;
    assert(q != 0);
    if q < r {
        assert(m2.class_of(q) != Resel::Empty);
        assert(m2.members(q).len() > 0);
        assert(m2.in_grid(m2.seed(q)) && m2.region_at(m2.seed(q)) == q);
        lemma_same_blocks(m2, m1, rb, m2.seed(q), s1);
        assert(m1.seed(q) == m2.seed(q));
        assert(m1.in_grid(m1.seed(q)) && m1.region_at(m1.seed(q)) == q);
    } else {
        lemma_seed_of_block(m2, rb, s1);
        if q > r {
            assert(scanned_before(m2.seed(r), m2.seed(q).0 as int, m2.seed(q).1 as int));
        }
    }
}

proof fn lemma_seeds_agree(m1: &RegionMap, m2: &RegionMap, rb: &ReselBoard, r: int)
    requires
        rb.wf(),
        m1.wf(),
        m1.labels(rb),
        m2.wf(),
        m2.labels(rb),
        0 <= r,
    ensures
        forall|q: int| 1 <= q <= r && q < m1.n_regions() && q < m2.n_regions() ==> #[trigger] m1.seed(q) == m2.seed(q),
    decreases r,
{
    if r > 0 {
        lemma_seeds_agree(m1, m2, rb, r - 1);
        if r < m1.n_regions() && r < m2.n_regions() {
            lemma_seed_not_later(m1, m2, rb, r);
            lemma_seed_not_later(m2, m1, rb, r);
        }
    }
}

/// A grid has one labelling: two region maps that both label `rb` agree on
/// every coordinate's region, every region's class and list of
/// coordinates, the dense lists and the reverse map. So
/// [`region_map_from_reselboard`] computes a function of the grid.
pub proof fn lemma_labelling_unique(m1: &RegionMap, m2: &RegionMap, rb: &ReselBoard)
    requires
        rb.wf(),
        m1.wf(),
        m1.labels(rb),
        m2.wf(),
        m2.labels(rb),
    ensures
        m1.n_regions() == m2.n_regions(),
        forall|c: (usize, usize)| m1.in_grid(c) ==> #[trigger] m1.region_at(c) == m2.region_at(c),
        forall|r: int| 0 <= r < m1.n_regions() ==> #[trigger] m1.class_of(r) == m2.class_of(r),
        m1.wire_regions@ == m2.wire_regions@,
        m1.input_regions@ == m2.input_regions@,
        m1.logic_regions@ == m2.logic_regions@,
        m1.output_regions@ == m2.output_regions@,
        m1.reverse_dense@ == m2.reverse_dense@,
        m1.region_to_xys@.len() == m2.region_to_xys@.len(),
        forall|r: int| 0 <= r < m1.n_regions() ==> #[trigger] m1.members(r) == m2.members(r),
        m1.xy_to_region@.len() == m2.xy_to_region@.len(),
        forall|x: int| 0 <= x < m1.width ==> (#[trigger] m1.xy_to_region@[x])@ == m2.xy_to_region@[x]@,
{
    let n = if m1.n_regions() < m2.n_regions() { m1.n_regions() } else { m2.n_regions() };
    lemma_seeds_agree(m1, m2, rb, n);
    assert(m1.n_regions() == m2.n_regions()) by {
        lemma_region_count(m1, m2, rb);
        lemma_seeds_agree(m2, m1, rb, n);
        lemma_region_count(m2, m1, rb);
    }
    assert forall|c: (usize, usize)| m1.in_grid(c) implies #[trigger] m1.region_at(c) == m2.region_at(c) by {
        let r = m1.region_at(c) as int;
        if r != 0 {
            assert(m1.class_of(r) != Resel::Empty);
            assert(m1.members(r).len() > 0);
            let s = m1.seed(r);
            assert(m1.in_grid(s) && m1.region_at(s) == r);
            assert(m2.class_of(r) != Resel::Empty);
            assert(m2.members(r).len() > 0);
            assert(m2.in_grid(m2.seed(r)) && m2.region_at(m2.seed(r)) == r);
            lemma_same_blocks(m1, m2, rb, c, s);
        }
    }
    assert forall|r: int| 0 <= r < m1.n_regions() implies #[trigger] m1.class_of(r) == m2.class_of(r) by {
        if r != 0 {
            assert(m1.seed(r) == m2.seed(r));
        }
    }
    assert forall|kind: int| 0 <= kind < 4 implies #[trigger] m1.dense(kind) == m2.dense(kind) by {
        lemma_dense_is_kind(m1, kind);
        lemma_dense_is_kind(m2, kind);
        lemma_sorted_unique(m1.dense(kind), m2.dense(kind));
    }
    assert(m1.dense(0) == m2.dense(0));
    assert(m1.dense(1) == m2.dense(1));
    assert(m1.dense(2) == m2.dense(2));
    assert(m1.dense(3) == m2.dense(3));
    assert forall|r: int| 0 <= r < m1.n_regions() implies m1.reverse_dense@[r] == m2.reverse_dense@[r] by {
        if r != 0 {
            let l = m1.dense(kind_of(m1.class_of(r)));
            let i1 = m1.reverse_dense@[r] as int;
            let i2 = m2.reverse_dense@[r] as int;
            assert(l[i1] == r);
            assert(m2.dense(kind_of(m2.class_of(r)))[i2] == r);
            if i1 < i2 {
                assert(l[i1] < l[i2]);
            } else if i2 < i1 {
                assert(l[i2] < l[i1]);
            }
        }
    }
    assert(m1.reverse_dense@ =~= m2.reverse_dense@);
    assert forall|r: int| 0 <= r < m1.n_regions() implies #[trigger] m1.members(r) == m2.members(r) by {
        if r == 0 {
            assert forall|c: (usize, usize)| m1.members(0).contains(c) <==> m2.members(0).contains(c) by {
                if m1.members(0).contains(c) {
                    let i = choose|i: int| 0 <= i < m1.members(0).len() && m1.members(0)[i] == c;
                    assert(m1.in_grid(m1.members(0)[i]) && m1.region_at(m1.members(0)[i]) == 0);
                    assert(m1.region_at(c) == m2.region_at(c));
                    assert(m2.in_grid(c));
                    assert(m2.members(m2.region_at(c) as int).contains(c));
                }
                if m2.members(0).contains(c) {
                    let i = choose|i: int| 0 <= i < m2.members(0).len() && m2.members(0)[i] == c;
                    assert(m2.in_grid(m2.members(0)[i]) && m2.region_at(m2.members(0)[i]) == 0);
                    assert(m1.in_grid(c));
                    assert(m1.region_at(c) == m2.region_at(c));
                    assert(m1.members(m1.region_at(c) as int).contains(c));
                }
            }
            lemma_scan_sorted_unique(m1.members(0), m2.members(0));
        } else {
            assert(m1.class_of(r) != Resel::Empty);
            assert(m1.members(r).len() > 0);
            assert(m2.class_of(r) != Resel::Empty);
            assert(m2.members(r).len() > 0);
            assert(m1.seed(r) == m2.seed(r));
            assert(m1.region_to_xys@[r]@ == flood_order(rb, m1.seed(r)));
            assert(m2.region_to_xys@[r]@ == flood_order(rb, m2.seed(r)));
        }
    }
    assert forall|x: int| 0 <= x < m1.width implies (#[trigger] m1.xy_to_region@[x])@ == m2.xy_to_region@[x]@ by {
        assert forall|y: int| 0 <= y < m1.height implies m1.xy_to_region@[x]@[y] == m2.xy_to_region@[x]@[y] by {
            let c = (x as usize, y as usize);
            assert(m1.region_at(c) == m2.region_at(c));
        }
        assert(m1.xy_to_region@[x]@ =~= m2.xy_to_region@[x]@);
    }
}

/// Two sequences of coordinates, each in strictly increasing scan order,
/// with the same elements are equal.
proof fn lemma_scan_sorted_unique(s1: Seq<(usize, usize)>, s2: Seq<(usize, usize)>)
    requires
        forall|i: int, j: int| 0 <= i < j < s1.len() ==> scanned_before(#[trigger] s1[i], #[trigger] s1[j].0 as int, s1[j].1 as int),
        forall|i: int, j: int| 0 <= i < j < s2.len() ==> scanned_before(#[trigger] s2[i], #[trigger] s2[j].0 as int, s2[j].1 as int),
        forall|c: (usize, usize)| s1.contains(c) <==> s2.contains(c),
    ensures
        s1 == s2,
    decreases s1.len(),
{
    if s1.len() == 0 {
        if s2.len() > 0 {
            assert(s2.contains(s2[0]));
        }
        assert(s1 =~= s2);
    } else if s2.len() == 0 {
        assert(s1.contains(s1[0]));
    } else {
        assert(s1.contains(s1[0]));
        assert(s2.contains(s2[0]));
        let j1 = choose|j: int| 0 <= j < s2.len() && s2[j] == s1[0];
        let j2 = choose|j: int| 0 <= j < s1.len() && s1[j] == s2[0];
        assert(s1[0] == s2[0]) by {
            if j1 > 0 && j2 > 0 {
                assert(scanned_before(s2[0], s2[j1].0 as int, s2[j1].1 as int));
                assert(scanned_before(s1[0], s1[j2].0 as int, s1[j2].1 as int));
            }
        }
        let t1 = s1.drop_first();
        let t2 = s2.drop_first();
        assert forall|c: (usize, usize)| t1.contains(c) <==> t2.contains(c) by {
            if t1.contains(c) {
                let i = choose|i: int| 0 <= i < t1.len() && t1[i] == c;
                assert(s1[i + 1] == c);
                assert(scanned_before(s1[0], s1[i + 1].0 as int, s1[i + 1].1 as int));
                assert(s1.contains(c));
                let j = choose|j: int| 0 <= j < s2.len() && s2[j] == c;
                assert(j != 0);
                assert(t2[j - 1] == c);
            }
            if t2.contains(c) {
                let i = choose|i: int| 0 <= i < t2.len() && t2[i] == c;
                assert(s2[i + 1] == c);
                assert(scanned_before(s2[0], s2[i + 1].0 as int, s2[i + 1].1 as int));
                assert(s2.contains(c));
                let j = choose|j: int| 0 <= j < s1.len() && s1[j] == c;
                assert(j != 0);
                assert(t1[j - 1] == c);
            }
        }
        assert forall|i: int, j: int| 0 <= i < j < t1.len() implies scanned_before(#[trigger] t1[i], #[trigger] t1[j].0 as int, t1[j].1 as int) by {
            assert(t1[i] == s1[i + 1] && t1[j] == s1[j + 1]);
        }
        assert forall|i: int, j: int| 0 <= i < j < t2.len() implies scanned_before(#[trigger] t2[i], #[trigger] t2[j].0 as int, t2[j].1 as int) by {
            assert(t2[i] == s2[i + 1] && t2[j] == s2[j + 1]);
        }
        lemma_scan_sorted_unique(t1, t2);
        assert(s1 =~= s2) by {
            assert forall|i: int| 0 <= i < s1.len() implies s1[i] == s2[i] by {
                if i > 0 {
                    assert(t1[i - 1] == t2[i - 1]);
                }
            }
        }
    }
}

/// `m2` has no more regions than `m1` when their common regions start at
/// the same coordinates.
proof fn lemma_region_count(m1: &RegionMap, m2: &RegionMap, rb: &ReselBoard)
    requires
        rb.wf(),
        m1.wf(),
        m1.labels(rb),
        m2.wf(),
        m2.labels(rb),
        forall|q: int| 1 <= q < m1.n_regions() && q < m2.n_regions() ==> #[trigger] m1.seed(q) == m2.seed(q),
    ensures
        m2.n_regions() <= m1.n_regions(),
{
    if m1.n_regions() < m2.n_regions() {
        let r = m1.n_regions();
        assert(m2.class_of(r) != Resel::Empty);
        assert(m2.members(r).len() > 0);
        let s = m2.seed(r);
        assert(m2.in_grid(s) && m2.region_at(s) == r);
        assert(rb.cell_at(s) != Resel::Empty);
        let p = m1.region_at(s) as int;
        assert(1 <= p < r);
        assert(m1.class_of(p) != Resel::Empty);
        assert(m1.members(p).len() > 0);
        assert(m1.in_grid(m1.seed(p)) && m1.region_at(m1.seed(p)) == p);
        lemma_same_blocks(m1, m2, rb, s, m1.seed(p));
        assert(m1.seed(p) == m2.seed(p));
        assert(m2.class_of(p) != Resel::Empty);
        assert(m2.members(p).len() > 0);
        assert(m2.region_at(m2.seed(p)) == p);
    }
}

/// A dense list holds, in increasing order, exactly the regions of its kind.
proof fn lemma_dense_is_kind(m: &RegionMap, kind: int)
    requires
        m.wf(),
        0 <= kind < 4,
    ensures
        strictly_sorted(m.dense(kind)),
        forall|x: usize| m.dense(kind).contains(x) <==> 1 <= x < m.n_regions() && kind_of(m.class_of(x as int)) == kind,
{
    assert forall|x: usize| m.dense(kind).contains(x) <==> 1 <= x < m.n_regions() && kind_of(m.class_of(x as int)) == kind by {
        if m.dense(kind).contains(x) {
            let j = choose|j: int| 0 <= j < m.dense(kind).len() && m.dense(kind)[j] == x;
            assert(m.dense(kind)[j] == x);
        }
        if 1 <= x < m.n_regions() && kind_of(m.class_of(x as int)) == kind {
            let l = m.dense(kind_of(m.class_of(x as int)));
            assert(l[m.reverse_dense@[x as int] as int] == x);
        }
    }
    assert forall|i: int, j: int| 0 <= i < j < m.dense(kind).len() implies m.dense(kind)[i] < m.dense(kind)[j] by {}
}

/// Two strictly increasing sequences with the same elements are equal.
pub proof fn lemma_sorted_unique(s1: Seq<usize>, s2: Seq<usize>)
    requires
        strictly_sorted(s1),
        strictly_sorted(s2),
        forall|x: usize| s1.contains(x) <==> s2.contains(x),
    ensures
        s1 == s2,
    decreases s1.len(),
{
    if s1.len() == 0 {
        if s2.len() > 0 {
            assert(s2.contains(s2[0]));
        }
        assert(s1 =~= s2);
    } else if s2.len() == 0 {
        assert(s1.contains(s1[0]));
    } else {
        assert(s1.contains(s1[0]));
        assert(s2.contains(s2[0]));
        let j1 = choose|j: int| 0 <= j < s2.len() && s2[j] == s1[0];
        let j2 = choose|j: int| 0 <= j < s1.len() && s1[j] == s2[0];
        assert(s1[0] == s2[0]) by {
            if j1 > 0 {
                assert(s2[0] < s2[j1]);
            }
            if j2 > 0 {
                assert(s1[0] < s1[j2]);
            }
        }
        let t1 = s1.drop_first();
        let t2 = s2.drop_first();
        assert forall|x: usize| t1.contains(x) <==> t2.contains(x) by {
            if t1.contains(x) {
                let i = choose|i: int| 0 <= i < t1.len() && t1[i] == x;
                assert(s1[i + 1] == x && s1[0] < x);
                assert(s1.contains(x));
                let j = choose|j: int| 0 <= j < s2.len() && s2[j] == x;
                assert(j != 0);
                assert(t2[j - 1] == x);
            }
            if t2.contains(x) {
                let i = choose|i: int| 0 <= i < t2.len() && t2[i] == x;
                assert(s2[i + 1] == x && s2[0] < x);
                assert(s2.contains(x));
                let j = choose|j: int| 0 <= j < s1.len() && s1[j] == x;
                assert(j != 0);
                assert(t1[j - 1] == x);
            }
        }
        lemma_sorted_unique(t1, t2);
        assert(s1 =~= s2) by {
            assert forall|i: int| 0 <= i < s1.len() implies s1[i] == s2[i] by {
                if i > 0 {
                    assert(t1[i - 1] == t2[i - 1]);
                }
            }
        }
    }
}

} // verus!
