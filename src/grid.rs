//! Two-dimensional tables stored column by column (`g[x][y]`), and the
//! finite set of coordinates of a `w` by `h` grid.
use vstd::prelude::*;

verus! {

/// The entry of `g` at coordinate `c = (x, y)`.
pub open spec fn at<T>(g: Seq<Vec<T>>, c: (usize, usize)) -> T {
    g[c.0 as int]@[c.1 as int]
}

/// `g` has `w` columns of `h` entries each.
pub open spec fn shaped<T>(g: Seq<Vec<T>>, w: int, h: int) -> bool {
    &&& g.len() == w
    &&& forall|x: int| 0 <= x < w ==> (#[trigger] g[x])@.len() == h
}

/// The coordinates of a `w` by `h` grid.
pub open spec fn rect(w: int, h: int) -> Set<(usize, usize)> {
    Set::new(|c: (usize, usize)| c.0 < w && c.1 < h)
}

pub proof fn lemma_rect_finite(w: int, h: int)
    requires
        0 <= w <= usize::MAX + 1,
    ensures
        rect(w, h).finite(),
    decreases w,
{
    if w == 0 {
        assert(rect(w, h) =~= Set::empty());
    } else {
        lemma_rect_finite(w - 1, h);
        let x = (w - 1) as usize;
        let ys = Set::<usize>::full().filter(|y: usize| y < h);
        broadcast use vstd::set_lib::full_set_properties;
        let col = ys.map(|y: usize| (x, y));
        ys.lemma_map_finite(|y: usize| (x, y));
        assert forall|c: (usize, usize)| #[trigger] rect(w, h).contains(c) implies rect(
            w - 1,
            h,
        ).union(col).contains(c) by {
            if c.0 == x {
                assert(ys.contains(c.1));
                assert(col.contains((x, c.1)));
            }
        }
        assert(rect(w, h) =~= rect(w - 1, h).union(col));
        vstd::set_lib::lemma_set_union_finite_iff(rect(w - 1, h), col);
    }
}

/// A `w` by `h` grid has `w * h` coordinates.
pub proof fn lemma_rect_len(w: int, h: int)
    requires
        0 <= w <= usize::MAX + 1,
        0 <= h <= usize::MAX,
    ensures
        rect(w, h).finite(),
        rect(w, h).len() == w * h,
    decreases w,
{
    if w == 0 {
        assert(rect(w, h) =~= Set::empty());
    } else {
        lemma_rect_len(w - 1, h);
        let x = (w - 1) as usize;
        let ys = Set::<usize>::range(0usize, h as usize);
        vstd::set_lib::range_set_properties::<usize>(0usize, h as usize);
        let f = |y: usize| (x, y);
        let col = ys.map(f);
        assert(vstd::relations::injective_on(f, ys));
        vstd::set_lib::lemma_map_size(ys, col, f);
        assert(rect(w, h) =~= rect(w - 1, h) + col) by {
            assert forall|c: (usize, usize)| #[trigger] rect(w, h).contains(c) implies (rect(w - 1, h)
                + col).contains(c) by {
                if c.0 == x {
                    assert(ys.contains(c.1));
                    assert(col.contains(f(c.1)));
                }
            }
        }
        assert(rect(w - 1, h).disjoint(col));
        vstd::set_lib::lemma_set_disjoint_lens(rect(w - 1, h), col);
        assert((w - 1) * h + h == w * h) by (nonlinear_arith);
    }
}

/// Writes `v` at `(x, y)`, leaving every other entry as it was.
pub fn set_at<T: Copy>(g: &mut Vec<Vec<T>>, x: usize, y: usize, v: T)
    requires
        x < old(g)@.len(),
        y < old(g)@[x as int]@.len(),
    ensures
        final(g)@.len() == old(g)@.len(),
        forall|i: int| 0 <= i < old(g)@.len() ==> (#[trigger] final(g)@[i])@.len() == old(g)@[i]@.len(),
        final(g)@[x as int]@ == old(g)@[x as int]@.update(y as int, v),
        forall|i: int| 0 <= i < old(g)@.len() && i != x ==> #[trigger] final(g)@[i] == old(g)@[i],
        forall|c: (usize, usize)|
            #![trigger at(final(g)@, c)]
            (c.0 as int) < old(g)@.len() && (c.1 as int) < old(g)@[c.0 as int]@.len() ==> at(
                final(g)@,
                c,
            ) == if c == (x, y) {
                v
            } else {
                at(old(g)@, c)
            },
{
    g[x][y] = v;
}

/// A `w` by `h` table filled with `v`.
pub fn filled<T: Copy>(w: usize, h: usize, v: T) -> (g: Vec<Vec<T>>)
    ensures
        shaped(g@, w as int, h as int),
        forall|c: (usize, usize)| #![trigger at(g@, c)] c.0 < w && c.1 < h ==> at(g@, c) == v,
{
    let mut g: Vec<Vec<T>> = Vec::new();
    let mut x: usize = 0;
    while x < w
        invariant
            0 <= x <= w,
            g@.len() == x,
            forall|i: int| 0 <= i < x ==> (#[trigger] g@[i])@.len() == h,
            forall|i: int, j: int| 0 <= i < x && 0 <= j < h ==> (#[trigger] g@[i]@[j]) == v,
        decreases w - x,
    {
        let mut col: Vec<T> = Vec::new();
        let mut y: usize = 0;
        while y < h
            invariant
                0 <= y <= h,
                col@.len() == y,
                forall|j: int| 0 <= j < y ==> (#[trigger] col@[j]) == v,
            decreases h - y,
        {
            col.push(v);
            y = y + 1;
        }
        g.push(col);
        x = x + 1;
    }
    g
}

} // verus!
