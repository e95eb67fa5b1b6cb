//! A rectangular grid of cells on a torus, and the coordinate arithmetic
//! that finds a cell's neighbours.
//!
//! The grid is indexed `board[x][y]`: `width` columns of `height` cells each.
use vstd::prelude::*;
use crate::resel::Resel;

verus! {

/// A rectangular grid of cell classes, indexed `board[x][y]`.
#[derive(Debug, Clone)]
pub struct ReselBoard {
    pub board: Vec<Vec<Resel>>,
    pub width: usize,
    pub height: usize,
}

/// Why a grid cannot be compiled.
#[derive(Debug, Clone, Copy, PartialEq, Eq, Structural)]
pub enum BoardError {
    /// The grid has no column, or its first column has no cell.
    Empty,
    /// Two columns differ in height.
    NotRectangular,
}

impl ReselBoard {
    /// At least one cell, and every column `height` cells tall.
    pub open spec fn wf(&self) -> bool {
        &&& self.width == self.board@.len()
        &&& self.width > 0
        &&& self.height > 0
        &&& forall|x: int| 0 <= x < self.width ==> (#[trigger] self.board@[x])@.len() == self.height
    }

    /// The class at `(x, y)`.
    pub open spec fn cell(&self, x: int, y: int) -> Resel {
        self.board@[x]@[y]
    }

    pub open spec fn in_grid(&self, x: int, y: int) -> bool {
        0 <= x < self.width && 0 <= y < self.height
    }

    /// The class at coordinate `c`.
    pub open spec fn cell_at(&self, c: (usize, usize)) -> Resel {
        self.board@[c.0 as int]@[c.1 as int]
    }

    /// For a coordinate of the grid, its neighbours on the torus in the
    /// order of the offsets its class has: eight for a wire, four for the
    /// other non-empty classes, none for an empty cell.
    pub fn get_neighbors(&self, x: usize, y: usize) -> (r: Vec<(usize, usize)>)
        requires
            self.wf(),
            self.in_grid(x as int, y as int),
        ensures
            r@ == neighbors_of(
                self.cell(x as int, y as int).spec_delta_neighbors(),
                x as int,
                y as int,
                self.width as int,
                self.height as int,
            ),
    {
        get_neighbors(self.board[x][y].delta_neighbors(), x, y, self.width, self.height)
    }
}

/// `(v + d) mod n` in `0..n`: a coordinate moved by `d` on an axis of
/// length `n` that wraps around.
pub open spec fn wrap(v: int, d: int, n: int) -> int {
    (v + d) % n
}

/// The cell at offset `(dx, dy)` from `(x, y)`. On a torus (`wrapping`) the
/// coordinates wrap modulo the grid's size; otherwise a cell off the grid is
/// none.
pub open spec fn spec_delta_to_neighbor(
    x: int,
    y: int,
    dx: int,
    dy: int,
    width: int,
    height: int,
    wrapping: bool,
) -> Option<(usize, usize)> {
    if wrapping {
        Some((wrap(x, dx, width) as usize, wrap(y, dy, height) as usize))
    } else if 0 <= x + dx < width && 0 <= y + dy < height {
        Some(((x + dx) as usize, (y + dy) as usize))
    } else {
        None
    }
}

/// The cell at offset `d` from `(x, y)` on a torus of `width` by `height`.
pub open spec fn neighbor(x: int, y: int, d: (isize, isize), width: int, height: int) -> (
    usize,
    usize,
) {
    (wrap(x, d.0 as int, width) as usize, wrap(y, d.1 as int, height) as usize)
}

/// The cells at each offset of `deltas` from `(x, y)` on the torus, in the
/// order of `deltas`.
pub open spec fn neighbors_of(
    deltas: Seq<(isize, isize)>,
    x: int,
    y: int,
    width: int,
    height: int,
) -> Seq<(usize, usize)> {
    deltas.map_values(|d: (isize, isize)| neighbor(x, y, d, width, height))
}

/// Moving by `d` and then by `-d` on an axis of length `n` comes back.
pub proof fn lemma_wrap_inverse(x: int, d: int, n: int)
    requires
        0 <= x < n,
    ensures
        0 <= wrap(x, d, n) < n,
        wrap(wrap(x, d, n), -d, n) == x,
{
    vstd::arithmetic::div_mod::lemma_mod_bound(x + d, n);
    vstd::arithmetic::div_mod::lemma_add_mod_noop_right(-d, x + d, n);
    vstd::arithmetic::div_mod::lemma_small_mod(x as nat, n as nat);
}

/// Checks that a grid is rectangular with at least one cell, and wraps it.
pub fn vecvecresel_to_reselboard(board: Vec<Vec<Resel>>) -> (r: Result<ReselBoard, BoardError>)
    ensures
        r matches Err(BoardError::Empty) <==> (board@.len() == 0 || board@[0]@.len() == 0),
        r matches Err(BoardError::NotRectangular) <==> (board@.len() > 0 && board@[0]@.len() > 0
            && exists|x: int| 0 <= x < board@.len() && (#[trigger] board@[x])@.len() != board@[0]@.len()),
        r matches Ok(rb) ==> rb.wf() && rb.board == board,
{
    if board.len() == 0 {
        return Err(BoardError::Empty);
    }
    let height = board[0].len();
    if height == 0 {
        return Err(BoardError::Empty);
    }
    let mut x: usize = 0;
    while x < board.len()
        invariant
            0 <= x <= board@.len(),
            height == board@[0]@.len(),
            height > 0,
            forall|i: int| 0 <= i < x ==> (#[trigger] board@[i])@.len() == height,
        decreases board@.len() - x,
    {
        if board[x].len() != height {
            return Err(BoardError::NotRectangular);
        }
        x = x + 1;
    }
    let width = board.len();
    Ok(ReselBoard { board, width, height })
}

/// `(v + d) mod n`, computed without overflow.
fn wrap_axis(v: usize, d: isize, n: usize) -> (r: usize)
    requires
        n > 0,
    ensures
        r as int == wrap(v as int, d as int, n as int),
{
    let a: i128 = v as i128 + d as i128;
    let nn: u128 = n as u128;
    if a >= 0 {
        let k: u128 = (a as u128) % nn;
        k as usize
    } else {
        let m: u128 = (-a) as u128;
        let k: u128 = m % nn;
        proof {
            let q = m as int / nn as int;
            assert(m as int == q * nn as int + k as int) by (nonlinear_arith)
                requires
                    nn > 0,
                    q == m as int / nn as int,
                    k as int == m as int % nn as int,
            ;
            assert(a as int == (-q - 1) * nn as int + (nn - k) as int) by (nonlinear_arith)
                requires
                    m as int == q * nn as int + k as int,
                    a as int == -(m as int),
            ;
            if k == 0 {
                assert(a as int == (-q) * nn as int) by (nonlinear_arith)
                    requires
                        m as int == q * nn as int + k as int,
                        a as int == -(m as int),
                        k == 0,
                ;
                vstd::arithmetic::div_mod::lemma_fundamental_div_mod_converse(
                    a as int,
                    nn as int,
                    -q,
                    0,
                );
            } else {
                vstd::arithmetic::div_mod::lemma_fundamental_div_mod_converse(
                    a as int,
                    nn as int,
                    -q - 1,
                    (nn - k) as int,
                );
            }
        }
        if k == 0 {
            0
        } else {
            (nn - k) as usize
        }
    }
}

/// The cell at offset `(dx, dy)` from `(x, y)` on a grid of `width` by
/// `height` cells. When `wrap` is set the grid is a torus and a cell is always
/// found; otherwise an offset that leaves the grid gives none.
pub fn delta_to_neighbor(
    x: usize,
    y: usize,
    dx: isize,
    dy: isize,
    width: usize,
    height: usize,
    wrap: bool,
) -> (r: Option<(usize, usize)>)
    requires
        wrap ==> width > 0 && height > 0,
    ensures
        r == spec_delta_to_neighbor(
            x as int,
            y as int,
            dx as int,
            dy as int,
            width as int,
            height as int,
            wrap,
        ),
{
    if wrap {
        Some((wrap_axis(x, dx, width), wrap_axis(y, dy, height)))
    } else {
        let ax: i128 = x as i128 + dx as i128;
        let ay: i128 = y as i128 + dy as i128;
        if ax >= width as i128 || ax < 0 || ay >= height as i128 || ay < 0 {
            None
        } else {
            Some((ax as usize, ay as usize))
        }
    }
}

/// The cells at each of `deltas` from `(x, y)` on a torus of `width` by
/// `height` cells, in the order of `deltas`.
pub fn get_neighbors(
    deltas: Vec<(isize, isize)>,
    x: usize,
    y: usize,
    width: usize,
    height: usize,
) -> (r: Vec<(usize, usize)>)
    requires
        width > 0,
        height > 0,
    ensures
        r@ == neighbors_of(deltas@, x as int, y as int, width as int, height as int),
{
    let mut r: Vec<(usize, usize)> = Vec::new();
    let mut i: usize = 0;
    while i < deltas.len()
        invariant
            width > 0,
            height > 0,
            0 <= i <= deltas@.len(),
            r@ == neighbors_of(deltas@.take(i as int), x as int, y as int, width as int, height as int),
        decreases deltas@.len() - i,
    {
        let (dx, dy) = deltas[i];
        let n = delta_to_neighbor(x, y, dx, dy, width, height, true);
        match n {
            Some(c) => {
                r.push(c);
            },
            None => {},
        }
        proof {
            assert(deltas@.take(i + 1) =~= deltas@.take(i as int).push(deltas@[i as int]));
        }
        i = i + 1;
    }
    proof {
        assert(deltas@.take(i as int) =~= deltas@);
    }
    r
}

} // verus!
