use vstd::prelude::*;

verus! {

/// A cell position on the grid; `x` is the column and `y` the row.
#[derive(Copy, Clone, Debug, PartialEq, Eq, Structural, Hash)]
pub struct Point {
    pub x: isize,
    pub y: isize,
}

/// Grid dimensions that every position computation can work with.
pub open spec fn dims_ok(w: int, h: int) -> bool {
    &&& 0 < w <= isize::MAX
    &&& 0 < h <= isize::MAX
    &&& w * h <= usize::MAX
}

/// `p` lies on a `w` by `h` grid.
pub open spec fn in_grid(p: Point, w: int, h: int) -> bool {
    0 <= p.x < w && 0 <= p.y < h
}

/// The flat index of `p` in a row-major grid of width `w`.
pub open spec fn cell_of(p: Point, w: int) -> int {
    p.y * w + p.x
}

/// The position whose flat index is `ix` on a grid of width `w`.
pub open spec fn point_of(ix: int, w: int) -> Point {
    Point { x: (ix % w) as isize, y: (ix / w) as isize }
}

/// The neighbour of `p` one step of `(dx, dy)` away, wrapping round both edges.
pub open spec fn offset_of(p: Point, dx: int, dy: int, w: int, h: int) -> Point {
    Point { x: ((p.x + dx) % w) as isize, y: ((p.y + dy) % h) as isize }
}

/// One of the four unit moves: left, right, up or down.
pub open spec fn is_unit(d: (isize, isize)) -> bool {
    ||| d == (-1isize, 0isize)
    ||| d == (1isize, 0isize)
    ||| d == (0isize, -1isize)
    ||| d == (0isize, 1isize)
}

/// A cell of the grid lies within it, and distinct positions have distinct cells.
pub proof fn lemma_cell_of(p: Point, q: Point, w: int, h: int)
    requires
        dims_ok(w, h),
        in_grid(p, w, h),
        in_grid(q, w, h),
    ensures
        0 <= cell_of(p, w) < w * h,
        cell_of(p, w) == cell_of(q, w) ==> p == q,
        point_of(cell_of(p, w), w) == p,
{
    let (px, py, qx, qy) = (p.x as int, p.y as int, q.x as int, q.y as int);
    assert(0 <= py * w + px < w * h) by (nonlinear_arith)
        requires 0 <= px < w, 0 <= py < h;
    if py < qy {
        assert(py * w + px < qy * w + qx) by (nonlinear_arith)
            requires 0 <= px < w, 0 <= qx, py < qy, 0 < w;
    } else if qy < py {
        assert(qy * w + qx < py * w + px) by (nonlinear_arith)
            requires 0 <= qx < w, 0 <= px, qy < py, 0 < w;
    }
    vstd::arithmetic::div_mod::lemma_fundamental_div_mod_converse(py * w + px, w, py, px);
}

/// The position of a flat index lies on the grid, and its cell is that index.
pub proof fn lemma_point_of(ix: int, w: int, h: int)
    requires
        dims_ok(w, h),
        0 <= ix < w * h,
    ensures
        in_grid(point_of(ix, w), w, h),
        cell_of(point_of(ix, w), w) == ix,
{
    vstd::arithmetic::div_mod::lemma_fundamental_div_mod(ix, w);
    vstd::arithmetic::div_mod::lemma_div_pos_is_pos(ix, w);
    vstd::arithmetic::div_mod::lemma_div_is_ordered(ix, w * h, w);
    vstd::arithmetic::mul::lemma_mul_is_commutative(w, h);
    vstd::arithmetic::div_mod::lemma_div_multiples_vanish(h, w);
    vstd::arithmetic::div_mod::lemma_div_by_multiple_is_strongly_ordered(ix, w * h, h, w);
    vstd::arithmetic::div_mod::lemma_mod_bound(ix, w);
    vstd::arithmetic::mul::lemma_mul_is_commutative(w, ix / w);
    assert(point_of(ix, w).x == ix % w);
    assert(point_of(ix, w).y == ix / w);
}

/// Brings `x`, which is at most one range length outside `[0, m)`, back into
/// that range by adding or subtracting `m`.
pub fn nudge_into_range(x: isize, m: isize) -> (r: isize)
    requires
        0 < m,
        -m <= x < 2 * m,
    ensures
        r as int == x as int % m as int,
        0 <= r < m,
{
    if x < 0 {
        proof {
            vstd::arithmetic::div_mod::lemma_fundamental_div_mod_converse(x as int, m as int, -1, x + m);
        }
        x + m
    } else if x >= m {
        proof {
            vstd::arithmetic::div_mod::lemma_fundamental_div_mod_converse(x as int, m as int, 1, x - m);
        }
        x - m
    } else {
        proof {
            vstd::arithmetic::div_mod::lemma_fundamental_div_mod_converse(x as int, m as int, 0, x as int);
        }
        x
    }
}

impl Point {
    /// The position of flat index `ix` on a grid of width `width`.
    pub fn from_ix(ix: usize, width: usize, height: usize) -> (r: Point)
        requires
            dims_ok(width as int, height as int),
            ix < width * height,
        ensures
            r == point_of(ix as int, width as int),
            in_grid(r, width as int, height as int),
            cell_of(r, width as int) == ix,
    {
        proof {
            lemma_point_of(ix as int, width as int, height as int);
        }
        Point { x: (ix % width) as isize, y: (ix / width) as isize }
    }

    /// The neighbour one step of `(dx, dy)` away on a torus of the given size.
    pub fn offset(&self, dx: isize, dy: isize, width: usize, height: usize) -> (r: Point)
        requires
            dims_ok(width as int, height as int),
            in_grid(*self, width as int, height as int),
            -1 <= dx <= 1,
            -1 <= dy <= 1,
        ensures
            r == offset_of(*self, dx as int, dy as int, width as int, height as int),
            in_grid(r, width as int, height as int),
    {
        let x = nudge_into_range(self.x + dx, width as isize);
        let y = nudge_into_range(self.y + dy, height as isize);
        Point { x, y }
    }
}

} // verus!
