//! The grid model: coordinates of a cell, the moves between cells, walks.
use crate::outside::{small_get, small_items, small_len, small_new, small_push};
use vstd::arithmetic::div_mod::{
    lemma_fundamental_div_mod, lemma_fundamental_div_mod_converse,
};
use vstd::prelude::*;

pub use crate::outside::CellList;

verus! {

/// A grid of `grid.len()` cells, `w` to a row, whose indices fit in a `u32`.
pub open spec fn well_formed(grid: Seq<u32>, w: int) -> bool {
    &&& w > 0
    &&& grid.len() as int % w == 0
    &&& grid.len() <= u32::MAX
}

/// The column of cell `i` in a grid of width `w`.
pub open spec fn col(i: int, w: int) -> int {
    i % w
}

/// The row of cell `i` in a grid of width `w`.
pub open spec fn row(i: int, w: int) -> int {
    i / w
}

pub open spec fn abs_diff(a: int, b: int) -> int {
    if a >= b {
        a - b
    } else {
        b - a
    }
}

/// The Manhattan distance between the points (x1, y1) and (x2, y2).
pub open spec fn manhattan_dist(x1: int, y1: int, x2: int, y2: int) -> int {
    abs_diff(x1, x2) + abs_diff(y1, y2)
}

/// The Manhattan distance between the centres of cells `a` and `b`.
pub open spec fn cell_dist(a: int, b: int, w: int) -> int {
    manhattan_dist(col(a, w), row(a, w), col(b, w), row(b, w))
}

/// Cells `a` and `b` are distinct and share a side or a corner.
pub open spec fn touches(a: int, b: int, w: int) -> bool {
    &&& a != b
    &&& abs_diff(col(a, w), col(b, w)) <= 1
    &&& abs_diff(row(a, w), row(b, w)) <= 1
}

/// One move from cell `a` to cell `b`: `b` lies in the grid, can be entered,
/// and touches `a` at a side, or (unless `cardinal`) at a corner.
pub open spec fn is_step(grid: Seq<u32>, w: int, cardinal: bool, a: int, b: int) -> bool {
    &&& 0 <= b < grid.len()
    &&& grid[b] > 0
    &&& touches(a, b, w)
    &&& cardinal ==> cell_dist(a, b, w) == 1
}

/// The cell from which the `i`-th move of walk `p` starts, `p` leaving `from`.
pub open spec fn walk_prev(from: int, p: Seq<u32>, i: int) -> int {
    if i == 0 {
        from
    } else {
        p[i - 1] as int
    }
}

/// `p` lists the cells entered by a sequence of moves that leaves `from`.
pub open spec fn is_walk(grid: Seq<u32>, w: int, cardinal: bool, from: int, p: Seq<u32>) -> bool {
    forall|i: int| 0 <= i < p.len() ==> is_step(grid, w, cardinal, walk_prev(from, p, i), #[trigger] p[i] as int)
}

/// Some non-empty sequence of moves leads from `from` to `to`.
pub open spec fn reachable(grid: Seq<u32>, w: int, cardinal: bool, from: int, to: int) -> bool {
    exists|p: Seq<u32>| #[trigger] is_walk(grid, w, cardinal, from, p) && p.len() > 0 && p.last() == to
}

/// The cell `dy` rows and `dx` columns away from `a`, where that lies in the grid.
proof fn lemma_offset(a: int, w: int, n: int, dx: int, dy: int, b: int)
    requires
        b == a + dy * w + dx,
        w > 0,
        n % w == 0,
        0 <= a < n,
        0 <= a % w + dx < w,
        0 <= a / w + dy < n / w,
    ensures
        0 <= b < n,
        b % w == a % w + dx,
        b / w == a / w + dy,
{
    lemma_fundamental_div_mod(a, w);
    lemma_fundamental_div_mod(n, w);
    assert(b == (a / w + dy) * w + (a % w + dx)) by (nonlinear_arith)
        requires
            a == w * (a / w) + (a % w),
            b == a + dy * w + dx,
    ;
    lemma_fundamental_div_mod_converse(b, w, a / w + dy, a % w + dx);
    assert(b < n) by (nonlinear_arith)
        requires
            b == (a / w + dy) * w + (a % w + dx),
            a / w + dy + 1 <= n / w,
            a % w + dx < w,
            n == w * (n / w),
            w > 0,
    ;
}

/// Any two cells differ by their row offset times the width plus their column offset.
proof fn lemma_difference(a: int, b: int, w: int)
    requires
        w > 0,
    ensures
        b == a + (b / w - a / w) * w + (b % w - a % w),
{
    lemma_fundamental_div_mod(a, w);
    lemma_fundamental_div_mod(b, w);
    assert(b == a + (b / w - a / w) * w + (b % w - a % w)) by (nonlinear_arith)
        requires
            a == w * (a / w) + (a % w),
            b == w * (b / w) + (b % w),
    ;
}

/// The last row of a grid of `n` cells starts at `n - w`.
proof fn lemma_last_row(a: int, w: int, n: int)
    requires
        w > 0,
        n % w == 0,
        0 <= a < n,
    ensures
        a < w <==> a / w == 0,
        a >= n - w <==> a / w + 1 >= n / w,
        a / w < n / w,
        w <= n,
{
    lemma_fundamental_div_mod(a, w);
    lemma_fundamental_div_mod(n, w);
    assert(a < w <==> a / w == 0) by (nonlinear_arith)
        requires
            a == w * (a / w) + (a % w),
            0 <= a % w < w,
            a >= 0,
    ;
    assert(a >= n - w <==> a / w + 1 >= n / w) by (nonlinear_arith)
        requires
            a == w * (a / w) + (a % w),
            0 <= a % w < w,
            n == w * (n / w),
    ;
    assert(a / w < n / w) by (nonlinear_arith)
        requires
            a == w * (a / w) + (a % w),
            0 <= a % w < w,
            n == w * (n / w),
            a < n,
    ;
    assert(w <= n) by (nonlinear_arith)
        requires
            a / w < n / w,
            0 <= a / w,
            n == w * (n / w),
            w > 0,
    ;
}

/// Appending `x` to `s` adds `x` and keeps every other item.
proof fn lemma_push_contains(s: Seq<u32>, x: u32, b: u32)
    ensures
        s.push(x).contains(b) <==> (s.contains(b) || b == x),
{
    if s.contains(b) {
        let i = choose|i: int| 0 <= i < s.len() && s[i] == b;
        assert(s.push(x)[i] == b);
    }
    if b == x {
        assert(s.push(x)[s.len() as int] == b);
    }
    if s.push(x).contains(b) {
        let i = choose|i: int| 0 <= i < s.push(x).len() && s.push(x)[i] == b;
        if i < s.len() {
            assert(s[i] == b);
        }
    }
}

/// The Manhattan distance between the points (x1, y1) and (x2, y2).
pub fn manhattan(x1: u32, y1: u32, x2: u32, y2: u32) -> (r: u64)
    ensures
        r == manhattan_dist(x1 as int, y1 as int, x2 as int, y2 as int),
{
    let dx: u64 = if x1 >= x2 { (x1 - x2) as u64 } else { (x2 - x1) as u64 };
    let dy: u64 = if y1 >= y2 { (y1 - y2) as u64 } else { (y2 - y1) as u64 };
    dx + dy
}

impl CellList {
    /// The cell indices held, in order.
    pub fn to_vec(&self) -> (r: Vec<u32>)
        ensures
            r@ == small_items(*self),
    {
        let n = small_len(self);
        let mut out: Vec<u32> = Vec::new();
        let mut i: usize = 0;
        while i < n
            invariant
                n == small_items(*self).len(),
                i <= n,
                out@ == small_items(*self).subrange(0, i as int),
            decreases n - i,
        {
            out.push(small_get(self, i));
            i = i + 1;
        }
        proof {
            assert(small_items(*self).subrange(0, n as int) =~= small_items(*self));
        }
        out
    }
}

/// Appends `idx` to `v` when that cell can be entered.
fn push_if_open(v: &mut CellList, grid: &Vec<u32>, idx: u32)
    requires
        (idx as int) < grid@.len(),
        small_items(*old(v)).len() < 8,
        small_items(*old(v)).no_duplicates(),
        !small_items(*old(v)).contains(idx),
    ensures
        small_items(*final(v)).len() <= small_items(*old(v)).len() + 1,
        small_items(*final(v)).no_duplicates(),
        forall|b: u32| #[trigger] small_items(*final(v)).contains(b) <==> (small_items(*old(v)).contains(b) || (b == idx && grid@[idx as int] > 0)),
{
    if grid[idx as usize] > 0 {
        small_push(v, idx);
        proof {
            assert forall|b: u32| #[trigger] small_items(*v).contains(b) <==> (small_items(*old(v)).contains(b) || b == idx) by {
                lemma_push_contains(small_items(*old(v)), idx, b);
            }
        }
    }
}

/// The cells that one move leads to from `current`: its open side neighbours,
/// and unless `cardinal_directions` its open corner neighbours too, whatever
/// the cells between them hold.
pub fn get_neighbor_coords(current: u32, grid: &Vec<u32>, width: u32, cardinal_directions: bool) -> (r: CellList)
    requires
        well_formed(grid@, width as int),
        (current as int) < grid@.len(),
    ensures
        small_items(r).len() <= 8,
        small_items(r).no_duplicates(),
        forall|b: u32| #[trigger] small_items(r).contains(b) <==> is_step(grid@, width as int, cardinal_directions, current as int, b as int),
{
    let ghost a = current as int;
    let ghost w = width as int;
    let ghost n = grid@.len() as int;
    proof {
        lemma_last_row(a, w, n);
        lemma_fundamental_div_mod(a, w);
    }
    let len = grid.len() as u32;
    let is_top = current < width;
    let is_bottom = current >= len - width;
    let x = current % width;
    let is_left = x == 0;
    let is_right = x == width - 1;
    let mut neighbors = small_new();
    if !is_top {
        let top_index = current - width;
        proof { lemma_offset(a, w, n, 0, -1, a - w); }
        push_if_open(&mut neighbors, grid, top_index);
        if !cardinal_directions {
            if !is_left {
                proof { lemma_offset(a, w, n, -1, -1, a - w - 1); }
                push_if_open(&mut neighbors, grid, top_index - 1);
            }
            if !is_right {
                proof { lemma_offset(a, w, n, 1, -1, a - w + 1); }
                push_if_open(&mut neighbors, grid, top_index + 1);
            }
        }
    }
    if !is_left {
        proof { lemma_offset(a, w, n, -1, 0, a - 1); }
        push_if_open(&mut neighbors, grid, current - 1);
    }
    if !is_right {
        proof { lemma_offset(a, w, n, 1, 0, a + 1); }
        push_if_open(&mut neighbors, grid, current + 1);
    }
    if !is_bottom {
        let bottom_index = current + width;
        proof { lemma_offset(a, w, n, 0, 1, a + w); }
        push_if_open(&mut neighbors, grid, bottom_index);
        if !cardinal_directions {
            if !is_left {
                proof { lemma_offset(a, w, n, -1, 1, a + w - 1); }
                push_if_open(&mut neighbors, grid, bottom_index - 1);
            }
            if !is_right {
                proof { lemma_offset(a, w, n, 1, 1, a + w + 1); }
                push_if_open(&mut neighbors, grid, bottom_index + 1);
            }
        }
    }
    proof {
        assert forall|b: u32| #[trigger] small_items(neighbors).contains(b) <==> is_step(grid@, w, cardinal_directions, a, b as int) by {
            if is_step(grid@, w, cardinal_directions, a, b as int) {
                lemma_difference(a, b as int, w);
                lemma_last_row(b as int, w, n);
            }
        }
    }
    neighbors
}

} // verus!
