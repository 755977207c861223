//! The row-major grid as a mathematical object: positions, neighbours,
//! and counts of cells, with the arithmetic facts the board relies on.
use vstd::prelude::*;
use vstd::arithmetic::div_mod::lemma_fundamental_div_mod_converse;
use vstd::arithmetic::mul::lemma_mul_strict_inequality;
use crate::tile::{Tile, MarkType};

verus! {

/// Whether `(x, y)` lies on a `w` by `h` grid.
pub open spec fn in_grid(w: int, h: int, x: int, y: int) -> bool {
    0 <= x < w && 0 <= y < h
}

/// The row-major index of `(x, y)` on a grid of width `w`.
pub open spec fn index_of(w: int, x: int, y: int) -> int {
    x + y * w
}

/// The cell at `(x, y)`.
pub open spec fn at(cells: Seq<Tile>, w: int, x: int, y: int) -> Tile {
    cells[index_of(w, x, y)]
}

/// Horizontal offset of the `k`-th neighbour, `k` in `0..8`.
pub open spec fn dx(k: int) -> int {
    if k < 3 { -1 } else if k < 5 { 0 } else { 1 }
}

/// Vertical offset of the `k`-th neighbour, `k` in `0..8`.
pub open spec fn dy(k: int) -> int {
    if k == 0 || k == 3 || k == 5 { -1 } else if k == 1 || k == 6 { 0 } else { 1 }
}

/// The `k`-th of the eight positions around `(x, y)`.
pub open spec fn nb(x: int, y: int, k: int) -> (int, int) {
    (x + dx(k), y + dy(k))
}

/// 1 if the `k`-th neighbour of `(x, y)` is on the grid and holds a mine.
pub open spec fn mine_near(cells: Seq<Tile>, w: int, h: int, x: int, y: int, k: int) -> nat {
    let p = nb(x, y, k);
    if in_grid(w, h, p.0, p.1) && at(cells, w, p.0, p.1).kind is Mine { 1 } else { 0 }
}

/// 1 if the `k`-th neighbour of `(x, y)` is on the grid and flagged.
pub open spec fn flag_near(cells: Seq<Tile>, w: int, h: int, x: int, y: int, k: int) -> nat {
    let p = nb(x, y, k);
    if in_grid(w, h, p.0, p.1) && at(cells, w, p.0, p.1).marked == MarkType::Yes { 1 } else { 0 }
}

/// The number of mines among the first `k` neighbours of `(x, y)`.
pub open spec fn mines_around(cells: Seq<Tile>, w: int, h: int, x: int, y: int, k: int) -> nat
    decreases k,
{
    if k <= 0 { 0 } else { mines_around(cells, w, h, x, y, k - 1) + mine_near(cells, w, h, x, y, k - 1) }
}

/// The number of flagged cells among the first `k` neighbours of `(x, y)`.
pub open spec fn flags_around(cells: Seq<Tile>, w: int, h: int, x: int, y: int, k: int) -> nat
    decreases k,
{
    if k <= 0 { 0 } else { flags_around(cells, w, h, x, y, k - 1) + flag_near(cells, w, h, x, y, k - 1) }
}

/// The number of cells of `s` for which `f` holds.
pub open spec fn count_tiles(s: Seq<Tile>, f: spec_fn(Tile) -> bool) -> nat
    decreases s.len(),
{
    if s.len() == 0 {
        0
    } else {
        count_tiles(s.drop_last(), f) + if f(s.last()) { 1nat } else { 0nat }
    }
}

/// The cell holds a mine.
pub open spec fn is_mine() -> spec_fn(Tile) -> bool {
    |t: Tile| t.kind is Mine
}

/// The cell is covered.
pub open spec fn is_covered() -> spec_fn(Tile) -> bool {
    |t: Tile| !t.uncovered
}

/// The cell is flagged.
pub open spec fn is_flagged() -> spec_fn(Tile) -> bool {
    |t: Tile| t.marked == MarkType::Yes
}

/// The number of cells that hold a mine.
pub open spec fn count_mines(s: Seq<Tile>) -> nat {
    count_tiles(s, is_mine())
}

/// The number of cells still covered.
pub open spec fn count_covered(s: Seq<Tile>) -> nat {
    count_tiles(s, is_covered())
}

/// The number of flagged cells.
pub open spec fn count_flagged(s: Seq<Tile>) -> nat {
    count_tiles(s, is_flagged())
}

/// An on-grid position has an index inside the grid, and the index gives the
/// position back.
pub proof fn lemma_index(w: int, h: int, x: int, y: int)
    requires
        in_grid(w, h, x, y),
    ensures
        0 <= index_of(w, x, y) < w * h,
        0 <= y * w <= index_of(w, x, y),
        index_of(w, x, y) % w == x,
        index_of(w, x, y) / w == y,
{
    lemma_fundamental_div_mod_converse(x + y * w, w, y, x);
    lemma_mul_strict_inequality(y, h, w);
    assert(y * w + w <= h * w) by (nonlinear_arith)
        requires y < h, w > 0;
    assert(0 <= y * w) by (nonlinear_arith)
        requires 0 <= y, 0 < w;
}

/// An index inside the grid is the index of an on-grid position.
pub proof fn lemma_coords(w: int, h: int, i: int)
    requires
        0 <= i < w * h,
        w > 0,
    ensures
        in_grid(w, h, i % w, i / w),
        index_of(w, i % w, i / w) == i,
{
    assert(i == w * (i / w) + i % w && 0 <= i % w < w) by (nonlinear_arith)
        requires w > 0;
    assert(i / w < h) by (nonlinear_arith)
        requires 0 <= i < w * h, w > 0, i == w * (i / w) + i % w, 0 <= i % w < w;
    assert(0 <= i / w) by (nonlinear_arith)
        requires 0 <= i, w > 0;
    assert((i / w) * w == w * (i / w)) by (nonlinear_arith);
}

/// Two distinct on-grid positions have distinct indices.
pub proof fn lemma_index_injective(w: int, h: int, x1: int, y1: int, x2: int, y2: int)
    requires
        in_grid(w, h, x1, y1),
        in_grid(w, h, x2, y2),
        index_of(w, x1, y1) == index_of(w, x2, y2),
    ensures
        x1 == x2 && y1 == y2,
{
    lemma_index(w, h, x1, y1);
    lemma_index(w, h, x2, y2);
}

/// Replacing one cell changes a count by what the old and new cells add.
pub proof fn lemma_count_update(s: Seq<Tile>, f: spec_fn(Tile) -> bool, i: int, t: Tile)
    requires
        0 <= i < s.len(),
    ensures
        count_tiles(s.update(i, t), f) + (if f(s[i]) { 1int } else { 0int })
            == count_tiles(s, f) + (if f(t) { 1int } else { 0int }),
    decreases s.len(),
{
    let u = s.update(i, t);
    if i < s.len() - 1 {
        assert(u.drop_last() == s.drop_last().update(i, t));
        lemma_count_update(s.drop_last(), f, i, t);
    } else {
        assert(u.drop_last() == s.drop_last());
    }
}

/// Counts agree on sequences on which the predicates agree cell by cell.
pub proof fn lemma_count_same(a: Seq<Tile>, b: Seq<Tile>, f: spec_fn(Tile) -> bool, g: spec_fn(Tile) -> bool)
    requires
        a.len() == b.len(),
        forall|i: int| 0 <= i < a.len() ==> f(a[i]) == g(b[i]),
    ensures
        count_tiles(a, f) == count_tiles(b, g),
    decreases a.len(),
{
    if a.len() > 0 {
        lemma_count_same(a.drop_last(), b.drop_last(), f, g);
    }
}

/// A predicate that holds of no cell counts zero.
pub proof fn lemma_count_none(s: Seq<Tile>, f: spec_fn(Tile) -> bool)
    requires
        forall|i: int| 0 <= i < s.len() ==> !f(#[trigger] s[i]),
    ensures
        count_tiles(s, f) == 0,
    decreases s.len(),
{
    if s.len() > 0 {
        lemma_count_none(s.drop_last(), f);
    }
}

/// Counting a prefix one cell longer adds what that cell adds.
pub proof fn lemma_count_take(s: Seq<Tile>, f: spec_fn(Tile) -> bool, i: int)
    requires
        0 <= i < s.len(),
    ensures
        count_tiles(s.take(i + 1), f) == count_tiles(s.take(i), f) + (if f(s[i]) { 1nat } else { 0nat }),
{
    assert(s.take(i + 1).drop_last() == s.take(i));
}

/// Neighbour counts agree on grids with the same mines.
pub proof fn lemma_mines_around_same(a: Seq<Tile>, b: Seq<Tile>, w: int, h: int, x: int, y: int, k: int)
    requires
        a.len() == b.len(),
        a.len() == w * h,
        forall|i: int| 0 <= i < a.len() ==> (a[i].kind is Mine) == (b[i].kind is Mine),
    ensures
        mines_around(a, w, h, x, y, k) == mines_around(b, w, h, x, y, k),
    decreases k,
{
    if k > 0 {
        lemma_mines_around_same(a, b, w, h, x, y, k - 1);
        let p = nb(x, y, k - 1);
        if in_grid(w, h, p.0, p.1) {
            lemma_index(w, h, p.0, p.1);
        }
    }
}

/// Flag counts agree on grids with the same marks.
pub proof fn lemma_flags_around_same(a: Seq<Tile>, b: Seq<Tile>, w: int, h: int, x: int, y: int, k: int)
    requires
        a.len() == b.len(),
        a.len() == w * h,
        forall|i: int| 0 <= i < a.len() ==> a[i].marked == b[i].marked,
    ensures
        flags_around(a, w, h, x, y, k) == flags_around(b, w, h, x, y, k),
    decreases k,
{
    if k > 0 {
        lemma_flags_around_same(a, b, w, h, x, y, k - 1);
        let p = nb(x, y, k - 1);
        if in_grid(w, h, p.0, p.1) {
            lemma_index(w, h, p.0, p.1);
        }
    }
}

/// Executable form of the `k`-th neighbour of `(x, y)`: `None` when it is
/// off the grid.
pub fn neighbour(w: usize, h: usize, x: usize, y: usize, k: usize) -> (r: Option<(usize, usize)>)
    requires
        k < 8,
        x < w,
        y < h,
    ensures
        match r {
            Some(p) => in_grid(w as int, h as int, p.0 as int, p.1 as int)
                && (p.0 as int, p.1 as int) == nb(x as int, y as int, k as int),
            None => !in_grid(w as int, h as int, nb(x as int, y as int, k as int).0, nb(x as int, y as int, k as int).1),
        },
{
    let nx: usize;
    if k < 3 {
        if x == 0 {
            return None;
        }
        nx = x - 1;
    } else if k < 5 {
        nx = x;
    } else {
        if x + 1 >= w {
            return None;
        }
        nx = x + 1;
    }
    let ny: usize;
    if k == 0 || k == 3 || k == 5 {
        if y == 0 {
            return None;
        }
        ny = y - 1;
    } else if k == 1 || k == 6 {
        ny = y;
    } else {
        if y + 1 >= h {
            return None;
        }
        ny = y + 1;
    }
    Some((nx, ny))
}

} // verus!
