//! Mapping between world-space points and grid cells.
//!
//! Cells are squares of side `cell_size`, separated by `gap`, laid out from
//! `(origin_x, origin_y)`. Column `c` spans `[c * period, c * period + cell_size)`
//! along x (relative to the origin), where `period = cell_size + gap`; the
//! remaining `gap` units belong to no cell. Rows are laid out the same way along y.

use vstd::prelude::*;

verus! {

/// Geometry of the rendered grid, in integer world units.
#[derive(Clone, Copy, Debug, PartialEq, Eq)]
pub struct BoardLayout {
    pub rows: usize,
    pub columns: usize,
    pub cell_size: u32,
    pub gap: u32,
    pub origin_x: i64,
    pub origin_y: i64,
}

impl BoardLayout {
    /// A layout is usable when cells have a positive size.
    pub open spec fn wf(&self) -> bool {
        self.cell_size > 0
    }

    /// Distance between the starting edges of two consecutive cells.
    pub open spec fn period(&self) -> int {
        self.cell_size + self.gap
    }
}

/// The cell under a world point, as (row, column): the point's offset from the
/// origin is divided (floored) by the period; a residual that falls into the
/// gap, or an index outside the grid, gives `None`.
pub open spec fn locate_spec(l: BoardLayout, x: int, y: int) -> Option<(int, int)> {
    let dx = x - l.origin_x;
    let dy = y - l.origin_y;
    let column = dx / l.period();
    let row = dy / l.period();
    if dx % l.period() >= l.cell_size || dy % l.period() >= l.cell_size {
        None
    } else if row < 0 || row >= l.rows || column < 0 || column >= l.columns {
        None
    } else {
        Some((row, column))
    }
}

/// World position of the starting corner of cell (row, column).
pub open spec fn cell_origin_spec(l: BoardLayout, row: int, column: int) -> (int, int) {
    (l.origin_x + column * l.period(), l.origin_y + row * l.period())
}

/// World position of the center of cell (row, column), rounded down.
pub open spec fn cell_center_spec(l: BoardLayout, row: int, column: int) -> (int, int) {
    let o = cell_origin_spec(l, row, column);
    (o.0 + l.cell_size / 2, o.1 + l.cell_size / 2)
}

proof fn lemma_split(x: int, p: int, q: int, r: int)
    requires
        p > 0,
        0 <= r < p,
        x == q * p + r,
    ensures
        x / p == q,
        x % p == r,
{
    vstd::arithmetic::div_mod::lemma_fundamental_div_mod_converse(x, p, q, r);
}

/// The center of every cell of the grid maps back to that cell.
pub proof fn lemma_center_round_trip(l: BoardLayout, row: int, column: int)
    requires
        l.wf(),
        0 <= row < l.rows,
        0 <= column < l.columns,
    ensures
        locate_spec(l, cell_center_spec(l, row, column).0, cell_center_spec(l, row, column).1)
            == Some((row, column)),
{
    let c = cell_center_spec(l, row, column);
    let h: int = (l.cell_size / 2) as int;
    assert(c.0 - l.origin_x == column * l.period() + h);
    assert(c.1 - l.origin_y == row * l.period() + h);
    lemma_split(c.0 - l.origin_x, l.period(), column, h);
    lemma_split(c.1 - l.origin_y, l.period(), row, h);
}

/// A point whose offset along x, or along y, lies in a gap maps to no cell.
pub proof fn lemma_gap_is_outside(l: BoardLayout, k: int, t: int, y: int)
    requires
        l.wf(),
        l.cell_size <= t < l.period(),
    ensures
        locate_spec(l, l.origin_x + k * l.period() + t, y) is None,
        locate_spec(l, y, l.origin_y + k * l.period() + t) is None,
{
    lemma_split(k * l.period() + t, l.period(), k, t);
}

/// The cell under the world point (x, y), if any.
pub fn locate(layout: &BoardLayout, x: i64, y: i64) -> (r: Option<(usize, usize)>)
    requires
        layout.wf(),
    ensures
        match r {
            Some(p) => locate_spec(*layout, x as int, y as int) == Some((p.0 as int, p.1 as int)),
            None => locate_spec(*layout, x as int, y as int) is None,
        },
{
    let period: i128 = layout.cell_size as i128 + layout.gap as i128;
    let dx: i128 = x as i128 - layout.origin_x as i128;
    let dy: i128 = y as i128 - layout.origin_y as i128;
    if dx < 0 || dy < 0 {
        proof {
            let p = layout.period();
            let (ix, iy) = (dx as int, dy as int);
            if ix < 0 {
                assert(ix / p < 0) by (nonlinear_arith)
                    requires ix < 0, p > 0;
            }
            if iy < 0 {
                assert(iy / p < 0) by (nonlinear_arith)
                    requires iy < 0, p > 0;
            }
        }
        return None;
    }
    let column: i128 = dx / period;
    let row: i128 = dy / period;
    if dx % period >= layout.cell_size as i128 || dy % period >= layout.cell_size as i128 {
        return None;
    }
    if row >= layout.rows as i128 || column >= layout.columns as i128 {
        return None;
    }
    Some((row as usize, column as usize))
}

/// World position of the starting corner of cell (row, column), where the
/// presentation layer places the cell's visual.
pub fn cell_origin(layout: &BoardLayout, row: usize, column: usize) -> (r: Option<(i64, i64)>)
    ensures
        match r {
            Some(p) => (p.0 as int, p.1 as int) == cell_origin_spec(*layout, row as int, column as int),
            None => {
                let o = cell_origin_spec(*layout, row as int, column as int);
                !(i64::MIN <= o.0 <= i64::MAX && i64::MIN <= o.1 <= i64::MAX)
            },
        },
{
    let period: i128 = layout.cell_size as i128 + layout.gap as i128;
    assert(0 <= column * period <= 0x1_0000_0000_0000_0000 * 0x2_0000_0000) by (nonlinear_arith)
        requires 0 <= column <= 0xffff_ffff_ffff_ffff, 0 <= period <= 0x2_0000_0000;
    assert(0 <= row * period <= 0x1_0000_0000_0000_0000 * 0x2_0000_0000) by (nonlinear_arith)
        requires 0 <= row <= 0xffff_ffff_ffff_ffff, 0 <= period <= 0x2_0000_0000;
    let x: i128 = layout.origin_x as i128 + column as i128 * period;
    let y: i128 = layout.origin_y as i128 + row as i128 * period;
    if x < i64::MIN as i128 || x > i64::MAX as i128 || y < i64::MIN as i128 || y > i64::MAX as i128 {
        return None;
    }
    Some((x as i64, y as i64))
}

} // verus!
