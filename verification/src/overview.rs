//! The overview's grid geometry: where the desk panels go on the output and
//! where the thumbnails of a hidden desk go in its panel.
//!
//! The panels keep the output's aspect, and the thumbnails their window's:
//! those scale factors are computed outside and come in as sizes.
use vstd::prelude::*;

use crate::desk::{fits_i32, grid_shape, is_grid_cols, max_int};
use crate::geometry::Rect;

verus! {

/// `a / b` rounded toward zero, as Rust's integer division rounds (`b > 0`).
pub open spec fn div_t(a: int, b: int) -> int {
    if a >= 0 {
        a / b
    } else {
        -((-a) / b)
    }
}

fn div_i32(a: i32, b: i32) -> (r: i32)
    requires
        b > 0,
    ensures
        r == div_t(a as int, b as int),
{
    let x = a as i64;
    let y = b as i64;
    if x >= 0 {
        (x / y) as i32
    } else {
        proof {
            let nx = -(x as int);
            assert(nx / (y as int) <= nx) by (nonlinear_arith)
                requires
                    nx > 0,
                    y > 0,
            ;
        }
        (-((-x) / y)) as i32
    }
}

/// The panel grid of the overview on one output.
#[derive(Debug, Clone, Copy, PartialEq, Eq, Structural)]
pub struct OverviewFrame {
    /// What the grid fills: the output less its margins.
    pub area: Rect,
    pub cols: i32,
    pub rows: i32,
    /// Between panels.
    pub gap: i32,
    /// Room for one panel.
    pub slot_w: i32,
    pub slot_h: i32,
}

/// Side margin of the overview on an output `w` wide: wider when there are
/// few panels.
pub open spec fn side_margin(w: int, few: bool) -> int {
    div_t(w, if few { 26 } else { 14 })
}

pub open spec fn top_margin(h: int, few: bool) -> int {
    div_t(h, if few { 14 } else { 9 })
}

pub open spec fn bottom_margin(h: int, few: bool) -> int {
    div_t(h, if few { 22 } else { 14 })
}

/// The frame for `k` panels on an output at `geo`: the output less a side
/// margin left and right and top and bottom margins; a near-square grid
/// (ceil(sqrt(k)) columns); a gap of 28 between few panels (at most 3), else
/// 36; and each slot the area's share less the gaps, at least 1.
pub fn overview_frame(geo: Rect, k: u32) -> (r: OverviewFrame)
    requires
        geo.wf(),
        0 < k <= 0x1000_0000,
    ensures
        ({
            let few = k <= 3;
            let mx = side_margin(geo.w as int, few);
            let top = top_margin(geo.h as int, few);
            let bottom = bottom_margin(geo.h as int, few);
            &&& r.area.x == geo.x + mx
            &&& r.area.y == geo.y + top
            &&& r.area.w == geo.w - 2 * mx
            &&& r.area.h == geo.h - top - bottom
            &&& is_grid_cols(k as int, r.cols as int)
            &&& r.rows == (k + r.cols - 1) / (r.cols as int)
            &&& r.gap == if few {
                28int
            } else {
                36int
            }
            &&& r.slot_w == max_int(div_t(r.area.w - r.gap * (r.cols - 1), r.cols as int), 1)
            &&& r.slot_h == max_int(div_t(r.area.h - r.gap * (r.rows - 1), r.rows as int), 1)
        }),
{
    let few = k <= 3;
    let mx = div_i32(geo.w, if few { 26 } else { 14 });
    let top = div_i32(geo.h, if few { 14 } else { 9 });
    let bottom = div_i32(geo.h, if few { 22 } else { 14 });
    let area = Rect { x: geo.x + mx, y: geo.y + top, w: geo.w - mx * 2, h: geo.h - top - bottom };
    let (c, rws) = grid_shape(k);
    proof {
        assert(c > 0) by (nonlinear_arith)
            requires
                is_grid_cols(k as int, c as int),
                k > 0,
        ;
        assert(c <= 0x4000) by (nonlinear_arith)
            requires
                is_grid_cols(k as int, c as int),
                k <= 0x1000_0000,
        ;
        assert(1 <= rws <= c) by (nonlinear_arith)
            requires
                c > 0,
                k > 0,
                c * c >= k,
                rws == (k + c - 1) / (c as int),
        ;
    }
    let cols = c as i32;
    let rows = rws as i32;
    let gap: i32 = if few {
        28
    } else {
        36
    };
    let sw = div_i32(area.w - gap * (cols - 1), cols);
    let sh = div_i32(area.h - gap * (rows - 1), rows);
    OverviewFrame {
        area,
        cols,
        rows,
        gap,
        slot_w: if sw >= 1 {
            sw
        } else {
            1
        },
        slot_h: if sh >= 1 {
            sh
        } else {
            1
        },
    }
}

/// Where item `i` of a grid of `k` items goes: row-major, `cols` to a row,
/// items `iw` x `ih` in slots `sh` high and `gap` apart; every row (the
/// short last one too) centered across `area`, each item centered in the
/// height of its slot.
pub open spec fn cell_origin(
    area: Rect,
    k: int,
    cols: int,
    rows: int,
    iw: int,
    ih: int,
    sh: int,
    gap: int,
    i: int,
) -> (int, int) {
    let row = i / cols;
    let col = i % cols;
    let in_row = if row == rows - 1 {
        k - row * cols
    } else {
        cols
    };
    let row_w = in_row * iw + (in_row - 1) * gap;
    (
        area.x + div_t(area.w - row_w, 2) + col * (iw + gap),
        area.y + row * (sh + gap) + div_t(sh - ih, 2),
    )
}

/// Every intermediate value of `cell_origin` fits in `i32`.
pub open spec fn cell_fits(
    area: Rect,
    k: int,
    cols: int,
    rows: int,
    iw: int,
    ih: int,
    sh: int,
    gap: int,
    i: int,
) -> bool {
    let row = i / cols;
    let col = i % cols;
    let in_row = if row == rows - 1 {
        k - row * cols
    } else {
        cols
    };
    let row_w = in_row * iw + (in_row - 1) * gap;
    &&& fits_i32(rows - 1)
    &&& fits_i32(row * cols)
    &&& fits_i32(k - row * cols)
    &&& fits_i32(in_row * iw)
    &&& fits_i32(in_row - 1)
    &&& fits_i32((in_row - 1) * gap)
    &&& fits_i32(row_w)
    &&& fits_i32(area.w - row_w)
    &&& fits_i32(iw + gap)
    &&& fits_i32(col * (iw + gap))
    &&& fits_i32(area.x + div_t(area.w - row_w, 2))
    &&& fits_i32(area.x + div_t(area.w - row_w, 2) + col * (iw + gap))
    &&& fits_i32(sh + gap)
    &&& fits_i32(row * (sh + gap))
    &&& fits_i32(area.y + row * (sh + gap))
    &&& fits_i32(sh - ih)
    &&& fits_i32(area.y + row * (sh + gap) + div_t(sh - ih, 2))
}

/// The top-left corner of item `i` of the grid (see `cell_origin`).
pub fn grid_cell(
    area: Rect,
    k: i32,
    cols: i32,
    rows: i32,
    iw: i32,
    ih: i32,
    sh: i32,
    gap: i32,
    i: i32,
) -> (r: (i32, i32))
    requires
        0 <= i < k,
        cols > 0,
        cell_fits(area, k as int, cols as int, rows as int, iw as int, ih as int, sh as int, gap as int, i as int),
    ensures
        r.0 == cell_origin(area, k as int, cols as int, rows as int, iw as int, ih as int, sh as int, gap as int, i as int).0,
        r.1 == cell_origin(area, k as int, cols as int, rows as int, iw as int, ih as int, sh as int, gap as int, i as int).1,
{
    let row = i / cols;
    let col = i % cols;
    let in_row = if row == rows - 1 {
        k - row * cols
    } else {
        cols
    };
    let row_w = in_row * iw + (in_row - 1) * gap;
    let x = area.x + div_i32(area.w - row_w, 2) + col * (iw + gap);
    let y = area.y + row * (sh + gap) + div_i32(sh - ih, 2);
    (x, y)
}

/// Where a thumbnail `tw` x `th` sits: centered in its `cw` x `ch` cell at
/// `(cx, cy)`.
pub fn center_in_cell(cx: i32, cy: i32, cw: i32, ch: i32, tw: i32, th: i32) -> (r: (i32, i32))
    requires
        fits_i32(cw - tw),
        fits_i32(ch - th),
        fits_i32(cx + div_t(cw - tw, 2)),
        fits_i32(cy + div_t(ch - th, 2)),
    ensures
        r.0 == cx + div_t(cw - tw, 2),
        r.1 == cy + div_t(ch - th, 2),
{
    (cx + div_i32(cw - tw, 2), cy + div_i32(ch - th, 2))
}

/// The thumbnail grid of a hidden desk inside its panel.
#[derive(Debug, Clone, Copy, PartialEq, Eq, Structural)]
pub struct ThumbGrid {
    /// The panel less its inset.
    pub inner: Rect,
    pub cols: i32,
    pub rows: i32,
    /// Between cells.
    pub gap: i32,
    /// One cell.
    pub cw: i32,
    pub ch: i32,
}

/// The inset of a panel `h` high around its thumbnails: a twelfth of the
/// height, at least 8.
pub open spec fn thumb_inset(h: int) -> int {
    max_int(div_t(h, 12), 8)
}

/// The grid for `n` thumbnails in `panel`: the panel inset on every side
/// (at least 1x1 inside), a near-square grid, cells 10 apart and each the
/// inside's share less the gaps, at least 1.
pub fn thumb_grid(panel: Rect, n: u32) -> (r: ThumbGrid)
    requires
        panel.wf(),
        0 < n <= 0x1000_0000,
        fits_i32(panel.x + thumb_inset(panel.h as int)),
        fits_i32(panel.y + thumb_inset(panel.h as int)),
    ensures
        ({
            let inset = thumb_inset(panel.h as int);
            &&& r.inner.x == panel.x + inset
            &&& r.inner.y == panel.y + inset
            &&& r.inner.w == max_int(panel.w - 2 * inset, 1)
            &&& r.inner.h == max_int(panel.h - 2 * inset, 1)
            &&& is_grid_cols(n as int, r.cols as int)
            &&& r.rows == (n + r.cols - 1) / (r.cols as int)
            &&& r.gap == 10
            &&& r.cw == max_int(div_t(r.inner.w - 10 * (r.cols - 1), r.cols as int), 1)
            &&& r.ch == max_int(div_t(r.inner.h - 10 * (r.rows - 1), r.rows as int), 1)
        }),
{
    let i0 = div_i32(panel.h, 12);
    let inset = if i0 >= 8 {
        i0
    } else {
        8
    };
    let w0 = panel.w - inset * 2;
    let h0 = panel.h - inset * 2;
    let inner = Rect {
        x: panel.x + inset,
        y: panel.y + inset,
        w: if w0 >= 1 {
            w0
        } else {
            1
        },
        h: if h0 >= 1 {
            h0
        } else {
            1
        },
    };
    let (c, rws) = grid_shape(n);
    proof {
        assert(c > 0) by (nonlinear_arith)
            requires
                is_grid_cols(n as int, c as int),
                n > 0,
        ;
        assert(c <= 0x4000) by (nonlinear_arith)
            requires
                is_grid_cols(n as int, c as int),
                n <= 0x1000_0000,
        ;
        assert(1 <= rws <= c) by (nonlinear_arith)
            requires
                c > 0,
                n > 0,
                c * c >= n,
                rws == (n + c - 1) / (c as int),
        ;
    }
    let cols = c as i32;
    let rows = rws as i32;
    let cw = div_i32(inner.w - 10 * (cols - 1), cols);
    let ch = div_i32(inner.h - 10 * (rows - 1), rows);
    ThumbGrid {
        inner,
        cols,
        rows,
        gap: 10,
        cw: if cw >= 1 {
            cw
        } else {
            1
        },
        ch: if ch >= 1 {
            ch
        } else {
            1
        },
    }
}

} // verus!
