//! The 7x7 puzzle board. A cell value of `0` means open; `WALL_VALUE`,
//! `MONTH_VALUE` and `DAY_VALUE` are sentinels for permanently blocked cells
//! and for the cells naming the month and the day being solved; any other
//! nonzero value is the multiplier of the piece occupying the cell.
//!
//! Placement works by adding a layout's grid onto the board and checking that
//! every touched cell was open beforehand; a failed placement is reverted in
//! full, so from the caller's point of view it never changes the board.

use vstd::prelude::*;
use vstd::relations::injective_on;
use vstd::set_lib::lemma_map_size;
use vstd::set_lib::lemma_set_disjoint_lens;

use crate::counting::cell_count;
use crate::counting::lemma_cell_count_nz;
use crate::counting::lemma_nz_cells_finite;
use crate::counting::lemma_val_cells_finite;
use crate::counting::nz_cells;
use crate::counting::val_cells;
use crate::counting::value_count;
use crate::grid::Layout;
use crate::grid::LayoutV;
use crate::grid::cells_bounded;
use crate::grid::cells_zero_or;
use crate::grid::layout_wf;
use crate::grid::pidx;

verus! {

/// Sentinel for the six permanently blocked cells.
pub const WALL_VALUE: u32 = 100;

/// Sentinel for the cell naming the day being solved.
pub const DAY_VALUE: u32 = WALL_VALUE - 1;

/// Sentinel for the cell naming the month being solved.
pub const MONTH_VALUE: u32 = WALL_VALUE - 2;

/// Flat row-major index of cell (y, x) on the 7-wide board.
pub open spec fn bidx(y: int, x: int) -> int {
    7 * y + x
}

/// A well-formed board: 49 cells, none above the largest sentinel.
pub open spec fn board_wf(b: Seq<u32>) -> bool {
    &&& b.len() == 49
    &&& cells_bounded(b, 100)
}

/// The six cells of the permanent wall: the two rightmost cells of the top
/// two rows and the four rightmost cells of the bottom row.
pub open spec fn is_wall_cell(i: int) -> bool {
    i == bidx(0, 6) || i == bidx(1, 6) || i == bidx(6, 3) || i == bidx(6, 4) || i == bidx(6, 5)
        || i == bidx(6, 6)
}

/// The ranges a month and a day must lie in.
pub open spec fn valid_date(month: int, day: int) -> bool {
    1 <= month <= 12 && 1 <= day <= 31
}

/// Index of the cell naming a month: six months per row from the top.
pub open spec fn month_cell(month: int) -> int {
    bidx((month - 1) / 6, (month - 1) % 6)
}

/// Index of the cell naming a day: seven days per row from the third row.
pub open spec fn day_cell(day: int) -> int {
    bidx((day - 1) / 7 + 2, (day - 1) % 7)
}

/// The value a freshly constructed board holds at cell `i`.
pub open spec fn start_cell(month: int, day: int, i: int) -> u32 {
    if i == day_cell(day) {
        DAY_VALUE
    } else if i == month_cell(month) {
        MONTH_VALUE
    } else if is_wall_cell(i) {
        WALL_VALUE
    } else {
        0
    }
}

/// The whole freshly constructed board for a month and a day.
pub open spec fn start_board(month: int, day: int) -> Seq<u32> {
    Seq::new(49, |i: int| start_cell(month, day, i))
}

/// Row `y` of the board holds no open cell.
pub open spec fn row_full(b: Seq<u32>, y: int) -> bool {
    forall|x: int| 0 <= x < 7 ==> b[bidx(y, x)] != 0
}

/// Whether a layout's bounding box lies on the board when its top-left
/// corner is at (x, y).
pub open spec fn fits(l: LayoutV, x: int, y: int) -> bool {
    0 <= x && 0 <= y && x + l.width <= 7 && y + l.height <= 7
}

/// Whether a layout placed at (x, y) touches only open board cells: wherever
/// both the board and the layout are nonzero, there is a conflict.
pub open spec fn compatible(b: Seq<u32>, l: LayoutV, x: int, y: int) -> bool {
    forall|ey: int, ex: int|
        0 <= ey < l.height && 0 <= ex < l.width ==> b[bidx(y + ey, x + ex)] == 0
            || #[trigger] l.values[pidx(ey, ex)] == 0
}

/// The board after cell-wise addition of a layout at (x, y).
pub open spec fn overlay(b: Seq<u32>, l: LayoutV, x: int, y: int) -> Seq<u32> {
    Seq::new(
        49,
        |i: int|
            {
                let ey = i / 7 - y;
                let ex = i % 7 - x;
                if 0 <= ey < l.height && 0 <= ex < l.width {
                    (b[i] + l.values[pidx(ey, ex)]) as u32
                } else {
                    b[i]
                }
            },
    )
}

/// The board after cell-wise subtraction of a layout at (x, y).
pub open spec fn deduct(b: Seq<u32>, l: LayoutV, x: int, y: int) -> Seq<u32> {
    Seq::new(
        49,
        |i: int|
            {
                let ey = i / 7 - y;
                let ex = i % 7 - x;
                if 0 <= ey < l.height && 0 <= ex < l.width {
                    (b[i] - l.values[pidx(ey, ex)]) as u32
                } else {
                    b[i]
                }
            },
    )
}

/// The board after the first `dy` full rows and the first `dx` cells of row
/// `dy` of the layout's bounding box have been added.
pub open spec fn overlay_upto(b: Seq<u32>, l: LayoutV, x: int, y: int, dy: int, dx: int) -> Seq<
    u32,
> {
    Seq::new(
        49,
        |i: int|
            {
                let ey = i / 7 - y;
                let ex = i % 7 - x;
                if 0 <= ey < l.height && 0 <= ex < l.width && (ey < dy || (ey == dy && ex < dx)) {
                    (b[i] + l.values[pidx(ey, ex)]) as u32
                } else {
                    b[i]
                }
            },
    )
}

/// Like [`overlay_upto`], for subtraction.
pub open spec fn deduct_upto(b: Seq<u32>, l: LayoutV, x: int, y: int, dy: int, dx: int) -> Seq<
    u32,
> {
    Seq::new(
        49,
        |i: int|
            {
                let ey = i / 7 - y;
                let ex = i % 7 - x;
                if 0 <= ey < l.height && 0 <= ex < l.width && (ey < dy || (ey == dy && ex < dx)) {
                    (b[i] - l.values[pidx(ey, ex)]) as u32
                } else {
                    b[i]
                }
            },
    )
}

/// [`compatible`], restricted to the cells added so far.
pub open spec fn compat_upto(b: Seq<u32>, l: LayoutV, x: int, y: int, dy: int, dx: int) -> bool {
    forall|ey: int, ex: int|
        0 <= ey < l.height && 0 <= ex < l.width && (ey < dy || (ey == dy && ex < dx)) ==> b[bidx(
            y + ey,
            x + ex,
        )] == 0 || #[trigger] l.values[pidx(ey, ex)] == 0
}

/// Subtracting a layout undoes adding it: the round-trip law behind
/// placement followed by removal at the same offset.
pub proof fn lemma_deduct_overlay(b: Seq<u32>, l: LayoutV, x: int, y: int)
    requires
        board_wf(b),
        layout_wf(l),
        fits(l, x, y),
    ensures
        deduct(overlay(b, l, x, y), l, x, y) == b,
{
    let ov = overlay(b, l, x, y);
    assert forall|i: int| 0 <= i < 49 implies deduct(ov, l, x, y)[i] == b[i] by {
        let ey = i / 7 - y;
        let ex = i % 7 - x;
        if 0 <= ey < l.height && 0 <= ex < l.width {
            assert(b[i] <= 100);
            assert(l.values[pidx(ey, ex)] <= 8);
        }
    }
    assert(deduct(overlay(b, l, x, y), l, x, y) =~= b);
}

/// The overlaid board keeps every cell of the layout at or above the
/// layout's value there, so subtraction cannot underflow.
pub proof fn lemma_overlay_covers(b: Seq<u32>, l: LayoutV, x: int, y: int)
    requires
        board_wf(b),
        layout_wf(l),
        fits(l, x, y),
    ensures
        forall|ey: int, ex: int|
            0 <= ey < l.height && 0 <= ex < l.width ==> overlay(b, l, x, y)[bidx(y + ey, x + ex)]
                >= #[trigger] l.values[pidx(ey, ex)],
{
    assert forall|ey: int, ex: int| 0 <= ey < l.height && 0 <= ex < l.width implies overlay(
        b,
        l,
        x,
        y,
    )[bidx(y + ey, x + ex)] >= #[trigger] l.values[pidx(ey, ex)] by {
        let i = bidx(y + ey, x + ex);
        assert(i / 7 == y + ey && i % 7 == x + ex);
        assert(b[i] <= 100 && l.values[pidx(ey, ex)] <= 8);
    }
}

/// A compatible placement adds exactly the layout's cell count to the
/// board's count of occupied cells.
pub proof fn lemma_overlay_count(b: Seq<u32>, l: LayoutV, x: int, y: int)
    requires
        board_wf(b),
        layout_wf(l),
        fits(l, x, y),
        compatible(b, l, x, y),
    ensures
        cell_count(overlay(b, l, x, y)) == cell_count(b) + cell_count(l.values),
{
    let ov = overlay(b, l, x, y);
    let f = |i: int| bidx(y + i / 4, x + i % 4);
    let img = nz_cells(l.values).map(f);
    lemma_cell_count_nz(b);
    lemma_cell_count_nz(l.values);
    lemma_cell_count_nz(ov);
    lemma_nz_cells_finite(b);
    lemma_nz_cells_finite(l.values);
    lemma_nz_cells_finite(ov);

    assert forall|i: int| #[trigger] nz_cells(l.values).contains(i) implies nz_cells(ov).contains(
        f(i),
    ) && nz_cells(b).contains(f(i)) == false by {
        assert(l.values[pidx(i / 4, i % 4)] != 0);
        assert(i / 4 < l.height && i % 4 < l.width);
        let j = f(i);
        assert(j / 7 == y + i / 4 && j % 7 == x + i % 4);
        assert(b[j] == 0 || l.values[pidx(i / 4, i % 4)] == 0);
        assert(b[j] <= 100 && l.values[pidx(i / 4, i % 4)] <= 8);
        assert(ov[j] == (b[j] + l.values[pidx(i / 4, i % 4)]) as u32);
        assert(ov[j] != 0);
    }
    assert(injective_on(f, nz_cells(l.values))) by {
        assert forall|i1: int, i2: int|
            nz_cells(l.values).contains(i1) && nz_cells(l.values).contains(i2) && #[trigger] f(i1)
                == #[trigger] f(i2) implies i1 == i2 by {
            assert(l.values[pidx(i1 / 4, i1 % 4)] != 0);
            assert(l.values[pidx(i2 / 4, i2 % 4)] != 0);
            assert(i1 / 4 < l.height && i1 % 4 < l.width);
            assert(i2 / 4 < l.height && i2 % 4 < l.width);
            assert(f(i1) / 7 == y + i1 / 4 && f(i1) % 7 == x + i1 % 4);
            assert(f(i2) / 7 == y + i2 / 4 && f(i2) % 7 == x + i2 % 4);
        }
    }
    lemma_map_size(nz_cells(l.values), img, f);

    assert(nz_cells(ov) =~= nz_cells(b) + img) by {
        assert forall|j: int| #[trigger] nz_cells(ov).contains(j) implies nz_cells(b).contains(j)
            || img.contains(j) by {
            let ey = j / 7 - y;
            let ex = j % 7 - x;
            if 0 <= ey < l.height && 0 <= ex < l.width {
                assert(b[j] <= 100 && l.values[pidx(ey, ex)] <= 8);
                assert(ov[j] == (b[j] + l.values[pidx(ey, ex)]) as u32);
                if b[j] == 0 {
                    let i = pidx(ey, ex);
                    assert(i / 4 == ey && i % 4 == ex);
                    assert(l.values[i] != 0);
                    assert(nz_cells(l.values).contains(i));
                    assert(f(i) == j);
                }
            }
        }
        assert forall|j: int| #[trigger] nz_cells(b).contains(j) implies nz_cells(ov).contains(
            j,
        ) by {
            let ey = j / 7 - y;
            let ex = j % 7 - x;
            if 0 <= ey < l.height && 0 <= ex < l.width {
                assert(b[j] <= 100 && l.values[pidx(ey, ex)] <= 8);
            }
        }
    }
    assert(nz_cells(b).disjoint(img));
    lemma_set_disjoint_lens(nz_cells(b), img);
}

/// A fresh board for any valid date has exactly eight occupied cells — six
/// wall cells, the month cell and the day cell, which never coincide — and
/// therefore exactly 41 open cells.
pub proof fn lemma_start_board_count(month: int, day: int)
    requires
        valid_date(month, day),
    ensures
        board_wf(start_board(month, day)),
        cell_count(start_board(month, day)) == 8,
{
    let b = start_board(month, day);
    let mi = month_cell(month);
    let di = day_cell(day);
    assert(0 <= (month - 1) / 6 <= 1 && 0 <= (month - 1) % 6 <= 5);
    assert(0 <= mi <= 12);
    assert(mi != 6 && mi != 13);
    assert(2 <= (day - 1) / 7 + 2 <= 6 && 0 <= (day - 1) % 7 <= 6);
    assert(14 <= di);
    assert(di <= 44) by {
        if (day - 1) / 7 == 4 {
            assert(day - 1 >= 28);
            assert((day - 1) % 7 <= 2);
        } else {
            assert((day - 1) / 7 <= 3);
        }
    }
    let s = set![6int, 13int, 45int, 46int, 47int, 48int, mi, di];
    assert(nz_cells(b) =~= s) by {
        assert(b[6] == WALL_VALUE && b[13] == WALL_VALUE);
        assert(b[45] == WALL_VALUE && b[46] == WALL_VALUE);
        assert(b[47] == WALL_VALUE && b[48] == WALL_VALUE);
        assert(b[mi] == MONTH_VALUE);
        assert(b[di] == DAY_VALUE);
    }
    assert(s.len() == 8) by {
        let s0 = Set::<int>::empty();
        let s1 = s0.insert(6);
        let s2 = s1.insert(13);
        let s3 = s2.insert(45);
        let s4 = s3.insert(46);
        let s5 = s4.insert(47);
        let s6 = s5.insert(48);
        let s7 = s6.insert(mi);
        assert(s1.len() == 1);
        assert(s2.len() == 2);
        assert(s3.len() == 3);
        assert(s4.len() == 4);
        assert(s5.len() == 5);
        assert(s6.len() == 6);
        assert(s7.len() == 7);
        assert(s7.insert(di).len() == 8);
        assert(s == s7.insert(di));
    }
    lemma_cell_count_nz(b);
}


/// Before any cell has been added, the partial overlay is the board itself
/// and the partial compatibility check holds vacuously.
pub proof fn lemma_overlay_upto_begin(b: Seq<u32>, l: LayoutV, x: int, y: int)
    requires
        b.len() == 49,
    ensures
        overlay_upto(b, l, x, y, 0, 0) == b,
        compat_upto(b, l, x, y, 0, 0),
        deduct_upto(b, l, x, y, 0, 0) == b,
{
    assert(overlay_upto(b, l, x, y, 0, 0) =~= b);
    assert(deduct_upto(b, l, x, y, 0, 0) =~= b);
}

/// Adding one more cell of the layout advances the partial overlay by one
/// step; the cell being added still holds its original board value.
pub proof fn lemma_overlay_upto_step(b: Seq<u32>, l: LayoutV, x: int, y: int, dy: int, dx: int)
    requires
        b.len() == 49,
        layout_wf(l),
        fits(l, x, y),
        0 <= dy < l.height,
        0 <= dx < l.width,
    ensures
        overlay_upto(b, l, x, y, dy, dx)[bidx(y + dy, x + dx)] == b[bidx(y + dy, x + dx)],
        overlay_upto(b, l, x, y, dy, dx).update(
            bidx(y + dy, x + dx),
            (b[bidx(y + dy, x + dx)] + l.values[pidx(dy, dx)]) as u32,
        ) == overlay_upto(b, l, x, y, dy, dx + 1),
        compat_upto(b, l, x, y, dy, dx + 1) == (compat_upto(b, l, x, y, dy, dx) && (b[bidx(
            y + dy,
            x + dx,
        )] == 0 || l.values[pidx(dy, dx)] == 0)),
{
    let i = bidx(y + dy, x + dx);
    assert(i / 7 == y + dy && i % 7 == x + dx);
    let lhs = overlay_upto(b, l, x, y, dy, dx).update(i, (b[i] + l.values[pidx(dy, dx)]) as u32);
    let rhs = overlay_upto(b, l, x, y, dy, dx + 1);
    assert forall|k: int| 0 <= k < 49 implies lhs[k] == rhs[k] by {
        if k != i {
            let ey = k / 7 - y;
            let ex = k % 7 - x;
            if 0 <= ey < l.height && 0 <= ex < l.width {
                assert(bidx(y + ey, x + ex) == k);
                assert(!(ey == dy && ex == dx));
            }
        }
    }
    assert(lhs =~= rhs);
    if compat_upto(b, l, x, y, dy, dx) && (b[i] == 0 || l.values[pidx(dy, dx)] == 0) {
        assert forall|ey: int, ex: int|
            0 <= ey < l.height && 0 <= ex < l.width && (ey < dy || (ey == dy && ex < dx
                + 1)) implies b[bidx(y + ey, x + ex)] == 0 || #[trigger] l.values[pidx(ey, ex)]
            == 0 by {
            if ey == dy && ex == dx {
                assert(b[i] == 0 || l.values[pidx(ey, ex)] == 0);
            }
        }
    }
    if compat_upto(b, l, x, y, dy, dx + 1) {
        assert(b[bidx(y + dy, x + dx)] == 0 || l.values[pidx(dy, dx)] == 0);
    }
}

/// Like [`lemma_overlay_upto_step`], for the partial subtraction.
pub proof fn lemma_deduct_upto_step(b: Seq<u32>, l: LayoutV, x: int, y: int, dy: int, dx: int)
    requires
        b.len() == 49,
        layout_wf(l),
        fits(l, x, y),
        0 <= dy < l.height,
        0 <= dx < l.width,
    ensures
        deduct_upto(b, l, x, y, dy, dx)[bidx(y + dy, x + dx)] == b[bidx(y + dy, x + dx)],
        deduct_upto(b, l, x, y, dy, dx).update(
            bidx(y + dy, x + dx),
            (b[bidx(y + dy, x + dx)] - l.values[pidx(dy, dx)]) as u32,
        ) == deduct_upto(b, l, x, y, dy, dx + 1),
{
    let i = bidx(y + dy, x + dx);
    assert(i / 7 == y + dy && i % 7 == x + dx);
    let lhs = deduct_upto(b, l, x, y, dy, dx).update(i, (b[i] - l.values[pidx(dy, dx)]) as u32);
    let rhs = deduct_upto(b, l, x, y, dy, dx + 1);
    assert forall|k: int| 0 <= k < 49 implies lhs[k] == rhs[k] by {
        if k != i {
            let ey = k / 7 - y;
            let ex = k % 7 - x;
            if 0 <= ey < l.height && 0 <= ex < l.width {
                assert(bidx(y + ey, x + ex) == k);
                assert(!(ey == dy && ex == dx));
            }
        }
    }
    assert(lhs =~= rhs);
}

/// Finishing a row of the bounding box is the same as starting the next.
pub proof fn lemma_overlay_upto_row(b: Seq<u32>, l: LayoutV, x: int, y: int, dy: int)
    requires
        b.len() == 49,
    ensures
        overlay_upto(b, l, x, y, dy, l.width) == overlay_upto(b, l, x, y, dy + 1, 0),
        deduct_upto(b, l, x, y, dy, l.width) == deduct_upto(b, l, x, y, dy + 1, 0),
        compat_upto(b, l, x, y, dy, l.width) == compat_upto(b, l, x, y, dy + 1, 0),
{
    assert(overlay_upto(b, l, x, y, dy, l.width) =~= overlay_upto(b, l, x, y, dy + 1, 0));
    assert(deduct_upto(b, l, x, y, dy, l.width) =~= deduct_upto(b, l, x, y, dy + 1, 0));
    if compat_upto(b, l, x, y, dy, l.width) {
        assert forall|ey: int, ex: int|
            0 <= ey < l.height && 0 <= ex < l.width && ey < dy + 1 implies b[bidx(y + ey, x + ex)]
            == 0 || #[trigger] l.values[pidx(ey, ex)] == 0 by {}
    }
    if compat_upto(b, l, x, y, dy + 1, 0) {
        assert forall|ey: int, ex: int|
            0 <= ey < l.height && 0 <= ex < l.width && (ey < dy || (ey == dy && ex
                < l.width)) implies b[bidx(y + ey, x + ex)] == 0 || #[trigger] l.values[pidx(
            ey,
            ex,
        )] == 0 by {}
    }
}

/// After the last row the partial overlay is the full overlay, and the
/// partial compatibility check is full compatibility.
pub proof fn lemma_overlay_upto_end(b: Seq<u32>, l: LayoutV, x: int, y: int)
    requires
        b.len() == 49,
    ensures
        overlay_upto(b, l, x, y, l.height, 0) == overlay(b, l, x, y),
        deduct_upto(b, l, x, y, l.height, 0) == deduct(b, l, x, y),
        compat_upto(b, l, x, y, l.height, 0) == compatible(b, l, x, y),
{
    assert(overlay_upto(b, l, x, y, l.height, 0) =~= overlay(b, l, x, y));
    assert(deduct_upto(b, l, x, y, l.height, 0) =~= deduct(b, l, x, y));
    if compat_upto(b, l, x, y, l.height, 0) {
        assert forall|ey: int, ex: int|
            0 <= ey < l.height && 0 <= ex < l.width implies b[bidx(y + ey, x + ex)] == 0
            || #[trigger] l.values[pidx(ey, ex)] == 0 by {}
    }
}


/// The values a cell of a stable board may hold: open, a piece multiplier,
/// or one of the three sentinels.
pub open spec fn cell_value_ok(v: u32) -> bool {
    v == 0 || 1 <= v <= 8 || v == MONTH_VALUE || v == DAY_VALUE || v == WALL_VALUE
}

/// Every cell of a stable board is open, a piece multiplier, or a sentinel:
/// no cell ever holds the sum of two nonzero stamps.
pub open spec fn board_values_ok(b: Seq<u32>) -> bool {
    forall|i: int| 0 <= i < b.len() ==> cell_value_ok(#[trigger] b[i])
}

/// A compatible placement leaves every occupied cell exactly as it was and
/// writes only the layout's own values into open cells, so the stable-board
/// cell values are preserved.
pub proof fn lemma_overlay_cells(b: Seq<u32>, l: LayoutV, x: int, y: int)
    requires
        board_wf(b),
        layout_wf(l),
        fits(l, x, y),
        compatible(b, l, x, y),
    ensures
        forall|i: int| 0 <= i < 49 && b[i] != 0 ==> overlay(b, l, x, y)[i] == b[i],
        board_values_ok(b) ==> board_values_ok(overlay(b, l, x, y)),
{
    let ov = overlay(b, l, x, y);
    assert forall|i: int| 0 <= i < 49 && b[i] != 0 implies ov[i] == b[i] by {
        let ey = i / 7 - y;
        let ex = i % 7 - x;
        if 0 <= ey < l.height && 0 <= ex < l.width {
            assert(bidx(y + ey, x + ex) == i);
            assert(b[i] == 0 || l.values[pidx(ey, ex)] == 0);
            assert(b[i] <= 100);
        }
    }
    if board_values_ok(b) {
        assert forall|i: int| 0 <= i < ov.len() implies cell_value_ok(#[trigger] ov[i]) by {
            let ey = i / 7 - y;
            let ex = i % 7 - x;
            assert(cell_value_ok(b[i]));
            if 0 <= ey < l.height && 0 <= ex < l.width {
                assert(bidx(y + ey, x + ex) == i);
                assert(b[i] == 0 || l.values[pidx(ey, ex)] == 0);
                assert(b[i] <= 100 && l.values[pidx(ey, ex)] <= 8);
            }
        }
    }
}


/// A compatible placement of a layout stamped only with `m` adds exactly
/// the layout's cell count to the cells holding `m`, and leaves the count
/// of every other nonzero value unchanged.
pub proof fn lemma_overlay_value_count(b: Seq<u32>, l: LayoutV, x: int, y: int, m: u32)
    requires
        board_wf(b),
        layout_wf(l),
        fits(l, x, y),
        compatible(b, l, x, y),
        cells_zero_or(l.values, m),
        1 <= m <= 8,
    ensures
        value_count(overlay(b, l, x, y), m) == value_count(b, m) + cell_count(l.values),
        forall|v: u32|
            v != 0 && v != m ==> #[trigger] value_count(overlay(b, l, x, y), v) == value_count(
                b,
                v,
            ),
{
    let ov = overlay(b, l, x, y);
    let f = |i: int| bidx(y + i / 4, x + i % 4);
    let img = nz_cells(l.values).map(f);
    lemma_cell_count_nz(l.values);
    lemma_nz_cells_finite(l.values);
    lemma_val_cells_finite(b, m);
    lemma_val_cells_finite(ov, m);

    assert forall|i: int| #[trigger] nz_cells(l.values).contains(i) implies val_cells(
        ov,
        m,
    ).contains(f(i)) && val_cells(b, m).contains(f(i)) == false by {
        assert(l.values[pidx(i / 4, i % 4)] != 0);
        assert(l.values[pidx(i / 4, i % 4)] == m);
        assert(i / 4 < l.height && i % 4 < l.width);
        let j = f(i);
        assert(j / 7 == y + i / 4 && j % 7 == x + i % 4);
        assert(b[j] == 0 || l.values[pidx(i / 4, i % 4)] == 0);
        assert(b[j] <= 100);
        assert(ov[j] == (b[j] + l.values[pidx(i / 4, i % 4)]) as u32);
        assert(ov[j] == m);
    }
    assert(injective_on(f, nz_cells(l.values))) by {
        assert forall|i1: int, i2: int|
            nz_cells(l.values).contains(i1) && nz_cells(l.values).contains(i2) && #[trigger] f(i1)
                == #[trigger] f(i2) implies i1 == i2 by {
            assert(l.values[pidx(i1 / 4, i1 % 4)] != 0);
            assert(l.values[pidx(i2 / 4, i2 % 4)] != 0);
            assert(i1 / 4 < l.height && i1 % 4 < l.width);
            assert(i2 / 4 < l.height && i2 % 4 < l.width);
            assert(f(i1) / 7 == y + i1 / 4 && f(i1) % 7 == x + i1 % 4);
            assert(f(i2) / 7 == y + i2 / 4 && f(i2) % 7 == x + i2 % 4);
        }
    }
    lemma_map_size(nz_cells(l.values), img, f);

    assert(val_cells(ov, m) =~= val_cells(b, m) + img) by {
        assert forall|j: int| #[trigger] val_cells(ov, m).contains(j) implies val_cells(
            b,
            m,
        ).contains(j) || img.contains(j) by {
            let ey = j / 7 - y;
            let ex = j % 7 - x;
            if 0 <= ey < l.height && 0 <= ex < l.width {
                assert(b[j] <= 100 && l.values[pidx(ey, ex)] <= 8);
                assert(ov[j] == (b[j] + l.values[pidx(ey, ex)]) as u32);
                if b[j] == 0 {
                    let i = pidx(ey, ex);
                    assert(i / 4 == ey && i % 4 == ex);
                    assert(l.values[i] == m);
                    assert(nz_cells(l.values).contains(i));
                    assert(f(i) == j);
                } else {
                    assert(l.values[pidx(ey, ex)] == 0);
                    assert(b[j] == m);
                }
            }
        }
        assert forall|j: int| #[trigger] val_cells(b, m).contains(j) implies val_cells(
            ov,
            m,
        ).contains(j) by {
            let ey = j / 7 - y;
            let ex = j % 7 - x;
            if 0 <= ey < l.height && 0 <= ex < l.width {
                assert(b[j] == 0 || l.values[pidx(ey, ex)] == 0);
                assert(b[j] <= 100 && l.values[pidx(ey, ex)] <= 8);
            }
        }
    }
    assert(val_cells(b, m).disjoint(img));
    lemma_set_disjoint_lens(val_cells(b, m), img);

    assert forall|v: u32| v != 0 && v != m implies #[trigger] value_count(
        overlay(b, l, x, y),
        v,
    ) == value_count(b, v) by {
        assert(val_cells(ov, v) =~= val_cells(b, v)) by {
            assert forall|j: int| 0 <= j < 49 implies (val_cells(ov, v).contains(j) == val_cells(
                b,
                v,
            ).contains(j)) by {
                let ey = j / 7 - y;
                let ex = j % 7 - x;
                if 0 <= ey < l.height && 0 <= ex < l.width {
                    assert(b[j] == 0 || l.values[pidx(ey, ex)] == 0);
                    assert(b[j] <= 100 && l.values[pidx(ey, ex)] <= 8);
                    assert(l.values[pidx(ey, ex)] == 0 || l.values[pidx(ey, ex)] == m);
                    assert(ov[j] == (b[j] + l.values[pidx(ey, ex)]) as u32);
                }
            }
        }
    }
}


/// A fresh board holds no piece multiplier anywhere: its only nonzero cells
/// are the sentinels.
pub proof fn lemma_start_board_values(month: int, day: int)
    ensures
        forall|v: u32| 1 <= v <= 8 ==> #[trigger] value_count(start_board(month, day), v) == 0,
{
    assert forall|v: u32| 1 <= v <= 8 implies #[trigger] value_count(
        start_board(month, day),
        v,
    ) == 0 by {
        assert(val_cells(start_board(month, day), v) =~= Set::<int>::empty()) by {
            assert forall|i: int|
                !(#[trigger] val_cells(start_board(month, day), v).contains(i)) by {
                if 0 <= i < 49 {
                    assert(start_board(month, day)[i] == start_cell(month, day, i));
                }
            }
        }
    }
}

/// An error in the inputs handed to the library, rejected before any search
/// begins.
#[derive(Clone, Copy, Debug, PartialEq, Eq, Structural)]
pub enum PuzzleError {
    InvalidInput,
}

/// The puzzle board.
pub struct Board {
    pub(crate) values: Vec<u32>,
}

impl View for Board {
    type V = Seq<u32>;

    closed spec fn view(&self) -> Seq<u32> {
        self.values@
    }
}

impl Board {
    /// A well-formed board.
    pub open spec fn wf(&self) -> bool {
        board_wf(self@)
    }

    /// Builds the board for a month and a day: every cell open except the
    /// six wall cells and the two cells naming the date. A month or day
    /// outside its range is rejected.
    #[verifier::loop_isolation(false)]
    pub fn new(month: u32, day: u32) -> (r: Result<Board, PuzzleError>)
        ensures
            r is Ok <==> valid_date(month as int, day as int),
            r matches Ok(b) ==> b.wf() && b@ == start_board(month as int, day as int),
            r matches Ok(b) ==> board_values_ok(b@),
            r matches Err(e) ==> e == PuzzleError::InvalidInput,
    {
        if month < 1 || month > 12 || day < 1 || day > 31 {
            return Err(PuzzleError::InvalidInput);
        }
        let mut v: Vec<u32> = Vec::new();
        for i in 0..49usize
            invariant
                v@.len() == i,
                forall|k: int| 0 <= k < i ==> v@[k] == 0,
        {
            v.push(0);
        }

        v.set(6, WALL_VALUE);
        v.set(13, WALL_VALUE);
        v.set(45, WALL_VALUE);
        v.set(46, WALL_VALUE);
        v.set(47, WALL_VALUE);
        v.set(48, WALL_VALUE);

        let m = month - 1;
        let d = day - 1;
        let mi: usize = (7 * (m / 6) + m % 6) as usize;
        let di: usize = (7 * (d / 7 + 2) + d % 7) as usize;
        v.set(mi, MONTH_VALUE);
        v.set(di, DAY_VALUE);

        let b = Board { values: v };
        proof {
            assert(mi == month_cell(month as int));
            assert(di == day_cell(day as int));
            assert(mi <= 12);
            assert(di >= 14);
            assert(di == 7 * ((day - 1) as int / 7) + (day - 1) as int % 7 + 14);
            assert(di <= 44) by {
                if (day - 1) as int / 7 == 4 {
                    assert((day - 1) as int % 7 <= 2);
                }
            }
            assert forall|i: int| 0 <= i < 49 implies b@[i] == start_cell(
                month as int,
                day as int,
                i,
            ) by {}
            assert(b@ =~= start_board(month as int, day as int));
        }
        Ok(b)
    }

    /// Reads one cell of the board.
    pub fn cell(&self, y: usize, x: usize) -> (r: u32)
        requires
            self@.len() == 49,
            y < 7,
            x < 7,
        ensures
            r == self@[bidx(y as int, x as int)],
    {
        self.values[7 * y + x]
    }

    /// True exactly when no cell of the board is open.
    pub fn is_fully_covered(&self) -> (r: bool)
        requires
            self@.len() == 49,
        ensures
            r == forall|i: int| 0 <= i < 49 ==> self@[i] != 0,
    {
        for i in 0..49usize
            invariant
                self@.len() == 49,
                forall|k: int| 0 <= k < i ==> self@[k] != 0,
        {
            if self.values[i] == 0 {
                return false;
            }
        }
        true
    }

    /// True exactly when row `y` has no open cell.
    pub fn row_filled(&self, y: usize) -> (r: bool)
        requires
            self@.len() == 49,
            y < 7,
        ensures
            r == row_full(self@, y as int),
    {
        for x in 0..7usize
            invariant
                self@.len() == 49,
                y < 7,
                forall|k: int| 0 <= k < x ==> self@[bidx(y as int, k)] != 0,
        {
            if self.values[7 * y + x] == 0 {
                assert(self@[bidx(y as int, x as int)] == 0);
                return false;
            }
        }
        true
    }

    /// Cell-wise addition of a layout at (at_x, at_y), reporting whether
    /// every cell the layout occupies was open before the addition.
    #[verifier::loop_isolation(false)]
    fn add_layout(&mut self, layout: &Layout, at_x: usize, at_y: usize) -> (placed: bool)
        requires
            old(self).wf(),
            layout_wf(layout@),
            fits(layout@, at_x as int, at_y as int),
        ensures
            final(self)@ == overlay(old(self)@, layout@, at_x as int, at_y as int),
            placed == compatible(old(self)@, layout@, at_x as int, at_y as int),
    {
        let ghost l = layout@;
        let ghost x = at_x as int;
        let ghost y = at_y as int;
        let ghost b0 = self@;
        proof {
            lemma_overlay_upto_begin(b0, l, x, y);
        }

        let mut placed = true;
        for dy in 0..layout.height
            invariant
                self@ == overlay_upto(b0, l, x, y, dy as int, 0),
                placed == compat_upto(b0, l, x, y, dy as int, 0),
        {
            for dx in 0..layout.width
                invariant
                    self@ == overlay_upto(b0, l, x, y, dy as int, dx as int),
                    placed == compat_upto(b0, l, x, y, dy as int, dx as int),
            {
                proof {
                    lemma_overlay_upto_step(b0, l, x, y, dy as int, dx as int);
                }
                let bi = (at_y + dy) * 7 + (at_x + dx);
                let ghost i = bi as int;
                proof {
                    assert(i == bidx(y + dy, x + dx));
                    assert(self@[i] == b0[i]);
                    assert(b0[i] <= 100 && l.values[pidx(dy as int, dx as int)] <= 8);
                }
                let bv = self.values[bi];
                let lv = layout.values[4 * dy + dx];
                placed = placed && (bv == 0 || lv == 0);
                self.values.set(bi, bv + lv);
            }
            proof {
                lemma_overlay_upto_row(b0, l, x, y, dy as int);
            }
        }
        proof {
            lemma_overlay_upto_end(b0, l, x, y);
        }
        placed
    }

    /// Adds a layout to the board at (at_x, at_y) by cell-wise addition,
    /// then checks that every cell the layout occupies was open before. On
    /// any conflict, or when the layout does not fit on the board, the
    /// addition is undone and the call reports failure with the board
    /// unchanged.
    pub fn place_layout(&mut self, layout: &Layout, at_x: usize, at_y: usize) -> (placed: bool)
        requires
            old(self).wf(),
            layout_wf(layout@),
        ensures
            final(self).wf(),
            placed == (fits(layout@, at_x as int, at_y as int) && compatible(
                old(self)@,
                layout@,
                at_x as int,
                at_y as int,
            )),
            placed ==> final(self)@ == overlay(old(self)@, layout@, at_x as int, at_y as int),
            !placed ==> final(self)@ == old(self)@,
    {
        let ghost l = layout@;
        let ghost x = at_x as int;
        let ghost y = at_y as int;
        let ghost b0 = self@;

        if at_x > 7 - layout.width || at_y > 7 - layout.height {
            assert(!fits(l, x, y));
            return false;
        }
        assert(fits(l, x, y));

        let placed = self.add_layout(layout, at_x, at_y);
        if !placed {
            proof {
                lemma_overlay_covers(b0, l, x, y);
                lemma_deduct_overlay(b0, l, x, y);
            }
            self.remove_layout(layout, at_x, at_y);
            return false;
        }
        proof {
            assert forall|k: int| 0 <= k < 49 implies self@[k] <= 100 by {
                let ey = k / 7 - y;
                let ex = k % 7 - x;
                if 0 <= ey < l.height && 0 <= ex < l.width {
                    assert(bidx(y + ey, x + ex) == k);
                    assert(b0[k] == 0 || l.values[pidx(ey, ex)] == 0);
                    assert(b0[k] <= 100 && l.values[pidx(ey, ex)] <= 8);
                }
            }
        }
        true
    }

    /// Subtracts a layout from the board at (at_x, at_y) by cell-wise
    /// subtraction. The caller must only remove a layout that is actually
    /// present there, which is what the lower bound on the touched cells
    /// states; removal after a successful placement always meets it.
    #[verifier::loop_isolation(false)]
    pub fn remove_layout(&mut self, layout: &Layout, at_x: usize, at_y: usize)
        requires
            old(self)@.len() == 49,
            layout_wf(layout@),
            fits(layout@, at_x as int, at_y as int),
            forall|ey: int, ex: int|
                0 <= ey < layout@.height && 0 <= ex < layout@.width ==> old(self)@[bidx(
                    at_y as int + ey,
                    at_x as int + ex,
                )] >= #[trigger] layout@.values[pidx(ey, ex)],
        ensures
            final(self)@ == deduct(old(self)@, layout@, at_x as int, at_y as int),
    {
        let ghost l = layout@;
        let ghost x = at_x as int;
        let ghost y = at_y as int;
        let ghost b0 = self@;
        proof {
            lemma_overlay_upto_begin(b0, l, x, y);
        }

        for dy in 0..layout.height
            invariant
                self@ == deduct_upto(b0, l, x, y, dy as int, 0),
        {
            for dx in 0..layout.width
                invariant
                    self@ == deduct_upto(b0, l, x, y, dy as int, dx as int),
            {
                proof {
                    lemma_deduct_upto_step(b0, l, x, y, dy as int, dx as int);
                }
                let bi = (at_y + dy) * 7 + (at_x + dx);
                let ghost i = bi as int;
                proof {
                    assert(i == bidx(y + dy, x + dx));
                    assert(self@[i] == b0[i]);
                    assert(b0[i] >= l.values[pidx(dy as int, dx as int)]);
                }
                let bv = self.values[bi];
                let lv = layout.values[4 * dy + dx];
                self.values.set(bi, bv - lv);
            }
            proof {
                lemma_overlay_upto_row(b0, l, x, y, dy as int);
            }
        }
        proof {
            lemma_overlay_upto_end(b0, l, x, y);
        }
    }
}

} // verus!
