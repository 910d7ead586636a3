//! Shape grids: every piece orientation lives in a 4x4 bounding box, stored
//! as a flat row-major vector of 16 cells. A cell is `0` where the shape is
//! absent and carries the piece's multiplier where it is present.
//!
//! This module defines the geometric transforms (quarter-turn rotations and
//! the horizontal mirror) both as specification functions on sequences and as
//! executable functions proved against them.

use vstd::prelude::*;

verus! {

/// Flat row-major index of cell (y, x) in a 4-wide grid.
pub open spec fn pidx(y: int, x: int) -> int {
    4 * y + x
}

/// A well-formed shape grid: 16 cells, a bounding box of `w` by `h` cells
/// within the 4x4 limit, and nothing outside the bounding box.
pub open spec fn shape_wf(g: Seq<u32>, w: int, h: int) -> bool {
    &&& g.len() == 16
    &&& 1 <= w <= 4
    &&& 1 <= h <= 4
    &&& forall|y: int, x: int|
        0 <= y < 4 && 0 <= x < 4 && !(y < h && x < w) ==> #[trigger] g[pidx(y, x)] == 0
}

/// Every cell of `g` is at most `m`.
pub open spec fn cells_bounded(g: Seq<u32>, m: int) -> bool {
    forall|i: int| 0 <= i < g.len() ==> #[trigger] g[i] <= m
}

/// Every cell of `g` is empty or carries exactly the stamp `m`.
pub open spec fn cells_zero_or(g: Seq<u32>, m: u32) -> bool {
    forall|i: int| 0 <= i < g.len() ==> #[trigger] g[i] == 0 || g[i] == m
}

/// The identity transform, normalised: cells outside the bounding box are
/// forced to zero.
pub open spec fn rot0(g: Seq<u32>, w: int, h: int) -> Seq<u32> {
    Seq::new(16, |j: int| if j / 4 < h && j % 4 < w { g[j] } else { 0u32 })
}

/// A quarter turn: source cell (y, x) lands on (x, h - 1 - y), so the cell
/// at (y2, x2) of the result comes from (h - 1 - x2, y2) of the source.
pub open spec fn rot90(g: Seq<u32>, w: int, h: int) -> Seq<u32> {
    Seq::new(
        16,
        |j: int| if j / 4 < w && j % 4 < h { g[pidx(h - 1 - j % 4, j / 4)] } else { 0u32 },
    )
}

/// A half turn: source cell (y, x) lands on (h - 1 - y, w - 1 - x).
pub open spec fn rot180(g: Seq<u32>, w: int, h: int) -> Seq<u32> {
    Seq::new(
        16,
        |j: int| if j / 4 < h && j % 4 < w { g[pidx(h - 1 - j / 4, w - 1 - j % 4)] } else { 0u32 },
    )
}

/// Three quarter turns: source cell (y, x) lands on (w - 1 - x, y).
pub open spec fn rot270(g: Seq<u32>, w: int, h: int) -> Seq<u32> {
    Seq::new(
        16,
        |j: int| if j / 4 < w && j % 4 < h { g[pidx(j % 4, w - 1 - j / 4)] } else { 0u32 },
    )
}

/// Horizontal flip: source cell (y, x) lands on (y, w - 1 - x).
pub open spec fn mirrored(g: Seq<u32>, w: int, h: int) -> Seq<u32> {
    Seq::new(
        16,
        |j: int| if j / 4 < h && j % 4 < w { g[pidx(j / 4, w - 1 - j % 4)] } else { 0u32 },
    )
}

/// The grid after `turns` quarter turns counterclockwise in {0, 1, 2, 3}.
pub open spec fn rotated(g: Seq<u32>, w: int, h: int, turns: int) -> Seq<u32> {
    if turns == 0 {
        rot0(g, w, h)
    } else if turns == 1 {
        rot90(g, w, h)
    } else if turns == 2 {
        rot180(g, w, h)
    } else {
        rot270(g, w, h)
    }
}

/// Width of the bounding box after `turns` quarter turns: odd turns swap the
/// two dimensions.
pub open spec fn rotated_width(w: int, h: int, turns: int) -> int {
    if turns == 1 || turns == 3 {
        h
    } else {
        w
    }
}

/// Height of the bounding box after `turns` quarter turns.
pub open spec fn rotated_height(w: int, h: int, turns: int) -> int {
    if turns == 1 || turns == 3 {
        w
    } else {
        h
    }
}

/// One orientation of a shape: its bounding box and its 4x4 grid of cells,
/// each cell either zero or the multiplier of the piece it belongs to.
pub struct Layout {
    pub width: usize,
    pub height: usize,
    pub values: Vec<u32>,
}

/// The mathematical value of a [`Layout`].
pub ghost struct LayoutV {
    pub width: int,
    pub height: int,
    pub values: Seq<u32>,
}

impl View for Layout {
    type V = LayoutV;

    open spec fn view(&self) -> LayoutV {
        LayoutV { width: self.width as int, height: self.height as int, values: self.values@ }
    }
}

/// A well-formed orientation: its grid is a well-formed shape grid for its
/// bounding box and no cell exceeds the largest multiplier.
pub open spec fn layout_wf(l: LayoutV) -> bool {
    &&& shape_wf(l.values, l.width, l.height)
    &&& cells_bounded(l.values, 8)
}

/// On a well-formed grid the identity transform really is the identity.
pub proof fn lemma_rot0_id(g: Seq<u32>, w: int, h: int)
    requires
        shape_wf(g, w, h),
    ensures
        rot0(g, w, h) == g,
{
    assert forall|j: int| 0 <= j < 16 implies rot0(g, w, h)[j] == g[j] by {
        if !(j / 4 < h && j % 4 < w) {
            assert(g[pidx(j / 4, j % 4)] == 0);
            assert(pidx(j / 4, j % 4) == j);
        }
    }
    assert(rot0(g, w, h) =~= g);
}

/// Rotation produces a well-formed shape grid for the swapped bounding box,
/// and keeps every cell bound.
pub proof fn lemma_rotated_wf(g: Seq<u32>, w: int, h: int, turns: int, m: int)
    requires
        shape_wf(g, w, h),
        cells_bounded(g, m),
        0 <= turns < 4,
        m >= 0,
    ensures
        shape_wf(rotated(g, w, h, turns), rotated_width(w, h, turns), rotated_height(w, h, turns)),
        cells_bounded(rotated(g, w, h, turns), m),
{
    let r = rotated(g, w, h, turns);
    let rw = rotated_width(w, h, turns);
    let rh = rotated_height(w, h, turns);
    assert forall|y: int, x: int|
        0 <= y < 4 && 0 <= x < 4 && !(y < rh && x < rw) implies #[trigger] r[pidx(y, x)] == 0 by {
        assert(pidx(y, x) / 4 == y && pidx(y, x) % 4 == x);
    }
    assert forall|i: int| 0 <= i < r.len() implies #[trigger] r[i] <= m by {
        let y = i / 4;
        let x = i % 4;
        assert(i == pidx(y, x));
    }
}

/// The mirror produces a well-formed shape grid for the same bounding box,
/// and keeps every cell bound.
pub proof fn lemma_mirrored_wf(g: Seq<u32>, w: int, h: int, m: int)
    requires
        shape_wf(g, w, h),
        cells_bounded(g, m),
        m >= 0,
    ensures
        shape_wf(mirrored(g, w, h), w, h),
        cells_bounded(mirrored(g, w, h), m),
{
    let r = mirrored(g, w, h);
    assert forall|y: int, x: int|
        0 <= y < 4 && 0 <= x < 4 && !(y < h && x < w) implies #[trigger] r[pidx(y, x)] == 0 by {
        assert(pidx(y, x) / 4 == y && pidx(y, x) % 4 == x);
    }
    assert forall|i: int| 0 <= i < r.len() implies #[trigger] r[i] <= m by {
        let y = i / 4;
        let x = i % 4;
        assert(i == pidx(y, x));
    }
}

/// Rotation and mirroring move cell values without inventing new ones: a
/// grid stamped only with `m` stays stamped only with `m`.
pub proof fn lemma_transforms_keep_stamp(g: Seq<u32>, w: int, h: int, m: u32)
    requires
        g.len() == 16,
        1 <= w <= 4,
        1 <= h <= 4,
        cells_zero_or(g, m),
    ensures
        forall|turns: int| 0 <= turns < 4 ==> cells_zero_or(#[trigger] rotated(g, w, h, turns), m),
        cells_zero_or(mirrored(g, w, h), m),
{
    assert forall|turns: int| 0 <= turns < 4 implies cells_zero_or(
        #[trigger] rotated(g, w, h, turns),
        m,
    ) by {
        let r = rotated(g, w, h, turns);
        assert forall|i: int| 0 <= i < r.len() implies #[trigger] r[i] == 0 || r[i] == m by {
            if r[i] != 0 {
                if turns == 0 {
                    assert(r[i] == g[i]);
                } else if turns == 1 {
                    assert(i / 4 < w && i % 4 < h);
                    let k = pidx(h - 1 - i % 4, i / 4);
                    assert(0 <= k < 16);
                    assert(r[i] == g[k]);
                } else if turns == 2 {
                    assert(i / 4 < h && i % 4 < w);
                    let k = pidx(h - 1 - i / 4, w - 1 - i % 4);
                    assert(0 <= k < 16);
                    assert(r[i] == g[k]);
                } else {
                    assert(i / 4 < w && i % 4 < h);
                    let k = pidx(i % 4, w - 1 - i / 4);
                    assert(0 <= k < 16);
                    assert(r[i] == g[k]);
                }
            }
        }
    }
    assert forall|i: int| 0 <= i < 16 implies #[trigger] mirrored(g, w, h)[i] == 0 || mirrored(
        g,
        w,
        h,
    )[i] == m by {
        if mirrored(g, w, h)[i] != 0 {
            assert(i / 4 < h && i % 4 < w);
            let k = pidx(i / 4, w - 1 - i % 4);
            assert(0 <= k < 16);
            assert(mirrored(g, w, h)[i] == g[k]);
        }
    }
}

/// Computes the grid of a shape after `turns` quarter turns.
///
/// An out-of-range `turns` would be a caller error in the orientation
/// generator, so it is excluded up front rather than handled.
pub fn oriented_values(g: &Vec<u32>, width: usize, height: usize, turns: usize) -> (r: Vec<u32>)
    requires
        g@.len() == 16,
        1 <= width <= 4,
        1 <= height <= 4,
        turns < 4,
    ensures
        r@ == rotated(g@, width as int, height as int, turns as int),
{
    let ghost target = rotated(g@, width as int, height as int, turns as int);
    let mut r: Vec<u32> = Vec::new();
    for j in 0..16usize
        invariant
            r@.len() == j,
            forall|k: int| 0 <= k < j ==> r@[k] == target[k],
            g@.len() == 16,
            1 <= width <= 4,
            1 <= height <= 4,
            turns < 4,
            target == rotated(g@, width as int, height as int, turns as int),
    {
        let y2 = j / 4;
        let x2 = j % 4;
        let v: u32 = if turns == 0 {
            if y2 < height && x2 < width {
                g[j]
            } else {
                0
            }
        } else if turns == 1 {
            if y2 < width && x2 < height {
                g[4 * (height - 1 - x2) + y2]
            } else {
                0
            }
        } else if turns == 2 {
            if y2 < height && x2 < width {
                g[4 * (height - 1 - y2) + (width - 1 - x2)]
            } else {
                0
            }
        } else {
            if y2 < width && x2 < height {
                g[4 * x2 + (width - 1 - y2)]
            } else {
                0
            }
        };
        assert(v == target[j as int]);
        r.push(v);
    }
    assert(r@ =~= target);
    r
}

/// Computes the horizontally mirrored grid of a shape.
pub fn mirrored_values(g: &Vec<u32>, width: usize, height: usize) -> (r: Vec<u32>)
    requires
        g@.len() == 16,
        1 <= width <= 4,
        1 <= height <= 4,
    ensures
        r@ == mirrored(g@, width as int, height as int),
{
    let ghost target = mirrored(g@, width as int, height as int);
    let mut r: Vec<u32> = Vec::new();
    for j in 0..16usize
        invariant
            r@.len() == j,
            forall|k: int| 0 <= k < j ==> r@[k] == target[k],
            g@.len() == 16,
            1 <= width <= 4,
            1 <= height <= 4,
            target == mirrored(g@, width as int, height as int),
    {
        let y2 = j / 4;
        let x2 = j % 4;
        let v: u32 = if y2 < height && x2 < width {
            g[4 * y2 + (width - 1 - x2)]
        } else {
            0
        };
        assert(v == target[j as int]);
        r.push(v);
    }
    assert(r@ =~= target);
    r
}

/// Compares two orientations cell by cell; true exactly when they have the
/// same bounding box and the same grid.
pub fn layout_eq(a: &Layout, b: &Layout) -> (r: bool)
    requires
        a@.values.len() == 16,
        b@.values.len() == 16,
    ensures
        r == (a@ == b@),
{
    if a.width != b.width || a.height != b.height {
        return false;
    }
    for j in 0..16usize
        invariant
            a@.values.len() == 16,
            b@.values.len() == 16,
            a.width == b.width,
            a.height == b.height,
            forall|k: int| 0 <= k < j ==> a@.values[k] == b@.values[k],
    {
        if a.values[j] != b.values[j] {
            return false;
        }
    }
    assert(a@.values =~= b@.values);
    true
}

} // verus!
