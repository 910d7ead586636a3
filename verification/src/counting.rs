//! Counting occupied cells. The number of nonzero cells of a grid drives the
//! key area arguments: rotations and mirrors keep a shape's cell count, and a
//! full board is exactly one whose nonzero count equals its cell total.

use vstd::prelude::*;
use vstd::set_lib::lemma_int_range;
use vstd::set_lib::lemma_len_subset;
use vstd::set_lib::lemma_map_size;
use vstd::set_lib::lemma_subset_equality;
use vstd::set_lib::set_int_range;

use crate::grid::mirrored;
use crate::grid::pidx;
use crate::grid::rot0;
use crate::grid::rot180;
use crate::grid::rot270;
use crate::grid::rot90;
use crate::grid::rotated;
use crate::grid::shape_wf;

verus! {

/// The set of indices of nonzero cells of a grid.
pub open spec fn nz_cells(g: Seq<u32>) -> Set<int> {
    Set::new(|i: int| 0 <= i < g.len() && g[i] != 0)
}

/// How many cells of a grid are nonzero.
pub open spec fn cell_count(g: Seq<u32>) -> nat
    decreases g.len(),
{
    if g.len() == 0 {
        0
    } else {
        cell_count(g.drop_last()) + if g.last() != 0 {
            1nat
        } else {
            0nat
        }
    }
}

/// The nonzero cells form a finite set no larger than the grid.
pub proof fn lemma_nz_cells_finite(g: Seq<u32>)
    ensures
        nz_cells(g).finite(),
        nz_cells(g).len() <= g.len(),
{
    lemma_int_range(0, g.len() as int);
    assert(nz_cells(g).subset_of(set_int_range(0, g.len() as int)));
    lemma_len_subset(nz_cells(g), set_int_range(0, g.len() as int));
}

/// The set of indices of cells of a grid holding exactly the value `v`.
pub open spec fn val_cells(g: Seq<u32>, v: u32) -> Set<int> {
    Set::new(|i: int| 0 <= i < g.len() && g[i] == v)
}

/// How many cells of a grid hold exactly the value `v`.
pub open spec fn value_count(g: Seq<u32>, v: u32) -> nat {
    val_cells(g, v).len()
}

/// The cells holding one value form a finite set.
pub proof fn lemma_val_cells_finite(g: Seq<u32>, v: u32)
    ensures
        val_cells(g, v).finite(),
        value_count(g, v) <= g.len(),
{
    lemma_int_range(0, g.len() as int);
    assert(val_cells(g, v).subset_of(set_int_range(0, g.len() as int)));
    lemma_len_subset(val_cells(g, v), set_int_range(0, g.len() as int));
}

/// The recursive count agrees with the size of the set of nonzero cells.
pub proof fn lemma_cell_count_nz(g: Seq<u32>)
    ensures
        cell_count(g) == nz_cells(g).len(),
        cell_count(g) <= g.len(),
    decreases g.len(),
{
    lemma_nz_cells_finite(g);
    if g.len() == 0 {
        assert(nz_cells(g) =~= Set::empty());
    } else {
        let gp = g.drop_last();
        let n = g.len() - 1;
        lemma_cell_count_nz(gp);
        lemma_nz_cells_finite(gp);
        if g.last() != 0 {
            assert(nz_cells(g) =~= nz_cells(gp).insert(n));
            assert(!nz_cells(gp).contains(n));
        } else {
            assert(nz_cells(g) =~= nz_cells(gp));
        }
    }
}

/// A grid whose nonzero count equals its length has no zero cell at all.
pub proof fn lemma_count_full(g: Seq<u32>)
    requires
        cell_count(g) == g.len(),
    ensures
        forall|i: int| 0 <= i < g.len() ==> g[i] != 0,
{
    lemma_cell_count_nz(g);
    lemma_nz_cells_finite(g);
    lemma_int_range(0, g.len() as int);
    assert(nz_cells(g).subset_of(set_int_range(0, g.len() as int)));
    lemma_subset_equality(nz_cells(g), set_int_range(0, g.len() as int));
    assert forall|i: int| 0 <= i < g.len() implies g[i] != 0 by {
        assert(set_int_range(0, g.len() as int).contains(i));
        assert(nz_cells(g).contains(i));
    }
}

/// If `f` maps the nonzero cells of `g1` one-to-one onto the nonzero cells
/// of `g2`, the two grids have the same nonzero count.
pub proof fn lemma_count_mapped(g1: Seq<u32>, g2: Seq<u32>, f: spec_fn(int) -> int)
    requires
        forall|i: int| #[trigger] nz_cells(g1).contains(i) ==> nz_cells(g2).contains(f(i)),
        forall|i: int, j: int|
            nz_cells(g1).contains(i) && nz_cells(g1).contains(j) && #[trigger] f(i) == #[trigger] f(
                j,
            ) ==> i == j,
        forall|j: int| #[trigger] nz_cells(g2).contains(j) ==> exists|i: int|
            nz_cells(g1).contains(i) && f(i) == j,
    ensures
        cell_count(g2) == cell_count(g1),
{
    lemma_cell_count_nz(g1);
    lemma_cell_count_nz(g2);
    lemma_nz_cells_finite(g1);
    lemma_nz_cells_finite(g2);
    assert(nz_cells(g1).map(f) =~= nz_cells(g2)) by {
        assert forall|j: int| nz_cells(g2).contains(j) implies nz_cells(g1).map(f).contains(j) by {
            let i = choose|i: int| nz_cells(g1).contains(i) && f(i) == j;
            assert(nz_cells(g1).contains(i));
        }
    }
    lemma_map_size(nz_cells(g1), nz_cells(g2), f);
}

/// A quarter turn keeps the nonzero count.
pub proof fn lemma_rot90_count(g: Seq<u32>, w: int, h: int)
    requires
        shape_wf(g, w, h),
    ensures
        cell_count(rot90(g, w, h)) == cell_count(g),
{
    let r = rot90(g, w, h);
    let f = |i: int| 4 * (i % 4) + (h - 1 - i / 4);
    assert forall|i: int| #[trigger] nz_cells(g).contains(i) implies nz_cells(r).contains(f(i)) by {
        assert(g[pidx(i / 4, i % 4)] != 0);
        assert(i / 4 < h && i % 4 < w);
        let j = f(i);
        assert(j / 4 == i % 4 && j % 4 == h - 1 - i / 4);
        assert(r[j] == g[pidx(h - 1 - j % 4, j / 4)]);
        assert(pidx(h - 1 - j % 4, j / 4) == i);
    }
    assert forall|j: int| #[trigger] nz_cells(r).contains(j) implies exists|i: int|
        nz_cells(g).contains(i) && f(i) == j by {
        assert(j / 4 < w && j % 4 < h);
        let i = pidx(h - 1 - j % 4, j / 4);
        assert(i / 4 == h - 1 - j % 4 && i % 4 == j / 4);
        assert(g[i] == r[j]);
        assert(nz_cells(g).contains(i) && f(i) == j);
    }
    lemma_count_mapped(g, r, f);
}

/// A half turn keeps the nonzero count.
pub proof fn lemma_rot180_count(g: Seq<u32>, w: int, h: int)
    requires
        shape_wf(g, w, h),
    ensures
        cell_count(rot180(g, w, h)) == cell_count(g),
{
    let r = rot180(g, w, h);
    let f = |i: int| 4 * (h - 1 - i / 4) + (w - 1 - i % 4);
    assert forall|i: int| #[trigger] nz_cells(g).contains(i) implies nz_cells(r).contains(f(i)) by {
        assert(g[pidx(i / 4, i % 4)] != 0);
        assert(i / 4 < h && i % 4 < w);
        let j = f(i);
        assert(j / 4 == h - 1 - i / 4 && j % 4 == w - 1 - i % 4);
        assert(r[j] == g[pidx(h - 1 - j / 4, w - 1 - j % 4)]);
        assert(pidx(h - 1 - j / 4, w - 1 - j % 4) == i);
    }
    assert forall|j: int| #[trigger] nz_cells(r).contains(j) implies exists|i: int|
        nz_cells(g).contains(i) && f(i) == j by {
        assert(j / 4 < h && j % 4 < w);
        let i = pidx(h - 1 - j / 4, w - 1 - j % 4);
        assert(i / 4 == h - 1 - j / 4 && i % 4 == w - 1 - j % 4);
        assert(g[i] == r[j]);
        assert(nz_cells(g).contains(i) && f(i) == j);
    }
    lemma_count_mapped(g, r, f);
}

/// Three quarter turns keep the nonzero count.
pub proof fn lemma_rot270_count(g: Seq<u32>, w: int, h: int)
    requires
        shape_wf(g, w, h),
    ensures
        cell_count(rot270(g, w, h)) == cell_count(g),
{
    let r = rot270(g, w, h);
    let f = |i: int| 4 * (w - 1 - i % 4) + i / 4;
    assert forall|i: int| #[trigger] nz_cells(g).contains(i) implies nz_cells(r).contains(f(i)) by {
        assert(g[pidx(i / 4, i % 4)] != 0);
        assert(i / 4 < h && i % 4 < w);
        let j = f(i);
        assert(j / 4 == w - 1 - i % 4 && j % 4 == i / 4);
        assert(r[j] == g[pidx(j % 4, w - 1 - j / 4)]);
        assert(pidx(j % 4, w - 1 - j / 4) == i);
    }
    assert forall|j: int| #[trigger] nz_cells(r).contains(j) implies exists|i: int|
        nz_cells(g).contains(i) && f(i) == j by {
        assert(j / 4 < w && j % 4 < h);
        let i = pidx(j % 4, w - 1 - j / 4);
        assert(i / 4 == j % 4 && i % 4 == w - 1 - j / 4);
        assert(g[i] == r[j]);
        assert(nz_cells(g).contains(i) && f(i) == j);
    }
    lemma_count_mapped(g, r, f);
}

/// The mirror keeps the nonzero count.
pub proof fn lemma_mirrored_count(g: Seq<u32>, w: int, h: int)
    requires
        shape_wf(g, w, h),
    ensures
        cell_count(mirrored(g, w, h)) == cell_count(g),
{
    let r = mirrored(g, w, h);
    let f = |i: int| 4 * (i / 4) + (w - 1 - i % 4);
    assert forall|i: int| #[trigger] nz_cells(g).contains(i) implies nz_cells(r).contains(f(i)) by {
        assert(g[pidx(i / 4, i % 4)] != 0);
        assert(i / 4 < h && i % 4 < w);
        let j = f(i);
        assert(j / 4 == i / 4 && j % 4 == w - 1 - i % 4);
        assert(r[j] == g[pidx(j / 4, w - 1 - j % 4)]);
        assert(pidx(j / 4, w - 1 - j % 4) == i);
    }
    assert forall|j: int| #[trigger] nz_cells(r).contains(j) implies exists|i: int|
        nz_cells(g).contains(i) && f(i) == j by {
        assert(j / 4 < h && j % 4 < w);
        let i = pidx(j / 4, w - 1 - j % 4);
        assert(i / 4 == j / 4 && i % 4 == w - 1 - j % 4);
        assert(g[i] == r[j]);
        assert(nz_cells(g).contains(i) && f(i) == j);
    }
    lemma_count_mapped(g, r, f);
}

/// Any number of quarter turns keeps the nonzero count.
pub proof fn lemma_rotated_count(g: Seq<u32>, w: int, h: int, turns: int)
    requires
        shape_wf(g, w, h),
        0 <= turns < 4,
    ensures
        cell_count(rotated(g, w, h, turns)) == cell_count(g),
{
    if turns == 0 {
        crate::grid::lemma_rot0_id(g, w, h);
        assert(rot0(g, w, h) == g);
    } else if turns == 1 {
        lemma_rot90_count(g, w, h);
    } else if turns == 2 {
        lemma_rot180_count(g, w, h);
    } else {
        lemma_rot270_count(g, w, h);
    }
}

} // verus!
