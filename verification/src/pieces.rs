//! Pieces and their orientations. A piece is built from a base shape: the
//! four rotations of the shape and the four rotations of its mirror image
//! are generated in a fixed order, and any candidate identical to one
//! already kept is discarded, so symmetric shapes yield fewer orientations.

use vstd::prelude::*;

use crate::counting::cell_count;
use crate::counting::lemma_cell_count_nz;
use crate::counting::lemma_mirrored_count;
use crate::counting::lemma_rotated_count;
use crate::counting::nz_cells;
use crate::grid::Layout;
use crate::grid::LayoutV;
use crate::grid::cells_bounded;
use crate::grid::cells_zero_or;
use crate::grid::layout_eq;
use crate::grid::layout_wf;
use crate::grid::lemma_mirrored_wf;
use crate::grid::lemma_rot0_id;
use crate::grid::lemma_rotated_wf;
use crate::grid::lemma_transforms_keep_stamp;
use crate::grid::pidx;
use crate::grid::rot180;
use crate::grid::rot270;
use crate::grid::rot90;
use crate::grid::mirrored;
use crate::grid::mirrored_values;
use crate::grid::oriented_values;
use crate::grid::rotated;
use crate::grid::rotated_height;
use crate::grid::rotated_width;
use crate::grid::shape_wf;

verus! {

/// The orientation a shape takes after `turns` quarter turns.
pub open spec fn orient_of(g: Seq<u32>, w: int, h: int, turns: int) -> LayoutV {
    LayoutV {
        width: rotated_width(w, h, turns),
        height: rotated_height(w, h, turns),
        values: rotated(g, w, h, turns),
    }
}

/// The mathematical values of a list of layouts.
pub open spec fn models(s: Seq<Layout>) -> Seq<LayoutV> {
    s.map_values(|l: Layout| l@)
}

/// Appends a candidate orientation unless an identical one is already kept:
/// the sole deduplication rule of the orientation generator.
pub open spec fn dedup_push(s: Seq<LayoutV>, c: LayoutV) -> Seq<LayoutV> {
    if s.contains(c) {
        s
    } else {
        s.push(c)
    }
}

/// The list after the first `t` rotations of a shape have been offered to
/// [`dedup_push`], in order.
pub open spec fn with_rotations_upto(s: Seq<LayoutV>, g: Seq<u32>, w: int, h: int, t: int) -> Seq<
    LayoutV,
>
    decreases t,
{
    if t <= 0 {
        s
    } else {
        dedup_push(with_rotations_upto(s, g, w, h, t - 1), orient_of(g, w, h, t - 1))
    }
}

/// The list after all four rotations of a shape have been offered.
pub open spec fn with_rotations(s: Seq<LayoutV>, g: Seq<u32>, w: int, h: int) -> Seq<LayoutV> {
    with_rotations_upto(s, g, w, h, 4)
}

/// The base shape scaled by a piece's multiplier and clipped to its bounding
/// box.
pub open spec fn scaled_shape(g: Seq<u32>, w: int, h: int, m: int) -> Seq<u32> {
    Seq::new(16, |j: int| if j / 4 < h && j % 4 < w { (g[j] * m) as u32 } else { 0u32 })
}

/// Every distinct orientation of a shape: its four rotations, then the four
/// rotations of its mirror image, deduplicated in order.
pub open spec fn all_orientations(g: Seq<u32>, w: int, h: int) -> Seq<LayoutV> {
    with_rotations(with_rotations(Seq::empty(), g, w, h), mirrored(g, w, h), w, h)
}

/// The orientation list a piece is built with, from its base shape and its
/// multiplier.
pub open spec fn piece_orientations(shape: Seq<u32>, w: int, h: int, m: int) -> Seq<LayoutV> {
    all_orientations(scaled_shape(shape, w, h, m), w, h)
}

/// Every layout in the list is well-formed.
pub open spec fn layouts_wf(s: Seq<LayoutV>) -> bool {
    forall|i: int| 0 <= i < s.len() ==> layout_wf(#[trigger] s[i])
}

/// No two layouts in the list are identical.
pub open spec fn distinct_layouts(s: Seq<LayoutV>) -> bool {
    forall|i: int, j: int| 0 <= i < j < s.len() ==> s[i] != s[j]
}

/// What one deduplicating append does: the kept list grows by at most one,
/// keeps its prefix, stays duplicate-free, and afterwards holds exactly the
/// old layouts and the candidate.
pub proof fn lemma_dedup_push(s: Seq<LayoutV>, c: LayoutV)
    ensures
        s.len() <= dedup_push(s, c).len() <= s.len() + 1,
        dedup_push(s, c).len() >= 1,
        forall|i: int| 0 <= i < s.len() ==> dedup_push(s, c)[i] == s[i],
        forall|v: LayoutV| #[trigger] dedup_push(s, c).contains(v) <==> s.contains(v) || v == c,
        distinct_layouts(s) ==> distinct_layouts(dedup_push(s, c)),
{
    let r = dedup_push(s, c);
    if s.contains(c) {
        assert(r.len() >= 1) by {
            let i = choose|i: int| 0 <= i < s.len() && s[i] == c;
        }
    } else {
        assert forall|v: LayoutV| #[trigger] r.contains(v) implies s.contains(v) || v == c by {
            let i = choose|i: int| 0 <= i < r.len() && r[i] == v;
            if i < s.len() {
                assert(s[i] == v);
            }
        }
        assert forall|v: LayoutV| s.contains(v) || v == c implies #[trigger] r.contains(v) by {
            if s.contains(v) {
                let i = choose|i: int| 0 <= i < s.len() && s[i] == v;
                assert(r[i] == v);
            } else {
                assert(r[s.len() as int] == c);
            }
        }
        if distinct_layouts(s) {
            assert forall|i: int, j: int| 0 <= i < j < r.len() implies r[i] != r[j] by {
                if j == s.len() as int {
                    assert(r[j] == c);
                    if r[i] == c {
                        assert(s[i] == c);
                        assert(s.contains(c));
                    }
                }
            }
        }
    }
}

/// What offering all four rotations does, lifted from [`lemma_dedup_push`].
pub proof fn lemma_with_rotations(s: Seq<LayoutV>, g: Seq<u32>, w: int, h: int)
    ensures
        s.len() <= with_rotations(s, g, w, h).len() <= s.len() + 4,
        with_rotations(s, g, w, h).len() >= 1,
        forall|i: int| 0 <= i < s.len() ==> with_rotations(s, g, w, h)[i] == s[i],
        forall|v: LayoutV| #[trigger] with_rotations(s, g, w, h).contains(v) <==> s.contains(v)
            || exists|t: int| 0 <= t < 4 && v == orient_of(g, w, h, t),
        distinct_layouts(s) ==> distinct_layouts(with_rotations(s, g, w, h)),
{
    let s1 = with_rotations_upto(s, g, w, h, 1);
    let s2 = with_rotations_upto(s, g, w, h, 2);
    let s3 = with_rotations_upto(s, g, w, h, 3);
    let s4 = with_rotations_upto(s, g, w, h, 4);
    assert(with_rotations_upto(s, g, w, h, 0) == s);
    assert(s1 == dedup_push(s, orient_of(g, w, h, 0)));
    assert(s2 == dedup_push(s1, orient_of(g, w, h, 1)));
    assert(s3 == dedup_push(s2, orient_of(g, w, h, 2)));
    assert(s4 == dedup_push(s3, orient_of(g, w, h, 3)));
    lemma_dedup_push(s, orient_of(g, w, h, 0));
    lemma_dedup_push(s1, orient_of(g, w, h, 1));
    lemma_dedup_push(s2, orient_of(g, w, h, 2));
    lemma_dedup_push(s3, orient_of(g, w, h, 3));
    assert forall|v: LayoutV| #[trigger] s4.contains(v) implies s.contains(v) || exists|t: int|
        0 <= t < 4 && v == orient_of(g, w, h, t) by {
        if !s.contains(v) {
            if v == orient_of(g, w, h, 0) {
                assert(0 <= 0 < 4 && v == orient_of(g, w, h, 0));
            } else if v == orient_of(g, w, h, 1) {
                assert(0 <= 1 < 4 && v == orient_of(g, w, h, 1));
            } else if v == orient_of(g, w, h, 2) {
                assert(0 <= 2 < 4 && v == orient_of(g, w, h, 2));
            } else {
                assert(v == orient_of(g, w, h, 3));
            }
        }
    }
    assert forall|v: LayoutV|
        s.contains(v) || exists|t: int| 0 <= t < 4 && v == orient_of(g, w, h, t) implies #[trigger] s4.contains(
        v,
    ) by {
        if !s.contains(v) {
            let t = choose|t: int| 0 <= t < 4 && v == orient_of(g, w, h, t);
            assert(s1.contains(orient_of(g, w, h, 0)));
            assert(s2.contains(orient_of(g, w, h, 1)));
            assert(s3.contains(orient_of(g, w, h, 2)));
            assert(s4.contains(orient_of(g, w, h, 3)));
        }
    }
}

/// True exactly when the list already holds a layout identical to `c`.
fn contains_layout(v: &Vec<Layout>, c: &Layout) -> (r: bool)
    requires
        layouts_wf(models(v@)),
        c@.values.len() == 16,
    ensures
        r == models(v@).contains(c@),
{
    let n = v.len();
    for i in 0..n
        invariant
            n == v@.len(),
            c@.values.len() == 16,
            layouts_wf(models(v@)),
            forall|k: int| 0 <= k < i ==> models(v@)[k] != c@,
    {
        assert(layout_wf(models(v@)[i as int]));
        if layout_eq(&v[i], c) {
            assert(models(v@)[i as int] == c@);
            return true;
        }
    }
    assert(!models(v@).contains(c@)) by {
        if models(v@).contains(c@) {
            let k = choose|k: int| 0 <= k < models(v@).len() && models(v@)[k] == c@;
        }
    }
    false
}

/// Generates the four rotations of a shape and appends each to the
/// orientation list unless an identical layout is already kept.
pub fn add_all_rotations(
    shape: &Vec<u32>,
    width: usize,
    height: usize,
    orientations: &mut Vec<Layout>,
)
    requires
        shape_wf(shape@, width as int, height as int),
        cells_bounded(shape@, 8),
        layouts_wf(models(old(orientations)@)),
    ensures
        models(final(orientations)@) == with_rotations(
            models(old(orientations)@),
            shape@,
            width as int,
            height as int,
        ),
        layouts_wf(models(final(orientations)@)),
        final(orientations)@.len() >= old(orientations)@.len(),
{
    let ghost s0 = models(orientations@);
    let ghost g = shape@;
    let ghost w = width as int;
    let ghost h = height as int;
    let n0 = orientations.len();
    for t in 0..4usize
        invariant
            shape_wf(g, w, h),
            cells_bounded(g, 8),
            g == shape@,
            w == width as int,
            h == height as int,
            models(orientations@) == with_rotations_upto(s0, g, w, h, t as int),
            layouts_wf(models(orientations@)),
            orientations@.len() >= n0,
    {
        let vals = oriented_values(shape, width, height, t);
        let flip = t == 1 || t == 3;
        let layout = Layout {
            width: if flip {
                height
            } else {
                width
            },
            height: if flip {
                width
            } else {
                height
            },
            values: vals,
        };
        proof {
            assert(layout@ == orient_of(g, w, h, t as int));
            lemma_rotated_wf(g, w, h, t as int, 8);
            assert(layout_wf(layout@));
        }
        if !contains_layout(orientations, &layout) {
            let ghost before = models(orientations@);
            orientations.push(layout);
            proof {
                assert(models(orientations@) =~= before.push(layout@));
                assert(models(orientations@) == dedup_push(before, orient_of(g, w, h, t as int)));
            }
        }
    }
}

/// One puzzle piece: the deduplicated list of its orientations.
pub struct Piece {
    pub orientations: Vec<Layout>,
}

impl Piece {
    /// Builds a piece from a base shape within a `width` by `height`
    /// bounding box, stamping every occupied cell with the piece's unique
    /// multiplier, and generating every distinct orientation.
    pub fn new(width: usize, height: usize, multiplier: usize, shape: &Vec<u32>) -> (p: Piece)
        requires
            shape@.len() == 16,
            1 <= width <= 4,
            1 <= height <= 4,
            1 <= multiplier <= 8,
            cells_bounded(shape@, 1),
        ensures
            models(p.orientations@) == piece_orientations(
                shape@,
                width as int,
                height as int,
                multiplier as int,
            ),
            layouts_wf(models(p.orientations@)),
            distinct_layouts(models(p.orientations@)),
            1 <= p.orientations@.len() <= 8,
    {
        let ghost w = width as int;
        let ghost h = height as int;
        let ghost m = multiplier as int;
        let ghost sc = scaled_shape(shape@, w, h, m);

        let mut scaled: Vec<u32> = Vec::new();
        for j in 0..16usize
            invariant
                scaled@.len() == j,
                forall|k: int| 0 <= k < j ==> scaled@[k] == sc[k],
                shape@.len() == 16,
                1 <= width <= 4,
                1 <= height <= 4,
                1 <= multiplier <= 8,
                cells_bounded(shape@, 1),
                w == width as int,
                h == height as int,
                m == multiplier as int,
                sc == scaled_shape(shape@, w, h, m),
        {
            let v: u32 = if j / 4 < height && j % 4 < width {
                assert(shape@[j as int] <= 1);
                if shape[j] == 1 {
                    multiplier as u32
                } else {
                    0
                }
            } else {
                0
            };
            assert(v == sc[j as int]);
            scaled.push(v);
        }
        proof {
            assert(scaled@ =~= sc);
            assert(shape_wf(sc, w, h)) by {
                assert forall|y: int, x: int|
                    0 <= y < 4 && 0 <= x < 4 && !(y < h && x < w) implies #[trigger] sc[crate::grid::pidx(
                    y,
                    x,
                )] == 0 by {
                    assert(crate::grid::pidx(y, x) / 4 == y && crate::grid::pidx(y, x) % 4 == x);
                }
            }
            assert(cells_bounded(sc, 8)) by {
                assert forall|i: int| 0 <= i < sc.len() implies #[trigger] sc[i] <= 8 by {
                    if i / 4 < h && i % 4 < w {
                        assert(shape@[i] <= 1);
                        if shape@[i] == 0 {
                            assert(shape@[i] * m == 0);
                        } else {
                            assert(shape@[i] == 1);
                            assert(shape@[i] * m == m);
                        }
                    }
                }
            }
        }

        let mut orientations: Vec<Layout> = Vec::new();
        proof {
            assert(models(orientations@) =~= Seq::<LayoutV>::empty());
        }
        add_all_rotations(&scaled, width, height, &mut orientations);
        let flipped = mirrored_values(&scaled, width, height);
        proof {
            lemma_mirrored_wf(sc, w, h, 8);
        }
        add_all_rotations(&flipped, width, height, &mut orientations);
        proof {
            lemma_with_rotations(Seq::empty(), sc, w, h);
            lemma_with_rotations(with_rotations(Seq::empty(), sc, w, h), mirrored(sc, w, h), w, h);
            assert(models(orientations@).len() == orientations@.len());
        }
        Piece { orientations }
    }
}


/// If none of the four rotation candidates is already kept and they are
/// pairwise distinct, all four are appended.
pub proof fn lemma_with_rotations_fresh(s: Seq<LayoutV>, g: Seq<u32>, w: int, h: int)
    requires
        forall|t1: int, t2: int|
            0 <= t1 < t2 < 4 ==> orient_of(g, w, h, t1) != orient_of(g, w, h, t2),
        forall|t: int| 0 <= t < 4 ==> !s.contains(#[trigger] orient_of(g, w, h, t)),
    ensures
        with_rotations(s, g, w, h).len() == s.len() + 4,
{
    let c0 = orient_of(g, w, h, 0);
    let c1 = orient_of(g, w, h, 1);
    let c2 = orient_of(g, w, h, 2);
    let c3 = orient_of(g, w, h, 3);
    let s1 = with_rotations_upto(s, g, w, h, 1);
    let s2 = with_rotations_upto(s, g, w, h, 2);
    let s3 = with_rotations_upto(s, g, w, h, 3);
    let s4 = with_rotations_upto(s, g, w, h, 4);
    assert(with_rotations_upto(s, g, w, h, 0) == s);
    assert(s1 == dedup_push(s, c0));
    assert(s2 == dedup_push(s1, c1));
    assert(s3 == dedup_push(s2, c2));
    assert(s4 == dedup_push(s3, c3));
    lemma_dedup_push(s, c0);
    lemma_dedup_push(s1, c1);
    lemma_dedup_push(s2, c2);
    lemma_dedup_push(s3, c3);
    assert(!s.contains(c0));
    assert(!s1.contains(c1));
    assert(!s2.contains(c2));
    assert(!s3.contains(c3));
}

/// If the half-turn candidate repeats the identity and the three-quarter
/// turn repeats the quarter turn, at most two of the four are appended.
pub proof fn lemma_with_rotations_collapsed(s: Seq<LayoutV>, g: Seq<u32>, w: int, h: int)
    requires
        orient_of(g, w, h, 2) == orient_of(g, w, h, 0),
        orient_of(g, w, h, 3) == orient_of(g, w, h, 1),
    ensures
        with_rotations(s, g, w, h).len() <= s.len() + 2,
{
    let c0 = orient_of(g, w, h, 0);
    let c1 = orient_of(g, w, h, 1);
    let s1 = with_rotations_upto(s, g, w, h, 1);
    let s2 = with_rotations_upto(s, g, w, h, 2);
    let s3 = with_rotations_upto(s, g, w, h, 3);
    let s4 = with_rotations_upto(s, g, w, h, 4);
    assert(with_rotations_upto(s, g, w, h, 0) == s);
    assert(s1 == dedup_push(s, c0));
    assert(s2 == dedup_push(s1, c1));
    assert(s3 == dedup_push(s2, c0));
    assert(s4 == dedup_push(s3, c1));
    lemma_dedup_push(s, c0);
    lemma_dedup_push(s1, c1);
    lemma_dedup_push(s2, c0);
    lemma_dedup_push(s3, c1);
    assert(s1.contains(c0));
    assert(s2.contains(c0));
    assert(s3 == s2);
    assert(s2.contains(c1));
    assert(s4 == s3);
}

/// A shape symmetric under a half turn makes its half-turn candidate repeat
/// the identity and its three-quarter-turn candidate repeat the quarter
/// turn, for the shape and for its mirror image alike.
pub proof fn lemma_half_turn_collapse(g: Seq<u32>, w: int, h: int)
    requires
        shape_wf(g, w, h),
        rot180(g, w, h) == g,
    ensures
        orient_of(g, w, h, 2) == orient_of(g, w, h, 0),
        orient_of(g, w, h, 3) == orient_of(g, w, h, 1),
        rot180(mirrored(g, w, h), w, h) == mirrored(g, w, h),
{
    lemma_rot0_id(g, w, h);
    assert forall|y: int, x: int| 0 <= y < h && 0 <= x < w implies #[trigger] g[pidx(y, x)]
        == g[pidx(h - 1 - y, w - 1 - x)] by {
        let j = pidx(y, x);
        assert(j / 4 == y && j % 4 == x);
        assert(rot180(g, w, h)[j] == g[pidx(h - 1 - y, w - 1 - x)]);
    }
    assert(rot270(g, w, h) =~= rot90(g, w, h)) by {
        assert forall|j: int| 0 <= j < 16 implies rot270(g, w, h)[j] == rot90(g, w, h)[j] by {
            if j / 4 < w && j % 4 < h {
                assert(g[pidx(j % 4, w - 1 - j / 4)] == g[pidx(h - 1 - j % 4, j / 4)]);
            }
        }
    }
    let m = mirrored(g, w, h);
    assert(rot180(m, w, h) =~= m) by {
        assert forall|j: int| 0 <= j < 16 implies rot180(m, w, h)[j] == m[j] by {
            if j / 4 < h && j % 4 < w {
                let y = h - 1 - j / 4;
                let x = w - 1 - j % 4;
                assert(pidx(y, x) / 4 == y && pidx(y, x) % 4 == x);
                assert(rot180(m, w, h)[j] == m[pidx(y, x)]);
                assert(m[pidx(y, x)] == g[pidx(y, w - 1 - x)]);
                assert(g[pidx(y, j % 4)] == g[pidx(h - 1 - y, w - 1 - j % 4)]);
                assert(m[j] == g[pidx(j / 4, w - 1 - j % 4)]);
            }
        }
    }
}

/// Law: a shape with no rotational or mirror symmetry — none of its eight
/// orientation candidates coincide — yields exactly eight orientations.
pub proof fn lemma_asymmetric_shape_eight(g: Seq<u32>, w: int, h: int)
    requires
        forall|t1: int, t2: int|
            0 <= t1 < t2 < 4 ==> orient_of(g, w, h, t1) != orient_of(g, w, h, t2),
        forall|t1: int, t2: int|
            0 <= t1 < 4 && 0 <= t2 < 4 ==> orient_of(g, w, h, t1) != orient_of(
                mirrored(g, w, h),
                w,
                h,
                t2,
            ),
        forall|t1: int, t2: int|
            0 <= t1 < t2 < 4 ==> orient_of(mirrored(g, w, h), w, h, t1) != orient_of(
                mirrored(g, w, h),
                w,
                h,
                t2,
            ),
    ensures
        all_orientations(g, w, h).len() == 8,
{
    let m = mirrored(g, w, h);
    let s1 = with_rotations(Seq::empty(), g, w, h);
    lemma_with_rotations(Seq::empty(), g, w, h);
    lemma_with_rotations_fresh(Seq::empty(), g, w, h);
    assert forall|t: int| 0 <= t < 4 implies !s1.contains(#[trigger] orient_of(m, w, h, t)) by {
        if s1.contains(orient_of(m, w, h, t)) {
            let t1 = choose|t1: int| 0 <= t1 < 4 && orient_of(m, w, h, t) == orient_of(
                g,
                w,
                h,
                t1,
            );
            assert(orient_of(g, w, h, t1) != orient_of(m, w, h, t));
        }
    }
    lemma_with_rotations_fresh(s1, m, w, h);
}

/// Law: a shape symmetric under a half turn yields at most four
/// orientations.
pub proof fn lemma_half_turn_symmetric_at_most_four(g: Seq<u32>, w: int, h: int)
    requires
        shape_wf(g, w, h),
        rot180(g, w, h) == g,
    ensures
        all_orientations(g, w, h).len() <= 4,
{
    let m = mirrored(g, w, h);
    assert(cells_bounded(g, 0xffff_ffff));
    lemma_mirrored_wf(g, w, h, 0xffff_ffff);
    lemma_half_turn_collapse(g, w, h);
    lemma_half_turn_collapse(m, w, h);
    lemma_with_rotations_collapsed(Seq::empty(), g, w, h);
    let s1 = with_rotations(Seq::empty(), g, w, h);
    lemma_with_rotations_collapsed(s1, m, w, h);
}

/// Scaling a shape by a positive multiplier keeps its cell count and its
/// bounding box, and bounds its cells by the largest multiplier.
pub proof fn lemma_scaled_count(g: Seq<u32>, w: int, h: int, m: int)
    requires
        shape_wf(g, w, h),
        cells_bounded(g, 1),
        1 <= m <= 8,
    ensures
        shape_wf(scaled_shape(g, w, h, m), w, h),
        cells_bounded(scaled_shape(g, w, h, m), 8),
        cell_count(scaled_shape(g, w, h, m)) == cell_count(g),
{
    let sc = scaled_shape(g, w, h, m);
    assert forall|y: int, x: int|
        0 <= y < 4 && 0 <= x < 4 && !(y < h && x < w) implies #[trigger] sc[pidx(y, x)] == 0 by {
        assert(pidx(y, x) / 4 == y && pidx(y, x) % 4 == x);
    }
    assert forall|i: int| 0 <= i < sc.len() implies #[trigger] sc[i] <= 8 by {
        if i / 4 < h && i % 4 < w {
            assert(g[i] <= 1);
            if g[i] == 0 {
                assert(g[i] * m == 0);
            } else {
                assert(g[i] == 1);
                assert(g[i] * m == m);
            }
        }
    }
    assert(nz_cells(sc) =~= nz_cells(g)) by {
        assert forall|i: int| 0 <= i < 16 implies (nz_cells(sc).contains(i) == nz_cells(
            g,
        ).contains(i)) by {
            if i / 4 < h && i % 4 < w {
                assert(g[i] <= 1);
                assert(sc[i] == (g[i] * m) as u32);
                if g[i] == 0 {
                    assert(sc[i] == 0);
                } else {
                    assert(g[i] == 1);
                    assert(sc[i] == m);
                }
            } else {
                assert(g[pidx(i / 4, i % 4)] == 0);
                assert(pidx(i / 4, i % 4) == i);
            }
        }
    }
    lemma_cell_count_nz(sc);
    lemma_cell_count_nz(g);
}

/// Law: every orientation of a shape occupies exactly as many cells as the
/// shape itself — rotation and mirroring move cells, never add or drop one.
pub proof fn lemma_orientation_area(g: Seq<u32>, w: int, h: int, k: int)
    requires
        shape_wf(g, w, h),
        0 <= k < all_orientations(g, w, h).len(),
    ensures
        cell_count(all_orientations(g, w, h)[k].values) == cell_count(g),
{
    let all = all_orientations(g, w, h);
    let v = all[k];
    let m = mirrored(g, w, h);
    let s1 = with_rotations(Seq::empty(), g, w, h);
    lemma_with_rotations(Seq::empty(), g, w, h);
    lemma_with_rotations(s1, m, w, h);
    assert(all.contains(v));
    assert(cells_bounded(g, 0xffff_ffff));
    lemma_mirrored_wf(g, w, h, 0xffff_ffff);
    if s1.contains(v) {
        let t = choose|t: int| 0 <= t < 4 && v == orient_of(g, w, h, t);
        lemma_rotated_count(g, w, h, t);
    } else {
        let t = choose|t: int| 0 <= t < 4 && v == orient_of(m, w, h, t);
        lemma_rotated_count(m, w, h, t);
        lemma_mirrored_count(g, w, h);
    }
}

/// Law: every orientation of a piece occupies exactly the piece's own
/// number of cells, the base shape's count, whatever rotation or mirroring
/// produced it.
pub proof fn lemma_piece_orientation_area(shape: Seq<u32>, w: int, h: int, m: int, k: int)
    requires
        shape_wf(shape, w, h),
        cells_bounded(shape, 1),
        1 <= m <= 8,
        0 <= k < piece_orientations(shape, w, h, m).len(),
    ensures
        cell_count(piece_orientations(shape, w, h, m)[k].values) == cell_count(shape),
{
    lemma_scaled_count(shape, w, h, m);
    lemma_orientation_area(scaled_shape(shape, w, h, m), w, h, k);
}


/// Base bitmap of catalog piece 1.
pub open spec fn catalog_shape_1() -> Seq<u32> {
    seq![0u32, 0, 1, 0, 1, 1, 1, 1, 0, 0, 0, 0, 0, 0, 0, 0]
}

/// Base bitmap of catalog piece 2.
pub open spec fn catalog_shape_2() -> Seq<u32> {
    seq![1u32, 1, 1, 0, 1, 1, 1, 0, 0, 0, 0, 0, 0, 0, 0, 0]
}

/// Base bitmap of catalog piece 3.
pub open spec fn catalog_shape_3() -> Seq<u32> {
    seq![1u32, 0, 0, 0, 1, 1, 1, 1, 0, 0, 0, 0, 0, 0, 0, 0]
}

/// Base bitmap of catalog piece 4.
pub open spec fn catalog_shape_4() -> Seq<u32> {
    seq![1u32, 0, 0, 0, 1, 0, 0, 0, 1, 1, 1, 0, 0, 0, 0, 0]
}

/// Base bitmap of catalog piece 5.
pub open spec fn catalog_shape_5() -> Seq<u32> {
    seq![1u32, 1, 1, 0, 0, 0, 1, 1, 0, 0, 0, 0, 0, 0, 0, 0]
}

/// Base bitmap of catalog piece 6.
pub open spec fn catalog_shape_6() -> Seq<u32> {
    seq![1u32, 1, 1, 0, 0, 1, 1, 0, 0, 0, 0, 0, 0, 0, 0, 0]
}

/// Base bitmap of catalog piece 7.
pub open spec fn catalog_shape_7() -> Seq<u32> {
    seq![1u32, 1, 1, 0, 1, 0, 1, 0, 0, 0, 0, 0, 0, 0, 0, 0]
}

/// Base bitmap of catalog piece 8.
pub open spec fn catalog_shape_8() -> Seq<u32> {
    seq![1u32, 1, 0, 0, 0, 1, 0, 0, 0, 1, 1, 0, 0, 0, 0, 0]
}

/// The orientation lists of the eight catalog pieces, fully determined by
/// the documented bitmaps, bounding boxes and multipliers.
pub open spec fn catalog_orientations() -> Seq<Seq<LayoutV>> {
    seq![
        piece_orientations(catalog_shape_1(), 4, 2, 1),
        piece_orientations(catalog_shape_2(), 3, 2, 2),
        piece_orientations(catalog_shape_3(), 4, 2, 3),
        piece_orientations(catalog_shape_4(), 3, 3, 4),
        piece_orientations(catalog_shape_5(), 4, 2, 5),
        piece_orientations(catalog_shape_6(), 3, 2, 6),
        piece_orientations(catalog_shape_7(), 3, 2, 7),
        piece_orientations(catalog_shape_8(), 3, 3, 8),
    ]
}

/// Every orientation generated from a shape stamped only with `m` is
/// itself stamped only with `m`: the transforms move values, never change
/// them.
pub proof fn lemma_orientation_stamp(g: Seq<u32>, w: int, h: int, m: u32, k: int)
    requires
        shape_wf(g, w, h),
        cells_zero_or(g, m),
        0 <= k < all_orientations(g, w, h).len(),
    ensures
        cells_zero_or(all_orientations(g, w, h)[k].values, m),
{
    let all = all_orientations(g, w, h);
    let v = all[k];
    let mi = mirrored(g, w, h);
    let s1 = with_rotations(Seq::empty(), g, w, h);
    lemma_with_rotations(Seq::empty(), g, w, h);
    lemma_with_rotations(s1, mi, w, h);
    assert(all.contains(v));
    lemma_transforms_keep_stamp(g, w, h, m);
    if s1.contains(v) {
        let t = choose|t: int| 0 <= t < 4 && v == orient_of(g, w, h, t);
        assert(cells_zero_or(rotated(g, w, h, t), m));
    } else {
        let t = choose|t: int| 0 <= t < 4 && v == orient_of(mi, w, h, t);
        lemma_transforms_keep_stamp(mi, w, h, m);
        assert(cells_zero_or(rotated(mi, w, h, t), m));
    }
}

/// A well-formed piece: between one and eight orientations, all well-formed,
/// no two identical, and all covering the same number of cells.
pub open spec fn piece_wf(p: Piece) -> bool {
    &&& 1 <= p.orientations@.len() <= 8
    &&& layouts_wf(models(p.orientations@))
    &&& distinct_layouts(models(p.orientations@))
    &&& forall|k: int|
        0 <= k < p.orientations@.len() ==> cell_count(
            #[trigger] models(p.orientations@)[k].values,
        ) == piece_area(p)
}

/// How many cells a piece covers, read off its first orientation.
pub open spec fn piece_area(p: Piece) -> nat {
    cell_count(models(p.orientations@)[0].values)
}

/// The well-formed catalog: eight pieces, each covering five cells except
/// the second, the full two-by-three rectangle, which covers six; together
/// they cover the 41 open cells of a fresh board.
pub open spec fn catalog_wf(v: Seq<Piece>) -> bool {
    &&& v.len() == 8
    &&& forall|p: int| 0 <= p < 8 ==> piece_wf(#[trigger] v[p])
    &&& forall|p: int|
        0 <= p < 8 ==> piece_area(#[trigger] v[p]) == if p == 1 {
            6nat
        } else {
            5nat
        }
    &&& forall|p: int, k: int|
        0 <= p < 8 && 0 <= k < v[p].orientations@.len() ==> cells_zero_or(
            (#[trigger] models(v[p].orientations@)[k]).values,
            (p + 1) as u32,
        )
}

/// Builds one catalog piece and carries each orientation's area back to the
/// base shape's cell count.
fn piece_from_shape(width: usize, height: usize, multiplier: usize, shape: &Vec<u32>) -> (p: Piece)
    requires
        shape_wf(shape@, width as int, height as int),
        cells_bounded(shape@, 1),
        1 <= multiplier <= 8,
    ensures
        piece_wf(p),
        piece_area(p) == cell_count(shape@),
        models(p.orientations@) == piece_orientations(
            shape@,
            width as int,
            height as int,
            multiplier as int,
        ),
        forall|k: int|
            0 <= k < p.orientations@.len() ==> cells_zero_or(
                (#[trigger] models(p.orientations@)[k]).values,
                multiplier as u32,
            ),
{
    let p = Piece::new(width, height, multiplier, shape);
    proof {
        let w = width as int;
        let h = height as int;
        let m = multiplier as int;
        assert forall|k: int| 0 <= k < p.orientations@.len() implies cell_count(
            #[trigger] models(p.orientations@)[k].values,
        ) == cell_count(shape@) by {
            lemma_piece_orientation_area(shape@, w, h, m, k);
        }
        assert(piece_area(p) == cell_count(shape@));
        lemma_scaled_count(shape@, w, h, m);
        let sc = scaled_shape(shape@, w, h, m);
        assert(cells_zero_or(sc, multiplier as u32)) by {
            assert forall|i: int| 0 <= i < sc.len() implies #[trigger] sc[i] == 0 || sc[i]
                == multiplier as u32 by {
                if i / 4 < h && i % 4 < w {
                    assert(shape@[i] <= 1);
                    if shape@[i] == 0 {
                        assert(shape@[i] * m == 0);
                    } else {
                        assert(shape@[i] == 1);
                        assert(shape@[i] * m == m);
                    }
                }
            }
        }
        assert forall|k: int| 0 <= k < p.orientations@.len() implies cells_zero_or(
            (#[trigger] models(p.orientations@)[k]).values,
            multiplier as u32,
        ) by {
            lemma_orientation_stamp(sc, w, h, multiplier as u32, k);
        }
    }
    p
}

/// Appends one row of four cells to a shape grid being built.
fn push_row(v: &mut Vec<u32>, a: u32, b: u32, c: u32, d: u32)
    ensures
        final(v)@ == old(v)@ + seq![a, b, c, d],
{
    v.push(a);
    v.push(b);
    v.push(c);
    v.push(d);
    assert(v@ =~= old(v)@ + seq![a, b, c, d]);
}

/// Catalog piece 1, stamped with multiplier 1: 5 cells in a
/// 4 by 2 bounding box.
fn catalog_piece_1() -> (p: Piece)
    ensures
        piece_wf(p),
        piece_area(p) == 5,
        models(p.orientations@) == piece_orientations(catalog_shape_1(), 4, 2, 1),
        forall|k: int|
            0 <= k < p.orientations@.len() ==> cells_zero_or(
                (#[trigger] models(p.orientations@)[k]).values,
                1u32,
            ),
{
    let mut s: Vec<u32> = Vec::new();
    push_row(&mut s, 0, 0, 1, 0);
    push_row(&mut s, 1, 1, 1, 1);
    push_row(&mut s, 0, 0, 0, 0);
    push_row(&mut s, 0, 0, 0, 0);
    proof {
        assert(s@ =~= catalog_shape_1());
        assert(cell_count(catalog_shape_1()) == 5) by {
            reveal_with_fuel(cell_count, 17);
        }
        assert(shape_wf(s@, 4, 2));
        assert(cells_bounded(s@, 1));
    }
    piece_from_shape(4, 2, 1, &s)
}

/// Catalog piece 2, stamped with multiplier 2: 6 cells in a
/// 3 by 2 bounding box.
fn catalog_piece_2() -> (p: Piece)
    ensures
        piece_wf(p),
        piece_area(p) == 6,
        models(p.orientations@) == piece_orientations(catalog_shape_2(), 3, 2, 2),
        forall|k: int|
            0 <= k < p.orientations@.len() ==> cells_zero_or(
                (#[trigger] models(p.orientations@)[k]).values,
                2u32,
            ),
{
    let mut s: Vec<u32> = Vec::new();
    push_row(&mut s, 1, 1, 1, 0);
    push_row(&mut s, 1, 1, 1, 0);
    push_row(&mut s, 0, 0, 0, 0);
    push_row(&mut s, 0, 0, 0, 0);
    proof {
        assert(s@ =~= catalog_shape_2());
        assert(cell_count(catalog_shape_2()) == 6) by {
            reveal_with_fuel(cell_count, 17);
        }
        assert(shape_wf(s@, 3, 2));
        assert(cells_bounded(s@, 1));
    }
    piece_from_shape(3, 2, 2, &s)
}

/// Catalog piece 3, stamped with multiplier 3: 5 cells in a
/// 4 by 2 bounding box.
fn catalog_piece_3() -> (p: Piece)
    ensures
        piece_wf(p),
        piece_area(p) == 5,
        models(p.orientations@) == piece_orientations(catalog_shape_3(), 4, 2, 3),
        forall|k: int|
            0 <= k < p.orientations@.len() ==> cells_zero_or(
                (#[trigger] models(p.orientations@)[k]).values,
                3u32,
            ),
{
    let mut s: Vec<u32> = Vec::new();
    push_row(&mut s, 1, 0, 0, 0);
    push_row(&mut s, 1, 1, 1, 1);
    push_row(&mut s, 0, 0, 0, 0);
    push_row(&mut s, 0, 0, 0, 0);
    proof {
        assert(s@ =~= catalog_shape_3());
        assert(cell_count(catalog_shape_3()) == 5) by {
            reveal_with_fuel(cell_count, 17);
        }
        assert(shape_wf(s@, 4, 2));
        assert(cells_bounded(s@, 1));
    }
    piece_from_shape(4, 2, 3, &s)
}

/// Catalog piece 4, stamped with multiplier 4: 5 cells in a
/// 3 by 3 bounding box.
fn catalog_piece_4() -> (p: Piece)
    ensures
        piece_wf(p),
        piece_area(p) == 5,
        models(p.orientations@) == piece_orientations(catalog_shape_4(), 3, 3, 4),
        forall|k: int|
            0 <= k < p.orientations@.len() ==> cells_zero_or(
                (#[trigger] models(p.orientations@)[k]).values,
                4u32,
            ),
{
    let mut s: Vec<u32> = Vec::new();
    push_row(&mut s, 1, 0, 0, 0);
    push_row(&mut s, 1, 0, 0, 0);
    push_row(&mut s, 1, 1, 1, 0);
    push_row(&mut s, 0, 0, 0, 0);
    proof {
        assert(s@ =~= catalog_shape_4());
        assert(cell_count(catalog_shape_4()) == 5) by {
            reveal_with_fuel(cell_count, 17);
        }
        assert(shape_wf(s@, 3, 3));
        assert(cells_bounded(s@, 1));
    }
    piece_from_shape(3, 3, 4, &s)
}

/// Catalog piece 5, stamped with multiplier 5: 5 cells in a
/// 4 by 2 bounding box.
fn catalog_piece_5() -> (p: Piece)
    ensures
        piece_wf(p),
        piece_area(p) == 5,
        models(p.orientations@) == piece_orientations(catalog_shape_5(), 4, 2, 5),
        forall|k: int|
            0 <= k < p.orientations@.len() ==> cells_zero_or(
                (#[trigger] models(p.orientations@)[k]).values,
                5u32,
            ),
{
    let mut s: Vec<u32> = Vec::new();
    push_row(&mut s, 1, 1, 1, 0);
    push_row(&mut s, 0, 0, 1, 1);
    push_row(&mut s, 0, 0, 0, 0);
    push_row(&mut s, 0, 0, 0, 0);
    proof {
        assert(s@ =~= catalog_shape_5());
        assert(cell_count(catalog_shape_5()) == 5) by {
            reveal_with_fuel(cell_count, 17);
        }
        assert(shape_wf(s@, 4, 2));
        assert(cells_bounded(s@, 1));
    }
    piece_from_shape(4, 2, 5, &s)
}

/// Catalog piece 6, stamped with multiplier 6: 5 cells in a
/// 3 by 2 bounding box.
fn catalog_piece_6() -> (p: Piece)
    ensures
        piece_wf(p),
        piece_area(p) == 5,
        models(p.orientations@) == piece_orientations(catalog_shape_6(), 3, 2, 6),
        forall|k: int|
            0 <= k < p.orientations@.len() ==> cells_zero_or(
                (#[trigger] models(p.orientations@)[k]).values,
                6u32,
            ),
{
    let mut s: Vec<u32> = Vec::new();
    push_row(&mut s, 1, 1, 1, 0);
    push_row(&mut s, 0, 1, 1, 0);
    push_row(&mut s, 0, 0, 0, 0);
    push_row(&mut s, 0, 0, 0, 0);
    proof {
        assert(s@ =~= catalog_shape_6());
        assert(cell_count(catalog_shape_6()) == 5) by {
            reveal_with_fuel(cell_count, 17);
        }
        assert(shape_wf(s@, 3, 2));
        assert(cells_bounded(s@, 1));
    }
    piece_from_shape(3, 2, 6, &s)
}

/// Catalog piece 7, stamped with multiplier 7: 5 cells in a
/// 3 by 2 bounding box.
fn catalog_piece_7() -> (p: Piece)
    ensures
        piece_wf(p),
        piece_area(p) == 5,
        models(p.orientations@) == piece_orientations(catalog_shape_7(), 3, 2, 7),
        forall|k: int|
            0 <= k < p.orientations@.len() ==> cells_zero_or(
                (#[trigger] models(p.orientations@)[k]).values,
                7u32,
            ),
{
    let mut s: Vec<u32> = Vec::new();
    push_row(&mut s, 1, 1, 1, 0);
    push_row(&mut s, 1, 0, 1, 0);
    push_row(&mut s, 0, 0, 0, 0);
    push_row(&mut s, 0, 0, 0, 0);
    proof {
        assert(s@ =~= catalog_shape_7());
        assert(cell_count(catalog_shape_7()) == 5) by {
            reveal_with_fuel(cell_count, 17);
        }
        assert(shape_wf(s@, 3, 2));
        assert(cells_bounded(s@, 1));
    }
    piece_from_shape(3, 2, 7, &s)
}

/// Catalog piece 8, stamped with multiplier 8: 5 cells in a
/// 3 by 3 bounding box.
fn catalog_piece_8() -> (p: Piece)
    ensures
        piece_wf(p),
        piece_area(p) == 5,
        models(p.orientations@) == piece_orientations(catalog_shape_8(), 3, 3, 8),
        forall|k: int|
            0 <= k < p.orientations@.len() ==> cells_zero_or(
                (#[trigger] models(p.orientations@)[k]).values,
                8u32,
            ),
{
    let mut s: Vec<u32> = Vec::new();
    push_row(&mut s, 1, 1, 0, 0);
    push_row(&mut s, 0, 1, 0, 0);
    push_row(&mut s, 0, 1, 1, 0);
    push_row(&mut s, 0, 0, 0, 0);
    proof {
        assert(s@ =~= catalog_shape_8());
        assert(cell_count(catalog_shape_8()) == 5) by {
            reveal_with_fuel(cell_count, 17);
        }
        assert(shape_wf(s@, 3, 3));
        assert(cells_bounded(s@, 1));
    }
    piece_from_shape(3, 3, 8, &s)
}

/// The eight pieces of the puzzle, in declaration order; the piece at index
/// `p` stamps its cells with multiplier `p + 1`.
pub fn all_pieces() -> (v: Vec<Piece>)
    ensures
        catalog_wf(v@),
        v@.len() == 8,
        forall|p: int|
            0 <= p < 8 ==> models(#[trigger] v@[p].orientations@) == catalog_orientations()[p],
{
    let mut v: Vec<Piece> = Vec::new();
    v.push(catalog_piece_1());
    v.push(catalog_piece_2());
    v.push(catalog_piece_3());
    v.push(catalog_piece_4());
    v.push(catalog_piece_5());
    v.push(catalog_piece_6());
    v.push(catalog_piece_7());
    v.push(catalog_piece_8());
    proof {
        assert(v@.len() == 8);
        assert forall|p: int| 0 <= p < 8 implies piece_wf(#[trigger] v@[p]) by {}
        assert forall|p: int|
            0 <= p < 8 implies piece_area(#[trigger] v@[p]) == if p == 1 {
                6nat
            } else {
                5nat
            } by {}
        assert forall|p: int|
            0 <= p < 8 implies models(#[trigger] v@[p].orientations@) == catalog_orientations()[p] by {}
        assert forall|p: int, k: int|
            0 <= p < 8 && 0 <= k < v@[p].orientations@.len() implies cells_zero_or(
                (#[trigger] models(v@[p].orientations@)[k]).values,
                (p + 1) as u32,
            ) by {}
    }
    v
}

} // verus!