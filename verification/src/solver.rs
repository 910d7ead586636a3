//! The backtracking search. Pieces are tried in catalog order, each unused
//! piece in each of its orientations at each horizontal offset of the
//! current row; a successful placement recurses with the row cursor moved
//! past every row that has become full, and is undone when the recursion
//! fails. The search stops at the first complete tiling.

use vstd::prelude::*;

use crate::board::Board;
use crate::board::PuzzleError;
use crate::board::board_values_ok;
use crate::board::cell_value_ok;
use crate::board::compatible;
use crate::board::fits;
use crate::board::lemma_deduct_overlay;
use crate::board::lemma_overlay_cells;
use crate::board::lemma_overlay_count;
use crate::board::lemma_overlay_value_count;
use crate::board::lemma_overlay_covers;
use crate::board::lemma_start_board_count;
use crate::board::lemma_start_board_values;
use crate::board::overlay;
use crate::board::row_full;
use crate::board::start_board;
use crate::board::valid_date;
use crate::counting::cell_count;
use crate::counting::lemma_count_full;
use crate::counting::value_count;
use crate::grid::LayoutV;
use crate::grid::cells_zero_or;
use crate::grid::layout_wf;
use crate::pieces::Piece;
use crate::pieces::all_pieces;
use crate::pieces::catalog_orientations;
use crate::pieces::catalog_wf;
use crate::pieces::models;
use crate::pieces::piece_area;
use crate::pieces::piece_wf;

verus! {

/// How many of the first `n` flags are set.
pub open spec fn num_true(s: Seq<bool>, n: int) -> int
    decreases n,
{
    if n <= 0 {
        0
    } else {
        num_true(s, n - 1) + if s[n - 1] {
            1int
        } else {
            0int
        }
    }
}

/// The total area of the pieces among the first `n` whose flag is not set.
pub open spec fn unused_area(ps: Seq<Piece>, used: Seq<bool>, n: int) -> int
    decreases n,
{
    if n <= 0 {
        0
    } else {
        unused_area(ps, used, n - 1) + if !used[n - 1] {
            piece_area(ps[n - 1]) as int
        } else {
            0int
        }
    }
}

/// Every piece of the list is well-formed.
pub open spec fn pieces_wf(ps: Seq<Piece>) -> bool {
    forall|i: int| 0 <= i < ps.len() ==> piece_wf(#[trigger] ps[i])
}

/// The piece at index `p` stamps its cells with exactly the value `p + 1`,
/// in every orientation: the multiplier scheme the board's overlap
/// detection relies on.
pub open spec fn pieces_tagged(ps: Seq<Piece>) -> bool {
    forall|p: int, k: int|
        0 <= p < ps.len() && 0 <= k < ps[p].orientations@.len() ==> cells_zero_or(
            (#[trigger] models(ps[p].orientations@)[k]).values,
            (p + 1) as u32,
        )
}

/// Counting flags only reads the first `n` entries.
pub proof fn lemma_num_true_agree(s1: Seq<bool>, s2: Seq<bool>, n: int)
    requires
        forall|i: int| 0 <= i < n ==> s1[i] == s2[i],
    ensures
        num_true(s1, n) == num_true(s2, n),
    decreases n,
{
    if n > 0 {
        lemma_num_true_agree(s1, s2, n - 1);
    }
}

/// The count of set flags lies between zero and `n`, and a count of `n`
/// means every flag is set.
pub proof fn lemma_num_true_bound(s: Seq<bool>, n: int)
    requires
        0 <= n,
    ensures
        0 <= num_true(s, n) <= n,
        num_true(s, n) == n ==> forall|i: int| 0 <= i < n ==> s[i],
    decreases n,
{
    if n > 0 {
        lemma_num_true_bound(s, n - 1);
    }
}

/// Flipping one flag changes the count by exactly one in the expected
/// direction.
pub proof fn lemma_num_true_update(s: Seq<bool>, p: int, v: bool, n: int)
    requires
        0 <= p < n <= s.len(),
    ensures
        num_true(s.update(p, v), n) == num_true(s, n) - (if s[p] {
            1int
        } else {
            0int
        }) + (if v {
            1int
        } else {
            0int
        }),
    decreases n,
{
    let u = s.update(p, v);
    if p == n - 1 {
        lemma_num_true_agree(u, s, n - 1);
    } else {
        lemma_num_true_update(s, p, v, n - 1);
    }
}

/// A count of zero set flags when none is set.
pub proof fn lemma_num_true_none(s: Seq<bool>, n: int)
    requires
        forall|i: int| 0 <= i < n ==> !s[i],
    ensures
        num_true(s, n) == 0,
    decreases n,
{
    if n > 0 {
        lemma_num_true_none(s, n - 1);
    }
}

/// The unused area only reads the first `n` flags.
pub proof fn lemma_unused_area_agree(ps: Seq<Piece>, s1: Seq<bool>, s2: Seq<bool>, n: int)
    requires
        forall|i: int| 0 <= i < n ==> s1[i] == s2[i],
    ensures
        unused_area(ps, s1, n) == unused_area(ps, s2, n),
    decreases n,
{
    if n > 0 {
        lemma_unused_area_agree(ps, s1, s2, n - 1);
    }
}

/// Marking an unused piece as used removes exactly its area from the unused
/// total.
pub proof fn lemma_unused_area_update(ps: Seq<Piece>, used: Seq<bool>, p: int, n: int)
    requires
        0 <= p < n <= used.len(),
        !used[p],
    ensures
        unused_area(ps, used.update(p, true), n) == unused_area(ps, used, n) - piece_area(ps[p]),
    decreases n,
{
    let u = used.update(p, true);
    if p == n - 1 {
        lemma_unused_area_agree(ps, u, used, n - 1);
    } else {
        lemma_unused_area_update(ps, used, p, n - 1);
    }
}

/// When every piece is used nothing is left to place.
pub proof fn lemma_unused_area_all_used(ps: Seq<Piece>, used: Seq<bool>, n: int)
    requires
        forall|i: int| 0 <= i < n ==> used[i],
    ensures
        unused_area(ps, used, n) == 0,
    decreases n,
{
    if n > 0 {
        lemma_unused_area_all_used(ps, used, n - 1);
    }
}

/// The total area of the whole catalog, nothing yet used: 41 cells.
pub proof fn lemma_catalog_total_area(ps: Seq<Piece>, used: Seq<bool>)
    requires
        catalog_wf(ps),
        forall|i: int| 0 <= i < 8 ==> !used[i],
    ensures
        unused_area(ps, used, 8) == 41,
{
    reveal_with_fuel(unused_area, 9);
    assert(piece_area(ps[0]) == 5);
    assert(piece_area(ps[1]) == 6);
    assert(piece_area(ps[2]) == 5);
    assert(piece_area(ps[3]) == 5);
    assert(piece_area(ps[4]) == 5);
    assert(piece_area(ps[5]) == 5);
    assert(piece_area(ps[6]) == 5);
    assert(piece_area(ps[7]) == 5);
}

/// Law: the eight catalog pieces together cover exactly the number of open
/// cells of a freshly constructed board, for every valid date.
pub proof fn lemma_catalog_covers_open_cells(
    ps: Seq<Piece>,
    used: Seq<bool>,
    month: int,
    day: int,
)
    requires
        catalog_wf(ps),
        valid_date(month, day),
        forall|i: int| 0 <= i < 8 ==> !used[i],
    ensures
        unused_area(ps, used, 8) == 49 - cell_count(start_board(month, day)),
{
    lemma_catalog_total_area(ps, used);
    lemma_start_board_count(month, day);
}

/// The orientation lists of a piece list, one list per piece.
pub open spec fn orientation_lists(ps: Seq<Piece>) -> Seq<Seq<LayoutV>> {
    ps.map_values(|p: Piece| models(p.orientations@))
}

/// The first row at or after `row` that still holds an open cell, or 7 when
/// every remaining row is full: the search anchor after a placement.
pub open spec fn next_open_row(b: Seq<u32>, row: int) -> int
    decreases 7 - row,
{
    if row >= 7 {
        row
    } else if row_full(b, row) {
        next_open_row(b, row + 1)
    } else {
        row
    }
}

/// Whether a sequence of moves — each a (piece, orientation, offset)
/// triple — can be played from this state: every move names a still-unused
/// piece whose orientation fits at the given offset of the anchor row
/// without touching an occupied cell, and the rest of the moves can be
/// played after it, anchored at the first open row of the grown board.
pub open spec fn play_ok(
    orients: Seq<Seq<LayoutV>>,
    used: Seq<bool>,
    b: Seq<u32>,
    row: int,
    moves: Seq<(int, int, int)>,
) -> bool
    decreases moves.len(),
{
    if moves.len() == 0 {
        true
    } else {
        let p = moves[0].0;
        let oi = moves[0].1;
        let x = moves[0].2;
        &&& 0 <= p < orients.len()
        &&& !used[p]
        &&& 0 <= oi < orients[p].len()
        &&& fits(orients[p][oi], x, row)
        &&& compatible(b, orients[p][oi], x, row)
        &&& play_ok(
            orients,
            used.update(p, true),
            overlay(b, orients[p][oi], x, row),
            next_open_row(overlay(b, orients[p][oi], x, row), row),
            moves.drop_first(),
        )
    }
}

/// The board after a sequence of moves has been played, each move's layout
/// added at its offset on the anchor row of its turn.
pub open spec fn play_board(
    orients: Seq<Seq<LayoutV>>,
    b: Seq<u32>,
    row: int,
    moves: Seq<(int, int, int)>,
) -> Seq<u32>
    decreases moves.len(),
{
    if moves.len() == 0 {
        b
    } else {
        let p = moves[0].0;
        let oi = moves[0].1;
        let x = moves[0].2;
        let b2 = overlay(b, orients[p][oi], x, row);
        play_board(orients, b2, next_open_row(b2, row), moves.drop_first())
    }
}

/// Whether `remaining` of the still-unused pieces can be placed one after
/// another, each anchored at the first open row of the board at its turn,
/// never touching an occupied cell. This is exactly the space the
/// backtracking search explores, so `false` certifies exhaustion.
pub open spec fn search_wins(
    orients: Seq<Seq<LayoutV>>,
    used: Seq<bool>,
    b: Seq<u32>,
    row: int,
    remaining: nat,
) -> bool {
    exists|moves: Seq<(int, int, int)>|
        moves.len() == remaining && #[trigger] play_ok(orients, used, b, row, moves)
}

/// One way to continue the anchored search: piece `p` is still unused, its
/// orientation `oi` fits at offset `x` of the anchor row without touching an
/// occupied cell, and after that placement the remaining pieces can still
/// all be placed.
pub open spec fn placement_wins(
    orients: Seq<Seq<LayoutV>>,
    used: Seq<bool>,
    b: Seq<u32>,
    row: int,
    remaining: nat,
    p: int,
    oi: int,
    x: int,
) -> bool {
    &&& remaining >= 1
    &&& 0 <= p < orients.len()
    &&& !used[p]
    &&& 0 <= oi < orients[p].len()
    &&& fits(orients[p][oi], x, row)
    &&& compatible(b, orients[p][oi], x, row)
    &&& search_wins(
        orients,
        used.update(p, true),
        overlay(b, orients[p][oi], x, row),
        next_open_row(overlay(b, orients[p][oi], x, row), row),
        (remaining - 1) as nat,
    )
}

/// With nothing left to place, the empty play wins.
pub proof fn lemma_search_wins_zero(orients: Seq<Seq<LayoutV>>, used: Seq<bool>, b: Seq<u32>, row: int)
    ensures
        search_wins(orients, used, b, row, 0),
{
    let moves = Seq::<(int, int, int)>::empty();
    assert(play_ok(orients, used, b, row, moves));
}

/// A winning first move makes the whole state winning.
pub proof fn lemma_search_wins_intro(
    orients: Seq<Seq<LayoutV>>,
    used: Seq<bool>,
    b: Seq<u32>,
    row: int,
    rem: nat,
    p: int,
    oi: int,
    x: int,
)
    requires
        placement_wins(orients, used, b, row, rem, p, oi, x),
    ensures
        search_wins(orients, used, b, row, rem),
{
    let l = orients[p][oi];
    let u2 = used.update(p, true);
    let b2 = overlay(b, l, x, row);
    let row2 = next_open_row(b2, row);
    let tail = choose|mv: Seq<(int, int, int)>|
        mv.len() == (rem - 1) as nat && #[trigger] play_ok(orients, u2, b2, row2, mv);
    let moves = seq![(p, oi, x)] + tail;
    assert(moves.len() == rem);
    assert(moves[0] == (p, oi, x));
    assert(moves.drop_first() =~= tail);
    assert(play_ok(orients, used, b, row, moves));
}

/// A winning state with pieces left has a winning first move.
pub proof fn lemma_search_wins_elim(
    orients: Seq<Seq<LayoutV>>,
    used: Seq<bool>,
    b: Seq<u32>,
    row: int,
    rem: nat,
)
    requires
        rem >= 1,
        search_wins(orients, used, b, row, rem),
    ensures
        exists|p: int, oi: int, x: int|
            #[trigger] placement_wins(orients, used, b, row, rem, p, oi, x),
{
    let moves = choose|mv: Seq<(int, int, int)>|
        mv.len() == rem && #[trigger] play_ok(orients, used, b, row, mv);
    let p = moves[0].0;
    let oi = moves[0].1;
    let x = moves[0].2;
    let l = orients[p][oi];
    let u2 = used.update(p, true);
    let b2 = overlay(b, l, x, row);
    let row2 = next_open_row(b2, row);
    assert(play_ok(orients, u2, b2, row2, moves.drop_first()));
    assert(moves.drop_first().len() == rem - 1);
    assert(search_wins(orients, u2, b2, row2, (rem - 1) as nat));
    assert(placement_wins(orients, used, b, row, rem, p, oi, x));
}

/// Hook for inspecting the board at a given search depth while developing;
/// deliberately inert, since the library itself does no output.
pub fn debug_print(_piece_count: usize, _board: &Board) {
}

/// Prepending a legal move to a legal play gives a legal play whose final
/// board is unchanged.
proof fn lemma_play_extend(
    orients: Seq<Seq<LayoutV>>,
    used: Seq<bool>,
    b: Seq<u32>,
    row: int,
    p: int,
    oi: int,
    x: int,
    tail: Seq<(int, int, int)>,
)
    requires
        0 <= p < orients.len(),
        !used[p],
        0 <= oi < orients[p].len(),
        fits(orients[p][oi], x, row),
        compatible(b, orients[p][oi], x, row),
        play_ok(
            orients,
            used.update(p, true),
            overlay(b, orients[p][oi], x, row),
            next_open_row(overlay(b, orients[p][oi], x, row), row),
            tail,
        ),
    ensures
        play_ok(orients, used, b, row, seq![(p, oi, x)] + tail),
        (seq![(p, oi, x)] + tail).len() == tail.len() + 1,
        play_board(orients, b, row, seq![(p, oi, x)] + tail) == play_board(
            orients,
            overlay(b, orients[p][oi], x, row),
            next_open_row(overlay(b, orients[p][oi], x, row), row),
            tail,
        ),
{
    let moves = seq![(p, oi, x)] + tail;
    assert(moves[0] == (p, oi, x));
    assert(moves.drop_first() =~= tail);
    assert(play_ok(orients, used, b, row, moves));
}

/// If no candidate first move wins, the state is lost: the search space is
/// exhausted.
proof fn lemma_search_exhausted(
    orients: Seq<Seq<LayoutV>>,
    used: Seq<bool>,
    b: Seq<u32>,
    row: int,
    rem: nat,
)
    requires
        rem >= 1,
        forall|pp: int, oo: int, xx: int|
            0 <= pp < orients.len() ==> !(#[trigger] placement_wins(
                orients,
                used,
                b,
                row,
                rem,
                pp,
                oo,
                xx,
            )),
    ensures
        !search_wins(orients, used, b, row, rem),
{
    assert forall|pp: int, oo: int, xx: int|
        !(#[trigger] placement_wins(orients, used, b, row, rem, pp, oo, xx)) by {}
    if search_wins(orients, used, b, row, rem) {
        lemma_search_wins_elim(orients, used, b, row, rem);
    }
}

/// Composes one placement's effect on the per-multiplier cell counts with
/// the effect of the rest of the search: marking piece `p` used and adding
/// its layout accounts for exactly its own multiplier.
proof fn lemma_value_counts_compose(
    pieces: Seq<Piece>,
    u0: Seq<bool>,
    b0: Seq<u32>,
    bf: Seq<u32>,
    l: LayoutV,
    p: int,
    x: int,
    rw: int,
)
    requires
        pieces.len() <= 8,
        0 <= p < pieces.len(),
        crate::board::board_wf(b0),
        layout_wf(l),
        fits(l, x, rw),
        compatible(b0, l, x, rw),
        cells_zero_or(l.values, (p + 1) as u32),
        cell_count(l.values) == piece_area(pieces[p]),
        u0.len() == pieces.len(),
        !u0[p],
        forall|m: int|
            0 <= m < pieces.len() ==> #[trigger] value_count(bf, (m + 1) as u32) as int
                == value_count(overlay(b0, l, x, rw), (m + 1) as u32) + (if u0.update(
                p,
                true,
            )[m] {
                0int
            } else {
                piece_area(pieces[m]) as int
            }),
    ensures
        forall|m: int|
            0 <= m < pieces.len() ==> #[trigger] value_count(bf, (m + 1) as u32) as int
                == value_count(b0, (m + 1) as u32) + (if u0[m] {
                0int
            } else {
                piece_area(pieces[m]) as int
            }),
{
    lemma_overlay_value_count(b0, l, x, rw, (p + 1) as u32);
    let ov = overlay(b0, l, x, rw);
    assert forall|m: int| 0 <= m < pieces.len() implies #[trigger] value_count(
        bf,
        (m + 1) as u32,
    ) as int == value_count(b0, (m + 1) as u32) + (if u0[m] {
        0int
    } else {
        piece_area(pieces[m]) as int
    }) by {
        assert(value_count(bf, (m + 1) as u32) as int == value_count(ov, (m + 1) as u32) + (
        if u0.update(p, true)[m] {
            0int
        } else {
            piece_area(pieces[m]) as int
        }));
        if m == p {
            assert(value_count(ov, (m + 1) as u32) == value_count(b0, (m + 1) as u32)
                + cell_count(l.values));
        } else {
            assert((m + 1) as u32 != 0 && (m + 1) as u32 != (p + 1) as u32);
            assert(value_count(ov, (m + 1) as u32) == value_count(b0, (m + 1) as u32));
        }
    }
}

/// The backtracking search. The result equals [`search_wins`]: true exactly
/// when the anchored search space still holds a way to place every unused
/// piece, so failure certifies exhaustion. On failure the board and the
/// used flags are exactly as they were; on success every piece is used and
/// the board has gained exactly the unused pieces' total area of occupied
/// cells, with every previously occupied cell untouched.
#[verifier::loop_isolation(false)]
#[verifier::rlimit(100)]
pub fn recurse(
    pieces: &Vec<Piece>,
    piece_count: usize,
    row: usize,
    pieces_used: &mut Vec<bool>,
    board: &mut Board,
) -> (found: bool)
    requires
        pieces_wf(pieces@),
        pieces_tagged(pieces@),
        pieces@.len() <= 8,
        old(pieces_used)@.len() == pieces@.len(),
        piece_count as int == num_true(old(pieces_used)@, pieces@.len() as int),
        old(board).wf(),
        row <= 7,
    ensures
        found == search_wins(
            orientation_lists(pieces@),
            old(pieces_used)@,
            old(board)@,
            row as int,
            (pieces@.len() - piece_count) as nat,
        ),
        final(pieces_used)@.len() == old(pieces_used)@.len(),
        final(board).wf(),
        !found ==> final(board)@ == old(board)@ && final(pieces_used)@ == old(pieces_used)@,
        found ==> (forall|i: int| 0 <= i < pieces@.len() ==> final(pieces_used)@[i]),
        found ==> cell_count(final(board)@) == cell_count(old(board)@) + unused_area(
            pieces@,
            old(pieces_used)@,
            pieces@.len() as int,
        ),
        found ==> forall|m: int|
            0 <= m < pieces@.len() ==> #[trigger] value_count(final(board)@, (m + 1) as u32)
                as int == value_count(old(board)@, (m + 1) as u32) + (if old(
                pieces_used,
            )@[m] {
                0int
            } else {
                piece_area(pieces@[m]) as int
            }),
        found ==> exists|mv: Seq<(int, int, int)>|
            mv.len() == (pieces@.len() - piece_count) as nat && #[trigger] play_ok(
                orientation_lists(pieces@),
                old(pieces_used)@,
                old(board)@,
                row as int,
                mv,
            ) && final(board)@ == play_board(
                orientation_lists(pieces@),
                old(board)@,
                row as int,
                mv,
            ),
        forall|i: int| 0 <= i < 49 && old(board)@[i] != 0 ==> final(board)@[i] == old(board)@[i],
        board_values_ok(old(board)@) ==> board_values_ok(final(board)@),
    decreases pieces@.len() - piece_count,
{
    let ghost ors = orientation_lists(pieces@);
    let ghost u0 = old(pieces_used)@;
    let ghost b0 = old(board)@;
    let ghost rw = row as int;
    let n = pieces.len();
    let ghost rem = (n - piece_count) as nat;
    proof {
        lemma_num_true_bound(pieces_used@, n as int);
        assert(ors.len() == n);
    }
    if piece_count >= n {
        proof {
            lemma_unused_area_all_used(pieces@, pieces_used@, n as int);
            assert(rem == 0);
            lemma_search_wins_zero(ors, u0, b0, rw);
            let mv = Seq::<(int, int, int)>::empty();
            assert(play_ok(ors, u0, b0, rw, mv));
            assert(board@ == play_board(ors, b0, rw, mv));
            assert forall|m: int| 0 <= m < n implies #[trigger] value_count(
                board@,
                (m + 1) as u32,
            ) as int == value_count(b0, (m + 1) as u32) + (if u0[m] {
                0int
            } else {
                piece_area(pieces@[m]) as int
            }) by {
                assert(u0[m]);
            }
        }
        return true;
    }
    proof {
        assert(rem >= 1);
    }

    for p in 0..n
        invariant
            pieces_used@ == u0,
            board@ == b0,
            board.wf(),
            forall|pp: int, oo: int, xx: int|
                pp < p ==> !(#[trigger] placement_wins(ors, u0, b0, rw, rem, pp, oo, xx)),
    {
        if !pieces_used[p] {
            proof {
                assert(piece_wf(pieces@[p as int]));
            }
            let piece = &pieces[p];
            let n_orients = piece.orientations.len();
            proof {
                assert(ors[p as int] == models(pieces@[p as int].orientations@));
                assert(ors[p as int].len() == n_orients);
            }
            for oi in 0..n_orients
                invariant
                    pieces_used@ == u0,
                    board@ == b0,
                    board.wf(),
                    p < n,
                    !u0[p as int],
                    piece == &pieces[p as int],
                    n_orients == piece.orientations.len(),
                    forall|oo: int, xx: int|
                        oo < oi ==> !(#[trigger] placement_wins(
                            ors,
                            u0,
                            b0,
                            rw,
                            rem,
                            p as int,
                            oo,
                            xx,
                        )),
            {
                let layout = &piece.orientations[oi];
                proof {
                    assert(models(piece.orientations@)[oi as int] == layout@);
                    assert(ors[p as int][oi as int] == layout@);
                    assert(layout_wf(layout@));
                    assert(cell_count(layout@.values) == piece_area(pieces@[p as int]));
                }
                let max_x = 7 - layout.width;
                for x in 0..max_x + 1
                    invariant
                        pieces_used@ == u0,
                        board@ == b0,
                        board.wf(),
                        p < n,
                        !u0[p as int],
                        piece == &pieces[p as int],
                        oi < piece.orientations.len(),
                        layout == &piece.orientations[oi as int],
                        ors[p as int][oi as int] == layout@,
                        layout_wf(layout@),
                        cell_count(layout@.values) == piece_area(pieces@[p as int]),
                        max_x + layout.width == 7,
                        forall|xx: int|
                            xx < x ==> !(#[trigger] placement_wins(
                                ors,
                                u0,
                                b0,
                                rw,
                                rem,
                                p as int,
                                oi as int,
                                xx,
                            )),
                {
                    let ghost b_before = board@;
                    if board.place_layout(layout, x, row) {
                        debug_print(piece_count, board);
                        let ghost used_before = pieces_used@;
                        pieces_used.set(p, true);
                        proof {
                            lemma_num_true_update(used_before, p as int, true, n as int);
                            lemma_unused_area_update(pieces@, used_before, p as int, n as int);
                        }

                        let ghost bscan = board@;
                        let mut next_row = row;
                        let mut scanning = true;
                        while scanning && next_row < 7
                            invariant
                                next_row <= 7,
                                bscan == board@,
                                next_open_row(bscan, rw) == next_open_row(bscan, next_row as int),
                                !scanning ==> next_row < 7 && !row_full(bscan, next_row as int),
                            decreases 7 - next_row, (if scanning {
                                1int
                            } else {
                                0int
                            }),
                        {
                            if board.row_filled(next_row) {
                                proof {
                                    assert(next_open_row(bscan, next_row as int) == next_open_row(
                                        bscan,
                                        next_row + 1,
                                    ));
                                }
                                next_row += 1;
                            } else {
                                scanning = false;
                            }
                        }
                        proof {
                            assert(next_open_row(bscan, next_row as int) == next_row as int);
                            assert(next_open_row(board@, rw) == next_row as int);
                        }

                        let sub = recurse(pieces, piece_count + 1, next_row, pieces_used, board);
                        proof {
                            assert(sub == search_wins(
                                ors,
                                u0.update(p as int, true),
                                overlay(b0, layout@, x as int, rw),
                                next_open_row(overlay(b0, layout@, x as int, rw), rw),
                                (rem - 1) as nat,
                            ));
                        }

                        if sub {
                            proof {
                                lemma_overlay_count(b_before, layout@, x as int, rw);
                                lemma_overlay_cells(b_before, layout@, x as int, rw);
                                assert(cells_zero_or(layout@.values, (p + 1) as u32));
                                lemma_value_counts_compose(
                                    pieces@,
                                    u0,
                                    b0,
                                    board@,
                                    layout@,
                                    p as int,
                                    x as int,
                                    rw,
                                );
                                let ov = overlay(b0, layout@, x as int, rw);
                                assert forall|i: int|
                                    0 <= i < 49 && b0[i] != 0 implies board@[i] == b0[i] by {
                                    assert(ov[i] == b0[i]);
                                }
                                assert(placement_wins(
                                    ors,
                                    u0,
                                    b0,
                                    rw,
                                    rem,
                                    p as int,
                                    oi as int,
                                    x as int,
                                ));
                                lemma_search_wins_intro(
                                    ors,
                                    u0,
                                    b0,
                                    rw,
                                    rem,
                                    p as int,
                                    oi as int,
                                    x as int,
                                );
                                let b2 = overlay(b0, layout@, x as int, rw);
                                let row2 = next_open_row(b2, rw);
                                let tail = choose|mv: Seq<(int, int, int)>|
                                    mv.len() == (n - (piece_count + 1)) as nat && #[trigger] play_ok(
                                        ors,
                                        u0.update(p as int, true),
                                        b2,
                                        row2,
                                        mv,
                                    ) && board@ == play_board(ors, b2, row2, mv);
                                lemma_play_extend(
                                    ors,
                                    u0,
                                    b0,
                                    rw,
                                    p as int,
                                    oi as int,
                                    x as int,
                                    tail,
                                );
                                let mvfull = seq![(p as int, oi as int, x as int)] + tail;
                                assert(mvfull.len() == rem);
                                assert(play_ok(ors, u0, b0, rw, mvfull));
                                assert(board@ == play_board(ors, b0, rw, mvfull));
                            }
                            return true;
                        }

                        proof {
                            lemma_overlay_covers(b_before, layout@, x as int, rw);
                            lemma_deduct_overlay(b_before, layout@, x as int, rw);
                        }
                        board.remove_layout(layout, x, row);
                        pieces_used.set(p, false);
                        proof {
                            assert(pieces_used@ =~= u0);
                            assert(board@ == b0);
                            assert(!placement_wins(
                                ors,
                                u0,
                                b0,
                                rw,
                                rem,
                                p as int,
                                oi as int,
                                x as int,
                            ));
                        }
                    } else {
                        proof {
                            assert(!placement_wins(
                                ors,
                                u0,
                                b0,
                                rw,
                                rem,
                                p as int,
                                oi as int,
                                x as int,
                            ));
                        }
                    }
                }
                proof {
                    assert forall|xx: int|
                        !(#[trigger] placement_wins(
                            ors,
                            u0,
                            b0,
                            rw,
                            rem,
                            p as int,
                            oi as int,
                            xx,
                        )) by {
                        if 0 <= xx <= max_x {
                        } else {
                            assert(!fits(layout@, xx, rw));
                        }
                    }
                }
            }
            proof {
                assert forall|oo: int, xx: int|
                    !(#[trigger] placement_wins(ors, u0, b0, rw, rem, p as int, oo, xx)) by {
                    if !(0 <= oo < n_orients) {
                        assert(ors[p as int].len() == n_orients);
                    }
                }
            }
        } else {
            proof {
                assert forall|oo: int, xx: int|
                    !(#[trigger] placement_wins(ors, u0, b0, rw, rem, p as int, oo, xx)) by {
                    assert(u0[p as int]);
                }
            }
        }
    }
    proof {
        lemma_search_exhausted(ors, u0, b0, rw, rem);
    }
    false
}

/// Solves the puzzle for one date: builds the board, runs the search with
/// the full catalog, and hands back whether a tiling was found together
/// with the final board. When a tiling was found the board is fully
/// covered: no open cell remains. A month or day out of range is rejected
/// before any search begins.
///
/// Whether a tiling is found is pinned exactly: the first component of the
/// result equals [`search_wins`] on the catalog's orientation lists and the
/// fresh board, so it is a function of the month and the day alone, and a
/// negative answer certifies that the anchored search space holds no
/// tiling.
pub fn solve(month: u32, day: u32) -> (r: Result<(bool, Board), PuzzleError>)
    ensures
        r is Ok <==> valid_date(month as int, day as int),
        r matches Ok(out) ==> out.0 == search_wins(
            catalog_orientations(),
            Seq::new(8, |i: int| false),
            start_board(month as int, day as int),
            0,
            8,
        ),
        r matches Ok(out) ==> out.1.wf(),
        r matches Ok(out) ==> (out.0 ==> forall|i: int|
            0 <= i < 49 ==> out.1@[i] != 0 && cell_value_ok(#[trigger] out.1@[i])),
        r matches Ok(out) ==> (out.0 ==> forall|v: u32|
            1 <= v <= 8 ==> #[trigger] value_count(out.1@, v) == if v == 2 {
                6nat
            } else {
                5nat
            }),
        r matches Ok(out) ==> (out.0 ==> exists|mv: Seq<(int, int, int)>|
            mv.len() == 8 && play_ok(
                catalog_orientations(),
                Seq::new(8, |i: int| false),
                start_board(month as int, day as int),
                0,
                mv,
            ) && out.1@ == #[trigger] play_board(
                catalog_orientations(),
                start_board(month as int, day as int),
                0,
                mv,
            )),
        r matches Ok(out) ==> forall|i: int|
            0 <= i < 49 && start_board(month as int, day as int)[i] != 0 ==> out.1@[i]
                == start_board(month as int, day as int)[i],
        r matches Ok(out) ==> (!out.0 ==> out.1@ == start_board(month as int, day as int)),
        r matches Err(e) ==> e == PuzzleError::InvalidInput,
{
    let pieces = all_pieces();
    let mut board = match Board::new(month, day) {
        Ok(b) => b,
        Err(e) => {
            return Err(e);
        },
    };
    let mut used: Vec<bool> = Vec::new();
    for i in 0..8usize
        invariant
            used@.len() == i,
            forall|k: int| 0 <= k < i ==> !used@[k],
    {
        used.push(false);
    }
    proof {
        lemma_num_true_none(used@, 8);
        assert(pieces_wf(pieces@));
    }
    let ghost used0 = used@;
    let ghost board0 = board@;
    proof {
        assert(orientation_lists(pieces@) =~= catalog_orientations()) by {
            assert forall|p: int|
                0 <= p < 8 implies orientation_lists(pieces@)[p] == catalog_orientations()[p] by {
                assert(models(pieces@[p].orientations@) == catalog_orientations()[p]);
            }
        }
        assert(used@ =~= Seq::new(8, |i: int| false));
    }
    let found = recurse(&pieces, 0, 0, &mut used, &mut board);
    proof {
        if found {
            lemma_catalog_covers_open_cells(pieces@, used0, month as int, day as int);
            lemma_start_board_count(month as int, day as int);
            assert(cell_count(board@) == 49);
            lemma_count_full(board@);
            let cat = catalog_orientations();
            let sb = start_board(month as int, day as int);
            let mv = choose|mv: Seq<(int, int, int)>|
                mv.len() == 8nat && #[trigger] play_ok(cat, used0, sb, 0, mv) && board@
                    == play_board(cat, sb, 0, mv);
            assert(play_ok(cat, Seq::new(8, |i: int| false), sb, 0, mv) && board@ == play_board(
                cat,
                sb,
                0,
                mv,
            ));
            lemma_start_board_values(month as int, day as int);
            assert forall|v: u32| 1 <= v <= 8 implies #[trigger] value_count(board@, v) == (if v
                == 2 {
                6nat
            } else {
                5nat
            }) by {
                let m = v as int - 1;
                assert(value_count(board@, (m + 1) as u32) as int == value_count(
                    board0,
                    (m + 1) as u32,
                ) + (if used0[m] {
                    0int
                } else {
                    piece_area(pieces@[m]) as int
                }));
                assert((m + 1) as u32 == v);
                assert(!used0[m]);
                assert(value_count(board0, v) == 0);
                assert(piece_area(pieces@[m]) == if m == 1 {
                    6nat
                } else {
                    5nat
                });
            }
        }
    }
    Ok((found, board))
}

} // verus!

