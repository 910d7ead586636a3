use calendar_puzzle::all_pieces;
use calendar_puzzle::Layout;

fn count_cells(layout: &Layout) -> usize {
    layout.values.iter().filter(|v| **v != 0).count()
}

#[test]
fn every_piece_has_one_to_eight_orientations() {
    let pieces = all_pieces();
    assert_eq!(pieces.len(), 8);
    for piece in &pieces {
        assert!(piece.orientations.len() >= 1);
        assert!(piece.orientations.len() <= 8);
    }
}

#[test]
fn asymmetric_piece_yields_eight_orientations() {
    let pieces = all_pieces();
    // The third piece (an L of five cells) has no rotational or mirror
    // symmetry, so all eight candidates survive deduplication.
    assert_eq!(pieces[2].orientations.len(), 8);
}

#[test]
fn rectangle_piece_yields_two_orientations() {
    let pieces = all_pieces();
    // The 3x2 rectangle is symmetric under a half turn and under mirroring:
    // only the upright and the quarter-turned rectangle remain.
    assert_eq!(pieces[1].orientations.len(), 2);
}

#[test]
fn mirror_symmetric_piece_yields_at_most_four() {
    let pieces = all_pieces();
    // The U-shaped piece equals its own mirror image, so only the four
    // rotations remain.
    assert_eq!(pieces[6].orientations.len(), 4);
}

#[test]
fn orientation_dimensions_swap_on_quarter_turns() {
    let pieces = all_pieces();
    for piece in &pieces {
        let w0 = pieces[0].orientations[0].width;
        let h0 = pieces[0].orientations[0].height;
        assert!(w0 >= 1 && h0 >= 1);
        for layout in &piece.orientations {
            assert!(layout.width >= 1 && layout.width <= 4);
            assert!(layout.height >= 1 && layout.height <= 4);
            assert_eq!(layout.values.len(), 16);
        }
    }
}

#[test]
fn orientation_areas_are_rotation_invariant() {
    let pieces = all_pieces();
    for (p, piece) in pieces.iter().enumerate() {
        let expected = if p == 1 { 6 } else { 5 };
        for layout in &piece.orientations {
            assert_eq!(count_cells(layout), expected);
        }
    }
}

#[test]
fn orientation_cells_carry_the_piece_multiplier() {
    let pieces = all_pieces();
    for (p, piece) in pieces.iter().enumerate() {
        let multiplier = (p + 1) as u32;
        for layout in &piece.orientations {
            for v in &layout.values {
                assert!(*v == 0 || *v == multiplier);
            }
        }
    }
}

#[test]
fn orientations_of_a_piece_are_pairwise_distinct() {
    let pieces = all_pieces();
    for piece in &pieces {
        let n = piece.orientations.len();
        for i in 0..n {
            for j in (i + 1)..n {
                let a = &piece.orientations[i];
                let b = &piece.orientations[j];
                let same = a.width == b.width && a.height == b.height && a.values == b.values;
                assert!(!same);
            }
        }
    }
}

#[test]
fn orientation_cells_stay_inside_the_bounding_box() {
    let pieces = all_pieces();
    for piece in &pieces {
        for layout in &piece.orientations {
            for y in 0..4 {
                for x in 0..4 {
                    if y >= layout.height || x >= layout.width {
                        assert_eq!(layout.values[4 * y + x], 0);
                    }
                }
            }
        }
    }
}

#[test]
fn orientation_counts_match_piece_symmetries() {
    let pieces = all_pieces();
    // In catalog order: Y (chiral, 8), the full rectangle (2), L (chiral,
    // 8), V (mirror equals a rotation, 4), N (chiral, 8), P (chiral, 8),
    // U (mirror symmetric, 4), Z (half-turn symmetric and chiral, 4).
    let expected = [8, 2, 8, 4, 8, 8, 4, 4];
    for (piece, want) in pieces.iter().zip(expected.iter()) {
        assert_eq!(piece.orientations.len(), *want);
    }
}
