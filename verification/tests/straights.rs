use super_holdem::straight::{build_straight, mask_has};

fn mask(ranks: &[u16]) -> usize {
    ranks.iter().map(|r| 1usize << r).sum()
}

#[test]
fn table_covers_every_mask() {
    assert_eq!(build_straight().len(), 8192);
}

#[test]
fn straights_by_top_rank() {
    let t = build_straight();
    for top in 4..13u16 {
        assert_eq!(t[mask(&[top, top - 1, top - 2, top - 3, top - 4])], top as i8);
    }
}

#[test]
fn wheel_counts_as_five_high() {
    let t = build_straight();
    assert_eq!(t[mask(&[12, 0, 1, 2, 3])], 3);
    assert_eq!(t[mask(&[12, 0, 1, 2, 3, 4])], 4);
    assert_eq!(t[mask(&[12, 0, 1, 2, 3, 11, 10])], 3);
}

#[test]
fn highest_straight_wins() {
    let t = build_straight();
    assert_eq!(t[8191], 12);
    assert_eq!(t[mask(&[0, 1, 2, 3, 4, 5, 6])], 6);
    assert_eq!(t[mask(&[12, 11, 10, 9, 8, 4, 3, 2])], 12);
}

#[test]
fn no_straight() {
    let t = build_straight();
    assert_eq!(t[0], -1);
    assert_eq!(t[mask(&[0, 1, 2, 3])], -1);
    assert_eq!(t[mask(&[12, 11, 10, 9])], -1);
    assert_eq!(t[mask(&[11, 12, 0, 1, 2])], -1);
    assert_eq!(t[mask(&[0, 1, 2, 3, 5, 6, 7, 8])], -1);
}

#[test]
fn number_of_masks_with_a_straight() {
    let n = build_straight().iter().filter(|top| **top >= 0).count();
    let mut expected = 0;
    for m in 0..8192u16 {
        let row = (4..13u16).any(|t| (t - 4..t + 1).all(|r| mask_has(m, r)));
        let wheel = [12, 0, 1, 2, 3].iter().all(|r| mask_has(m, *r));
        if row || wheel {
            expected += 1;
        }
    }
    assert_eq!(n, expected);
}
