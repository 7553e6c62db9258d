use super_holdem::names::{card_str, hand_str, suit_type};
use super_holdem::suits::perms4;

#[test]
fn cards_by_rank_and_suit() {
    assert_eq!(card_str(0), "2♠");
    assert_eq!(card_str(13), "5♥");
    assert_eq!(card_str(34), "T♦");
    assert_eq!(card_str(39), "J♣");
    assert_eq!(card_str(48), "A♠");
    assert_eq!(card_str(51), "A♣");
}

#[test]
fn cards_have_different_names() {
    for c in 0..52 {
        for d in 0..c {
            assert_ne!(card_str(c), card_str(d));
        }
    }
}

#[test]
fn hands_highest_card_first() {
    assert_eq!(hand_str([0, 5, 10]), "4♦3♥2♠");
    assert_eq!(hand_str([10, 0, 5]), "4♦3♥2♠");
    assert_eq!(hand_str([48, 49, 50]), "A♦A♥A♠");
    assert_eq!(hand_str([44, 43, 38]), "K♠Q♣J♦");
}

#[test]
fn suit_types() {
    assert_eq!(suit_type([0, 1, 2]), "trips");
    assert_eq!(suit_type([0, 1, 4]), "pair-suited");
    assert_eq!(suit_type([0, 1, 6]), "pair-offsuit");
    assert_eq!(suit_type([0, 4, 5]), "pair-suited");
    assert_eq!(suit_type([0, 5, 6]), "pair-offsuit");
    assert_eq!(suit_type([0, 4, 1]), "pair-suited");
    assert_eq!(suit_type([0, 6, 1]), "pair-offsuit");
    assert_eq!(suit_type([0, 4, 8]), "monotone");
    assert_eq!(suit_type([0, 4, 9]), "two-tone");
    assert_eq!(suit_type([0, 5, 8]), "two-tone");
    assert_eq!(suit_type([0, 5, 9]), "two-tone");
    assert_eq!(suit_type([0, 5, 10]), "rainbow");
    assert_eq!(suit_type([252, 253, 254]), "trips");
}

#[test]
fn suit_type_survives_renaming() {
    for h in [[0u8, 1, 2], [0, 1, 4], [0, 1, 6], [0, 4, 8], [0, 4, 9], [0, 5, 10]] {
        for p in perms4() {
            assert_eq!(suit_type(h.map(|c| c / 4 * 4 + p[(c % 4) as usize])), suit_type(h));
        }
    }
}

#[test]
fn hands_of_each_suit_type() {
    let names = ["trips", "pair-suited", "pair-offsuit", "monotone", "two-tone", "rainbow"];
    let mut counts = [0u32; 6];
    for i in 0..52u8 {
        for j in i + 1..52 {
            for k in j + 1..52 {
                let t = suit_type([i, j, k]);
                counts[names.iter().position(|n| *n == t).unwrap()] += 1;
            }
        }
    }
    assert_eq!(counts, [52, 1872, 1872, 1144, 10296, 6864]);
}
