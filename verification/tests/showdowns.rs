use super_holdem::equity::{showdowns, Counts};
use super_holdem::score::score;
use super_holdem::state::St;
use super_holdem::straight::build_straight;
use super_holdem::suits::perms4;

fn counts(hero: [u8; 3], board: [u8; 5]) -> (u64, u64, u64) {
    let n = showdowns(hero, board, &build_straight());
    (n.win, n.tie, n.tot)
}

#[test]
fn set_of_aces_on_a_connected_board() {
    assert_eq!(counts([48, 49, 50], [44, 41, 38, 31, 0]), (9611, 0, 13244));
}

#[test]
fn low_pair() {
    assert_eq!(counts([0, 5, 10], [44, 41, 38, 31, 1]), (1760, 402, 13244));
}

#[test]
fn royal_flush_beats_all() {
    assert_eq!(counts([48, 44, 40], [36, 32, 1, 6, 11]), (13244, 0, 13244));
}

#[test]
fn royal_flush_on_the_board_ties_all() {
    assert_eq!(counts([0, 5, 10], [49, 45, 41, 37, 33]), (0, 13244, 13244));
}

#[test]
fn top_set() {
    assert_eq!(counts([44, 45, 22], [46, 48, 40, 28, 3]), (11089, 0, 13244));
}

#[test]
fn two_fours_of_a_kind() {
    assert_eq!(counts([48, 50, 3], [49, 51, 0, 1, 2]), (13243, 0, 13244));
}

#[test]
fn straight_on_a_paired_board() {
    assert_eq!(counts([28, 25, 23], [34, 16, 3, 1, 46]), (11773, 26, 13244));
}

#[test]
fn full_house_where_a_flush_is_possible() {
    assert_eq!(counts([48, 44, 40], [28, 0, 49, 50, 45]), (13158, 83, 13244));
}

#[test]
fn low_flush_on_a_paired_board() {
    assert_eq!(counts([0, 5, 10], [48, 49, 44, 40, 36]), (6249, 0, 13244));
}

#[test]
fn counts_compare() {
    let n = showdowns([0, 5, 10], [49, 45, 41, 37, 33], &build_straight());
    assert_eq!(n, Counts { win: 0, tie: 13244, tot: 13244 });
}

#[test]
fn renaming_suits_changes_no_count() {
    let hero = [28u8, 25, 23];
    let board = [34u8, 16, 3, 1, 46];
    for p in perms4() {
        let f = |c: u8| c / 4 * 4 + p[(c % 4) as usize];
        assert_eq!(counts(hero.map(f), board.map(f)), (11773, 26, 13244));
    }
}

#[test]
fn reordering_cards_changes_no_count() {
    assert_eq!(counts([23, 28, 25], [46, 1, 3, 16, 34]), (11773, 26, 13244));
}

#[test]
fn points_of_both_sides_add_up() {
    let t = build_straight();
    let board = [34u8, 16, 3, 1, 46];
    let value = |h: [u8; 3]| {
        let mut st = St::new();
        for c in board {
            st.add(c);
        }
        for c in h {
            st.add(c);
        }
        score(&st, &t)
    };
    let hands = [[28u8, 25, 23], [48, 49, 50], [0, 2, 51], [4, 5, 6], [44, 45, 47], [8, 13, 18]];
    let mut points = 0;
    let mut deals = 0;
    for a in hands {
        for b in hands {
            if a != b {
                deals += 1;
                if value(a) > value(b) {
                    points += 2;
                } else if value(a) == value(b) {
                    points += 1;
                }
            }
        }
    }
    assert_eq!(points, deals);
}
