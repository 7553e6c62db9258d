use super_holdem::score::{score, P0, P1, P2, P3, P4, P5};
use super_holdem::state::St;
use super_holdem::straight::build_straight;

fn cards(text: &str) -> Vec<u8> {
    let t: Vec<char> = text.chars().collect();
    t.chunks(2)
        .map(|c| {
            let r = "23456789TJQKA".find(c[0]).unwrap() as u8;
            let s = "shdc".find(c[1]).unwrap() as u8;
            4 * r + s
        })
        .collect()
}

fn state(hand: &[u8]) -> St {
    let mut st = St::new();
    for c in hand {
        st.add(*c);
    }
    st
}

fn value(text: &str) -> i32 {
    score(&state(&cards(text)), &build_straight())
}

fn best_five(hand: &[u8]) -> i32 {
    let t = build_straight();
    let n = hand.len();
    let mut best = -1;
    for set in 0..1u32 << n {
        if set.count_ones() == 5 {
            let five: Vec<u8> = (0..n).filter(|i| set >> i & 1 == 1).map(|i| hand[i]).collect();
            best = best.max(score(&state(&five), &t));
        }
    }
    best
}

#[test]
fn weights_are_powers_of_fifteen() {
    assert_eq!([P0, P1, P2, P3, P4, P5], [1, 15, 225, 3375, 50625, 759375]);
}

#[test]
fn tally_of_two_cards() {
    let st = state(&cards("AsAh"));
    assert_eq!(st.f, [0, 0, 0, 0, 0, 0, 0, 0, 0, 0, 0, 0, 2]);
    assert_eq!(st.sm, [4096, 4096, 0, 0]);
    assert_eq!(st.sc, [1, 1, 0, 0]);
    assert_eq!(st.rm, 4096);
}

#[test]
fn tally_of_no_cards() {
    let st = St::new();
    assert_eq!(st.f, [0; 13]);
    assert_eq!(st.sm, [0; 4]);
    assert_eq!(st.sc, [0; 4]);
    assert_eq!(st.rm, 0);
}

#[test]
fn straight_flush() {
    assert_eq!(value("AsKsQsJsTs2h3d4c"), 8 * P5 + 12 * P4);
    assert_eq!(value("5s4s3s2sAsKhKd9c"), 6226875);
}

#[test]
fn four_of_a_kind() {
    assert_eq!(value("AsAhAdAc2s3h4d9c"), 7 * P5 + 12 * P4 + 7 * P3);
    assert_eq!(value("AsAhAdAc"), 5919750);
}

#[test]
fn full_house() {
    assert_eq!(value("AsAhAdKcKsQhQd2c"), 5200875);
    assert_eq!(value("3s3h3d2c2s2hQdKc"), 6 * P5 + P4);
}

#[test]
fn flush() {
    assert_eq!(value("AsKsQs9s2s4h5d7c"), 4443855);
}

#[test]
fn straight() {
    assert_eq!(value("AsKhQdJcTs2h2d2c"), 3645000);
    assert_eq!(value("As2h3d4c5s9h9dKc"), 4 * P5 + 3 * P4);
}

#[test]
fn three_of_a_kind() {
    assert_eq!(value("AsKhQd9cTs2h2d2c"), 2321100);
    assert_eq!(value("AsAhAd"), 2882025);
}

#[test]
fn two_pair() {
    assert_eq!(value("AsAhKdKcQs2h3d5c"), 2165625);
    assert_eq!(value("AsAhKdKcQsQh3d3c"), 2 * P5 + 12 * P4 + 11 * P3 + 10 * P2);
}

#[test]
fn one_pair() {
    assert_eq!(value("AsAhKdJc9s7h5d3c"), 1406130);
    assert_eq!(value("AsAh"), 1363260);
}

#[test]
fn high_card() {
    assert_eq!(value("AsQhTd8c6s4h2d3c"), 643144);
    assert_eq!(value(""), 0);
}

#[test]
fn four_of_a_kind_and_full_house_beat_a_flush() {
    assert_eq!(value("AsKsQsJs9sAhAdAc"), 5960250);
    assert_eq!(value("AsKsQs9s2sAhAdAc"), 7 * P5 + 12 * P4 + 11 * P3);
    assert_eq!(value("AsKsQs9s2sAhAdKh"), 6 * P5 + 12 * P4 + 11 * P3);
    assert_eq!(value("AsKsQsJsTsAhAdAc"), 8 * P5 + 12 * P4);
}

#[test]
fn higher_of_two_fours_is_taken() {
    assert_eq!(value("AsAhAdAcKsKhKdKc"), 5960250);
    assert_eq!(value("AsAhAdAc2s2h2d2c"), 7 * P5 + 12 * P4);
}

#[test]
fn full_house_takes_the_higher_of_a_second_three_and_a_pair() {
    assert_eq!(value("AsAhAd2s2h2dKsKh"), 5200875);
    assert_eq!(value("AsAhAdKsKhKd2s2h"), 5200875);
}

#[test]
fn score_is_that_of_the_best_five() {
    for text in [
        "AsKsQsJsTs2h3d4c",
        "9s8s7s6s5sAsAhAd",
        "AsAhAdAc2s3h4d9c",
        "AsAhAdKcKsQhQd2c",
        "3s3h3d5c5s5hAd2c",
        "AsKsQs9s2s4s5d7c",
        "AsKhQdJcTs2h2d2c",
        "AsKhQd9cTs2h2d2c",
        "AsAhKdKcQsQh3d3c",
        "AsAhKdJc9s7h5d3c",
        "AsQhTd8c6s4h2d3c",
        "AsKsQsJs9sAhAdAc",
        "AsKsQs9s2sAhAdKh",
        "AsAhAdAcKsKhKdKc",
        "AsAhAd2s2h2dKsKh",
        "AsQhTd8c6s",
        "KsKhTd8c6s",
        "KsKhTdTc6s4d",
        "2s3h4d5c7s9hJd",
    ] {
        let hand = cards(text);
        assert_eq!(score(&state(&hand), &build_straight()), best_five(&hand), "{}", text);
    }
}

#[test]
fn score_is_that_of_the_best_five_of_many_hands() {
    let t = build_straight();
    let mut seed: u64 = 1;
    for round in 0..600 {
        let low = if round % 2 == 0 { 0 } else { 36 };
        let mut hand: Vec<u8> = Vec::new();
        while hand.len() < 8 {
            seed = seed.wrapping_mul(6364136223846793005).wrapping_add(1442695040888963407);
            let c = low + ((seed >> 33) % (52 - low as u64)) as u8;
            if !hand.contains(&c) {
                hand.push(c);
            }
        }
        let mut best = -1;
        for i in 0..8 {
            for j in i + 1..8 {
                for k in j + 1..8 {
                    let five: Vec<u8> = (0..8)
                        .filter(|x| *x != i && *x != j && *x != k)
                        .map(|x| hand[x])
                        .collect();
                    best = best.max(score(&state(&five), &t));
                }
            }
        }
        assert_eq!(score(&state(&hand), &t), best, "{:?}", hand);
    }
}

#[test]
fn categories_are_ordered() {
    let strongest_first = [
        "6s5s4s3s2s",
        "AsAhAdAcKs",
        "2s2h2d2c3s",
        "AsAhAdKcKs",
        "2s2h2d3c3s",
        "AsKsQsJs9s",
        "7s5s4s3s2s",
        "AsKhQdJcTs",
        "As2h3d4c5s",
        "AsAhAdKcQs",
        "2s2h2d3c4s",
        "AsAhKdKcQs",
        "3s3h2d2c4s",
        "AsAhKdQcJs",
        "2s2h3d4c5s",
        "AsKhQdJc9s",
        "7s5h4d3c2s",
    ];
    for pair in strongest_first.windows(2) {
        assert!(value(pair[0]) > value(pair[1]), "{} {}", pair[0], pair[1]);
    }
}

#[test]
fn score_ignores_order_and_suit_names() {
    for text in ["AsKsQs9s2s4h5d7c", "AsAhKdKcQs2h3d5c", "5s4s3s2sAsKhKd9c"] {
        let mut hand = cards(text);
        let v = value(text);
        hand.reverse();
        assert_eq!(score(&state(&hand), &build_straight()), v);
        for p in super_holdem::suits::perms4() {
            let renamed: Vec<u8> = hand.iter().map(|c| c / 4 * 4 + p[(c % 4) as usize]).collect();
            assert_eq!(score(&state(&renamed), &build_straight()), v);
        }
    }
}

#[test]
fn five_cards_tie_by_ranks_and_flush() {
    let hands = [
        "AsKsQsJs9s", "AhKhQhJh9h", "AsKsQsJs9h", "AdKcQhJs9d", "AsKsQsJsTs", "AcKcQcJcTc",
        "AsKhQsJsTs", "As2h3d4c5s", "Ad2d3d4d5d", "2s2h2d2c3s", "2s2h2d2c3h", "2s2h2d3c3s",
        "2c2h2d3h3s", "2s2h3d3c4s", "2d2c3s3h4d", "2s2h3d3c5s", "AsAhKdQcJs", "AdAcKsQhJd",
    ];
    let all_one_suit = |h: &[u8]| h.iter().all(|c| c % 4 == h[0] % 4);
    for a in hands {
        for b in hands {
            let (x, y) = (cards(a), cards(b));
            let alike = state(&x).f == state(&y).f && all_one_suit(&x) == all_one_suit(&y);
            assert_eq!(value(a) == value(b), alike, "{} {}", a, b);
        }
    }
}

#[test]
fn leading_digit_is_the_category() {
    let by_category = [
        "7s5h4d3c2s", "2s2h3d4c5s", "3s3h2d2c4s", "2s2h2d3c4s", "As2h3d4c5s", "7s5s4s3s2s",
        "2s2h2d3c3s", "2s2h2d2c3s", "As2s3s4s5s",
    ];
    for (n, text) in by_category.iter().enumerate() {
        assert_eq!(value(text) / P5, n as i32, "{}", text);
    }
}
