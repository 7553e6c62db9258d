//! What a score says of five cards: poker strength, card by card.
//!
//! A card `c` has rank `c / 4`, from 0 for a deuce to 12 for an ace, and suit `c % 4`. The laws here
//! take five cards in a given order; [`crate::tallies::score_reordered`] takes them to any order,
//! and [`crate::best::score_is_best`] to more than five cards.
use crate::equity::{distinct_cards, hand_score, tally, tally_bounds};
use crate::holdings::{card, held, tally_holds};
use crate::patterns::{shows, tally_sound, Pattern};
use crate::score::flush_suit;
use crate::state::has_rank;
use crate::straight::{is_straight, straight_table};
use crate::ties::{no_straight, shown_scores, suit_shows};
use vstd::prelude::*;

verus! {

/// One where a card has rank `r`, zero where it has not.
pub open spec fn of_rank(c: u8, r: int) -> int {
    if c as int / 4 == r {
        1
    } else {
        0
    }
}

/// One where a card has suit `s`, zero where it has not.
pub open spec fn of_suit(c: u8, s: int) -> int {
    if c as int % 4 == s {
        1
    } else {
        0
    }
}

/// The tally of five cards counts their ranks and suits.
proof fn five_tally(x: Seq<u8>)
    requires
        distinct_cards(x),
        x.len() == 5,
    ensures
        forall|r: int|
            0 <= r < 13 ==> #[trigger] tally(x).f[r] == of_rank(x[0], r) + of_rank(x[1], r)
                + of_rank(x[2], r) + of_rank(x[3], r) + of_rank(x[4], r),
        forall|s: int|
            0 <= s < 4 ==> #[trigger] tally(x).sc[s] == of_suit(x[0], s) + of_suit(x[1], s)
                + of_suit(x[2], s) + of_suit(x[3], s) + of_suit(x[4], s),
        forall|i: int|
            0 <= i < 5 ==> has_rank(tally(x).rm, #[trigger] x[i] as int / 4),
{
    assert(x[0] < 52 && x[1] < 52 && x[2] < 52 && x[3] < 52 && x[4] < 52);
    assert(x.take(0) =~= seq![]);
    tally_step(x, 0, 1);
    tally_step(x, 1, 2);
    tally_step(x, 2, 3);
    tally_step(x, 3, 4);
    tally_step(x, 4, 5);
    assert(x.take(5) =~= x);
    assert forall|r: int| 0 <= r < 13 implies #[trigger] tally(x).f[r] == of_rank(x[0], r)
        + of_rank(x[1], r) + of_rank(x[2], r) + of_rank(x[3], r) + of_rank(x[4], r) by {
        assert(tally(x.take(5)).f[r] == tally(x.take(4)).f[r] + of_rank(x[4], r));
        assert(tally(x.take(4)).f[r] == tally(x.take(3)).f[r] + of_rank(x[3], r));
        assert(tally(x.take(3)).f[r] == tally(x.take(2)).f[r] + of_rank(x[2], r));
        assert(tally(x.take(2)).f[r] == tally(x.take(1)).f[r] + of_rank(x[1], r));
        assert(tally(x.take(1)).f[r] == tally(x.take(0)).f[r] + of_rank(x[0], r));
    }
    assert forall|s: int| 0 <= s < 4 implies #[trigger] tally(x).sc[s] == of_suit(x[0], s)
        + of_suit(x[1], s) + of_suit(x[2], s) + of_suit(x[3], s) + of_suit(x[4], s) by {
        assert(tally(x.take(5)).sc[s] == tally(x.take(4)).sc[s] + of_suit(x[4], s));
        assert(tally(x.take(4)).sc[s] == tally(x.take(3)).sc[s] + of_suit(x[3], s));
        assert(tally(x.take(3)).sc[s] == tally(x.take(2)).sc[s] + of_suit(x[2], s));
        assert(tally(x.take(2)).sc[s] == tally(x.take(1)).sc[s] + of_suit(x[1], s));
        assert(tally(x.take(1)).sc[s] == tally(x.take(0)).sc[s] + of_suit(x[0], s));
    }
    five_ranks_held(x);
}

/// One more card counts one more of its rank and its suit.
pub(crate) proof fn tally_step(x: Seq<u8>, n: int, m: int)
    requires
        distinct_cards(x),
        0 <= n < x.len(),
        m == n + 1,
    ensures
        forall|r: int|
            0 <= r < 13 ==> #[trigger] tally(x.take(m)).f[r] == tally(x.take(n)).f[r] + of_rank(
                x[n],
                r,
            ),
        forall|s: int|
            0 <= s < 4 ==> #[trigger] tally(x.take(m)).sc[s] == tally(x.take(n)).sc[s]
                + of_suit(x[n], s),
{
    let w = x.take(n);
    assert(x.take(m).drop_last() =~= w);
    assert(x.take(m).last() == x[n]);
    assert(x[n] < 52);
    tally_bounds(w);
}

/// The ranks of cards are among those of their tally.
proof fn five_ranks_held(x: Seq<u8>)
    requires
        distinct_cards(x),
        x.len() == 5,
    ensures
        forall|i: int| 0 <= i < 5 ==> has_rank(tally(x).rm, #[trigger] x[i] as int / 4),
{
    tally_sound(x);
    tally_holds(x);
    assert forall|i: int| 0 <= i < 5 implies has_rank(
        tally(x).rm,
        #[trigger] x[i] as int / 4,
    ) by {
        let (r, s) = (x[i] as int / 4, x[i] as int % 4);
        assert(x[i] < 52);
        assert(card(r, s) == x[i]);
        assert(held(x, r, s) == 1);
        assert(tally(x).f[r] > 0);
    }
}

/// Four of a kind: the rank held four times counts before the fifth card.
pub proof fn four_of_a_kind_score(x: Seq<u8>, q: int, k: int)
    requires
        distinct_cards(x),
        x.len() == 5,
        x[0] as int / 4 == q && x[1] as int / 4 == q && x[2] as int / 4 == q && x[3] as int / 4
            == q,
        x[4] as int / 4 == k,
    ensures
        hand_score(x, straight_table()) == 7 * 759375 + q * 50625 + k * 3375,
{
    five_tally(x);
    assert(x[4] < 52 && x[0] < 52);
    five_of_one_rank(x, q);
    shown_scores(x, Pattern::Quads { q, k });
}

/// There are only four cards of a rank.
proof fn five_of_one_rank(x: Seq<u8>, q: int)
    requires
        distinct_cards(x),
        x.len() == 5,
        x[0] as int / 4 == q && x[1] as int / 4 == q && x[2] as int / 4 == q && x[3] as int / 4
            == q,
    ensures
        x[4] as int / 4 != q,
{
    assert(x[0] != x[1] && x[0] != x[2] && x[0] != x[3] && x[0] != x[4] && x[1] != x[2] && x[1]
        != x[3] && x[1] != x[4] && x[2] != x[3] && x[2] != x[4] && x[3] != x[4]);
}

/// Full house: the rank held three times counts before the rank held twice.
pub proof fn full_house_score(x: Seq<u8>, t: int, p: int)
    requires
        distinct_cards(x),
        x.len() == 5,
        x[0] as int / 4 == t && x[1] as int / 4 == t && x[2] as int / 4 == t,
        x[3] as int / 4 == p && x[4] as int / 4 == p,
        t != p,
    ensures
        hand_score(x, straight_table()) == 6 * 759375 + t * 50625 + p * 3375,
{
    five_tally(x);
    assert(x[0] < 52 && x[4] < 52);
    shown_scores(x, Pattern::FullHouse { t, p });
}

/// Three of a kind: the rank held three times counts first, then the others from the highest.
pub proof fn three_of_a_kind_score(x: Seq<u8>, t: int, a: int, b: int)
    requires
        distinct_cards(x),
        x.len() == 5,
        x[0] as int / 4 == t && x[1] as int / 4 == t && x[2] as int / 4 == t,
        x[3] as int / 4 == a && x[4] as int / 4 == b,
        a > b && a != t && b != t,
    ensures
        hand_score(x, straight_table()) == 3 * 759375 + t * 50625 + a * 3375 + b * 225,
{
    five_tally(x);
    assert(x[0] < 52 && x[3] < 52 && x[4] < 52);
    shown_scores(x, Pattern::Trips { t, a, b });
}

/// Two pair: the higher pair counts first, then the lower, then the fifth card.
pub proof fn two_pair_score(x: Seq<u8>, p: int, q: int, k: int)
    requires
        distinct_cards(x),
        x.len() == 5,
        x[0] as int / 4 == p && x[1] as int / 4 == p,
        x[2] as int / 4 == q && x[3] as int / 4 == q,
        x[4] as int / 4 == k,
        p > q && k != p && k != q,
    ensures
        hand_score(x, straight_table()) == 2 * 759375 + p * 50625 + q * 3375 + k * 225,
{
    five_tally(x);
    assert(x[0] < 52 && x[2] < 52 && x[4] < 52);
    shown_scores(x, Pattern::TwoPair { p, q, k });
}

/// One pair: the pair counts first, then the others from the highest.
pub proof fn one_pair_score(x: Seq<u8>, p: int, a: int, b: int, c: int)
    requires
        distinct_cards(x),
        x.len() == 5,
        x[0] as int / 4 == p && x[1] as int / 4 == p,
        x[2] as int / 4 == a && x[3] as int / 4 == b && x[4] as int / 4 == c,
        a > b > c && a != p && b != p && c != p,
    ensures
        hand_score(x, straight_table()) == 759375 + p * 50625 + a * 3375 + b * 225 + c * 15,
{
    five_tally(x);
    assert(x[0] < 52 && x[2] < 52 && x[3] < 52 && x[4] < 52);
    shown_scores(x, Pattern::Pair { p, a, b, c });
}

/// Whether five cards have one suit.
proof fn suits_alike(x: Seq<u8>)
    requires
        distinct_cards(x),
        x.len() == 5,
    ensures
        flush_suit(tally(x).sc) < 4 <==> x[0] as int % 4 == x[1] as int % 4 && x[0] as int % 4
            == x[2] as int % 4 && x[0] as int % 4 == x[3] as int % 4 && x[0] as int % 4 == x[4] as int
            % 4,
{
    five_tally(x);
    let s = x[0] as int % 4;
    assert(0 <= s < 4);
    assert(tally(x).sc[s] == of_suit(x[0], s) + of_suit(x[1], s) + of_suit(x[2], s) + of_suit(
        x[3],
        s,
    ) + of_suit(x[4], s));
}

proof fn high_shown(x: Seq<u8>)
    requires
        distinct_cards(x),
        x.len() == 5,
        x[0] as int / 4 > x[1] as int / 4 > x[2] as int / 4 > x[3] as int / 4 > x[4] as int / 4,
    ensures
        shows(
            tally(x),
            (Pattern::High {
                a: x[0] as int / 4,
                b: x[1] as int / 4,
                c: x[2] as int / 4,
                d: x[3] as int / 4,
                e: x[4] as int / 4,
            }),
        ),
{
    five_tally(x);
    assert(x[0] < 52);
}

/// High card: the ranks count from the highest.
pub proof fn high_card_score(x: Seq<u8>, a: int, b: int, c: int, d: int, e: int)
    requires
        distinct_cards(x),
        x.len() == 5,
        x[0] as int / 4 == a && x[1] as int / 4 == b && x[2] as int / 4 == c && x[3] as int / 4 == d
            && x[4] as int / 4 == e,
        a > b > c > d > e,
        a - e != 4,
        !(a == 12 && b == 3),
        !(x[0] as int % 4 == x[1] as int % 4 && x[0] as int % 4 == x[2] as int % 4 && x[0] as int % 4
            == x[3] as int % 4 && x[0] as int % 4 == x[4] as int % 4),
    ensures
        hand_score(x, straight_table()) == a * 50625 + b * 3375 + c * 225 + d * 15 + e,
{
    suits_alike(x);
    high_shown(x);
    no_straight(x, a, b, c, d, e);
    shown_scores(x, Pattern::High { a, b, c, d, e });
}

/// Flush: the ranks count from the highest.
pub proof fn flush_score(x: Seq<u8>, a: int, b: int, c: int, d: int, e: int)
    requires
        distinct_cards(x),
        x.len() == 5,
        x[0] as int / 4 == a && x[1] as int / 4 == b && x[2] as int / 4 == c && x[3] as int / 4 == d
            && x[4] as int / 4 == e,
        a > b > c > d > e,
        a - e != 4,
        !(a == 12 && b == 3),
        x[0] as int % 4 == x[1] as int % 4 && x[0] as int % 4 == x[2] as int % 4 && x[0] as int % 4
            == x[3] as int % 4 && x[0] as int % 4 == x[4] as int % 4,
    ensures
        hand_score(x, straight_table()) == 5 * 759375 + a * 50625 + b * 3375 + c * 225 + d * 15 + e,
{
    suits_alike(x);
    high_shown(x);
    no_straight(x, a, b, c, d, e);
    let s = flush_suit(tally(x).sc);
    let ks = seq![a, b, c, d, e];
    let h = Pattern::High { a, b, c, d, e };
    assert(shows(tally(x), h));
    suit_shows(x, ks);
    shown_scores(x, Pattern::Flush { s, a, b, c, d, e });
}

/// Five ranks in a row, or ace to five with the five on top, make the straight of their top rank.
proof fn straight_held(x: Seq<u8>, top: int)
    requires
        distinct_cards(x),
        x.len() == 5,
        x[0] as int / 4 == top,
        x[1] as int / 4 == top - 1 && x[2] as int / 4 == top - 2 && x[3] as int / 4 == top - 3,
        x[4] as int / 4 == (if top == 3 {
            12
        } else {
            top - 4
        }),
    ensures
        is_straight(tally(x).rm, top),
        forall|i: int| 0 <= i < 5 ==> tally(x).f[#[trigger] x[i] as int / 4] >= 1,
{
    five_tally(x);
    assert(has_rank(tally(x).rm, x[0] as int / 4) && has_rank(tally(x).rm, x[1] as int / 4)
        && has_rank(tally(x).rm, x[2] as int / 4) && has_rank(tally(x).rm, x[3] as int / 4)
        && has_rank(tally(x).rm, x[4] as int / 4));
    assert(x[0] < 52 && x[4] < 52);
    assert forall|i: int| 0 <= i < 5 implies tally(x).f[#[trigger] x[i] as int / 4] >= 1 by {
        assert(x[i] < 52);
        let r = x[i] as int / 4;
        assert(i == 0 || i == 1 || i == 2 || i == 3 || i == 4);
        assert(tally(x).f[r] == of_rank(x[0], r) + of_rank(x[1], r) + of_rank(x[2], r) + of_rank(
            x[3],
            r,
        ) + of_rank(x[4], r));
    }
}

/// Straight: the top rank counts; of ace to five that is the five.
pub proof fn straight_score(x: Seq<u8>, top: int)
    requires
        distinct_cards(x),
        x.len() == 5,
        x[0] as int / 4 == top,
        x[1] as int / 4 == top - 1 && x[2] as int / 4 == top - 2 && x[3] as int / 4 == top - 3,
        x[4] as int / 4 == (if top == 3 {
            12
        } else {
            top - 4
        }),
        !(x[0] as int % 4 == x[1] as int % 4 && x[0] as int % 4 == x[2] as int % 4 && x[0] as int % 4
            == x[3] as int % 4 && x[0] as int % 4 == x[4] as int % 4),
    ensures
        hand_score(x, straight_table()) == 4 * 759375 + top * 50625,
{
    suits_alike(x);
    straight_held(x, top);
    shown_scores(x, Pattern::Straight { top });
}

/// Straight flush: the top rank counts; of ace to five that is the five.
pub proof fn straight_flush_score(x: Seq<u8>, top: int)
    requires
        distinct_cards(x),
        x.len() == 5,
        x[0] as int / 4 == top,
        x[1] as int / 4 == top - 1 && x[2] as int / 4 == top - 2 && x[3] as int / 4 == top - 3,
        x[4] as int / 4 == (if top == 3 {
            12
        } else {
            top - 4
        }),
        x[0] as int % 4 == x[1] as int % 4 && x[0] as int % 4 == x[2] as int % 4 && x[0] as int % 4
            == x[3] as int % 4 && x[0] as int % 4 == x[4] as int % 4,
    ensures
        hand_score(x, straight_table()) == 8 * 759375 + top * 50625,
{
    suits_alike(x);
    straight_held(x, top);
    let s = flush_suit(tally(x).sc);
    let ks = seq![
        x[0] as int / 4,
        x[1] as int / 4,
        x[2] as int / 4,
        x[3] as int / 4,
        x[4] as int / 4,
    ];
    assert(tally(x).f[x[0] as int / 4] >= 1 && tally(x).f[x[1] as int / 4] >= 1 && tally(
        x,
    ).f[x[2] as int / 4] >= 1 && tally(x).f[x[3] as int / 4] >= 1 && tally(x).f[x[4] as int / 4]
        >= 1);
    assert(x[0] < 52 && x[1] < 52 && x[2] < 52 && x[3] < 52 && x[4] < 52);
    suit_shows(x, ks);
    shown_scores(x, Pattern::StraightFlush { s, top });
}

/// Numbers in base 15 are ordered by their first different digit.
proof fn digits_order(a: Seq<int>, b: Seq<int>)
    requires
        a.len() == 5,
        b.len() == 5,
        forall|i: int| 0 <= i < 5 ==> 0 <= #[trigger] a[i] < 15,
        forall|i: int| 0 <= i < 5 ==> 0 <= #[trigger] b[i] < 15,
    ensures
        a[0] * 50625 + a[1] * 3375 + a[2] * 225 + a[3] * 15 + a[4] > b[0] * 50625 + b[1] * 3375
            + b[2] * 225 + b[3] * 15 + b[4] <==> a[0] > b[0] || (a[0] == b[0] && (a[1] > b[1] || (
        a[1] == b[1] && (a[2] > b[2] || (a[2] == b[2] && (a[3] > b[3] || (a[3] == b[3] && a[4]
            > b[4]))))))),
{
    assert(0 <= a[0] < 15 && 0 <= a[1] < 15 && 0 <= a[2] < 15 && 0 <= a[3] < 15 && 0 <= a[4] < 15);
    assert(0 <= b[0] < 15 && 0 <= b[1] < 15 && 0 <= b[2] < 15 && 0 <= b[3] < 15 && 0 <= b[4] < 15);
}

/// Of two hands with one pair, the higher pair wins; of equal pairs, the higher first different card
/// beside them.
pub proof fn one_pair_order(
    x: Seq<u8>,
    y: Seq<u8>,
    p: int,
    a: int,
    b: int,
    c: int,
    q: int,
    d: int,
    e: int,
    f: int,
)
    requires
        distinct_cards(x),
        distinct_cards(y),
        x.len() == 5,
        y.len() == 5,
        x[0] as int / 4 == p,
        x[1] as int / 4 == p,
        x[2] as int / 4 == a,
        x[3] as int / 4 == b,
        x[4] as int / 4 == c,
        a > b > c,
        a != p && b != p && c != p,
        y[0] as int / 4 == q,
        y[1] as int / 4 == q,
        y[2] as int / 4 == d,
        y[3] as int / 4 == e,
        y[4] as int / 4 == f,
        d > e > f,
        d != q && e != q && f != q,
    ensures
        hand_score(x, straight_table()) > hand_score(y, straight_table())
            <==> p > q || (p == q && (a > d || (a == d && (b > e || (b == e && c > f))))),
{
    one_pair_score(x, p, a, b, c);
    one_pair_score(y, q, d, e, f);
    assert(x[0] < 52 && x[1] < 52 && x[2] < 52 && x[3] < 52 && x[4] < 52);
    assert(y[0] < 52 && y[1] < 52 && y[2] < 52 && y[3] < 52 && y[4] < 52);
    digits_order(seq![p, a, b, c, 0], seq![q, d, e, f, 0]);
}

/// Of two hands with two pair, the higher top pair wins, then the higher second pair, then the higher
/// fifth card.
pub proof fn two_pair_order(x: Seq<u8>, y: Seq<u8>, p: int, q: int, k: int, r: int, s: int, l: int)
    requires
        distinct_cards(x),
        distinct_cards(y),
        x.len() == 5,
        y.len() == 5,
        x[0] as int / 4 == p,
        x[1] as int / 4 == p,
        x[2] as int / 4 == q,
        x[3] as int / 4 == q,
        x[4] as int / 4 == k,
        p > q && k != p && k != q,
        y[0] as int / 4 == r,
        y[1] as int / 4 == r,
        y[2] as int / 4 == s,
        y[3] as int / 4 == s,
        y[4] as int / 4 == l,
        r > s && l != r && l != s,
    ensures
        hand_score(x, straight_table()) > hand_score(y, straight_table())
            <==> p > r || (p == r && (q > s || (q == s && k > l))),
{
    two_pair_score(x, p, q, k);
    two_pair_score(y, r, s, l);
    assert(x[0] < 52 && x[1] < 52 && x[2] < 52 && x[3] < 52 && x[4] < 52);
    assert(y[0] < 52 && y[1] < 52 && y[2] < 52 && y[3] < 52 && y[4] < 52);
    digits_order(seq![p, q, k, 0, 0], seq![r, s, l, 0, 0]);
}

/// Of two hands with three of a kind, the higher three wins, then the higher first different card
/// beside it.
pub proof fn three_of_a_kind_order(
    x: Seq<u8>,
    y: Seq<u8>,
    t: int,
    a: int,
    b: int,
    u: int,
    c: int,
    d: int,
)
    requires
        distinct_cards(x),
        distinct_cards(y),
        x.len() == 5,
        y.len() == 5,
        x[0] as int / 4 == t,
        x[1] as int / 4 == t,
        x[2] as int / 4 == t,
        x[3] as int / 4 == a,
        x[4] as int / 4 == b,
        a > b && a != t && b != t,
        y[0] as int / 4 == u,
        y[1] as int / 4 == u,
        y[2] as int / 4 == u,
        y[3] as int / 4 == c,
        y[4] as int / 4 == d,
        c > d && c != u && d != u,
    ensures
        hand_score(x, straight_table()) > hand_score(y, straight_table())
            <==> t > u || (t == u && (a > c || (a == c && b > d))),
{
    three_of_a_kind_score(x, t, a, b);
    three_of_a_kind_score(y, u, c, d);
    assert(x[0] < 52 && x[1] < 52 && x[2] < 52 && x[3] < 52 && x[4] < 52);
    assert(y[0] < 52 && y[1] < 52 && y[2] < 52 && y[3] < 52 && y[4] < 52);
    digits_order(seq![t, a, b, 0, 0], seq![u, c, d, 0, 0]);
}

/// Of two full houses, the higher three wins, then the higher pair.
pub proof fn full_house_order(x: Seq<u8>, y: Seq<u8>, t: int, p: int, u: int, q: int)
    requires
        distinct_cards(x),
        distinct_cards(y),
        x.len() == 5,
        y.len() == 5,
        x[0] as int / 4 == t,
        x[1] as int / 4 == t,
        x[2] as int / 4 == t,
        x[3] as int / 4 == p,
        x[4] as int / 4 == p,
        t != p,
        y[0] as int / 4 == u,
        y[1] as int / 4 == u,
        y[2] as int / 4 == u,
        y[3] as int / 4 == q,
        y[4] as int / 4 == q,
        u != q,
    ensures
        hand_score(x, straight_table()) > hand_score(y, straight_table())
            <==> t > u || (t == u && p > q),
{
    full_house_score(x, t, p);
    full_house_score(y, u, q);
    assert(x[0] < 52 && x[1] < 52 && x[2] < 52 && x[3] < 52 && x[4] < 52);
    assert(y[0] < 52 && y[1] < 52 && y[2] < 52 && y[3] < 52 && y[4] < 52);
    digits_order(seq![t, p, 0, 0, 0], seq![u, q, 0, 0, 0]);
}

/// Of two hands with four of a kind, the higher four wins, then the higher fifth card.
pub proof fn four_of_a_kind_order(x: Seq<u8>, y: Seq<u8>, q: int, k: int, r: int, l: int)
    requires
        distinct_cards(x),
        distinct_cards(y),
        x.len() == 5,
        y.len() == 5,
        x[0] as int / 4 == q,
        x[1] as int / 4 == q,
        x[2] as int / 4 == q,
        x[3] as int / 4 == q,
        x[4] as int / 4 == k,
        y[0] as int / 4 == r,
        y[1] as int / 4 == r,
        y[2] as int / 4 == r,
        y[3] as int / 4 == r,
        y[4] as int / 4 == l,
    ensures
        hand_score(x, straight_table()) > hand_score(y, straight_table())
            <==> q > r || (q == r && k > l),
{
    four_of_a_kind_score(x, q, k);
    four_of_a_kind_score(y, r, l);
    assert(x[0] < 52 && x[1] < 52 && x[2] < 52 && x[3] < 52 && x[4] < 52);
    assert(y[0] < 52 && y[1] < 52 && y[2] < 52 && y[3] < 52 && y[4] < 52);
    digits_order(seq![q, k, 0, 0, 0], seq![r, l, 0, 0, 0]);
}

/// Of two hands without a straight, both flushes or both not, the one with the higher first
/// different rank wins.
pub proof fn high_card_order(x: Seq<u8>, y: Seq<u8>, flush: bool)
    requires
        distinct_cards(x),
        distinct_cards(y),
        x.len() == 5,
        y.len() == 5,
        forall|i: int, j: int|
            0 <= i < j < 5 ==> #[trigger] x[i] as int / 4 > #[trigger] x[j] as int / 4,
        forall|i: int, j: int|
            0 <= i < j < 5 ==> #[trigger] y[i] as int / 4 > #[trigger] y[j] as int / 4,
        x[0] as int / 4 - x[4] as int / 4 != 4,
        y[0] as int / 4 - y[4] as int / 4 != 4,
        !(x[0] as int / 4 == 12 && x[1] as int / 4 == 3),
        !(y[0] as int / 4 == 12 && y[1] as int / 4 == 3),
        flush <==> x[0] as int % 4 == x[1] as int % 4 && x[0] as int % 4 == x[2] as int % 4
            && x[0] as int % 4 == x[3] as int % 4 && x[0] as int % 4 == x[4] as int % 4,
        flush <==> y[0] as int % 4 == y[1] as int % 4 && y[0] as int % 4 == y[2] as int % 4
            && y[0] as int % 4 == y[3] as int % 4 && y[0] as int % 4 == y[4] as int % 4,
    ensures
        hand_score(x, straight_table()) > hand_score(y, straight_table()) <==> exists|i: int|
            0 <= i < 5 && #[trigger] x[i] as int / 4 > y[i] as int / 4 && forall|j: int|
                0 <= j < i ==> #[trigger] x[j] as int / 4 == y[j] as int / 4,
{
    assert(x[0] < 52 && x[1] < 52 && x[2] < 52 && x[3] < 52 && x[4] < 52);
    assert(y[0] < 52 && y[1] < 52 && y[2] < 52 && y[3] < 52 && y[4] < 52);
    let (a, b, c, d, e) = (
        x[0] as int / 4,
        x[1] as int / 4,
        x[2] as int / 4,
        x[3] as int / 4,
        x[4] as int / 4,
    );
    let (k, l, m, n, o) = (
        y[0] as int / 4,
        y[1] as int / 4,
        y[2] as int / 4,
        y[3] as int / 4,
        y[4] as int / 4,
    );
    if flush {
        flush_score(x, a, b, c, d, e);
        flush_score(y, k, l, m, n, o);
    } else {
        high_card_score(x, a, b, c, d, e);
        high_card_score(y, k, l, m, n, o);
    }
    digits_order(seq![a, b, c, d, e], seq![k, l, m, n, o]);
    let gt = exists|i: int|
        0 <= i < 5 && #[trigger] x[i] as int / 4 > y[i] as int / 4 && forall|j: int|
            0 <= j < i ==> #[trigger] x[j] as int / 4 == y[j] as int / 4;
    if gt {
        let i = choose|i: int|
            0 <= i < 5 && #[trigger] x[i] as int / 4 > y[i] as int / 4 && forall|j: int|
                0 <= j < i ==> #[trigger] x[j] as int / 4 == y[j] as int / 4;
        assert(i == 0 || i == 1 || i == 2 || i == 3 || i == 4);
        if i > 0 {
            assert(x[0] as int / 4 == y[0] as int / 4);
        }
        if i > 1 {
            assert(x[1] as int / 4 == y[1] as int / 4);
        }
        if i > 2 {
            assert(x[2] as int / 4 == y[2] as int / 4);
        }
        if i > 3 {
            assert(x[3] as int / 4 == y[3] as int / 4);
        }
    }
}

} // verus!
