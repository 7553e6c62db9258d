//! The score of five to eight cards and the scores of the five-card hands among them.
use crate::equity::{distinct_cards, hand_score, tally};
use crate::holdings::{card, held, part_covered, part_of, tally_holds};
use crate::patterns::{
    falling_at_least, score_at_least, score_shown, shows, shows_more, straight_ranks, tally_sound,
    Pattern,
};
use crate::ranks::ranks_where_lists;
use crate::score::{in_mask, mask_ranks};
use crate::state::has_rank;
use crate::straight::straight_table;
use vstd::prelude::*;

verus! {

/// Whether `y` is a hand of five of the cards `x`.
pub open spec fn five_of(y: Seq<u8>, x: Seq<u8>) -> bool {
    y.len() == 5 && distinct_cards(y) && part_of(y, x)
}

/// Five of the cards `x` are any five different ones of them, in any order.
pub proof fn five_means(y: Seq<u8>, x: Seq<u8>)
    requires
        forall|i: int| 0 <= i < x.len() ==> #[trigger] x[i] < 52,
    ensures
        five_of(y, x) <==> y.len() == 5 && y.no_duplicates() && forall|i: int|
            0 <= i < 5 ==> x.contains(#[trigger] y[i]),
{
    if five_of(y, x) {
        assert forall|i: int| 0 <= i < 5 implies x.contains(#[trigger] y[i]) by {
            assert(y.contains(y[i]));
        }
    }
}

proof fn pick_one(x: Seq<u8>, r: int) -> (s: int)
    requires
        distinct_cards(x),
        0 <= r < 13,
        tally(x).f[r] >= 1,
    ensures
        0 <= s < 4,
        held(x, r, s) == 1,
{
    tally_holds(x);
    if held(x, r, 0) == 1 {
        0
    } else if held(x, r, 1) == 1 {
        1
    } else if held(x, r, 2) == 1 {
        2
    } else {
        3
    }
}

proof fn pick_two(x: Seq<u8>, r: int) -> (s: (int, int))
    requires
        distinct_cards(x),
        0 <= r < 13,
        tally(x).f[r] >= 2,
    ensures
        0 <= s.0 < s.1 < 4,
        held(x, r, s.0) == 1,
        held(x, r, s.1) == 1,
{
    tally_holds(x);
    let a = pick_one(x, r);
    let b: int = if a != 3 && held(x, r, 3) == 1 {
        3
    } else if a != 2 && held(x, r, 2) == 1 {
        2
    } else if a != 1 && held(x, r, 1) == 1 {
        1
    } else {
        0
    };
    if a < b {
        (a, b)
    } else {
        (b, a)
    }
}

proof fn pick_three(x: Seq<u8>, r: int) -> (s: (int, int, int))
    requires
        distinct_cards(x),
        0 <= r < 13,
        tally(x).f[r] >= 3,
    ensures
        0 <= s.0 < s.1 < s.2 < 4,
        held(x, r, s.0) == 1,
        held(x, r, s.1) == 1,
        held(x, r, s.2) == 1,
{
    tally_holds(x);
    if held(x, r, 0) == 0 {
        (1, 2, 3)
    } else if held(x, r, 1) == 0 {
        (0, 2, 3)
    } else if held(x, r, 2) == 0 {
        (0, 1, 3)
    } else {
        (0, 1, 2)
    }
}

/// The five cards of these ranks and suits.
spec fn five_cards(rs: Seq<int>, ss: Seq<int>) -> Seq<u8> {
    Seq::new(5, |i: int| card(rs[i], ss[i]))
}

proof fn five_held(x: Seq<u8>, rs: Seq<int>, ss: Seq<int>)
    requires
        rs.len() == 5,
        ss.len() == 5,
        forall|i: int| 0 <= i < 5 ==> 0 <= #[trigger] rs[i] < 13,
        forall|i: int| 0 <= i < 5 ==> 0 <= #[trigger] ss[i] < 4,
        forall|i: int, j: int|
            0 <= i < j < 5 ==> (#[trigger] rs[i] != #[trigger] rs[j] || ss[i] != ss[j]),
        forall|i: int| 0 <= i < 5 ==> held(x, #[trigger] rs[i], ss[i]) == 1,
    ensures
        five_of(five_cards(rs, ss), x),
        forall|i: int| 0 <= i < 5 ==> held(five_cards(rs, ss), #[trigger] rs[i], ss[i]) == 1,
{
    let y = five_cards(rs, ss);
    assert forall|i: int| 0 <= i < 5 implies held(y, #[trigger] rs[i], ss[i]) == 1 by {
        assert(y[i] == card(rs[i], ss[i]));
    }
    assert forall|i: int, j: int| 0 <= i < j < 5 implies y[i] != y[j] by {
        assert(rs[i] != rs[j] || ss[i] != ss[j]);
        assert(0 <= ss[i] < 4 && 0 <= ss[j] < 4);
    }
    assert forall|i: int| 0 <= i < 5 implies #[trigger] y[i] < 52 by {
        assert(0 <= rs[i] < 13 && 0 <= ss[i] < 4);
    }
    assert forall|c: u8| #[trigger] y.contains(c) implies x.contains(c) by {
        let i = choose|i: int| 0 <= i < y.len() && y[i] == c;
        assert(held(x, rs[i], ss[i]) == 1);
    }
}

/// Five cards picked by rank and suit make a hand that counts each of them.
proof fn five_chosen(x: Seq<u8>, rs: Seq<int>, ss: Seq<int>) -> (y: Seq<u8>)
    requires
        rs.len() == 5,
        ss.len() == 5,
        forall|i: int| 0 <= i < 5 ==> 0 <= #[trigger] rs[i] < 13,
        forall|i: int| 0 <= i < 5 ==> 0 <= #[trigger] ss[i] < 4,
        forall|i: int, j: int|
            0 <= i < j < 5 ==> (#[trigger] rs[i] != #[trigger] rs[j] || ss[i] != ss[j]),
        forall|i: int| 0 <= i < 5 ==> held(x, #[trigger] rs[i], ss[i]) == 1,
    ensures
        five_of(y, x),
        held(y, rs[0], ss[0]) == 1,
        held(y, rs[1], ss[1]) == 1,
        held(y, rs[2], ss[2]) == 1,
        held(y, rs[3], ss[3]) == 1,
        held(y, rs[4], ss[4]) == 1,
        forall|r: int|
            0 <= r < 13 ==> #[trigger] tally(y).f[r] == held(y, r, 0) + held(y, r, 1) + held(
                y,
                r,
                2,
            ) + held(y, r, 3),
{
    five_held(x, rs, ss);
    let y = five_cards(rs, ss);
    tally_holds(y);
    y
}

/// Five ranks of one suit make a hand that holds them all in that suit.
proof fn five_in_suit(x: Seq<u8>, s: int, ks: Seq<int>) -> (y: Seq<u8>)
    requires
        distinct_cards(x),
        0 <= s < 4,
        ks.len() == 5,
        forall|i: int, j: int| 0 <= i < j < ks.len() ==> ks[i] > ks[j],
        forall|i: int|
            0 <= i < 5 ==> 0 <= #[trigger] ks[i] < 13 && has_rank(tally(x).sm[s], ks[i]),
    ensures
        five_of(y, x),
        tally(y).sc[s] >= 5,
        forall|i: int| 0 <= i < 5 ==> has_rank(tally(y).sm[s], #[trigger] ks[i]),
{
    tally_holds(x);
    let ss = seq![s, s, s, s, s];
    five_held(x, ks, ss);
    let y = five_cards(ks, ss);
    tally_holds(y);
    tally_sound(y);
    let m = tally(y).sm[s];
    assert forall|i: int| 0 <= i < 5 implies has_rank(m, #[trigger] ks[i]) by {
        assert(held(y, ks[i], ss[i]) == 1);
    }
    ranks_where_lists(in_mask(m), 13);
    assert forall|i: int| 0 <= i < ks.len() implies mask_ranks(m).contains(#[trigger] ks[i]) by {
        assert(in_mask(m)(ks[i]));
    }
    falling_at_least(mask_ranks(m), ks, 4);
    y
}

/// Five ranks make a hand that holds them all.
proof fn five_ranks(x: Seq<u8>, ks: Seq<int>) -> (y: Seq<u8>)
    requires
        distinct_cards(x),
        ks.len() == 5,
        forall|i: int, j: int| 0 <= i < j < ks.len() ==> ks[i] > ks[j],
        forall|i: int| 0 <= i < 5 ==> 0 <= #[trigger] ks[i] < 13 && tally(x).f[ks[i]] >= 1,
    ensures
        five_of(y, x),
        forall|i: int| 0 <= i < 5 ==> tally(y).f[#[trigger] ks[i]] >= 1,
        forall|i: int| 0 <= i < 5 ==> has_rank(tally(y).rm, #[trigger] ks[i]),
{
    assert(ks[0] >= 0 && ks[1] >= 0 && ks[2] >= 0 && ks[3] >= 0 && ks[4] >= 0);
    let s0 = pick_one(x, ks[0]);
    let s1 = pick_one(x, ks[1]);
    let s2 = pick_one(x, ks[2]);
    let s3 = pick_one(x, ks[3]);
    let s4 = pick_one(x, ks[4]);
    let ss = seq![s0, s1, s2, s3, s4];
    five_held(x, ks, ss);
    let y = five_cards(ks, ss);
    tally_holds(y);
    assert forall|i: int| 0 <= i < 5 implies tally(y).f[#[trigger] ks[i]] >= 1 && has_rank(
        tally(y).rm,
        ks[i],
    ) by {
        assert(held(y, ks[i], ss[i]) == 1);
        assert(0 <= ss[i] < 4);
    }
    y
}

/// Four of one rank and another card.
proof fn five_with_quads(x: Seq<u8>, q: int, k: int) -> (y: Seq<u8>)
    requires
        distinct_cards(x),
        0 <= q < 13,
        0 <= k < 13,
        q != k,
        tally(x).f[q] >= 4,
        tally(x).f[k] >= 1,
    ensures
        five_of(y, x),
        tally(y).f[q] >= 4,
        tally(y).f[k] >= 1,
{
    tally_holds(x);
    let s = pick_one(x, k);
    let rs = seq![q, q, q, q, k];
    let ss = seq![0, 1, 2, 3, s];
    five_chosen(x, rs, ss)
}

/// Three of one rank and two of another.
proof fn five_with_full_house(x: Seq<u8>, t: int, p: int) -> (y: Seq<u8>)
    requires
        distinct_cards(x),
        0 <= t < 13,
        0 <= p < 13,
        t != p,
        tally(x).f[t] >= 3,
        tally(x).f[p] >= 2,
    ensures
        five_of(y, x),
        tally(y).f[t] >= 3,
        tally(y).f[p] >= 2,
{
    let (a, b, c) = pick_three(x, t);
    let (d, e) = pick_two(x, p);
    let rs = seq![t, t, t, p, p];
    let ss = seq![a, b, c, d, e];
    five_chosen(x, rs, ss)
}

/// Three of one rank and two other cards.
proof fn five_with_trips(x: Seq<u8>, t: int, u: int, v: int) -> (y: Seq<u8>)
    requires
        distinct_cards(x),
        0 <= t < 13,
        0 <= u < 13,
        0 <= v < 13,
        t != u && t != v && u != v,
        tally(x).f[t] >= 3,
        tally(x).f[u] >= 1,
        tally(x).f[v] >= 1,
    ensures
        five_of(y, x),
        tally(y).f[t] >= 3,
        tally(y).f[u] >= 1,
        tally(y).f[v] >= 1,
{
    let (a, b, c) = pick_three(x, t);
    let d = pick_one(x, u);
    let e = pick_one(x, v);
    let rs = seq![t, t, t, u, v];
    let ss = seq![a, b, c, d, e];
    five_chosen(x, rs, ss)
}

/// Two pairs and another card.
proof fn five_with_two_pair(x: Seq<u8>, p: int, q: int, k: int) -> (y: Seq<u8>)
    requires
        distinct_cards(x),
        0 <= p < 13,
        0 <= q < 13,
        0 <= k < 13,
        p != q && p != k && q != k,
        tally(x).f[p] >= 2,
        tally(x).f[q] >= 2,
        tally(x).f[k] >= 1,
    ensures
        five_of(y, x),
        tally(y).f[p] >= 2,
        tally(y).f[q] >= 2,
        tally(y).f[k] >= 1,
{
    let (a, b) = pick_two(x, p);
    let (c, d) = pick_two(x, q);
    let e = pick_one(x, k);
    let rs = seq![p, p, q, q, k];
    let ss = seq![a, b, c, d, e];
    five_chosen(x, rs, ss)
}

/// A pair and three other cards.
proof fn five_with_pair(x: Seq<u8>, p: int, u: int, v: int, w: int) -> (y: Seq<u8>)
    requires
        distinct_cards(x),
        0 <= p < 13,
        0 <= u < 13,
        0 <= v < 13,
        0 <= w < 13,
        p != u && p != v && p != w && u != v && u != w && v != w,
        tally(x).f[p] >= 2,
        tally(x).f[u] >= 1,
        tally(x).f[v] >= 1,
        tally(x).f[w] >= 1,
    ensures
        five_of(y, x),
        tally(y).f[p] >= 2,
        tally(y).f[u] >= 1,
        tally(y).f[v] >= 1,
        tally(y).f[w] >= 1,
{
    let (a, b) = pick_two(x, p);
    let c = pick_one(x, u);
    let d = pick_one(x, v);
    let e = pick_one(x, w);
    let rs = seq![p, p, u, v, w];
    let ss = seq![a, b, c, d, e];
    five_chosen(x, rs, ss)
}

/// What cards show, five of them show.
proof fn shown_by_five(x: Seq<u8>, p: Pattern) -> (y: Seq<u8>)
    requires
        distinct_cards(x),
        x.len() <= 8,
        shows(tally(x), p),
    ensures
        five_of(y, x),
        shows(tally(y), p),
{
    match p {
        Pattern::StraightFlush { s, top } => {
            let ks = straight_ranks(top);
            let y = five_in_suit(x, s, ks);
            let m = tally(y).sm[s];
            assert(has_rank(m, ks[0]) && has_rank(m, ks[1]) && has_rank(m, ks[2]) && has_rank(
                m,
                ks[3],
            ) && has_rank(m, ks[4]));
            y
        },
        Pattern::Flush { s, a, b, c, d, e } => {
            let ks = seq![a, b, c, d, e];
            let y = five_in_suit(x, s, ks);
            let m = tally(y).sm[s];
            assert(has_rank(m, ks[0]) && has_rank(m, ks[1]) && has_rank(m, ks[2]) && has_rank(
                m,
                ks[3],
            ) && has_rank(m, ks[4]));
            y
        },
        Pattern::Straight { top } => {
            tally_sound(x);
            let ks = straight_ranks(top);
            let y = five_ranks(x, ks);
            let m = tally(y).rm;
            assert(has_rank(m, ks[0]) && has_rank(m, ks[1]) && has_rank(m, ks[2]) && has_rank(
                m,
                ks[3],
            ) && has_rank(m, ks[4]));
            y
        },
        Pattern::High { a, b, c, d, e } => {
            let ks = seq![a, b, c, d, e];
            let y = five_ranks(x, ks);
            let f = tally(y).f;
            assert(f[ks[0]] >= 1 && f[ks[1]] >= 1 && f[ks[2]] >= 1 && f[ks[3]] >= 1 && f[ks[4]]
                >= 1);
            y
        },
        Pattern::Quads { q, k } => five_with_quads(x, q, k),
        Pattern::FullHouse { t, p } => five_with_full_house(x, t, p),
        Pattern::Trips { t, a, b } => five_with_trips(x, t, a, b),
        Pattern::TwoPair { p, q, k } => five_with_two_pair(x, p, q, k),
        Pattern::Pair { p, a, b, c } => five_with_pair(x, p, a, b, c),
    }
}

/// The score of five to eight cards is that of the best five of them: no five of them score more,
/// and some five score as much.
pub proof fn score_is_best(x: Seq<u8>)
    requires
        distinct_cards(x),
        5 <= x.len() <= 8,
    ensures
        forall|y: Seq<u8>| #[trigger]
            five_of(y, x) ==> hand_score(y, straight_table()) <= hand_score(x, straight_table()),
        exists|y: Seq<u8>| #[trigger]
            five_of(y, x) && hand_score(y, straight_table()) == hand_score(x, straight_table()),
{
    tally_holds(x);
    tally_sound(x);
    assert forall|y: Seq<u8>| #[trigger] five_of(y, x) implies hand_score(y, straight_table())
        <= hand_score(x, straight_table()) by {
        tally_holds(y);
        tally_sound(y);
        let p = score_shown(tally(y));
        part_covered(y, x);
        shows_more(tally(x), tally(y), p);
        score_at_least(tally(x), p);
    }
    let p = score_shown(tally(x));
    let y = shown_by_five(x, p);
    tally_sound(y);
    score_at_least(tally(y), p);
    assert(five_of(y, x));
}

} // verus!
