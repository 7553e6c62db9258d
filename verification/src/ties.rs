//! When two five-card hands score the same.
use crate::cards::{rank_of, suit_of};
use crate::equity::{distinct_cards, hand_score, tally};
use crate::holdings::{
    card, count_below, count_below_update, count_below_zero, held, tally_holds,
};
use crate::patterns::{
    category, category_of, falling_at_least, group_facts, pattern_in_category, pattern_score,
    score_at_least, score_shown, shows, straight_facts, straight_ranks, tally_sound, Pattern,
};
use crate::ranks::ranks_where_lists;
use crate::score::{
    flush_suit, groups, has_full_house, has_quads, in_mask, mask_ranks, P0, P1, P2, P3, P4, P5,
};
use crate::state::{has_rank, Tally};
use crate::straight::{is_straight, straight_table, straight_top};
use crate::tallies::suits_add_up;
use vstd::prelude::*;

verus! {

/// Whether all of some cards have one suit.
pub open spec fn one_suit(x: Seq<u8>) -> bool {
    forall|i: int, j: int|
        0 <= i < x.len() && 0 <= j < x.len() ==> suit_of(#[trigger] x[i]) == suit_of(
            #[trigger] x[j],
        )
}

/// The counts with `k` more of rank `r`.
spec fn plus(f: Seq<int>, r: int, k: int) -> Seq<int> {
    f.update(r, f[r] + k)
}

/// One of each of five ranks.
spec fn ones(ks: Seq<int>) -> Seq<int> {
    plus(plus(plus(plus(plus(Tally::empty().f, ks[0], 1), ks[1], 1), ks[2], 1), ks[3], 1), ks[4], 1)
}

/// How many cards of each rank a pattern has.
spec fn pattern_counts(p: Pattern) -> Seq<int> {
    let none = Tally::empty().f;
    match p {
        Pattern::StraightFlush { s, top } => ones(straight_ranks(top)),
        Pattern::Quads { q, k } => plus(plus(none, q, 4), k, 1),
        Pattern::FullHouse { t, p } => plus(plus(none, t, 3), p, 2),
        Pattern::Flush { s, a, b, c, d, e } => ones(seq![a, b, c, d, e]),
        Pattern::Straight { top } => ones(straight_ranks(top)),
        Pattern::Trips { t, a, b } => plus(plus(plus(none, t, 3), a, 1), b, 1),
        Pattern::TwoPair { p, q, k } => plus(plus(plus(none, p, 2), q, 2), k, 1),
        Pattern::Pair { p, a, b, c } => plus(plus(plus(plus(none, p, 2), a, 1), b, 1), c, 1),
        Pattern::High { a, b, c, d, e } => ones(seq![a, b, c, d, e]),
    }
}

proof fn ones_sum(ks: Seq<int>)
    requires
        ks.len() == 5,
        forall|i: int| 0 <= i < 5 ==> 0 <= #[trigger] ks[i] < 13,
    ensures
        ones(ks).len() == 13,
        count_below(ones(ks), 13) == 5,
{
    let f0 = Tally::empty().f;
    let f1 = plus(f0, ks[0], 1);
    let f2 = plus(f1, ks[1], 1);
    let f3 = plus(f2, ks[2], 1);
    let f4 = plus(f3, ks[3], 1);
    count_below_zero(13);
    count_below_update(f0, ks[0], 1, 13);
    count_below_update(f1, ks[1], 1, 13);
    count_below_update(f2, ks[2], 1, 13);
    count_below_update(f3, ks[3], 1, 13);
    count_below_update(f4, ks[4], 1, 13);
}

/// A pattern has five cards.
proof fn pattern_counts_five(t: Tally, p: Pattern)
    requires
        shows(t, p),
    ensures
        pattern_counts(p).len() == 13,
        count_below(pattern_counts(p), 13) == 5,
{
    let none = Tally::empty().f;
    count_below_zero(13);
    match p {
        Pattern::StraightFlush { s, top } => {
            ones_sum(straight_ranks(top));
        },
        Pattern::Straight { top } => {
            ones_sum(straight_ranks(top));
        },
        Pattern::Flush { s, a, b, c, d, e } => {
            ones_sum(seq![a, b, c, d, e]);
        },
        Pattern::High { a, b, c, d, e } => {
            ones_sum(seq![a, b, c, d, e]);
        },
        Pattern::Quads { q, k } => {
            count_below_update(none, q, 4, 13);
            count_below_update(plus(none, q, 4), k, 1, 13);
        },
        Pattern::FullHouse { t, p } => {
            count_below_update(none, t, 3, 13);
            count_below_update(plus(none, t, 3), p, 2, 13);
        },
        Pattern::Trips { t, a, b } => {
            count_below_update(none, t, 3, 13);
            count_below_update(plus(none, t, 3), a, 1, 13);
            count_below_update(plus(plus(none, t, 3), a, 1), b, 1, 13);
        },
        Pattern::TwoPair { p, q, k } => {
            count_below_update(none, p, 2, 13);
            count_below_update(plus(none, p, 2), q, 2, 13);
            count_below_update(plus(plus(none, p, 2), q, 2), k, 1, 13);
        },
        Pattern::Pair { p, a, b, c } => {
            count_below_update(none, p, 2, 13);
            count_below_update(plus(none, p, 2), a, 1, 13);
            count_below_update(plus(plus(none, p, 2), a, 1), b, 1, 13);
            count_below_update(plus(plus(plus(none, p, 2), a, 1), b, 1), c, 1, 13);
        },
    }
}

/// A rank of a suit is held.
proof fn suit_rank_held(x: Seq<u8>, s: int, r: int)
    requires
        distinct_cards(x),
        0 <= s < 4,
        0 <= r < 13,
        has_rank(tally(x).sm[s], r),
    ensures
        tally(x).f[r] >= 1,
{
    tally_holds(x);
    assert(held(x, r, s) == 1);
}

/// Five different ranks, each held, are counted at most as often as they are held.
proof fn ones_below(ks: Seq<int>, f: Seq<int>)
    requires
        ks.len() == 5,
        f.len() == 13,
        forall|i: int, j: int| 0 <= i < j < 5 ==> ks[i] > ks[j],
        forall|i: int| 0 <= i < 5 ==> 0 <= #[trigger] ks[i] < 13 && f[ks[i]] >= 1,
        forall|r: int| 0 <= r < 13 ==> 0 <= #[trigger] f[r],
    ensures
        forall|r: int| 0 <= r < 13 ==> #[trigger] ones(ks)[r] <= f[r],
{
    assert(ks[0] > ks[1] && ks[1] > ks[2] && ks[2] > ks[3] && ks[3] > ks[4]);
    assert(f[ks[0]] >= 1 && f[ks[1]] >= 1 && f[ks[2]] >= 1 && f[ks[3]] >= 1 && f[ks[4]] >= 1);
}

/// Ranks of a suit are held.
proof fn suit_ranks_held(x: Seq<u8>, s: int, ks: Seq<int>)
    requires
        distinct_cards(x),
        0 <= s < 4,
        ks.len() == 5,
        forall|i: int|
            0 <= i < 5 ==> 0 <= #[trigger] ks[i] < 13 && has_rank(tally(x).sm[s], ks[i]),
    ensures
        forall|i: int| 0 <= i < 5 ==> tally(x).f[#[trigger] ks[i]] >= 1,
{
    assert forall|i: int| 0 <= i < 5 implies tally(x).f[#[trigger] ks[i]] >= 1 by {
        suit_rank_held(x, s, ks[i]);
    }
}

/// Cards that show a pattern of groups count no fewer of any rank.
proof fn groups_counted(t: Tally, p: Pattern)
    requires
        t.f.len() == 13,
        forall|r: int| 0 <= r < 13 ==> 0 <= #[trigger] t.f[r],
        shows(t, p),
        p is Quads || p is FullHouse || p is Trips || p is TwoPair || p is Pair,
    ensures
        forall|r: int| 0 <= r < 13 ==> #[trigger] pattern_counts(p)[r] <= t.f[r],
{
}

/// The ranks of a straight are held.
proof fn straight_held(x: Seq<u8>, top: int)
    requires
        distinct_cards(x),
        x.len() <= 8,
        is_straight(tally(x).rm, top),
    ensures
        straight_ranks(top).len() == 5,
        forall|i: int, j: int| 0 <= i < j < 5 ==> straight_ranks(top)[i] > straight_ranks(top)[j],
        forall|i: int|
            0 <= i < 5 ==> 0 <= #[trigger] straight_ranks(top)[i] < 13
                && tally(x).f[straight_ranks(top)[i]] >= 1,
{
    tally_sound(x);
    let ks = straight_ranks(top);
    let m = tally(x).rm;
    assert(has_rank(m, ks[0]) && has_rank(m, ks[1]) && has_rank(m, ks[2]) && has_rank(m, ks[3])
        && has_rank(m, ks[4]));
}

/// A straight in a suit is a straight.
proof fn suit_straight(x: Seq<u8>, s: int, top: int)
    requires
        distinct_cards(x),
        x.len() <= 8,
        0 <= s < 4,
        is_straight(tally(x).sm[s], top),
    ensures
        is_straight(tally(x).rm, top),
{
    tally_sound(x);
    let ks = straight_ranks(top);
    let m = tally(x).sm[s];
    assert(has_rank(m, ks[0]) && has_rank(m, ks[1]) && has_rank(m, ks[2]) && has_rank(m, ks[3])
        && has_rank(m, ks[4]));
    suit_ranks_held(x, s, ks);
    assert(tally(x).f[ks[0]] >= 1 && tally(x).f[ks[1]] >= 1 && tally(x).f[ks[2]] >= 1 && tally(
        x,
    ).f[ks[3]] >= 1 && tally(x).f[ks[4]] >= 1);
}

/// Cards that show a pattern count no fewer of any rank.
proof fn pattern_counted(x: Seq<u8>, p: Pattern)
    requires
        distinct_cards(x),
        x.len() <= 8,
        shows(tally(x), p),
    ensures
        forall|r: int| 0 <= r < 13 ==> #[trigger] pattern_counts(p)[r] <= tally(x).f[r],
{
    tally_sound(x);
    let f = tally(x).f;
    match p {
        Pattern::StraightFlush { s, top } => {
            suit_straight(x, s, top);
            straight_held(x, top);
            ones_below(straight_ranks(top), f);
        },
        Pattern::Flush { s, a, b, c, d, e } => {
            suit_ranks_held(x, s, seq![a, b, c, d, e]);
            ones_below(seq![a, b, c, d, e], f);
        },
        Pattern::Straight { top } => {
            straight_held(x, top);
            ones_below(straight_ranks(top), f);
        },
        Pattern::High { a, b, c, d, e } => {
            ones_below(seq![a, b, c, d, e], f);
        },
        _ => {
            groups_counted(tally(x), p);
        },
    }
}

/// Counts that are nowhere higher and sum to as much are the same.
proof fn counts_same(g: Seq<int>, f: Seq<int>, n: int)
    requires
        g.len() == 13,
        f.len() == 13,
        0 <= n <= 13,
        forall|r: int| 0 <= r < 13 ==> #[trigger] g[r] <= f[r],
    ensures
        count_below(g, n) <= count_below(f, n),
        count_below(g, n) == count_below(f, n) ==> forall|r: int|
            0 <= r < n ==> #[trigger] g[r] == f[r],
    decreases n,
{
    if n > 0 {
        counts_same(g, f, n - 1);
        assert(g[n - 1] <= f[n - 1]);
    }
}

/// Five cards have the ranks of the pattern they show.
proof fn five_shown(x: Seq<u8>, p: Pattern)
    requires
        distinct_cards(x),
        x.len() == 5,
        shows(tally(x), p),
    ensures
        tally(x).f == pattern_counts(p),
{
    tally_holds(x);
    tally_sound(x);
    pattern_counts_five(tally(x), p);
    pattern_counted(x, p);
    counts_same(pattern_counts(p), tally(x).f, 13);
    assert(tally(x).f =~= pattern_counts(p));
}

/// Numbers in base 15 are equal only digit by digit.
proof fn digits_same(a: int, b: int, c: int, d: int, e: int, k: int, l: int, m: int, n: int, o: int)
    requires
        0 <= a < 15 && 0 <= b < 15 && 0 <= c < 15 && 0 <= d < 15 && 0 <= e < 15,
        0 <= k < 15 && 0 <= l < 15 && 0 <= m < 15 && 0 <= n < 15 && 0 <= o < 15,
        a * P4 + b * P3 + c * P2 + d * P1 + e * P0 == k * P4 + l * P3 + m * P2 + n * P1 + o * P0,
    ensures
        a == k && b == l && c == m && d == n && e == o,
{
    assert(a == k);
    assert(b == l);
    assert(c == m);
    assert(d == n);
}

/// Patterns that score the same have the same ranks.
proof fn same_score_same_counts(t: Tally, p: Pattern, u: Tally, q: Pattern)
    requires
        shows(t, p),
        shows(u, q),
        pattern_score(p) == pattern_score(q),
    ensures
        category(p) == category(q),
        pattern_counts(p) == pattern_counts(q),
{
    assert(category(p) == category(q)) by {
        pattern_in_category(t, p);
        pattern_in_category(u, q);
    }
    match (p, q) {
        (Pattern::StraightFlush { s: _, top: a }, Pattern::StraightFlush { s: _, top: k }) => {
            digits_same(a, 0, 0, 0, 0, k, 0, 0, 0, 0);
        },
        (Pattern::Straight { top: a }, Pattern::Straight { top: k }) => {
            digits_same(a, 0, 0, 0, 0, k, 0, 0, 0, 0);
        },
        (Pattern::Quads { q: a, k: b }, Pattern::Quads { q: k, k: l }) => {
            digits_same(a, b, 0, 0, 0, k, l, 0, 0, 0);
        },
        (Pattern::FullHouse { t: a, p: b }, Pattern::FullHouse { t: k, p: l }) => {
            digits_same(a, b, 0, 0, 0, k, l, 0, 0, 0);
        },
        (Pattern::Trips { t: a, a: b, b: c }, Pattern::Trips { t: k, a: l, b: m }) => {
            digits_same(a, b, c, 0, 0, k, l, m, 0, 0);
        },
        (Pattern::TwoPair { p: a, q: b, k: c }, Pattern::TwoPair { p: k, q: l, k: m }) => {
            digits_same(a, b, c, 0, 0, k, l, m, 0, 0);
        },
        (Pattern::Pair { p: a, a: b, b: c, c: d }, Pattern::Pair { p: k, a: l, b: m, c: n }) => {
            digits_same(a, b, c, d, 0, k, l, m, n, 0);
        },
        (
            Pattern::Flush { s: _, a, b, c, d, e },
            Pattern::Flush { s: _, a: k, b: l, c: m, d: n, e: o },
        ) => {
            digits_same(a, b, c, d, e, k, l, m, n, o);
        },
        (
            Pattern::High { a, b, c, d, e },
            Pattern::High { a: k, b: l, c: m, d: n, e: o },
        ) => {
            digits_same(a, b, c, d, e, k, l, m, n, o);
        },
        _ => {},
    }
}

/// What five cards of one suit count.
proof fn five_in_one_suit(x: Seq<u8>)
    requires
        distinct_cards(x),
        x.len() == 5,
        flush_suit(tally(x).sc) < 4,
    ensures
        forall|r: int| 0 <= r < 13 ==> #[trigger] tally(x).f[r] <= 1,
        forall|r: int|
            0 <= r < 13 ==> (#[trigger] has_rank(tally(x).sm[flush_suit(tally(x).sc)], r)
                <==> tally(x).f[r] > 0),
        forall|r: int, s: int|
            0 <= r < 13 && 0 <= s < 4 && s != flush_suit(tally(x).sc) ==> #[trigger] held(x, r, s)
                == 0,
{
    tally_holds(x);
    tally_sound(x);
    suits_add_up(x);
    let t = tally(x);
    let s0 = flush_suit(t.sc);
    assert forall|r: int, s: int| 0 <= r < 13 && 0 <= s < 4 && s != s0 implies #[trigger] held(
        x,
        r,
        s,
    ) == 0 by {
        assert(t.sc[0] >= 0 && t.sc[1] >= 0 && t.sc[2] >= 0 && t.sc[3] >= 0);
        assert(t.sc[s] == 0);
        let m = t.sm[s];
        ranks_where_lists(in_mask(m), 13);
        assert(has_rank(m, r) <==> held(x, r, s) == 1);
        if in_mask(m)(r) {
            assert(mask_ranks(m).contains(r));
        }
    }
    assert forall|r: int| 0 <= r < 13 implies #[trigger] t.f[r] == held(x, r, s0) by {
        assert(t.f[r] == held(x, r, 0) + held(x, r, 1) + held(x, r, 2) + held(x, r, 3));
    }
    assert forall|r: int| 0 <= r < 13 implies (#[trigger] has_rank(t.sm[s0], r) <==> t.f[r]
        > 0) by {
        assert(t.f[r] == held(x, r, s0));
    }
}

/// Five cards make a flush exactly where they have one suit.
pub proof fn flush_is_one_suit(x: Seq<u8>)
    requires
        distinct_cards(x),
        x.len() == 5,
    ensures
        flush_suit(tally(x).sc) < 4 <==> one_suit(x),
{
    let t = tally(x);
    tally_holds(x);
    tally_sound(x);
    suits_add_up(x);
    if flush_suit(t.sc) < 4 {
        let s0 = flush_suit(t.sc);
        five_in_one_suit(x);
        assert forall|i: int| 0 <= i < x.len() implies suit_of(#[trigger] x[i]) == s0 by {
            let (r, s) = (rank_of(x[i]), suit_of(x[i]));
            assert(card(r, s) == x[i]);
            assert(held(x, r, s) == 1);
        }
    }
    if one_suit(x) {
        let s0 = suit_of(x[0]);
        assert forall|s: int| 0 <= s < 4 && s != s0 implies #[trigger] t.sc[s] == 0 by {
            let m = t.sm[s];
            ranks_where_lists(in_mask(m), 13);
            if mask_ranks(m).len() > 0 {
                let r = mask_ranks(m)[0];
                assert(in_mask(m)(r));
                assert(held(x, r, s) == 1);
                let i = choose|i: int| 0 <= i < x.len() && x[i] == card(r, s);
                assert(suit_of(x[i]) == suit_of(x[0]));
            }
        }
        assert(t.sc[s0] == 5);
    }
}

/// The leading digit of the score of five to eight cards is the category they make.
pub proof fn score_category(x: Seq<u8>)
    requires
        distinct_cards(x),
        5 <= x.len() <= 8,
    ensures
        hand_score(x, straight_table()) / (P5 as int) == category_of(tally(x)),
{
    tally_holds(x);
    tally_sound(x);
    let p = score_shown(tally(x));
    pattern_in_category(tally(x), p);
}

/// Five cards make a flush exactly where they score as a flush or a straight flush.
proof fn flush_by_category(x: Seq<u8>)
    requires
        distinct_cards(x),
        x.len() == 5,
    ensures
        flush_suit(tally(x).sc) < 4 <==> category_of(tally(x)) == 8 || category_of(tally(x)) == 5,
{
    let t = tally(x);
    if flush_suit(t.sc) < 4 {
        five_in_one_suit(x);
        group_facts(t.f, 4);
        group_facts(t.f, 3);
        if has_quads(t.f) {
            assert(t.f[groups(t.f, 4)[0]] == 4);
        } else if has_full_house(t.f) {
            assert(t.f[groups(t.f, 3)[0]] == 3);
        }
    }
}

/// A pattern that is no flush lies in the ranks alone.
proof fn ranks_show(t: Tally, u: Tally, p: Pattern)
    requires
        t.f == u.f,
        forall|r: int| 0 <= r < 13 ==> (#[trigger] has_rank(t.rm, r) <==> t.f[r] > 0),
        forall|r: int| 0 <= r < 13 ==> (#[trigger] has_rank(u.rm, r) <==> u.f[r] > 0),
        shows(t, p),
        !(p is StraightFlush) && !(p is Flush),
    ensures
        shows(u, p),
{
}

/// The ranks of five cards of one suit lie in that suit.
pub(crate) proof fn suit_shows(y: Seq<u8>, ks: Seq<int>)
    requires
        distinct_cards(y),
        y.len() == 5,
        flush_suit(tally(y).sc) < 4,
        ks.len() == 5,
        forall|i: int| 0 <= i < 5 ==> 0 <= #[trigger] ks[i] < 13 && tally(y).f[ks[i]] >= 1,
    ensures
        has_rank(tally(y).sm[flush_suit(tally(y).sc)], ks[0]),
        has_rank(tally(y).sm[flush_suit(tally(y).sc)], ks[1]),
        has_rank(tally(y).sm[flush_suit(tally(y).sc)], ks[2]),
        has_rank(tally(y).sm[flush_suit(tally(y).sc)], ks[3]),
        has_rank(tally(y).sm[flush_suit(tally(y).sc)], ks[4]),
{
    five_in_one_suit(y);
    assert(tally(y).f[ks[0]] >= 1 && tally(y).f[ks[1]] >= 1 && tally(y).f[ks[2]] >= 1 && tally(
        y,
    ).f[ks[3]] >= 1 && tally(y).f[ks[4]] >= 1);
}

/// A pattern of one hand, found in another of the same ranks.
proof fn shown_alike(x: Seq<u8>, y: Seq<u8>, p: Pattern) -> (q: Pattern)
    requires
        distinct_cards(x),
        distinct_cards(y),
        x.len() == 5,
        y.len() == 5,
        tally(x).f == tally(y).f,
        flush_suit(tally(x).sc) < 4 <==> flush_suit(tally(y).sc) < 4,
        shows(tally(x), p),
    ensures
        shows(tally(y), q),
        pattern_score(q) == pattern_score(p),
{
    let (t, u) = (tally(x), tally(y));
    let s0 = flush_suit(u.sc);
    match p {
        Pattern::StraightFlush { s, top } => {
            let ks = straight_ranks(top);
            let m = t.sm[s];
            assert(has_rank(m, ks[0]) && has_rank(m, ks[1]) && has_rank(m, ks[2]) && has_rank(
                m,
                ks[3],
            ) && has_rank(m, ks[4]));
            suit_ranks_held(x, s, ks);
            assert(flush_suit(t.sc) < 4);
            suit_shows(y, ks);
            assert(is_straight(u.sm[s0], top));
            Pattern::StraightFlush { s: s0, top }
        },
        Pattern::Flush { s, a, b, c, d, e } => {
            let ks = seq![a, b, c, d, e];
            suit_ranks_held(x, s, ks);
            assert(flush_suit(t.sc) < 4);
            suit_shows(y, ks);
            Pattern::Flush { s: s0, a, b, c, d, e }
        },
        _ => {
            tally_sound(x);
            tally_sound(y);
            ranks_show(t, u, p);
            p
        },
    }
}

/// Hands of the same ranks, both or neither of one suit: the second scores no less.
proof fn same_counts_at_least(x: Seq<u8>, y: Seq<u8>)
    requires
        distinct_cards(x),
        distinct_cards(y),
        x.len() == 5,
        y.len() == 5,
        tally(x).f == tally(y).f,
        flush_suit(tally(x).sc) < 4 <==> flush_suit(tally(y).sc) < 4,
    ensures
        hand_score(x, straight_table()) <= hand_score(y, straight_table()),
{
    tally_holds(x);
    tally_sound(x);
    tally_sound(y);
    let p = score_shown(tally(x));
    let q = shown_alike(x, y, p);
    score_at_least(tally(y), q);
}

/// Two five-card hands score the same exactly where they hold the same ranks equally often and
/// both or neither have one suit.
pub proof fn equal_scores(x: Seq<u8>, y: Seq<u8>)
    requires
        distinct_cards(x),
        distinct_cards(y),
        x.len() == 5,
        y.len() == 5,
    ensures
        hand_score(x, straight_table()) == hand_score(y, straight_table()) <==> tally(x).f == tally(
            y,
        ).f && (flush_suit(tally(x).sc) < 4 <==> flush_suit(tally(y).sc) < 4),
        hand_score(x, straight_table()) == hand_score(y, straight_table()) <==> tally(x).f == tally(
            y,
        ).f && (one_suit(x) <==> one_suit(y)),
{
    let (t, u) = (tally(x), tally(y));
    flush_is_one_suit(x);
    flush_is_one_suit(y);
    if hand_score(x, straight_table()) == hand_score(y, straight_table()) {
        tally_holds(x);
        tally_holds(y);
        tally_sound(x);
        tally_sound(y);
        let p = score_shown(t);
        let q = score_shown(u);
        same_score_same_counts(t, p, u, q);
        five_shown(x, p);
        five_shown(y, q);
        flush_by_category(x);
        flush_by_category(y);
    }
    if t.f == u.f && (flush_suit(t.sc) < 4 <==> flush_suit(u.sc) < 4) {
        same_counts_at_least(x, y);
        same_counts_at_least(y, x);
    }
}

/// The ranks of five cards tell the ranks of a straight, a flush or a high card.
proof fn ones_tell(ks: Seq<int>, ls: Seq<int>)
    requires
        ks.len() == 5,
        ls.len() == 5,
        forall|i: int, j: int| 0 <= i < j < 5 ==> ks[i] > ks[j],
        forall|i: int, j: int| 0 <= i < j < 5 ==> ls[i] > ls[j],
        forall|i: int| 0 <= i < 5 ==> 0 <= #[trigger] ks[i] < 13,
        forall|i: int| 0 <= i < 5 ==> 0 <= #[trigger] ls[i] < 13,
        ones(ks) == ones(ls),
    ensures
        ks == ls,
{
    ones_at(ks);
    ones_at(ls);
    assert forall|i: int| 0 <= i < 5 implies ls.contains(#[trigger] ks[i]) by {
        assert(ones(ls)[ks[i]] == 1);
    }
    assert forall|i: int| 0 <= i < 5 implies ks.contains(#[trigger] ls[i]) by {
        assert(ones(ks)[ls[i]] == 1);
    }
    assert forall|i: int| 0 <= i < 5 implies ks[i] == ls[i] by {
        falling_at_least(ls, ks, i);
        falling_at_least(ks, ls, i);
    }
    assert(ks =~= ls);
}

/// Five different ranks are counted once each, and no others.
proof fn ones_at(ks: Seq<int>)
    requires
        ks.len() == 5,
        forall|i: int, j: int| 0 <= i < j < 5 ==> ks[i] > ks[j],
        forall|i: int| 0 <= i < 5 ==> 0 <= #[trigger] ks[i] < 13,
    ensures
        forall|r: int| 0 <= r < 13 ==> #[trigger] ones(ks)[r] == (if ks.contains(r) {
            1int
        } else {
            0int
        }),
{
    assert(ks[0] > ks[1] && ks[1] > ks[2] && ks[2] > ks[3] && ks[3] > ks[4]);
    assert forall|r: int| 0 <= r < 13 implies #[trigger] ones(ks)[r] == (if ks.contains(r) {
        1int
    } else {
        0int
    }) by {
        if ks.contains(r) {
            let i = choose|i: int| 0 <= i < 5 && ks[i] == r;
            assert(i == 0 || i == 1 || i == 2 || i == 3 || i == 4);
        }
    }
}

/// The five ranks of a pattern without equal ranks.
spec fn single_ranks(p: Pattern) -> Seq<int> {
    match p {
        Pattern::StraightFlush { s, top } => straight_ranks(top),
        Pattern::Straight { top } => straight_ranks(top),
        Pattern::Flush { s, a, b, c, d, e } => seq![a, b, c, d, e],
        Pattern::High { a, b, c, d, e } => seq![a, b, c, d, e],
        _ => seq![],
    }
}

/// Whether a pattern has equal ranks.
spec fn grouped(p: Pattern) -> bool {
    p is Quads || p is FullHouse || p is Trips || p is TwoPair || p is Pair
}

proof fn single_counts(t: Tally, p: Pattern)
    requires
        shows(t, p),
        !grouped(p),
    ensures
        pattern_counts(p) == ones(single_ranks(p)),
        single_ranks(p).len() == 5,
        forall|i: int, j: int|
            0 <= i < j < 5 ==> single_ranks(p)[i] > single_ranks(p)[j],
        forall|i: int| 0 <= i < 5 ==> 0 <= #[trigger] single_ranks(p)[i] < 13,
        forall|r: int| 0 <= r < 13 ==> #[trigger] pattern_counts(p)[r] <= 1,
{
    ones_at(single_ranks(p));
}

/// A pattern with equal ranks counts one of them twice or more.
proof fn grouped_counts(t: Tally, p: Pattern) -> (r: int)
    requires
        shows(t, p),
        grouped(p),
    ensures
        0 <= r < 13,
        pattern_counts(p)[r] >= 2,
{
    match p {
        Pattern::Quads { q, k } => q,
        Pattern::FullHouse { t, p } => t,
        Pattern::Trips { t, a, b } => t,
        Pattern::TwoPair { p, q, k } => p,
        Pattern::Pair { p, a, b, c } => p,
        _ => 0,
    }
}

/// A pattern with equal ranks is told by how often it holds each.
proof fn grouped_same(t: Tally, p: Pattern, q: Pattern)
    requires
        shows(t, p),
        shows(t, q),
        grouped(p),
        grouped(q),
        pattern_counts(p) == pattern_counts(q),
    ensures
        p == q,
{
    let f = pattern_counts(p);
    let g = pattern_counts(q);
    match p {
        Pattern::Quads { q: a, k } => {
            assert(f[a] == 4 && f[k] == 1);
            assert(g[a] == 4 && g[k] == 1);
        },
        Pattern::FullHouse { t: a, p: b } => {
            assert(f[a] == 3 && f[b] == 2);
            assert(g[a] == 3 && g[b] == 2);
        },
        Pattern::Trips { t: a, a: b, b: c } => {
            assert(f[a] == 3 && f[b] == 1 && f[c] == 1);
            assert(g[a] == 3 && g[b] == 1 && g[c] == 1);
        },
        Pattern::TwoPair { p: a, q: b, k } => {
            assert(f[a] == 2 && f[b] == 2 && f[k] == 1);
            assert(g[a] == 2 && g[b] == 2 && g[k] == 1);
        },
        Pattern::Pair { p: a, a: b, b: c, c: d } => {
            assert(f[a] == 2 && f[b] == 1 && f[c] == 1 && f[d] == 1);
            assert(g[a] == 2 && g[b] == 1 && g[c] == 1 && g[d] == 1);
        },
        _ => {},
    }
}

/// Straights of the same ranks have the same top.
proof fn same_top(a: int, b: int)
    requires
        3 <= a <= 12,
        3 <= b <= 12,
        straight_ranks(a) == straight_ranks(b),
    ensures
        a == b,
{
    assert(straight_ranks(a)[0] == straight_ranks(b)[0]);
    assert(straight_ranks(a)[1] == straight_ranks(b)[1]);
}

/// Five cards score what they show, where no straight and no flush goes unsaid.
pub proof fn shown_scores(x: Seq<u8>, p: Pattern)
    requires
        distinct_cards(x),
        x.len() == 5,
        shows(tally(x), p),
        p is Flush || p is High ==> forall|t: int| !#[trigger] is_straight(tally(x).rm, t),
        p is Straight || p is High ==> flush_suit(tally(x).sc) == 4,
    ensures
        hand_score(x, straight_table()) == pattern_score(p),
{
    let t = tally(x);
    tally_holds(x);
    tally_sound(x);
    let q = score_shown(t);
    score_at_least(t, p);
    five_shown(x, p);
    five_shown(x, q);
    assert(category(p) <= category(q)) by {
        pattern_in_category(t, p);
        pattern_in_category(t, q);
    }
    if grouped(p) {
        let r = grouped_counts(t, p);
        if !grouped(q) {
            single_counts(t, q);
            assert(pattern_counts(q)[r] <= 1);
        }
        grouped_same(t, p, q);
    } else {
        single_counts(t, p);
        if grouped(q) {
            let r = grouped_counts(t, q);
            assert(pattern_counts(p)[r] <= 1);
        }
        single_counts(t, q);
        ones_tell(single_ranks(p), single_ranks(q));
        flush_by_category(x);
        shown_scores_single(x, p, q);
    }
}

proof fn shown_scores_single(x: Seq<u8>, p: Pattern, q: Pattern)
    requires
        distinct_cards(x),
        x.len() == 5,
        shows(tally(x), p),
        shows(tally(x), q),
        !grouped(p),
        !grouped(q),
        category(p) <= category(q),
        single_ranks(p) == single_ranks(q),
        flush_suit(tally(x).sc) < 4 <==> category(q) == 8 || category(q) == 5,
        p is Flush || p is High ==> forall|t: int| !#[trigger] is_straight(tally(x).rm, t),
        p is Straight || p is High ==> flush_suit(tally(x).sc) == 4,
    ensures
        pattern_score(p) == pattern_score(q),
{
    let t = tally(x);
    match q {
        Pattern::StraightFlush { s, top } => {
            suit_straight(x, s, top);
            match p {
                Pattern::StraightFlush { s: _, top: u } => {
                    same_top(top, u);
                },
                _ => {},
            }
        },
        Pattern::Flush { s, a, b, c, d, e } => {
            match p {
                Pattern::Flush { s: _, a: k, b: l, c: m, d: n, e: o } => {
                    let (ks, ls) = (seq![a, b, c, d, e], seq![k, l, m, n, o]);
                    assert(ks[0] == ls[0] && ks[1] == ls[1] && ks[2] == ls[2] && ks[3] == ls[3]
                        && ks[4] == ls[4]);
                },
                _ => {},
            }
        },
        Pattern::Straight { top } => {
            match p {
                Pattern::Straight { top: u } => {
                    same_top(top, u);
                },
                _ => {},
            }
        },
        Pattern::High { a, b, c, d, e } => {
            match p {
                Pattern::High { a: k, b: l, c: m, d: n, e: o } => {
                    let (ks, ls) = (seq![a, b, c, d, e], seq![k, l, m, n, o]);
                    assert(ks[0] == ls[0] && ks[1] == ls[1] && ks[2] == ls[2] && ks[3] == ls[3]
                        && ks[4] == ls[4]);
                },
                _ => {},
            }
        },
        _ => {},
    }
}

/// Five falling ranks, neither in a row nor a wheel, make no straight.
pub proof fn no_straight(x: Seq<u8>, a: int, b: int, c: int, d: int, e: int)
    requires
        distinct_cards(x),
        x.len() == 5,
        shows(tally(x), (Pattern::High { a, b, c, d, e })),
        a - e != 4,
        !(a == 12 && b == 3),
    ensures
        forall|t: int| !#[trigger] is_straight(tally(x).rm, t),
{
    let p = Pattern::High { a, b, c, d, e };
    let ks = seq![a, b, c, d, e];
    five_shown(x, p);
    assert forall|t: int| !#[trigger] is_straight(tally(x).rm, t) by {
        if is_straight(tally(x).rm, t) {
            let q = Pattern::Straight { top: t };
            five_shown(x, q);
            single_counts(tally(x), p);
            single_counts(tally(x), q);
            ones_tell(ks, straight_ranks(t));
            assert(ks[0] == straight_ranks(t)[0]);
            assert(ks[1] == straight_ranks(t)[1]);
            assert(ks[4] == straight_ranks(t)[4]);
        }
    }
}

/// Fewer than five cards make neither a flush nor a straight.
pub proof fn few_cards(x: Seq<u8>)
    requires
        distinct_cards(x),
        x.len() < 5,
    ensures
        flush_suit(tally(x).sc) == 4,
        straight_table()[tally(x).rm as int] < 0,
{
    let t = tally(x);
    tally_holds(x);
    tally_sound(x);
    suits_add_up(x);
    assert(t.sc[0] >= 0 && t.sc[1] >= 0 && t.sc[2] >= 0 && t.sc[3] >= 0);
    straight_facts(t.rm);
    let top = straight_top(t.rm);
    if top >= 0 {
        let p = Pattern::Straight { top };
        pattern_counts_five(t, p);
        pattern_counted(x, p);
        counts_same(pattern_counts(p), t.f, 13);
    }
}

} // verus!
