//! The five-card hands that a tally shows, and how its score compares with theirs.
use crate::equity::{distinct_cards, tally, tally_bounds};
use crate::holdings::{count_below, covers, held, kickers_enough, suit_counts_ranks, tally_holds};
use crate::ranks::{ranks_where, ranks_where_lists};
use crate::score::{
    flush_suit, full_of, groups, has_full_house, has_quads, has_straight_flush, held_but,
    held_times, in_mask, kickers, mask_ranks, score_of, P0, P1, P2, P3, P4, P5,
};
use crate::state::{has_rank, Tally};
use crate::straight::{is_straight, straight_table, straight_top};
use crate::tallies::suits_add_up;
use vstd::prelude::*;

verus! {

/// A five-card hand, by what makes it up.
pub enum Pattern {
    /// A straight flush in suit `s` up to rank `top`.
    StraightFlush { s: int, top: int },
    /// Four of rank `q` and one of rank `k`.
    Quads { q: int, k: int },
    /// Three of rank `t` and two of rank `p`.
    FullHouse { t: int, p: int },
    /// Five of suit `s`.
    Flush { s: int, a: int, b: int, c: int, d: int, e: int },
    /// A straight up to rank `top`.
    Straight { top: int },
    /// Three of rank `t` and two others.
    Trips { t: int, a: int, b: int },
    /// Two pairs and another.
    TwoPair { p: int, q: int, k: int },
    /// One pair and three others.
    Pair { p: int, a: int, b: int, c: int },
    /// Five ranks.
    High { a: int, b: int, c: int, d: int, e: int },
}

/// The score of a pattern.
pub open spec fn pattern_score(p: Pattern) -> int {
    match p {
        Pattern::StraightFlush { s, top } => 8 * P5 + top * P4,
        Pattern::Quads { q, k } => 7 * P5 + q * P4 + k * P3,
        Pattern::FullHouse { t, p } => 6 * P5 + t * P4 + p * P3,
        Pattern::Flush { s, a, b, c, d, e } => 5 * P5 + a * P4 + b * P3 + c * P2 + d * P1 + e * P0,
        Pattern::Straight { top } => 4 * P5 + top * P4,
        Pattern::Trips { t, a, b } => 3 * P5 + t * P4 + a * P3 + b * P2,
        Pattern::TwoPair { p, q, k } => 2 * P5 + p * P4 + q * P3 + k * P2,
        Pattern::Pair { p, a, b, c } => 1 * P5 + p * P4 + a * P3 + b * P2 + c * P1,
        Pattern::High { a, b, c, d, e } => a * P4 + b * P3 + c * P2 + d * P1 + e * P0,
    }
}

/// The ranks of a straight, highest first.
pub open spec fn straight_ranks(top: int) -> Seq<int> {
    if top == 3 {
        seq![12, 3, 2, 1, 0]
    } else {
        seq![top, top - 1, top - 2, top - 3, top - 4]
    }
}

/// The category of a pattern, from 8 for a straight flush down to 0 for a high card.
pub open spec fn category(p: Pattern) -> int {
    match p {
        Pattern::StraightFlush { .. } => 8,
        Pattern::Quads { .. } => 7,
        Pattern::FullHouse { .. } => 6,
        Pattern::Flush { .. } => 5,
        Pattern::Straight { .. } => 4,
        Pattern::Trips { .. } => 3,
        Pattern::TwoPair { .. } => 2,
        Pattern::Pair { .. } => 1,
        Pattern::High { .. } => 0,
    }
}

/// Whether the cards of a tally hold the cards of a pattern.
pub open spec fn shows(t: Tally, p: Pattern) -> bool {
    match p {
        Pattern::StraightFlush { s, top } => 0 <= s < 4 && t.sc[s] >= 5 && is_straight(
            t.sm[s],
            top,
        ),
        Pattern::Quads { q, k } => 0 <= q < 13 && 0 <= k < 13 && q != k && t.f[q] >= 4 && t.f[k]
            >= 1,
        Pattern::FullHouse { t: x, p } => 0 <= x < 13 && 0 <= p < 13 && x != p && t.f[x] >= 3
            && t.f[p] >= 2,
        Pattern::Flush { s, a, b, c, d, e } => 0 <= s < 4 && t.sc[s] >= 5 && 13 > a && a > b && b
            > c && c > d && d > e && e >= 0 && has_rank(t.sm[s], a) && has_rank(t.sm[s], b)
            && has_rank(t.sm[s], c) && has_rank(t.sm[s], d) && has_rank(t.sm[s], e),
        Pattern::Straight { top } => is_straight(t.rm, top),
        Pattern::Trips { t: x, a, b } => 0 <= x < 13 && 13 > a && a > b && b >= 0 && a != x && b
            != x && t.f[x] >= 3 && t.f[a] >= 1 && t.f[b] >= 1,
        Pattern::TwoPair { p, q, k } => 13 > p && p > q && q >= 0 && 0 <= k < 13 && k != p && k != q
            && t.f[p] >= 2 && t.f[q] >= 2 && t.f[k] >= 1,
        Pattern::Pair { p, a, b, c } => 0 <= p < 13 && 13 > a && a > b && b > c && c >= 0 && a != p
            && b != p && c != p && t.f[p] >= 2 && t.f[a] >= 1 && t.f[b] >= 1 && t.f[c] >= 1,
        Pattern::High { a, b, c, d, e } => 13 > a && a > b && b > c && c > d && d > e && e >= 0
            && t.f[a] >= 1 && t.f[b] >= 1 && t.f[c] >= 1 && t.f[d] >= 1 && t.f[e] >= 1,
    }
}

/// What the tallies of up to eight different cards have in common.
pub open spec fn sound(t: Tally) -> bool {
    &&& t.f.len() == 13
    &&& t.sc.len() == 4
    &&& t.sm.len() == 4
    &&& forall|r: int| 0 <= r < 13 ==> 0 <= #[trigger] t.f[r] <= 4
    &&& forall|s: int| 0 <= s < 4 ==> 0 <= #[trigger] t.sc[s]
    &&& forall|s: int| 0 <= s < 4 ==> #[trigger] t.sm[s] < 8192
    &&& t.rm < 8192
    &&& forall|s: int| 0 <= s < 4 ==> #[trigger] t.sc[s] == mask_ranks(t.sm[s]).len()
    &&& forall|r: int| 0 <= r < 13 ==> (#[trigger] has_rank(t.rm, r) <==> t.f[r] > 0)
    &&& t.sc[0] + t.sc[1] + t.sc[2] + t.sc[3] <= 8
    &&& count_below(t.f, 13) <= 8
}

/// Up to eight different cards have such a tally.
pub proof fn tally_sound(x: Seq<u8>)
    requires
        distinct_cards(x),
        x.len() <= 8,
    ensures
        sound(tally(x)),
{
    tally_bounds(x);
    tally_holds(x);
    suits_add_up(x);
    assert forall|r: int| 0 <= r < 13 implies 0 <= #[trigger] tally(x).f[r] <= 4 by {
        assert(tally(x).f[r] == held(x, r, 0) + held(x, r, 1) + held(x, r, 2) + held(x, r, 3));
    }
    assert forall|s: int| 0 <= s < 4 implies #[trigger] tally(x).sc[s] == mask_ranks(
        tally(x).sm[s],
    ).len() by {
        suit_counts_ranks(x, s);
    }
}

/// A falling list that contains the falling numbers `ks` is, place by place, no lower.
pub proof fn falling_at_least(l: Seq<int>, ks: Seq<int>, n: int) -> (at: int)
    requires
        forall|i: int, j: int| 0 <= i < j < l.len() ==> l[i] > l[j],
        forall|i: int, j: int| 0 <= i < j < ks.len() ==> ks[i] > ks[j],
        forall|i: int| 0 <= i < ks.len() ==> l.contains(#[trigger] ks[i]),
        0 <= n < ks.len(),
    ensures
        n <= at < l.len(),
        l[at] == ks[n],
        l[n] >= ks[n],
    decreases n,
{
    assert(l.contains(ks[n]));
    let at = choose|at: int| 0 <= at < l.len() && l[at] == ks[n];
    if n > 0 {
        let before = falling_at_least(l, ks, n - 1);
        assert(ks[n - 1] > ks[n]);
        assert(before < at) by {
            if at < before {
                assert(l[at] > l[before]);
            }
        }
    }
    if n < at {
        assert(l[n] > l[at]);
    }
    at
}

/// What the groups of a hand list.
pub proof fn group_facts(f: Seq<int>, n: int)
    ensures
        forall|i: int|
            0 <= i < groups(f, n).len() ==> 0 <= #[trigger] groups(f, n)[i] < 13 && f[groups(
                f,
                n,
            )[i]] == n,
        forall|i: int, j: int|
            0 <= i < j < groups(f, n).len() ==> groups(f, n)[i] > groups(f, n)[j],
        forall|r: int|
            0 <= r < 13 && #[trigger] f[r] == n ==> groups(f, n).contains(r) && groups(f, n).len()
                > 0 && groups(f, n).last() <= r <= groups(f, n)[0],
{
    ranks_where_lists(held_times(f, n), 13);
    let g = groups(f, n);
    assert forall|r: int| 0 <= r < 13 && #[trigger] f[r] == n implies g.contains(r) && g.len() > 0
        && g.last() <= r <= g[0] by {
        assert(held_times(f, n)(r));
        let i = choose|i: int| 0 <= i < g.len() && g[i] == r;
        if i > 0 {
            assert(g[0] > g[i]);
        }
        if i < g.len() - 1 {
            assert(g[i] > g[g.len() - 1]);
        }
    }
}

/// What the kickers of a hand list.
pub proof fn kicker_facts(f: Seq<int>, a: int, b: int)
    ensures
        forall|i: int|
            0 <= i < kickers(f, a, b).len() ==> 0 <= #[trigger] kickers(f, a, b)[i] < 13
                && f[kickers(f, a, b)[i]] > 0 && kickers(f, a, b)[i] != a && kickers(f, a, b)[i]
                != b,
        forall|i: int, j: int|
            0 <= i < j < kickers(f, a, b).len() ==> kickers(f, a, b)[i] > kickers(f, a, b)[j],
        forall|r: int|
            0 <= r < 13 && #[trigger] f[r] > 0 && r != a && r != b ==> kickers(f, a, b).contains(r),
{
    ranks_where_lists(held_but(f, a, b), 13);
    assert forall|r: int| 0 <= r < 13 && #[trigger] f[r] > 0 && r != a && r != b implies kickers(
        f,
        a,
        b,
    ).contains(r) by {
        assert(held_but(f, a, b)(r));
    }
}

/// The highest straight of a mask is a straight of it, and none is higher.
pub proof fn straight_facts(m: u16)
    requires
        m < 8192,
    ensures
        -1 <= straight_top(m) <= 12,
        straight_top(m) >= 0 ==> is_straight(m, straight_top(m)),
        forall|t: int| #[trigger] is_straight(m, t) ==> t <= straight_top(m),
        straight_table()[m as int] == straight_top(m),
{
    let p = |t: int| is_straight(m, t);
    ranks_where_lists(p, 13);
    let l = ranks_where(p, 13);
    if l.len() > 0 {
        assert(p(l[0]));
    }
    assert forall|t: int| #[trigger] is_straight(m, t) implies t <= straight_top(m) by {
        assert(p(t));
        assert(l.contains(t));
        let i = choose|i: int| 0 <= i < l.len() && l[i] == t;
        if i > 0 {
            assert(l[0] > l[i]);
        }
    }
}

/// A hand with neither four of a kind nor a full house has no three and two to make one of.
pub proof fn no_full_house(f: Seq<int>, x: int, y: int)
    requires
        !has_quads(f),
        !has_full_house(f),
        0 <= x < 13,
        0 <= y < 13,
        x != y,
        f[x] <= 4,
        f[y] <= 4,
    ensures
        f[x] >= 3 ==> f[y] < 2,
        f[x] < 4,
{
    group_facts(f, 4);
    group_facts(f, 3);
    group_facts(f, 2);
    let trips = groups(f, 3);
    if f[x] == 3 && f[y] == 3 {
        let i = choose|i: int| 0 <= i < trips.len() && trips[i] == x;
        let j = choose|j: int| 0 <= j < trips.len() && trips[j] == y;
        assert(i != j);
    }
}

/// Five cards of one suit leave too few for five of another.
proof fn one_flush_suit(t: Tally, s: int)
    requires
        sound(t),
        0 <= s < 4,
        t.sc[s] >= 5,
    ensures
        s == flush_suit(t.sc),
{
    assert(t.sc[0] >= 0 && t.sc[1] >= 0 && t.sc[2] >= 0 && t.sc[3] >= 0);
}

/// A straight flush among the cards is one that scoring finds, and none is higher.
proof fn straight_flush_found(t: Tally, s: int, top: int)
    requires
        sound(t),
        0 <= s < 4,
        t.sc[s] >= 5,
        is_straight(t.sm[s], top),
    ensures
        has_straight_flush(t, straight_table()),
        top <= straight_table()[t.sm[flush_suit(t.sc)] as int],
{
    one_flush_suit(t, s);
    straight_facts(t.sm[s]);
}

/// A flush with nothing above it scores no less than what the cards show.
proof fn flush_at_least(t: Tally, p: Pattern)
    requires
        sound(t),
        flush_suit(t.sc) < 4,
        !has_straight_flush(t, straight_table()),
        !has_quads(t.f),
        !has_full_house(t.f),
        shows(t, p),
    ensures
        pattern_score(p) <= score_of(t, straight_table()),
{
    let s0 = flush_suit(t.sc);
    let m = t.sm[s0];
    let k = mask_ranks(m);
    ranks_where_lists(in_mask(m), 13);
    assert(t.sc[s0] == k.len());
    match p {
        Pattern::StraightFlush { s, top } => {
            straight_flush_found(t, s, top);
        },
        Pattern::Flush { s, a, b, c, d, e } => {
            one_flush_suit(t, s);
            let ks = seq![a, b, c, d, e];
            assert(in_mask(m)(a) && in_mask(m)(b) && in_mask(m)(c) && in_mask(m)(d) && in_mask(m)(
                e,
            ));
            falling_at_least(k, ks, 0);
            falling_at_least(k, ks, 1);
            falling_at_least(k, ks, 2);
            falling_at_least(k, ks, 3);
            falling_at_least(k, ks, 4);
        },
        Pattern::Quads { q, k } => {
            no_full_house(t.f, q, k);
        },
        Pattern::FullHouse { t: x, p } => {
            no_full_house(t.f, x, p);
        },
        _ => {},
    }
}

/// The kickers are no lower, place by place, than other ranks held beside `a` and `b`.
proof fn kickers_at_least(f: Seq<int>, a: int, b: int, ks: Seq<int>)
    requires
        forall|i: int, j: int| 0 <= i < j < ks.len() ==> ks[i] > ks[j],
        forall|i: int|
            0 <= i < ks.len() ==> 0 <= #[trigger] ks[i] < 13 && f[ks[i]] >= 1 && ks[i] != a && ks[i]
                != b,
    ensures
        kickers(f, a, b).len() >= ks.len(),
        forall|i: int| 0 <= i < ks.len() ==> kickers(f, a, b)[i] >= #[trigger] ks[i],
{
    kicker_facts(f, a, b);
    let l = kickers(f, a, b);
    assert forall|i: int| 0 <= i < ks.len() implies l.contains(#[trigger] ks[i]) by {
        assert(f[ks[i]] > 0);
    }
    assert forall|i: int| 0 <= i < ks.len() implies l[i] >= #[trigger] ks[i] && i < l.len() by {
        falling_at_least(l, ks, i);
    }
    if ks.len() > 0 {
        assert(l[ks.len() - 1] >= ks[ks.len() - 1]);
    }
}

/// Four of a kind with nothing above it scores no less than what the cards show.
proof fn quads_at_least(t: Tally, p: Pattern)
    requires
        sound(t),
        !has_straight_flush(t, straight_table()),
        has_quads(t.f),
        shows(t, p),
    ensures
        pattern_score(p) <= score_of(t, straight_table()),
{
    let f = t.f;
    group_facts(f, 4);
    let quads = groups(f, 4);
    assert(f[quads[0]] == 4);
    kicker_facts(f, quads[0], -1);
    match p {
        Pattern::StraightFlush { s, top } => {
            straight_flush_found(t, s, top);
        },
        Pattern::Quads { q, k } => {
            assert(f[q] == 4);
            assert(q <= quads[0]);
            if q == quads[0] {
                kickers_at_least(f, q, -1, seq![k]);
                assert(kickers(f, q, -1)[0] >= seq![k][0]);
            }
        },
        _ => {},
    }
}

/// A full house with nothing above it scores no less than what the cards show.
proof fn full_house_at_least(t: Tally, p: Pattern)
    requires
        sound(t),
        !has_straight_flush(t, straight_table()),
        !has_quads(t.f),
        has_full_house(t.f),
        shows(t, p),
    ensures
        pattern_score(p) <= score_of(t, straight_table()),
{
    let f = t.f;
    group_facts(f, 4);
    group_facts(f, 3);
    group_facts(f, 2);
    let trips = groups(f, 3);
    match p {
        Pattern::StraightFlush { s, top } => {
            straight_flush_found(t, s, top);
        },
        Pattern::FullHouse { t: x, p: y } => {
            assert(f[x] == 3);
            assert(f[y] == 3 || f[y] == 2);
            if x == trips[0] && f[y] == 3 {
                let j = choose|j: int| 0 <= j < trips.len() && trips[j] == y;
                assert(j >= 1);
                assert(y <= trips[1]);
            }
        },
        _ => {},
    }
}

/// Any lesser hand scores no less than what the cards show.
#[verifier::rlimit(30)]
proof fn lesser_at_least(t: Tally, p: Pattern)
    requires
        sound(t),
        flush_suit(t.sc) == 4,
        !has_quads(t.f),
        !has_full_house(t.f),
        shows(t, p),
    ensures
        pattern_score(p) <= score_of(t, straight_table()),
{
    let f = t.f;
    group_facts(f, 4);
    group_facts(f, 3);
    group_facts(f, 2);
    let trips = groups(f, 3);
    let pairs = groups(f, 2);
    straight_facts(t.rm);
    let top = straight_top(t.rm);
    if trips.len() >= 1 {
        kicker_facts(f, trips[0], -1);
    }
    match p {
        Pattern::Quads { q, k } => {
            no_full_house(f, q, k);
        },
        Pattern::FullHouse { t: x, p } => {
            no_full_house(f, x, p);
        },
        Pattern::Straight { top: u } => {
            assert(u <= top);
        },
        Pattern::Trips { t: x, a, b } => {
            no_full_house(f, x, a);
            assert(f[x] == 3);
            assert(trips.len() == 1 && trips[0] == x);
            if top < 0 {
                kickers_at_least(f, x, -1, seq![a, b]);
                let k = kickers(f, x, -1);
                assert(k[0] >= seq![a, b][0]);
                assert(k[1] >= seq![a, b][1]);
            }
        },
        Pattern::TwoPair { p, q, k: r } => {
            no_full_house(f, p, q);
            no_full_house(f, q, p);
            if top < 0 && trips.len() == 0 {
                assert(f[p] == 2 && f[q] == 2);
                let ks = seq![p, q];
                falling_at_least(pairs, ks, 0);
                falling_at_least(pairs, ks, 1);
                kicker_facts(f, pairs[0], pairs[1]);
                if p == pairs[0] && q == pairs[1] {
                    kickers_at_least(f, p, q, seq![r]);
                    assert(kickers(f, p, q)[0] >= seq![r][0]);
                }
            }
        },
        Pattern::Pair { p, a, b, c } => {
            no_full_house(f, p, a);
            if top < 0 && trips.len() == 0 {
                assert(f[p] == 2);
                if pairs.len() == 1 {
                    assert(pairs[0] == p);
                    let ks = seq![a, b, c];
                    kickers_at_least(f, p, -1, ks);
                    let k = kickers(f, p, -1);
                    assert(k[0] >= ks[0]);
                    assert(k[1] >= ks[1]);
                    assert(k[2] >= ks[2]);
                } else {
                    kicker_facts(f, pairs[0], pairs[1]);
                }
            }
        },
        Pattern::High { a, b, c, d, e } => {
            if top < 0 && trips.len() == 0 {
                if pairs.len() >= 2 {
                    kicker_facts(f, pairs[0], pairs[1]);
                } else if pairs.len() == 1 {
                    kicker_facts(f, pairs[0], -1);
                } else {
                    let ks = seq![a, b, c, d, e];
                    kickers_at_least(f, -1, -1, ks);
                    let k = kickers(f, -1, -1);
                    assert(k[0] >= ks[0]);
                    assert(k[1] >= ks[1]);
                    assert(k[2] >= ks[2]);
                    assert(k[3] >= ks[3]);
                    assert(k[4] >= ks[4]);
                }
            }
        },
        _ => {},
    }
}

/// The category that scoring finds in a tally.
pub open spec fn category_of(t: Tally) -> int {
    if has_straight_flush(t, straight_table()) {
        8
    } else if has_quads(t.f) {
        7
    } else if has_full_house(t.f) {
        6
    } else if flush_suit(t.sc) < 4 {
        5
    } else if straight_top(t.rm) >= 0 {
        4
    } else if groups(t.f, 3).len() >= 1 {
        3
    } else if groups(t.f, 2).len() >= 2 {
        2
    } else if groups(t.f, 2).len() == 1 {
        1
    } else {
        0
    }
}

/// A score is no less than that of any five-card hand the cards show.
pub proof fn score_at_least(t: Tally, p: Pattern)
    requires
        sound(t),
        shows(t, p),
    ensures
        pattern_score(p) <= score_of(t, straight_table()),
{
    if has_straight_flush(t, straight_table()) {
        match p {
            Pattern::StraightFlush { s, top } => {
                straight_flush_found(t, s, top);
            },
            _ => {},
        }
    } else if has_quads(t.f) {
        quads_at_least(t, p);
    } else if has_full_house(t.f) {
        full_house_at_least(t, p);
    } else if flush_suit(t.sc) < 4 {
        flush_at_least(t, p);
    } else {
        lesser_at_least(t, p);
    }
}

/// Five or more cards show a five-card hand that scores what they score.
pub proof fn score_shown(t: Tally) -> (p: Pattern)
    requires
        sound(t),
        count_below(t.f, 13) >= 5,
    ensures
        shows(t, p),
        category(p) == category_of(t),
        pattern_score(p) == score_of(t, straight_table()),
{
    let f = t.f;
    let s = flush_suit(t.sc);
    group_facts(f, 4);
    group_facts(f, 3);
    group_facts(f, 2);
    let quads = groups(f, 4);
    let trips = groups(f, 3);
    let pairs = groups(f, 2);
    if has_straight_flush(t, straight_table()) {
        straight_facts(t.sm[s]);
        Pattern::StraightFlush { s, top: straight_top(t.sm[s]) }
    } else if has_quads(f) {
        let q = quads[0];
        kickers_enough(f, q, -1, 4, 13);
        kicker_facts(f, q, -1);
        Pattern::Quads { q, k: kickers(f, q, -1)[0] }
    } else if has_full_house(f) {
        assert(f[trips[0]] == 3);
        assert(f[full_of(f)] >= 2);
        Pattern::FullHouse { t: trips[0], p: full_of(f) }
    } else if s < 4 {
        let m = t.sm[s];
        ranks_where_lists(in_mask(m), 13);
        let k = mask_ranks(m);
        assert(t.sc[s] == k.len());
        assert(in_mask(m)(k[0]) && in_mask(m)(k[1]) && in_mask(m)(k[2]) && in_mask(m)(k[3])
            && in_mask(m)(k[4]));
        Pattern::Flush { s, a: k[0], b: k[1], c: k[2], d: k[3], e: k[4] }
    } else {
        lesser_shown(t)
    }
}

proof fn lesser_shown(t: Tally) -> (p: Pattern)
    requires
        sound(t),
        count_below(t.f, 13) >= 5,
        flush_suit(t.sc) == 4,
        !has_quads(t.f),
        !has_full_house(t.f),
    ensures
        shows(t, p),
        category(p) == category_of(t),
        pattern_score(p) == score_of(t, straight_table()),
{
    let f = t.f;
    group_facts(f, 4);
    group_facts(f, 3);
    group_facts(f, 2);
    let trips = groups(f, 3);
    let pairs = groups(f, 2);
    straight_facts(t.rm);
    let top = straight_top(t.rm);
    if top >= 0 {
        Pattern::Straight { top }
    } else if trips.len() >= 1 {
        let x = trips[0];
        assert forall|r: int| 0 <= r < 13 && r != x && r != -1 implies #[trigger] f[r] <= 1 by {
            no_full_house(f, x, r);
        }
        kickers_enough(f, x, -1, 1, 13);
        kicker_facts(f, x, -1);
        let k = kickers(f, x, -1);
        Pattern::Trips { t: x, a: k[0], b: k[1] }
    } else if pairs.len() >= 2 {
        kickers_enough(f, pairs[0], pairs[1], 2, 13);
        kicker_facts(f, pairs[0], pairs[1]);
        let k = kickers(f, pairs[0], pairs[1]);
        Pattern::TwoPair { p: pairs[0], q: pairs[1], k: k[0] }
    } else if pairs.len() == 1 {
        kickers_enough(f, pairs[0], -1, 1, 13);
        kicker_facts(f, pairs[0], -1);
        let k = kickers(f, pairs[0], -1);
        Pattern::Pair { p: pairs[0], a: k[0], b: k[1], c: k[2] }
    } else {
        kickers_enough(f, -1, -1, 1, 13);
        kicker_facts(f, -1, -1);
        let k = kickers(f, -1, -1);
        Pattern::High { a: k[0], b: k[1], c: k[2], d: k[3], e: k[4] }
    }
}

/// A hand of a higher category scores more, whatever the ranks; the category is the leading digit
/// of the score.
pub proof fn category_decides(t: Tally, p: Pattern, u: Tally, q: Pattern)
    requires
        shows(t, p),
        shows(u, q),
    ensures
        pattern_score(p) / (P5 as int) == category(p),
        category(p) > category(q) ==> pattern_score(p) > pattern_score(q),
{
    pattern_in_category(t, p);
    pattern_in_category(u, q);
}

/// The score of a pattern lies within its category.
pub proof fn pattern_in_category(t: Tally, p: Pattern)
    requires
        shows(t, p),
    ensures
        category(p) * P5 <= pattern_score(p) < (category(p) + 1) * P5,
{
}

/// More cards show what fewer show.
pub proof fn shows_more(u: Tally, t: Tally, p: Pattern)
    requires
        covers(u, t),
        shows(t, p),
    ensures
        shows(u, p),
{
}

} // verus!
