//! What a score says of fewer than five cards: the category counts as usual, and where a card is
//! missing beside a group its place counts as one below a deuce.
use crate::equity::{distinct_cards, hand_score, tally, tally_bounds};
use crate::patterns::{falling_at_least, group_facts, kicker_facts};
use crate::score::{groups, kickers, score_of};
use crate::straight::straight_table;
use crate::strength::{of_rank, tally_step};
use crate::ties::few_cards;
use vstd::prelude::*;

verus! {

/// The score of cards is the score of their tally.
pub proof fn score_of_cards(x: Seq<u8>, straight: Seq<i8>)
    ensures
        hand_score(x, straight) == score_of(tally(x), straight),
{
}

/// Falling lists with the same entries are the same.
proof fn falling_same(l: Seq<int>, ks: Seq<int>)
    requires
        forall|i: int, j: int| 0 <= i < j < l.len() ==> l[i] > l[j],
        forall|i: int, j: int| 0 <= i < j < ks.len() ==> ks[i] > ks[j],
        forall|i: int| 0 <= i < ks.len() ==> l.contains(#[trigger] ks[i]),
        forall|i: int| 0 <= i < l.len() ==> ks.contains(#[trigger] l[i]),
    ensures
        l == ks,
{
    if ks.len() > 0 {
        falling_at_least(l, ks, ks.len() - 1);
    }
    if l.len() > 0 {
        falling_at_least(ks, l, l.len() - 1);
    }
    assert forall|i: int| 0 <= i < ks.len() implies l[i] == ks[i] by {
        falling_at_least(l, ks, i);
        falling_at_least(ks, l, i);
    }
    assert(l =~= ks);
}

proof fn groups_are(f: Seq<int>, n: int, ks: Seq<int>)
    requires
        forall|i: int, j: int| 0 <= i < j < ks.len() ==> ks[i] > ks[j],
        forall|i: int| 0 <= i < ks.len() ==> 0 <= #[trigger] ks[i] < 13 && f[ks[i]] == n,
        forall|r: int| 0 <= r < 13 && #[trigger] f[r] == n ==> ks.contains(r),
    ensures
        groups(f, n) == ks,
{
    group_facts(f, n);
    let l = groups(f, n);
    assert forall|i: int| 0 <= i < ks.len() implies l.contains(#[trigger] ks[i]) by {
        assert(f[ks[i]] == n);
    }
    assert forall|i: int| 0 <= i < l.len() implies ks.contains(#[trigger] l[i]) by {
        assert(f[l[i]] == n);
    }
    falling_same(l, ks);
}

proof fn kickers_are(f: Seq<int>, a: int, b: int, ks: Seq<int>)
    requires
        forall|i: int, j: int| 0 <= i < j < ks.len() ==> ks[i] > ks[j],
        forall|i: int|
            0 <= i < ks.len() ==> 0 <= #[trigger] ks[i] < 13 && f[ks[i]] > 0 && ks[i] != a && ks[i]
                != b,
        forall|r: int| 0 <= r < 13 && #[trigger] f[r] > 0 && r != a && r != b ==> ks.contains(r),
    ensures
        kickers(f, a, b) == ks,
{
    kicker_facts(f, a, b);
    let l = kickers(f, a, b);
    assert forall|i: int| 0 <= i < ks.len() implies l.contains(#[trigger] ks[i]) by {
        assert(f[ks[i]] > 0);
    }
    assert forall|i: int| 0 <= i < l.len() implies ks.contains(#[trigger] l[i]) by {
        assert(f[l[i]] > 0);
    }
    falling_same(l, ks);
}

/// Whether card `i` is there and has rank `r`, as a number.
spec fn at_rank(x: Seq<u8>, i: int, r: int) -> int {
    if i < x.len() {
        of_rank(x[i], r)
    } else {
        0
    }
}

/// The tally of up to four cards counts their ranks.
proof fn few_tally(x: Seq<u8>)
    requires
        distinct_cards(x),
        x.len() <= 4,
    ensures
        tally(x).f.len() == 13,
        forall|r: int|
            0 <= r < 13 ==> #[trigger] tally(x).f[r] == at_rank(x, 0, r) + at_rank(x, 1, r)
                + at_rank(x, 2, r) + at_rank(x, 3, r),
{
    tally_bounds(x);
    let n = x.len() as int;
    assert(x.take(0) =~= seq![]);
    assert(x.take(n) =~= x);
    if n > 0 {
        tally_step(x, 0, 1);
    }
    if n > 1 {
        tally_step(x, 1, 2);
    }
    if n > 2 {
        tally_step(x, 2, 3);
    }
    if n > 3 {
        tally_step(x, 3, 4);
    }
    assert forall|r: int| 0 <= r < 13 implies #[trigger] tally(x).f[r] == at_rank(x, 0, r)
        + at_rank(x, 1, r) + at_rank(x, 2, r) + at_rank(x, 3, r) by {
        assert(tally(x.take(0)).f[r] == 0);
        if n > 0 {
            assert(tally(x.take(1)).f[r] == tally(x.take(0)).f[r] + of_rank(x[0], r));
        }
        if n > 1 {
            assert(tally(x.take(2)).f[r] == tally(x.take(1)).f[r] + of_rank(x[1], r));
        }
        if n > 2 {
            assert(tally(x.take(3)).f[r] == tally(x.take(2)).f[r] + of_rank(x[2], r));
        }
        if n > 3 {
            assert(tally(x.take(4)).f[r] == tally(x.take(3)).f[r] + of_rank(x[3], r));
        }
    }
}

/// Four cards of one rank.
pub proof fn bare_four_score(x: Seq<u8>, q: int)
    requires
        distinct_cards(x),
        x.len() == 4,
        x[0] as int / 4 == q && x[1] as int / 4 == q && x[2] as int / 4 == q && x[3] as int / 4
            == q,
    ensures
        hand_score(x, straight_table()) == 7 * 759375 + q * 50625 - 3375,
{
    few_tally(x);
    few_cards(x);
    assert(x[0] < 52);
    let f = tally(x).f;
    let one = seq![q];
    assert(one[0] == q);
    groups_are(f, 4, one);
    kickers_are(f, q, -1, seq![]);
}

/// Three cards of one rank, alone or with a fourth card.
pub proof fn bare_three_score(x: Seq<u8>, t: int, a: int)
    requires
        distinct_cards(x),
        3 <= x.len() <= 4,
        x[0] as int / 4 == t && x[1] as int / 4 == t && x[2] as int / 4 == t,
        x.len() == 4 ==> x[3] as int / 4 == a && a != t,
        x.len() == 3 ==> a == -1,
    ensures
        hand_score(x, straight_table()) == 3 * 759375 + t * 50625 + a * 3375 - 225,
{
    few_tally(x);
    few_cards(x);
    assert(x[0] < 52);
    let f = tally(x).f;
    let one = seq![t];
    assert(one[0] == t);
    groups_are(f, 4, seq![]);
    groups_are(f, 3, one);
    groups_are(f, 2, seq![]);
    if x.len() == 4 {
        assert(x[3] < 52);
        let ks = seq![a];
        assert(ks[0] == a);
        kickers_are(f, t, -1, ks);
    } else {
        kickers_are(f, t, -1, seq![]);
    }
}

/// Two pairs, alone.
pub proof fn bare_two_pair_score(x: Seq<u8>, p: int, q: int)
    requires
        distinct_cards(x),
        x.len() == 4,
        x[0] as int / 4 == p && x[1] as int / 4 == p,
        x[2] as int / 4 == q && x[3] as int / 4 == q,
        p > q,
    ensures
        hand_score(x, straight_table()) == 2 * 759375 + p * 50625 + q * 3375 - 225,
{
    few_tally(x);
    few_cards(x);
    assert(x[0] < 52 && x[2] < 52);
    let f = tally(x).f;
    let two = seq![p, q];
    assert(two[0] == p && two[1] == q);
    groups_are(f, 4, seq![]);
    groups_are(f, 3, seq![]);
    groups_are(f, 2, two);
    kickers_are(f, p, q, seq![]);
}

/// A pair, alone or with one or two other cards.
pub proof fn bare_pair_score(x: Seq<u8>, p: int, a: int, b: int)
    requires
        distinct_cards(x),
        2 <= x.len() <= 4,
        x[0] as int / 4 == p && x[1] as int / 4 == p,
        a != p && b != p,
        x.len() >= 3 ==> x[2] as int / 4 == a && a > b,
        x.len() < 3 ==> a == -1,
        x.len() == 4 ==> x[3] as int / 4 == b,
        x.len() < 4 ==> b == -1,
    ensures
        hand_score(x, straight_table()) == 759375 + p * 50625 + a * 3375 + b * 225 - 15,
{
    few_tally(x);
    few_cards(x);
    assert(x[0] < 52);
    let f = tally(x).f;
    let one = seq![p];
    assert(one[0] == p);
    groups_are(f, 4, seq![]);
    groups_are(f, 3, seq![]);
    groups_are(f, 2, one);
    if x.len() == 4 {
        assert(x[2] < 52 && x[3] < 52);
        let ks = seq![a, b];
        assert(ks[0] == a && ks[1] == b);
        kickers_are(f, p, -1, ks);
    } else if x.len() == 3 {
        assert(x[2] < 52);
        let ks = seq![a];
        assert(ks[0] == a);
        kickers_are(f, p, -1, ks);
    } else {
        kickers_are(f, p, -1, seq![]);
    }
}

/// Up to four cards of different ranks, highest first; a place without a card counts nothing.
pub proof fn bare_ranks_score(x: Seq<u8>, a: int, b: int, c: int, d: int)
    requires
        distinct_cards(x),
        x.len() <= 4,
        forall|i: int, j: int|
            0 <= i < j < x.len() ==> #[trigger] x[i] as int / 4 > #[trigger] x[j] as int / 4,
        a == (if x.len() > 0 {
            x[0] as int / 4
        } else {
            0
        }),
        b == (if x.len() > 1 {
            x[1] as int / 4
        } else {
            0
        }),
        c == (if x.len() > 2 {
            x[2] as int / 4
        } else {
            0
        }),
        d == (if x.len() > 3 {
            x[3] as int / 4
        } else {
            0
        }),
    ensures
        hand_score(x, straight_table()) == a * 50625 + b * 3375 + c * 225 + d * 15,
{
    few_tally(x);
    few_cards(x);
    let f = tally(x).f;
    let ks = Seq::new(x.len(), |i: int| x[i] as int / 4);
    assert forall|i: int, j: int| 0 <= i < j < ks.len() implies ks[i] > ks[j] by {
        assert(x[i] as int / 4 > x[j] as int / 4);
    }
    assert forall|r: int| 0 <= r < 13 implies #[trigger] f[r] <= 1 && (f[r] == 1
        ==> ks.contains(r)) by {
        assert(f[r] == at_rank(x, 0, r) + at_rank(x, 1, r) + at_rank(x, 2, r) + at_rank(x, 3, r));
        assert(0 < x.len() ==> ks[0] == x[0] as int / 4);
        assert(1 < x.len() ==> ks[1] == x[1] as int / 4 && ks[0] > ks[1]);
        assert(2 < x.len() ==> ks[2] == x[2] as int / 4 && ks[1] > ks[2]);
        assert(3 < x.len() ==> ks[3] == x[3] as int / 4 && ks[2] > ks[3]);
    }
    assert forall|i: int| 0 <= i < ks.len() implies 0 <= #[trigger] ks[i] < 13 && f[ks[i]] > 0
        && ks[i] != -1 by {
        assert(x[i] < 52);
        let r = ks[i];
        assert(f[r] == at_rank(x, 0, r) + at_rank(x, 1, r) + at_rank(x, 2, r) + at_rank(x, 3, r));
        assert(i == 0 || i == 1 || i == 2 || i == 3);
    }
    groups_are(f, 4, seq![]);
    groups_are(f, 3, seq![]);
    groups_are(f, 2, seq![]);
    kickers_are(f, -1, -1, ks);
}

} // verus!
