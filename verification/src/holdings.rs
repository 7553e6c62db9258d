//! What the tally of different cards says about them.
use crate::cards::{rank_of, suit_of};
use crate::equity::{distinct_cards, tally, tally_bounds};
use crate::ranks::ranks_where;
use crate::score::{held_but, in_mask, mask_ranks};
use crate::state::{has_rank, Tally};
use vstd::prelude::*;

verus! {

/// The card of a rank and a suit.
pub open spec fn card(r: int, s: int) -> u8 {
    (4 * r + s) as u8
}

/// One where `x` holds the card of rank `r` and suit `s`, zero where it does not.
pub open spec fn held(x: Seq<u8>, r: int, s: int) -> int {
    if x.contains(card(r, s)) {
        1
    } else {
        0
    }
}

/// How many cards of suit `s` and a rank below `n` are among `x`.
pub open spec fn held_in_suit(x: Seq<u8>, s: int, n: int) -> int
    decreases n,
{
    if n <= 0 {
        0
    } else {
        held_in_suit(x, s, n - 1) + held(x, n - 1, s)
    }
}

/// The sum of the counts of the ranks below `n`.
pub open spec fn count_below(f: Seq<int>, n: int) -> int
    decreases n,
{
    if n <= 0 {
        0
    } else {
        count_below(f, n - 1) + f[n - 1]
    }
}

/// Setting one bit of a mask.
proof fn mask_set(m: u16, r: u16, j: u16)
    requires
        r < 16,
        j < 16,
    ensures
        has_rank(m | (1u16 << r), j as int) <==> has_rank(m, j as int) || j == r,
{
    assert((((m | (1u16 << r)) >> j) & 1 == 1) <==> ((m >> j) & 1 == 1 || j == r)) by (bit_vector)
        requires
            r < 16,
            j < 16,
    ;
}

proof fn mask_none(j: u16)
    requires
        j < 16,
    ensures
        !has_rank(0, j as int),
{
    assert(!((0u16 >> j) & 1 == 1)) by (bit_vector)
        requires
            j < 16,
    ;
}

proof fn held_in_suit_step(x: Seq<u8>, y: Seq<u8>, r: int, s: int, n: int)
    requires
        0 <= r < 13,
        forall|q: int|
            0 <= q < 13 ==> #[trigger] held(y, q, s) == held(x, q, s) + (if q == r {
                1int
            } else {
                0int
            }),
        n <= 13,
    ensures
        held_in_suit(y, s, n) == held_in_suit(x, s, n) + (if r < n {
            1int
        } else {
            0int
        }),
    decreases n,
{
    if n > 0 {
        held_in_suit_step(x, y, r, s, n - 1);
        assert(held(y, n - 1, s) == held(x, n - 1, s) + (if n - 1 == r {
            1int
        } else {
            0int
        }));
    }
}

proof fn held_in_suit_same(x: Seq<u8>, y: Seq<u8>, s: int, n: int)
    requires
        forall|q: int| 0 <= q < 13 ==> #[trigger] held(y, q, s) == held(x, q, s),
        n <= 13,
    ensures
        held_in_suit(y, s, n) == held_in_suit(x, s, n),
    decreases n,
{
    if n > 0 {
        held_in_suit_same(x, y, s, n - 1);
        assert(held(y, n - 1, s) == held(x, n - 1, s));
    }
}

/// Counting `k` more of a rank adds `k` to the sum.
pub proof fn count_below_update(f: Seq<int>, r: int, k: int, n: int)
    requires
        f.len() == 13,
        0 <= r < 13,
        n <= 13,
    ensures
        count_below(f.update(r, f[r] + k), n) == count_below(f, n) + (if r < n {
            k
        } else {
            0int
        }),
    decreases n,
{
    if n > 0 {
        count_below_update(f, r, k, n - 1);
    }
}

/// No cards count nothing.
pub proof fn count_below_zero(n: int)
    requires
        n <= 13,
    ensures
        count_below(Tally::empty().f, n) == 0,
    decreases n,
{
    if n > 0 {
        count_below_zero(n - 1);
    }
}

proof fn held_none(s: int, n: int)
    ensures
        held_in_suit(seq![], s, n) == 0,
    decreases n,
{
    if n > 0 {
        held_none(s, n - 1);
    }
}

/// What a tally of different cards counts, card by card.
#[verifier::rlimit(40)]
pub proof fn tally_holds(x: Seq<u8>)
    requires
        distinct_cards(x),
    ensures
        forall|r: int, s: int|
            0 <= r < 13 && 0 <= s < 4 ==> (#[trigger] has_rank(tally(x).sm[s], r) <==> held(x, r, s)
                == 1),
        forall|r: int| 0 <= r < 13 ==> (#[trigger] has_rank(tally(x).rm, r) <==> tally(x).f[r] > 0),
        forall|r: int|
            0 <= r < 13 ==> #[trigger] tally(x).f[r] == held(x, r, 0) + held(x, r, 1) + held(
                x,
                r,
                2,
            ) + held(x, r, 3),
        forall|s: int| 0 <= s < 4 ==> #[trigger] tally(x).sc[s] == held_in_suit(x, s, 13),
        count_below(tally(x).f, 13) == x.len(),
    decreases x.len(),
{
    let t = tally(x);
    if x.len() == 0 {
        assert forall|r: int, s: int| 0 <= r < 13 && 0 <= s < 4 implies (#[trigger] has_rank(
            t.sm[s],
            r,
        ) <==> held(x, r, s) == 1) by {
            mask_none(r as u16);
        }
        assert forall|r: int| 0 <= r < 13 implies (#[trigger] has_rank(t.rm, r) <==> t.f[r]
            > 0) by {
            mask_none(r as u16);
        }
        assert forall|s: int| 0 <= s < 4 implies #[trigger] t.sc[s] == held_in_suit(
            x,
            s,
            13,
        ) by {
            assert(x =~= seq![]);
            held_none(s, 13);
        }
        count_below_zero(13);
    } else {
        let w = x.drop_last();
        let c = x.last();
        let (a, b) = (rank_of(c), suit_of(c));
        assert(c == x[x.len() - 1]);
        assert(distinct_cards(w));
        tally_holds(w);
        tally_bounds(w);
        let u = tally(w);
        assert forall|r: int, s: int| 0 <= r < 13 && 0 <= s < 4 implies #[trigger] held(x, r, s)
            == held(w, r, s) + (if r == a && s == b {
            1int
        } else {
            0int
        }) by {
            if w.contains(card(r, s)) {
                let i = choose|i: int| 0 <= i < w.len() && w[i] == card(r, s);
                assert(x[i] == card(r, s));
                assert(x[i] != x[x.len() - 1]);
            }
            if x.contains(card(r, s)) {
                let i = choose|i: int| 0 <= i < x.len() && x[i] == card(r, s);
                if i < w.len() {
                    assert(w[i] == card(r, s));
                }
            }
        }
        assert forall|r: int, s: int| 0 <= r < 13 && 0 <= s < 4 implies (#[trigger] has_rank(
            t.sm[s],
            r,
        ) <==> held(x, r, s) == 1) by {
            assert(has_rank(u.sm[s], r) <==> held(w, r, s) == 1);
            mask_set(u.sm[s], a as u16, r as u16);
            assert(held(x, r, s) == held(w, r, s) + (if r == a && s == b {
                1int
            } else {
                0int
            }));
        }
        assert forall|r: int| 0 <= r < 13 implies (#[trigger] has_rank(t.rm, r) <==> t.f[r]
            > 0) by {
            assert(has_rank(u.rm, r) <==> u.f[r] > 0);
            mask_set(u.rm, a as u16, r as u16);
        }
        assert forall|r: int| 0 <= r < 13 implies #[trigger] t.f[r] == held(x, r, 0) + held(
            x,
            r,
            1,
        ) + held(x, r, 2) + held(x, r, 3) by {
            assert(u.f[r] == held(w, r, 0) + held(w, r, 1) + held(w, r, 2) + held(w, r, 3));
        }
        assert forall|s: int| 0 <= s < 4 implies #[trigger] t.sc[s] == held_in_suit(
            x,
            s,
            13,
        ) by {
            assert(u.sc[s] == held_in_suit(w, s, 13));
            if s == b {
                held_in_suit_step(w, x, a, s, 13);
            } else {
                held_in_suit_same(w, x, s, 13);
            }
        }
        count_below_update(u.f, a, 1, 13);
    }
}

proof fn suit_ranks(x: Seq<u8>, s: int, m: u16, n: int)
    requires
        forall|r: int| 0 <= r < 13 ==> (#[trigger] has_rank(m, r) <==> held(x, r, s) == 1),
        n <= 13,
    ensures
        held_in_suit(x, s, n) == ranks_where(in_mask(m), n).len(),
    decreases n,
{
    if n > 0 {
        suit_ranks(x, s, m, n - 1);
        assert(has_rank(m, n - 1) <==> held(x, n - 1, s) == 1);
    }
}

/// A suit counts the ranks of its mask.
pub proof fn suit_counts_ranks(x: Seq<u8>, s: int)
    requires
        distinct_cards(x),
        0 <= s < 4,
    ensures
        tally(x).sc[s] == mask_ranks(tally(x).sm[s]).len(),
{
    tally_holds(x);
    let m = tally(x).sm[s];
    assert forall|r: int| 0 <= r < 13 implies (#[trigger] has_rank(m, r) <==> held(x, r, s)
        == 1) by {
        assert(has_rank(tally(x).sm[s], r) <==> held(x, r, s) == 1);
    }
    suit_ranks(x, s, m, 13);
}

/// Cards outside `a` and `b` fall on few ranks only if each of those holds many.
pub proof fn kickers_enough(f: Seq<int>, a: int, b: int, most: int, n: int)
    requires
        0 <= n <= 13,
        f.len() == 13,
        most >= 0,
        forall|r: int| 0 <= r < 13 ==> 0 <= #[trigger] f[r],
        forall|r: int| 0 <= r < 13 && r != a && r != b ==> #[trigger] f[r] <= most,
    ensures
        count_below(f, n) <= (if 0 <= a < n {
            f[a]
        } else {
            0
        }) + (if 0 <= b < n && b != a {
            f[b]
        } else {
            0
        }) + most * ranks_where(held_but(f, a, b), n).len(),
    decreases n,
{
    if n > 0 {
        kickers_enough(f, a, b, most, n - 1);
        let k = ranks_where(held_but(f, a, b), n - 1).len() as int;
        assert(most * (k + 1) == most * k + most) by (nonlinear_arith);
        assert(0 <= f[n - 1]);
    } else {
        assert(most * 0 == 0) by (nonlinear_arith);
    }
}

/// Whether every card of `y` is among `x`.
pub open spec fn part_of(y: Seq<u8>, x: Seq<u8>) -> bool {
    forall|c: u8| #[trigger] y.contains(c) ==> x.contains(c)
}

proof fn suit_part(y: Seq<u8>, x: Seq<u8>, s: int, n: int)
    requires
        part_of(y, x),
    ensures
        held_in_suit(y, s, n) <= held_in_suit(x, s, n),
    decreases n,
{
    if n > 0 {
        suit_part(y, x, s, n - 1);
    }
}

/// The tally `u` counts no less than the tally `t`.
pub open spec fn covers(u: Tally, t: Tally) -> bool {
    &&& forall|r: int| 0 <= r < 13 ==> #[trigger] t.f[r] <= u.f[r]
    &&& forall|s: int| 0 <= s < 4 ==> #[trigger] t.sc[s] <= u.sc[s]
    &&& forall|r: int, s: int|
        0 <= r < 13 && 0 <= s < 4 && #[trigger] has_rank(t.sm[s], r) ==> has_rank(u.sm[s], r)
    &&& forall|r: int| 0 <= r < 13 && #[trigger] has_rank(t.rm, r) ==> has_rank(u.rm, r)
}

/// Cards count no less than a part of them.
pub proof fn part_covered(y: Seq<u8>, x: Seq<u8>)
    requires
        distinct_cards(x),
        distinct_cards(y),
        part_of(y, x),
    ensures
        covers(tally(x), tally(y)),
{
    tally_holds(x);
    tally_holds(y);
    let t = tally(y);
    let u = tally(x);
    assert forall|r: int| 0 <= r < 13 implies #[trigger] t.f[r] <= u.f[r] by {
        assert(u.f[r] == held(x, r, 0) + held(x, r, 1) + held(x, r, 2) + held(x, r, 3));
    }
    assert forall|s: int| 0 <= s < 4 implies #[trigger] t.sc[s] <= u.sc[s] by {
        suit_part(y, x, s, 13);
        assert(u.sc[s] == held_in_suit(x, s, 13));
    }
    assert forall|r: int, s: int|
        0 <= r < 13 && 0 <= s < 4 && #[trigger] has_rank(t.sm[s], r) implies has_rank(
        u.sm[s],
        r,
    ) by {
        assert(held(y, r, s) == 1);
        assert(held(x, r, s) == 1);
    }
    assert forall|r: int| 0 <= r < 13 && #[trigger] has_rank(t.rm, r) implies has_rank(
        u.rm,
        r,
    ) by {
        assert(t.f[r] > 0);
        assert(t.f[r] <= u.f[r]);
    }
}

} // verus!
