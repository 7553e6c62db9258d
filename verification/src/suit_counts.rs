//! How many starting hands have each suit pattern.
use crate::cards::{rank_of, suit_of};
use crate::draws::{binom, binom_closed, over_draws};
use crate::equity::deck;
use crate::forms::deck_step;
use crate::holdings::card;
use crate::names::{
    pattern_of, pattern_text, pattern_text_tells, suit_pattern, suit_type_text, SuitPattern,
};
use vstd::prelude::*;

verus! {

/// Counts a hand as one where its suit pattern is written `text`.
pub open spec fn has_suit_type(text: Seq<char>) -> spec_fn(Seq<u8>) -> int {
    |h: Seq<u8>|
        if suit_type_text(h) == text {
            1int
        } else {
            0int
        }
}

/// The number of starting hands whose suit pattern is written `text`.
pub open spec fn suit_type_hands(text: Seq<char>) -> int {
    over_draws(deck(), 3, seq![], has_suit_type(text))
}

/// One where the three cards have the pattern `p`, zero where they do not.
spec fn counted(p: SuitPattern, a: int, s: int, b: int, t: int, c: int, u: int) -> int {
    if pattern_of(a, s, b, t, c, u) == p {
        1
    } else {
        0
    }
}

proof fn one_hand(p: SuitPattern, a: int, s: int, b: int, t: int, c: int, u: int)
    requires
        0 <= a <= 12 && 0 <= b <= 12 && 0 <= c <= 12,
        0 <= s < 4 && 0 <= t < 4 && 0 <= u < 4,
    ensures
        has_suit_type(pattern_text(p))(seq![card(a, s), card(b, t)].push(card(c, u))) == counted(
            p,
            a,
            s,
            b,
            t,
            c,
            u,
        ),
{
    let h = seq![card(a, s), card(b, t)].push(card(c, u));
    assert(h[0] == 4 * a + s && h[1] == 4 * b + t && h[2] == 4 * c + u);
    assert(rank_of(h[0]) == a && rank_of(h[1]) == b && rank_of(h[2]) == c);
    assert(suit_of(h[0]) == s && suit_of(h[1]) == t && suit_of(h[2]) == u);
    assert(suit_pattern(h) == pattern_of(a, s, b, t, c, u));
    if suit_type_text(h) == pattern_text(p) {
        pattern_text_tells(suit_pattern(h), p);
    }
}

/// How many third cards out of `n` further ranks complete the pattern.
spec fn thirds(p: SuitPattern, paired: bool, suited: bool, n: int) -> int {
    match p {
        SuitPattern::Trips => 0,
        SuitPattern::PairSuited | SuitPattern::PairOffsuit => if paired {
            2 * n
        } else {
            0
        },
        SuitPattern::Monotone => if !paired && suited {
            n
        } else {
            0
        },
        SuitPattern::TwoTone => if paired {
            0
        } else if suited {
            3 * n
        } else {
            2 * n
        },
        SuitPattern::Rainbow => if !paired && !suited {
            2 * n
        } else {
            0
        },
    }
}

/// How many second and third cards out of `n` further ranks complete the pattern.
spec fn seconds(p: SuitPattern, n: nat) -> nat {
    match p {
        SuitPattern::Trips => 0,
        SuitPattern::PairSuited | SuitPattern::PairOffsuit => 3 * n,
        SuitPattern::Monotone => binom(n, 2),
        SuitPattern::TwoTone => 9 * binom(n, 2),
        SuitPattern::Rainbow => 6 * binom(n, 2),
    }
}

/// How many hands out of `n` ranks have the pattern.
spec fn firsts(p: SuitPattern, n: nat) -> nat {
    match p {
        SuitPattern::Trips => 4 * n,
        SuitPattern::PairSuited | SuitPattern::PairOffsuit => 24 * binom(n, 2),
        SuitPattern::Monotone => 4 * binom(n, 3),
        SuitPattern::TwoTone => 36 * binom(n, 3),
        SuitPattern::Rainbow => 24 * binom(n, 3),
    }
}

/// Hands whose third card has rank `c` or higher, above both other ranks.
proof fn count_thirds(p: SuitPattern, a: int, s: int, b: int, t: int, c: int)
    requires
        0 <= a <= b < c <= 13,
        0 <= s < 4 && 0 <= t < 4,
        a == b ==> s != t,
    ensures
        over_draws(
            deck().skip(4 * c),
            1,
            seq![card(a, s), card(b, t)],
            has_suit_type(pattern_text(p)),
        ) == thirds(p, a == b, s == t, 13 - c),
    decreases 13 - c,
{
    let drawn = seq![card(a, s), card(b, t)];
    let f = has_suit_type(pattern_text(p));
    if c < 13 {
        count_thirds(p, a, s, b, t, c + 1);
        deck_step(4 * c, 1, drawn, f);
        deck_step(4 * c + 1, 1, drawn, f);
        deck_step(4 * c + 2, 1, drawn, f);
        deck_step(4 * c + 3, 1, drawn, f);
        one_hand(p, a, s, b, t, c, 0);
        one_hand(p, a, s, b, t, c, 1);
        one_hand(p, a, s, b, t, c, 2);
        one_hand(p, a, s, b, t, c, 3);
    }
}

/// One where suit `u` lies above suit `t` and the three cards have the pattern.
spec fn above(p: SuitPattern, a: int, s: int, b: int, t: int, u: int) -> int {
    if u > t {
        counted(p, a, s, b, t, b, u)
    } else {
        0
    }
}

/// Hands whose first two cards are given.
proof fn count_after_two(p: SuitPattern, a: int, s: int, b: int, t: int)
    requires
        0 <= a <= b <= 12,
        0 <= s < 4 && 0 <= t < 4,
        a == b ==> s != t,
    ensures
        over_draws(
            deck().skip(4 * b + t + 1),
            1,
            seq![card(a, s), card(b, t)],
            has_suit_type(pattern_text(p)),
        ) == above(p, a, s, b, t, 1) + above(p, a, s, b, t, 2) + above(p, a, s, b, t, 3) + thirds(
            p,
            a == b,
            s == t,
            12 - b,
        ),
{
    let drawn = seq![card(a, s), card(b, t)];
    let f = has_suit_type(pattern_text(p));
    count_thirds(p, a, s, b, t, b + 1);
    if t < 3 {
        deck_step(4 * b + 3, 1, drawn, f);
        one_hand(p, a, s, b, t, b, 3);
    }
    if t < 2 {
        deck_step(4 * b + 2, 1, drawn, f);
        one_hand(p, a, s, b, t, b, 2);
    }
    if t < 1 {
        deck_step(4 * b + 1, 1, drawn, f);
        one_hand(p, a, s, b, t, b, 1);
    }
}

/// Hands whose second card has rank `b` or higher, above the first rank.
#[verifier::rlimit(40)]
proof fn count_seconds(p: SuitPattern, a: int, s: int, b: int)
    requires
        0 <= a < b <= 13,
        0 <= s < 4,
    ensures
        over_draws(deck().skip(4 * b), 2, seq![card(a, s)], has_suit_type(pattern_text(p)))
            == seconds(p, (13 - b) as nat),
    decreases 13 - b,
{
    let drawn = seq![card(a, s)];
    let f = has_suit_type(pattern_text(p));
    if b < 13 {
        count_seconds(p, a, s, b + 1);
        deck_step(4 * b, 2, drawn, f);
        deck_step(4 * b + 1, 2, drawn, f);
        deck_step(4 * b + 2, 2, drawn, f);
        deck_step(4 * b + 3, 2, drawn, f);
        assert(drawn.push((4 * b) as u8) =~= seq![card(a, s), card(b, 0)]);
        assert(drawn.push((4 * b + 1) as u8) =~= seq![card(a, s), card(b, 1)]);
        assert(drawn.push((4 * b + 2) as u8) =~= seq![card(a, s), card(b, 2)]);
        assert(drawn.push((4 * b + 3) as u8) =~= seq![card(a, s), card(b, 3)]);
        count_after_two(p, a, s, b, 0);
        count_after_two(p, a, s, b, 1);
        count_after_two(p, a, s, b, 2);
        count_after_two(p, a, s, b, 3);
        binom_closed((12 - b) as nat);
        let n = (13 - b) as nat;
        assert(binom(n, 2) == binom((n - 1) as nat, 1) + binom((n - 1) as nat, 2));
    }
}

/// Hands whose first card is given.
#[verifier::rlimit(40)]
proof fn count_after_one(p: SuitPattern, a: int, s: int)
    requires
        0 <= a <= 12,
        0 <= s < 4,
    ensures
        over_draws(deck().skip(4 * a + s + 1), 2, seq![card(a, s)], has_suit_type(pattern_text(p)))
            == seconds(p, (12 - a) as nat) + (3 - s) * thirds(p, true, false, 12 - a) + (
        if p == SuitPattern::Trips {
            if s == 0 {
                3int
            } else if s == 1 {
                1
            } else {
                0
            }
        } else {
            0
        }),
{
    let drawn = seq![card(a, s)];
    let f = has_suit_type(pattern_text(p));
    count_seconds(p, a, s, a + 1);
    if s < 3 {
        deck_step(4 * a + 3, 2, drawn, f);
        assert(drawn.push((4 * a + 3) as u8) =~= seq![card(a, s), card(a, 3)]);
        count_after_two(p, a, s, a, 3);
    }
    if s < 2 {
        deck_step(4 * a + 2, 2, drawn, f);
        assert(drawn.push((4 * a + 2) as u8) =~= seq![card(a, s), card(a, 2)]);
        count_after_two(p, a, s, a, 2);
    }
    if s < 1 {
        deck_step(4 * a + 1, 2, drawn, f);
        assert(drawn.push((4 * a + 1) as u8) =~= seq![card(a, s), card(a, 1)]);
        count_after_two(p, a, s, a, 1);
    }
    let k = thirds(p, true, false, 12 - a);
    assert(0 * k == 0 && 1 * k == k && 2 * k == k + k && 3 * k == k + k + k) by (nonlinear_arith);
}

/// Hands whose first card has rank `a` or higher.
proof fn count_firsts(p: SuitPattern, a: int)
    requires
        0 <= a <= 13,
    ensures
        over_draws(deck().skip(4 * a), 3, seq![], has_suit_type(pattern_text(p))) == firsts(
            p,
            (13 - a) as nat,
        ),
    decreases 13 - a,
{
    let none = Seq::<u8>::empty();
    let f = has_suit_type(pattern_text(p));
    if a < 13 {
        count_firsts(p, a + 1);
        deck_step(4 * a, 3, none, f);
        deck_step(4 * a + 1, 3, none, f);
        deck_step(4 * a + 2, 3, none, f);
        deck_step(4 * a + 3, 3, none, f);
        assert(none.push((4 * a) as u8) =~= seq![card(a, 0)]);
        assert(none.push((4 * a + 1) as u8) =~= seq![card(a, 1)]);
        assert(none.push((4 * a + 2) as u8) =~= seq![card(a, 2)]);
        assert(none.push((4 * a + 3) as u8) =~= seq![card(a, 3)]);
        count_after_one(p, a, 0);
        count_after_one(p, a, 1);
        count_after_one(p, a, 2);
        count_after_one(p, a, 3);
        let n = (13 - a) as nat;
        binom_closed((n - 1) as nat);
        assert(binom(n, 2) == binom((n - 1) as nat, 1) + binom((n - 1) as nat, 2));
        assert(binom(n, 3) == binom((n - 1) as nat, 2) + binom((n - 1) as nat, 3));
    }
}

/// Of the 22100 starting hands, how many have each suit pattern; there are no other patterns.
pub proof fn suit_type_counts()
    ensures
        suit_type_hands("trips"@) == 52,
        suit_type_hands("pair-suited"@) == 1872,
        suit_type_hands("pair-offsuit"@) == 1872,
        suit_type_hands("monotone"@) == 1144,
        suit_type_hands("two-tone"@) == 10296,
        suit_type_hands("rainbow"@) == 6864,
        forall|h: Seq<u8>|
            {
                let t = #[trigger] suit_type_text(h);
                t == "trips"@ || t == "pair-suited"@ || t == "pair-offsuit"@ || t == "monotone"@
                    || t == "two-tone"@ || t == "rainbow"@
            },
{
    assert(deck().skip(0) =~= deck());
    binom_closed(13);
    count_firsts(SuitPattern::Trips, 0);
    count_firsts(SuitPattern::PairSuited, 0);
    count_firsts(SuitPattern::PairOffsuit, 0);
    count_firsts(SuitPattern::Monotone, 0);
    count_firsts(SuitPattern::TwoTone, 0);
    count_firsts(SuitPattern::Rainbow, 0);
}

} // verus!
