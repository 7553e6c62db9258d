//! What the hands that stand for a class look like, and how many of them there are.
use crate::cards::{rank_of, suit_of};
use crate::classes::{canonical_unique, is_canonical, recolor_fields};
use crate::draws::{ascending, is_draw, over_draws};
use crate::equity::deck;
use crate::suits::{hand_key, image, is_suit_perm, sorted3};
use vstd::prelude::*;

verus! {

/// Whether `h` is a starting hand: three cards of the deck in ascending order.
pub open spec fn is_hand(h: Seq<u8>) -> bool {
    h.len() == 3 && h[0] < h[1] && h[1] < h[2] && h[2] < 52
}

/// The hand with suits named in the order in which they turn up, a pair's shared suit first.
pub open spec fn normal_form(h: Seq<u8>) -> Seq<u8> {
    let (a, b, c) = (rank_of(h[0]), rank_of(h[1]), rank_of(h[2]));
    let (s, t, u) = (suit_of(h[0]), suit_of(h[1]), suit_of(h[2]));
    if a == c {
        form(a, 0, a, 1, a, 2)
    } else if a == b {
        form(a, 0, a, 1, c, if u == s || u == t {
            0
        } else {
            2
        })
    } else if b == c {
        if s == t || s == u {
            form(a, 0, b, 0, b, 1)
        } else {
            form(a, 0, b, 1, b, 2)
        }
    } else if t == s {
        form(a, 0, b, 0, c, if u == s {
            0
        } else {
            1
        })
    } else {
        form(a, 0, b, 1, c, if u == s {
            0
        } else if u == t {
            1
        } else {
            2
        })
    }
}

/// Three cards given by rank and suit.
pub open spec fn form(a: int, s: int, b: int, t: int, c: int, u: int) -> Seq<u8> {
    seq![(4 * a + s) as u8, (4 * b + t) as u8, (4 * c + u) as u8]
}

/// The renaming that calls `a`, `b` and `c` the first, second and third suit.
spec fn naming(a: int, b: int, c: int) -> Seq<u8> {
    Seq::new(
        4,
        |s: int|
            if s == a {
                0u8
            } else if s == b {
                1u8
            } else if s == c {
                2u8
            } else {
                3u8
            },
    )
}

/// Some suit other than `a` and `b`.
spec fn other(a: int, b: int) -> int {
    if a != 0 && b != 0 {
        0
    } else if a != 1 && b != 1 {
        1
    } else {
        2
    }
}

proof fn naming_is_perm(a: int, b: int, c: int)
    requires
        0 <= a < 4 && 0 <= b < 4 && 0 <= c < 4,
        a != b && b != c && a != c,
    ensures
        is_suit_perm(naming(a, b, c)),
        naming(a, b, c)[a] == 0,
        naming(a, b, c)[b] == 1,
        naming(a, b, c)[c] == 2,
{
}

/// The cards of an image before they are sorted.
proof fn image_cards(h: Seq<u8>, p: Seq<u8>)
    requires
        is_hand(h),
        is_suit_perm(p),
    ensures
        image(h, p) == sorted3(
            seq![
                (4 * rank_of(h[0]) + p[suit_of(h[0])]) as u8,
                (4 * rank_of(h[1]) + p[suit_of(h[1])]) as u8,
                (4 * rank_of(h[2]) + p[suit_of(h[2])]) as u8,
            ],
        ),
{
    recolor_fields(h[0], p);
    recolor_fields(h[1], p);
    recolor_fields(h[2], p);
}

/// The normal form is an image of the hand.
proof fn normal_form_reached(h: Seq<u8>)
    requires
        is_hand(h),
    ensures
        exists|p: Seq<u8>| #[trigger] is_suit_perm(p) && normal_form(h) == image(h, p),
{
    let (a, b, c) = (rank_of(h[0]), rank_of(h[1]), rank_of(h[2]));
    let (s, t, u) = (suit_of(h[0]), suit_of(h[1]), suit_of(h[2]));
    let (x, y, z) = if a == c {
        (s, t, u)
    } else if a == b {
        if u == t {
            (t, s, other(s, t))
        } else if u == s {
            (s, t, other(s, t))
        } else {
            (s, t, u)
        }
    } else if b == c {
        if s == t {
            (s, u, other(s, u))
        } else if s == u {
            (s, t, other(s, t))
        } else {
            (s, t, u)
        }
    } else if s == t {
        if u == s {
            (s, other(s, s), other(s, other(s, s)))
        } else {
            (s, u, other(s, u))
        }
    } else if u == s || u == t {
        (s, t, other(s, t))
    } else {
        (s, t, u)
    };
    let p = naming(x, y, z);
    naming_is_perm(x, y, z);
    image_cards(h, p);
    assert(normal_form(h) =~= image(h, p));
}

/// No image of the hand comes before its normal form.
proof fn normal_form_least(h: Seq<u8>, p: Seq<u8>)
    requires
        is_hand(h),
        is_suit_perm(p),
    ensures
        hand_key(normal_form(h)) <= hand_key(image(h, p)),
{
    image_cards(h, p);
    let (a, b, c) = (rank_of(h[0]), rank_of(h[1]), rank_of(h[2]));
    let (s, t, u) = (suit_of(h[0]), suit_of(h[1]), suit_of(h[2]));
    let (i, j, k) = (p[s] as int, p[t] as int, p[u] as int);
    let m = image(h, p);
    assert(i == j <==> s == t);
    assert(i == k <==> s == u);
    assert(j == k <==> t == u);
    assert(a <= b <= c <= 12);
    if a < b && b < c {
        assert(m =~= form(a, i, b, j, c, k));
    } else if a == c {
        assert(4 * a <= m[0] && m[0] < m[1] && m[1] < m[2]);
    } else if a == b {
        assert(m[2] == 4 * c + k);
        assert(4 * a <= m[0] && m[0] < m[1] && m[1] < 4 * a + 4);
        assert(m[0] == 4 * a + i || m[0] == 4 * a + j);
        assert(m[1] == 4 * a + i || m[1] == 4 * a + j);
        if u != s && u != t && m[0] == 4 * a && m[1] == 4 * a + 1 {
            assert(k >= 2);
        }
    } else {
        assert(m[0] == 4 * a + i);
        assert(4 * b <= m[1] && m[1] < m[2] && m[2] < 4 * b + 4);
        assert(m[1] == 4 * b + j || m[1] == 4 * b + k);
        if s != t && s != u && i == 0 {
            assert(m[1] >= 4 * b + 1);
        }
    }
}

/// The normal form of a hand stands for it.
pub proof fn normal_form_canonical(h: Seq<u8>)
    requires
        is_hand(h),
    ensures
        is_canonical(normal_form(h), h),
        forall|m: Seq<u8>| #[trigger] is_canonical(m, h) ==> m == normal_form(h),
        is_hand(normal_form(h)),
{
    normal_form_reached(h);
    assert forall|p: Seq<u8>| #[trigger] is_suit_perm(p) implies hand_key(normal_form(h))
        <= hand_key(image(h, p)) by {
        normal_form_least(h, p);
    }
    assert forall|m: Seq<u8>| #[trigger] is_canonical(m, h) implies m == normal_form(h) by {
        canonical_unique(m, normal_form(h), h);
    }
}

/// Putting a normal form into normal form changes nothing.
pub proof fn normal_form_idempotent(h: Seq<u8>)
    requires
        is_hand(h),
    ensures
        normal_form(normal_form(h)) == normal_form(h),
{
    assert(normal_form(normal_form(h)) =~= normal_form(h));
}

/// Counts a hand as one where it is its own normal form.
pub open spec fn is_form() -> spec_fn(Seq<u8>) -> int {
    |h: Seq<u8>|
        if normal_form(h) == h {
            1int
        } else {
            0int
        }
}

/// The suits that a hand in normal form has.
spec fn form_suits(a: int, s: int, b: int, t: int, c: int, u: int) -> bool {
    s == 0 && if a == c {
        t == 1 && u == 2
    } else if a == b {
        t == 1 && (u == 0 || u == 2)
    } else if b == c {
        (t == 0 && u == 1) || (t == 1 && u == 2)
    } else {
        (t == 0 && u <= 1) || (t == 1 && u <= 2)
    }
}

proof fn form_by_suits(h: Seq<u8>)
    requires
        is_hand(h),
    ensures
        is_form()(h) == (if form_suits(
            rank_of(h[0]),
            suit_of(h[0]),
            rank_of(h[1]),
            suit_of(h[1]),
            rank_of(h[2]),
            suit_of(h[2]),
        ) {
            1int
        } else {
            0int
        }),
{
    let n = normal_form(h);
    assert(n == h <==> n[0] == h[0] && n[1] == h[1] && n[2] == h[2]) by {
        if n[0] == h[0] && n[1] == h[1] && n[2] == h[2] {
            assert(n =~= h);
        }
    }
}

/// Taking one card off the deck.
pub(crate) proof fn deck_step(n: int, k: nat, drawn: Seq<u8>, f: spec_fn(Seq<u8>) -> int)
    requires
        0 <= n < 52,
        k > 0,
    ensures
        over_draws(deck().skip(n), k, drawn, f) == over_draws(
            deck().skip(n + 1),
            (k - 1) as nat,
            drawn.push(n as u8),
            f,
        ) + over_draws(deck().skip(n + 1), k, drawn, f),
{
    assert(deck().skip(n).drop_first() =~= deck().skip(n + 1));
}

/// Hands that start with `drawn` count nothing where none of them is a form.
proof fn no_forms(n: int, k: nat, drawn: Seq<u8>)
    requires
        0 <= n <= 52,
        1 <= drawn.len() <= 2,
        drawn.len() + k == 3,
        ascending(drawn),
        drawn.last() < n,
        rank_of(drawn[0]) <= 12,
        suit_of(drawn[0]) != 0 || (drawn.len() == 2 && (if rank_of(drawn[1]) == rank_of(drawn[0]) {
            suit_of(drawn[1]) != 1
        } else {
            suit_of(drawn[1]) > 1
        })),
    ensures
        over_draws(deck().skip(n), k, drawn, is_form()) == 0,
{
    let from = deck().skip(n);
    let zero = |x: Seq<u8>| 0int;
    assert(ascending(drawn + from)) by {
        assert forall|i: int, j: int| 0 <= i < j < (drawn + from).len() implies (drawn + from)[i]
            < (drawn + from)[j] by {
            if i < drawn.len() {
                assert(drawn[i] <= drawn.last());
            }
        }
    }
    assert forall|x: Seq<u8>| #[trigger] is_draw(x, from, k, drawn) implies is_form()(x) == zero(
        x,
    ) by {
        assert(x[0] == x.take(drawn.len() as int)[0]);
        if drawn.len() == 2 {
            assert(x[1] == x.take(drawn.len() as int)[1]);
        }
        assert(from.contains(x[2]));
        form_by_suits(x);
    }
    crate::draws::draws_agree(from, k, drawn, is_form(), zero);
    crate::draws::draws_zero(from, k, drawn, zero);
}

/// The value of one hand, given by rank and suit.
proof fn one_form(a: int, s: int, b: int, t: int, c: int, u: int)
    requires
        0 <= a <= b <= c <= 12,
        0 <= s < 4 && 0 <= t < 4 && 0 <= u < 4,
        4 * a + s < 4 * b + t < 4 * c + u,
    ensures
        is_form()(seq![(4 * a + s) as u8, (4 * b + t) as u8].push((4 * c + u) as u8)) == (
        if form_suits(a, s, b, t, c, u) {
            1int
        } else {
            0int
        }),
{
    let h = seq![(4 * a + s) as u8, (4 * b + t) as u8].push((4 * c + u) as u8);
    assert(h[0] == 4 * a + s && h[1] == 4 * b + t && h[2] == 4 * c + u);
    assert(rank_of(h[0]) == a && rank_of(h[1]) == b && rank_of(h[2]) == c);
    assert(suit_of(h[0]) == s && suit_of(h[1]) == t && suit_of(h[2]) == u);
    form_by_suits(h);
}

/// How many suits a third card of a new rank may have.
spec fn third_suits(a: int, b: int, t: int) -> int {
    if a < b && t == 1 {
        3
    } else {
        2
    }
}

/// Forms whose third card has rank `c` or higher, above both other ranks.
proof fn count_thirds(a: int, b: int, t: int, c: int)
    requires
        0 <= a <= b < c <= 13,
        (a == b && t == 1) || (a < b && 0 <= t <= 1),
    ensures
        over_draws(
            deck().skip(4 * c),
            1,
            seq![(4 * a) as u8, (4 * b + t) as u8],
            is_form(),
        ) == third_suits(a, b, t) * (13 - c),
    decreases 13 - c,
{
    let drawn = seq![(4 * a) as u8, (4 * b + t) as u8];
    if c < 13 {
        count_thirds(a, b, t, c + 1);
        deck_step(4 * c, 1, drawn, is_form());
        deck_step(4 * c + 1, 1, drawn, is_form());
        deck_step(4 * c + 2, 1, drawn, is_form());
        deck_step(4 * c + 3, 1, drawn, is_form());
        one_form(a, 0, b, t, c, 0);
        one_form(a, 0, b, t, c, 1);
        one_form(a, 0, b, t, c, 2);
        one_form(a, 0, b, t, c, 3);
        assert(third_suits(a, b, t) * (13 - c) == third_suits(a, b, t) * (13 - (c + 1))
            + third_suits(a, b, t)) by (nonlinear_arith);
    } else {
        assert(third_suits(a, b, t) * 0 == 0) by (nonlinear_arith);
    }
}

/// Forms whose second card has rank `b` or higher, above the first rank.
proof fn count_seconds(a: int, b: int)
    requires
        0 <= a < b <= 13,
    ensures
        2 * over_draws(deck().skip(4 * b), 2, seq![(4 * a) as u8], is_form()) == 4 * (13 - b) + 5
            * ((13 - b) * (12 - b)),
    decreases 13 - b,
{
    let drawn = seq![(4 * a) as u8];
    if b < 13 {
        count_seconds(a, b + 1);
        deck_step(4 * b, 2, drawn, is_form());
        deck_step(4 * b + 1, 2, drawn, is_form());
        deck_step(4 * b + 2, 2, drawn, is_form());
        deck_step(4 * b + 3, 2, drawn, is_form());
        let d0 = seq![(4 * a) as u8, (4 * b) as u8];
        let d1 = seq![(4 * a) as u8, (4 * b + 1) as u8];
        assert(drawn.push((4 * b) as u8) =~= d0);
        assert(drawn.push((4 * b + 1) as u8) =~= d1);
        count_thirds(a, b, 0, b + 1);
        deck_step(4 * b + 1, 1, d0, is_form());
        deck_step(4 * b + 2, 1, d0, is_form());
        deck_step(4 * b + 3, 1, d0, is_form());
        one_form(a, 0, b, 0, b, 1);
        one_form(a, 0, b, 0, b, 2);
        one_form(a, 0, b, 0, b, 3);
        count_thirds(a, b, 1, b + 1);
        deck_step(4 * b + 2, 1, d1, is_form());
        deck_step(4 * b + 3, 1, d1, is_form());
        one_form(a, 0, b, 1, b, 2);
        one_form(a, 0, b, 1, b, 3);
        no_forms(4 * b + 3, 1, drawn.push((4 * b + 2) as u8));
        no_forms(4 * b + 4, 1, drawn.push((4 * b + 3) as u8));
        assert((13 - b) * (12 - b) == (13 - (b + 1)) * (12 - (b + 1)) + 2 * (12 - b))
            by (nonlinear_arith);
    } else {
        assert((13 - b) * (12 - b) == 0) by (nonlinear_arith)
            requires
                b == 13,
        ;
    }
}

/// Forms whose first card has rank `a` or higher.
proof fn count_firsts(a: int)
    requires
        0 <= a <= 13,
    ensures
        6 * over_draws(deck().skip(4 * a), 3, seq![], is_form()) == 6 * (13 - a) + 12 * ((13 - a)
            * (12 - a)) + 5 * ((13 - a) * (12 - a) * (11 - a)),
    decreases 13 - a,
{
    let none = Seq::<u8>::empty();
    if a < 13 {
        count_firsts(a + 1);
        deck_step(4 * a, 3, none, is_form());
        deck_step(4 * a + 1, 3, none, is_form());
        deck_step(4 * a + 2, 3, none, is_form());
        deck_step(4 * a + 3, 3, none, is_form());
        no_forms(4 * a + 2, 2, none.push((4 * a + 1) as u8));
        no_forms(4 * a + 3, 2, none.push((4 * a + 2) as u8));
        no_forms(4 * a + 4, 2, none.push((4 * a + 3) as u8));
        let d = seq![(4 * a) as u8];
        assert(none.push((4 * a) as u8) =~= d);
        deck_step(4 * a + 1, 2, d, is_form());
        deck_step(4 * a + 2, 2, d, is_form());
        deck_step(4 * a + 3, 2, d, is_form());
        no_forms(4 * a + 3, 1, d.push((4 * a + 2) as u8));
        no_forms(4 * a + 4, 1, d.push((4 * a + 3) as u8));
        let d1 = seq![(4 * a) as u8, (4 * a + 1) as u8];
        assert(d.push((4 * a + 1) as u8) =~= d1);
        deck_step(4 * a + 2, 1, d1, is_form());
        deck_step(4 * a + 3, 1, d1, is_form());
        one_form(a, 0, a, 1, a, 2);
        one_form(a, 0, a, 1, a, 3);
        count_thirds(a, a, 1, a + 1);
        count_seconds(a, a + 1);
        let m = 12 - a;
        assert((m + 1) * m == m * (m - 1) + 2 * m) by (nonlinear_arith);
        assert((m + 1) * m * (m - 1) == m * (m - 1) * (m - 2) + 3 * (m * (m - 1)))
            by (nonlinear_arith);
    } else {
        assert((13 - a) * (12 - a) == 0) by (nonlinear_arith)
            requires
                a == 13,
        ;
        assert((13 - a) * (12 - a) * (11 - a) == 0) by (nonlinear_arith)
            requires
                a == 13,
        ;
    }
}

/// There are 1755 normal forms.
pub proof fn count_forms()
    ensures
        over_draws(deck(), 3, seq![], is_form()) == 1755,
{
    count_firsts(0);
    assert(deck().skip(0) =~= deck());
}

} // verus!
