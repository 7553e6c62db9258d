//! The list of starting hands that stand for all others.
use crate::classes::{
    class_is_images, class_size, count_classes, image_means, in_class, is_canonical,
    is_representatives, same_three, triple_at, triple_places,
};
use crate::counts::{drawn_set, draws_set};
use crate::draws::{
    ascending, binom_closed, draws_agree, draws_count, draws_le, draws_linear, draws_zero, is_draw,
    over_draws,
};
use crate::equity::deck;
use crate::forms::{
    count_forms, is_form, is_hand, normal_form, normal_form_canonical, normal_form_idempotent,
};
use crate::suits::{hand_key, image, is_suit_perm, perms4};
use vstd::prelude::*;

verus! {

/// The sum of `v` over the hands of a list, each taken as often as its number says.
pub open spec fn weighted(reps: Seq<([u8; 3], u32)>, v: spec_fn(Seq<u8>) -> int) -> int
    decreases reps.len(),
{
    if reps.len() == 0 {
        0
    } else {
        weighted(reps.drop_last(), v) + reps.last().1 * v(reps.last().0@)
    }
}

/// How many hands the listed hands stand for in all.
pub open spec fn total_combos(reps: Seq<([u8; 3], u32)>) -> int
    decreases reps.len(),
{
    if reps.len() == 0 {
        0
    } else {
        total_combos(reps.drop_last()) + reps.last().1
    }
}

/// The deck is in ascending order, and three cards drawn from it are a starting hand.
pub proof fn drawn_hands()
    ensures
        ascending(Seq::<u8>::empty() + deck()),
        forall|x: Seq<u8>| #[trigger] is_draw(x, deck(), 3, seq![]) ==> is_hand(x),
{
    assert(Seq::<u8>::empty() + deck() =~= deck());
    assert forall|x: Seq<u8>| #[trigger] is_draw(x, deck(), 3, seq![]) implies is_hand(x) by {
        assert(deck().contains(x[2]));
    }
}

/// Counts a hand as one where its normal form is `m`.
spec fn has_form(m: Seq<u8>) -> spec_fn(Seq<u8>) -> int {
    |h: Seq<u8>|
        if normal_form(h) == m {
            1int
        } else {
            0int
        }
}

proof fn class_by_form(m: Seq<u8>)
    ensures
        class_size(m) == over_draws(deck(), 3, seq![], has_form(m)),
{
    drawn_hands();
    assert forall|x: Seq<u8>| #[trigger] is_draw(x, deck(), 3, seq![]) implies in_class(m)(x)
        == has_form(m)(x) by {
        normal_form_canonical(x);
    }
    draws_agree(deck(), 3, seq![], in_class(m), has_form(m));
}

/// A hand that stands for any hand stands for itself.
proof fn member_form(m: Seq<u8>)
    requires
        class_size(m) > 0,
    ensures
        is_hand(m),
        normal_form(m) == m,
{
    class_by_form(m);
    drawn_hands();
    if !(is_hand(m) && normal_form(m) == m) {
        let zero = |x: Seq<u8>| 0int;
        assert forall|x: Seq<u8>| #[trigger] is_draw(x, deck(), 3, seq![]) implies has_form(m)(x)
            == zero(x) by {
            normal_form_canonical(x);
            normal_form_idempotent(x);
        }
        draws_agree(deck(), 3, seq![], has_form(m), zero);
        draws_zero(deck(), 3, seq![], zero);
    }
}

/// Counts a hand as one where it is `h`.
spec fn is_exactly(h: Seq<u8>) -> spec_fn(Seq<u8>) -> int {
    |x: Seq<u8>|
        if x == h {
            1int
        } else {
            0int
        }
}

/// Every hand is drawn from the deck once.
proof fn drawn_once(h: Seq<u8>, n: int, k: nat)
    requires
        0 <= n <= 52,
        k <= h.len(),
        ascending(h),
        forall|i: int| 0 <= i < h.len() ==> #[trigger] h[i] < 52,
        forall|i: int| 0 <= i < h.len() - k ==> #[trigger] h[i] < n,
        k > 0 ==> h[h.len() - k] >= n,
    ensures
        over_draws(deck().skip(n), k, h.take(h.len() - k), is_exactly(h)) == 1,
    decreases 52 - n,
{
    let l = h.len() - k;
    let drawn = h.take(l);
    if k == 0 {
        assert(drawn =~= h);
    } else {
        assert(h[l] < 52);
        let from = deck().skip(n);
        let tail = deck().skip(n + 1);
        let zero = |x: Seq<u8>| 0int;
        assert(from.drop_first() =~= tail);
        assert(from[0] == n);
        let with = drawn.push(n as u8);
        if h[l] == n {
            assert(with =~= h.take(l + 1));
            if k > 1 {
                assert(h[l] < h[l + 1]);
            }
            assert forall|i: int| 0 <= i < h.len() - (k - 1) implies #[trigger] h[i] < n + 1 by {
                if i < l {
                    assert(h[i] < n);
                }
            }
            drawn_once(h, n + 1, (k - 1) as nat);
            assert(ascending(drawn + tail)) by {
                assert forall|i: int, j: int|
                    0 <= i < j < (drawn + tail).len() implies (drawn + tail)[i] < (drawn
                    + tail)[j] by {
                    if i < l {
                        assert(h[i] < n);
                        if j < l {
                            assert(h[i] < h[j]);
                        }
                    }
                }
            }
            assert forall|x: Seq<u8>| #[trigger]
                is_draw(x, tail, k, drawn) implies is_exactly(h)(x) == zero(x) by {
                assert(tail.contains(x[l]));
            }
            draws_agree(tail, k, drawn, is_exactly(h), zero);
            draws_zero(tail, k, drawn, zero);
        } else {
            drawn_once(h, n + 1, k);
            assert(ascending(with + tail)) by {
                assert forall|i: int, j: int|
                    0 <= i < j < (with + tail).len() implies (with + tail)[i] < (with
                    + tail)[j] by {
                    if i < l {
                        assert(h[i] < n);
                        if j < l {
                            assert(h[i] < h[j]);
                        }
                    }
                }
            }
            assert forall|x: Seq<u8>| #[trigger]
                is_draw(x, tail, (k - 1) as nat, with) implies is_exactly(h)(x) == zero(x) by {
                assert(x[l] == x.take(with.len() as int)[l]);
            }
            draws_agree(tail, (k - 1) as nat, with, is_exactly(h), zero);
            draws_zero(tail, (k - 1) as nat, with, zero);
        }
    }
}

/// A hand in normal form stands for at least itself.
proof fn form_has_members(m: Seq<u8>)
    requires
        is_hand(m),
        normal_form(m) == m,
    ensures
        class_size(m) > 0,
{
    class_by_form(m);
    drawn_once(m, 0, 3);
    assert(deck().skip(0) =~= deck());
    assert(m.take(0) =~= seq![]);
    draws_le(deck(), 3, seq![], is_exactly(m), has_form(m));
}

/// Whether `h` is among the hands of a list.
spec fn listed(reps: Seq<([u8; 3], u32)>, h: Seq<u8>) -> bool {
    exists|i: int| 0 <= i < reps.len() && (#[trigger] reps[i]).0@ == h
}

/// The value of the hand that stands for a hand, where it is listed.
spec fn listed_value(
    reps: Seq<([u8; 3], u32)>,
    v: spec_fn(Seq<u8>) -> int,
) -> spec_fn(Seq<u8>) -> int {
    |h: Seq<u8>|
        if listed(reps, normal_form(h)) {
            v(normal_form(h))
        } else {
            0int
        }
}

/// Counts a hand as one where it is listed itself.
spec fn listed_self(reps: Seq<([u8; 3], u32)>) -> spec_fn(Seq<u8>) -> int {
    |h: Seq<u8>|
        if listed(reps, h) {
            1int
        } else {
            0int
        }
}

/// Different hands, in order, each with the size of its class.
spec fn partial_list(reps: Seq<([u8; 3], u32)>) -> bool {
    &&& forall|i: int|
        0 <= i < reps.len() ==> (#[trigger] reps[i]).1 > 0 && reps[i].1 == class_size(reps[i].0@)
    &&& forall|i: int, j: int|
        0 <= i < j < reps.len() ==> hand_key((#[trigger] reps[i]).0@) < hand_key(
            (#[trigger] reps[j]).0@,
        )
}

proof fn listed_last(reps: Seq<([u8; 3], u32)>, h: Seq<u8>)
    requires
        partial_list(reps),
        reps.len() > 0,
    ensures
        listed(reps, h) <==> listed(reps.drop_last(), h) || h == reps.last().0@,
        listed(reps.drop_last(), h) ==> h != reps.last().0@,
{
    let less = reps.drop_last();
    let l = reps.len() - 1;
    if listed(reps, h) {
        let i = choose|i: int| 0 <= i < reps.len() && (#[trigger] reps[i]).0@ == h;
        if i < l {
            assert(less[i].0@ == h);
        }
    }
    if listed(less, h) {
        let i = choose|i: int| 0 <= i < less.len() && (#[trigger] less[i]).0@ == h;
        assert(reps[i].0@ == h);
        assert(hand_key(reps[i].0@) < hand_key(reps[l].0@));
    }
    if h == reps.last().0@ {
        assert(reps[l].0@ == h);
    }
}

/// A weighted sum over listed hands is a sum over all hands that they stand for, and the length
/// of the list counts the listed hands.
proof fn regroup_listed(reps: Seq<([u8; 3], u32)>, v: spec_fn(Seq<u8>) -> int)
    requires
        partial_list(reps),
    ensures
        weighted(reps, v) == over_draws(deck(), 3, seq![], listed_value(reps, v)),
        reps.len() == over_draws(deck(), 3, seq![], listed_self(reps)),
    decreases reps.len(),
{
    if reps.len() == 0 {
        draws_zero(deck(), 3, seq![], listed_value(reps, v));
        draws_zero(deck(), 3, seq![], listed_self(reps));
    } else {
        let less = reps.drop_last();
        let m = reps.last().0@;
        assert forall|i: int| 0 <= i < less.len() implies (#[trigger] less[i]).1 > 0 && less[i].1
            == class_size(less[i].0@) by {
            assert(less[i] == reps[i]);
        }
        assert forall|i: int, j: int| 0 <= i < j < less.len() implies hand_key(
            (#[trigger] less[i]).0@,
        ) < hand_key((#[trigger] less[j]).0@) by {
            assert(less[i] == reps[i]);
            assert(less[j] == reps[j]);
        }
        regroup_listed(less, v);
        assert(reps.last() == reps[reps.len() - 1]);
        class_by_form(m);
        member_form(m);
        let f = listed_value(reps, v);
        assert forall|x: Seq<u8>| #[trigger] f(x) == v(m) * has_form(m)(x) + listed_value(less, v)(
            x,
        ) by {
            listed_last(reps, normal_form(x));
            assert(v(m) * 1 == v(m) && v(m) * 0 == 0) by (nonlinear_arith);
        }
        draws_linear(deck(), 3, seq![], v(m), has_form(m), listed_value(less, v), f);
        assert(v(m) * class_size(m) == reps.last().1 * v(m)) by (nonlinear_arith)
            requires
                class_size(m) == reps.last().1,
        ;
        let g = listed_self(reps);
        assert forall|x: Seq<u8>| #[trigger] g(x) == 1 * is_exactly(m)(x) + listed_self(less)(
            x,
        ) by {
            listed_last(reps, x);
        }
        draws_linear(deck(), 3, seq![], 1, is_exactly(m), listed_self(less), g);
        drawn_once(m, 0, 3);
        assert(deck().skip(0) =~= deck());
        assert(m.take(0) =~= seq![]);
    }
}

/// A weighted sum over the representatives is the sum over all starting hands, each valued by the
/// hand that stands for it.
pub proof fn regroup(
    reps: Seq<([u8; 3], u32)>,
    v: spec_fn(Seq<u8>) -> int,
    w: spec_fn(Seq<u8>) -> int,
)
    requires
        is_representatives(reps),
        forall|h: Seq<u8>| #[trigger] is_hand(h) ==> w(h) == v(normal_form(h)),
    ensures
        weighted(reps, v) == over_draws(deck(), 3, seq![], w),
{
    regroup_listed(reps, v);
    drawn_hands();
    assert forall|x: Seq<u8>| #[trigger] is_draw(x, deck(), 3, seq![]) implies listed_value(
        reps,
        v,
    )(x) == w(x) by {
        let m = normal_form(x);
        normal_form_canonical(x);
        normal_form_idempotent(x);
        form_has_members(m);
        let i = choose|i: int| 0 <= i < reps.len() && (#[trigger] reps[i]).0@ == m;
        assert(listed(reps, m));
    }
    draws_agree(deck(), 3, seq![], listed_value(reps, v), w);
}

proof fn weighted_by_one(reps: Seq<([u8; 3], u32)>, v: spec_fn(Seq<u8>) -> int)
    requires
        forall|h: Seq<u8>| #[trigger] v(h) == 1,
    ensures
        weighted(reps, v) == total_combos(reps),
    decreases reps.len(),
{
    if reps.len() > 0 {
        weighted_by_one(reps.drop_last(), v);
        assert(v(reps.last().0@) == 1);
    }
}

/// There are 1755 representatives, and they stand for all 22100 starting hands.
pub proof fn representatives_count(reps: Seq<([u8; 3], u32)>)
    requires
        is_representatives(reps),
    ensures
        reps.len() == 1755,
        total_combos(reps) == 22100,
{
    let one = |h: Seq<u8>| 1int;
    regroup(reps, one, one);
    weighted_by_one(reps, one);
    draws_count(deck(), 3, seq![], one);
    binom_closed(52);
    regroup_listed(reps, one);
    count_forms();
    drawn_hands();
    assert forall|x: Seq<u8>| #[trigger] is_draw(x, deck(), 3, seq![]) implies listed_self(reps)(x)
        == is_form()(x) by {
        if normal_form(x) == x {
            form_has_members(x);
            let i = choose|i: int| 0 <= i < reps.len() && (#[trigger] reps[i]).0@ == x;
            assert(listed(reps, x));
        }
        if listed(reps, x) {
            let i = choose|i: int| 0 <= i < reps.len() && (#[trigger] reps[i]).0@ == x;
            assert(reps[i].1 > 0);
            member_form(x);
        }
    }
    draws_agree(deck(), 3, seq![], listed_self(reps), is_form());
}

/// Each representative is a starting hand and stands for itself.
pub proof fn representatives_are_hands(reps: Seq<([u8; 3], u32)>)
    requires
        is_representatives(reps),
    ensures
        forall|i: int|
            0 <= i < reps.len() ==> is_hand((#[trigger] reps[i]).0@) && is_canonical(
                reps[i].0@,
                reps[i].0@,
            ),
{
    assert forall|i: int| 0 <= i < reps.len() implies is_hand((#[trigger] reps[i]).0@)
        && is_canonical(reps[i].0@, reps[i].0@) by {
        member_form(reps[i].0@);
        normal_form_canonical(reps[i].0@);
    }
}

/// For every starting hand there is exactly one representative that stands for it.
pub proof fn every_hand_represented(reps: Seq<([u8; 3], u32)>, h: Seq<u8>)
    requires
        is_representatives(reps),
        is_hand(h),
    ensures
        exists|i: int| 0 <= i < reps.len() && is_canonical((#[trigger] reps[i]).0@, h),
        forall|i: int, j: int|
            0 <= i < reps.len() && 0 <= j < reps.len() && is_canonical((#[trigger] reps[i]).0@, h)
                && is_canonical((#[trigger] reps[j]).0@, h) ==> i == j,
{
    let m = normal_form(h);
    normal_form_canonical(h);
    normal_form_idempotent(h);
    form_has_members(m);
    let i = choose|i: int| 0 <= i < reps.len() && (#[trigger] reps[i]).0@ == m;
    assert(is_canonical(reps[i].0@, h));
}

/// A hand is in the class of another exactly where it is that hand with its suits renamed.
proof fn class_member(m: Seq<u8>, h: Seq<u8>)
    requires
        m.len() == 3,
        is_canonical(m, m),
        is_hand(h),
    ensures
        is_canonical(m, h) <==> exists|p: Seq<u8>|
            p.len() == 4 && p[0] < 4 && p[1] < 4 && p[2] < 4 && p[3] < 4
                && #[trigger] p.no_duplicates() && same_three(
                h[0] as int,
                h[1] as int,
                h[2] as int,
                4 * (m[0] as int / 4) + p[m[0] as int % 4],
                4 * (m[1] as int / 4) + p[m[1] as int % 4],
                4 * (m[2] as int / 4) + p[m[2] as int % 4],
            ),
{
    class_is_images(m, h);
    assert(h =~= seq![h[0], h[1], h[2]]);
    if is_canonical(m, h) {
        let q = choose|q: Seq<u8>| #[trigger] is_suit_perm(q) && h == image(m, q);
        assert(q.no_duplicates());
        image_means(m, q, h[0], h[1], h[2]);
    }
    if exists|p: Seq<u8>|
        p.len() == 4 && p[0] < 4 && p[1] < 4 && p[2] < 4 && p[3] < 4 && #[trigger] p.no_duplicates()
            && same_three(
            h[0] as int,
            h[1] as int,
            h[2] as int,
            4 * (m[0] as int / 4) + p[m[0] as int % 4],
            4 * (m[1] as int / 4) + p[m[1] as int % 4],
            4 * (m[2] as int / 4) + p[m[2] as int % 4],
        ) {
        let q = choose|p: Seq<u8>|
            p.len() == 4 && p[0] < 4 && p[1] < 4 && p[2] < 4 && p[3] < 4
                && #[trigger] p.no_duplicates() && same_three(
                h[0] as int,
                h[1] as int,
                h[2] as int,
                4 * (m[0] as int / 4) + p[m[0] as int % 4],
                4 * (m[1] as int / 4) + p[m[1] as int % 4],
                4 * (m[2] as int / 4) + p[m[2] as int % 4],
            );
        image_means(m, q, h[0], h[1], h[2]);
        assert(is_suit_perm(q) && h == image(m, q));
    }
}

/// The number beside a representative is that of the hands, three cards in ascending order, that are
/// its cards with the suits renamed.
pub proof fn class_counted(reps: Seq<([u8; 3], u32)>, i: int)
    requires
        is_representatives(reps),
        0 <= i < reps.len(),
    ensures
        reps[i].1 == Set::new(
            |h: Seq<u8>|
                h.len() == 3 && h[0] < h[1] && h[1] < h[2] && h[2] < 52 && exists|p: Seq<u8>|
                    p.len() == 4 && p[0] < 4 && p[1] < 4 && p[2] < 4 && p[3] < 4
                        && #[trigger] p.no_duplicates() && same_three(
                        h[0] as int,
                        h[1] as int,
                        h[2] as int,
                        4 * (reps[i].0[0] as int / 4) + p[reps[i].0[0] as int % 4],
                        4 * (reps[i].0[1] as int / 4) + p[reps[i].0[1] as int % 4],
                        4 * (reps[i].0[2] as int / 4) + p[reps[i].0[2] as int % 4],
                    ),
        ).len(),
{
    let m = reps[i].0@;
    representatives_are_hands(reps);
    assert(is_canonical(m, m));
    let named = Set::new(
        |h: Seq<u8>|
            h.len() == 3 && h[0] < h[1] && h[1] < h[2] && h[2] < 52 && exists|p: Seq<u8>|
                p.len() == 4 && p[0] < 4 && p[1] < 4 && p[2] < 4 && p[3] < 4
                    && #[trigger] p.no_duplicates() && same_three(
                    h[0] as int,
                    h[1] as int,
                    h[2] as int,
                    4 * (reps[i].0[0] as int / 4) + p[reps[i].0[0] as int % 4],
                    4 * (reps[i].0[1] as int / 4) + p[reps[i].0[1] as int % 4],
                    4 * (reps[i].0[2] as int / 4) + p[reps[i].0[2] as int % 4],
                ),
    );
    let p = |h: Seq<u8>| is_canonical(m, h);
    drawn_hands();
    draws_set(deck(), 3, seq![], p, in_class(m));
    let drawn = drawn_set(deck(), 3, seq![], p);
    assert forall|h: Seq<u8>| drawn.contains(h) <==> named.contains(h) by {
        hand_is_drawn(h);
        if is_hand(h) {
            class_member(m, h);
        }
    }
    assert(drawn =~= named);
}

/// The draws of three cards are the starting hands.
proof fn hand_is_drawn(h: Seq<u8>)
    ensures
        is_draw(h, deck(), 3, seq![]) <==> is_hand(h),
{
    drawn_hands();
    if is_hand(h) {
        assert(h.take(0) =~= seq![]);
        assert(deck()[h[0] as int] == h[0] && deck()[h[1] as int] == h[1] && deck()[h[2] as int]
            == h[2]);
        assert forall|i: int| 0 <= i < 3 implies deck().contains(#[trigger] h[i]) by {
            assert(deck()[h[i] as int] == h[i]);
        }
    }
}

/// A representative is a hand in ascending order; in lexicographic order the list rises, and no
/// renaming of a representative's suits gives three cards before it.
pub proof fn representatives_come_first(reps: Seq<([u8; 3], u32)>)
    requires
        is_representatives(reps),
    ensures
        forall|i: int|
            0 <= i < reps.len() ==> (#[trigger] reps[i]).0[0] < reps[i].0[1] && reps[i].0[1]
                < reps[i].0[2] && reps[i].0[2] < 52,
        forall|i: int, j: int|
            0 <= i < j < reps.len() ==> {
                let (g, h) = ((#[trigger] reps[i]).0, (#[trigger] reps[j]).0);
                g[0] < h[0] || (g[0] == h[0] && (g[1] < h[1] || (g[1] == h[1] && g[2] < h[2])))
            },
        forall|i: int, p: Seq<u8>, a: u8, b: u8, c: u8|
            0 <= i < reps.len() && p.len() == 4 && p[0] < 4 && p[1] < 4 && p[2] < 4 && p[3] < 4
                && #[trigger] p.no_duplicates() && a <= b && b <= c && #[trigger] same_three(
                a as int,
                b as int,
                c as int,
                4 * ((#[trigger] reps[i]).0[0] as int / 4) + p[reps[i].0[0] as int % 4],
                4 * (reps[i].0[1] as int / 4) + p[reps[i].0[1] as int % 4],
                4 * (reps[i].0[2] as int / 4) + p[reps[i].0[2] as int % 4],
            ) ==> reps[i].0[0] < a || (reps[i].0[0] == a && (reps[i].0[1] < b || (reps[i].0[1] == b
                && reps[i].0[2] <= c))),
{
    representatives_are_hands(reps);
    assert forall|i: int| 0 <= i < reps.len() implies (#[trigger] reps[i]).0[0] < reps[i].0[1]
        && reps[i].0[1] < reps[i].0[2] && reps[i].0[2] < 52 by {
        assert(is_hand(reps[i].0@));
    }
    assert forall|i: int, j: int| 0 <= i < j < reps.len() implies {
        let (g, h) = ((#[trigger] reps[i]).0, (#[trigger] reps[j]).0);
        g[0] < h[0] || (g[0] == h[0] && (g[1] < h[1] || (g[1] == h[1] && g[2] < h[2])))
    } by {
        assert(hand_key(reps[i].0@) < hand_key(reps[j].0@));
    }
    assert forall|i: int, p: Seq<u8>, a: u8, b: u8, c: u8|
        0 <= i < reps.len() && p.len() == 4 && p[0] < 4 && p[1] < 4 && p[2] < 4 && p[3] < 4
            && #[trigger] p.no_duplicates() && a <= b && b <= c && #[trigger] same_three(
            a as int,
            b as int,
            c as int,
            4 * ((#[trigger] reps[i]).0[0] as int / 4) + p[reps[i].0[0] as int % 4],
            4 * (reps[i].0[1] as int / 4) + p[reps[i].0[1] as int % 4],
            4 * (reps[i].0[2] as int / 4) + p[reps[i].0[2] as int % 4],
        ) implies reps[i].0[0] < a || (reps[i].0[0] == a && (reps[i].0[1] < b || (reps[i].0[1] == b
        && reps[i].0[2] <= c))) by {
        let m = reps[i].0@;
        assert(is_canonical(m, m));
        image_means(m, p, a, b, c);
        assert(is_suit_perm(p));
        assert(hand_key(m) <= hand_key(image(m, p)));
    }
}

/// Every hand is a representative with its suits renamed.
pub proof fn every_hand_renamed(reps: Seq<([u8; 3], u32)>, h: Seq<u8>)
    requires
        is_representatives(reps),
        h.len() == 3,
        h[0] < h[1] && h[1] < h[2] && h[2] < 52,
    ensures
        exists|i: int, p: Seq<u8>|
            0 <= i < reps.len() && p.len() == 4 && p[0] < 4 && p[1] < 4 && p[2] < 4 && p[3] < 4
                && #[trigger] p.no_duplicates() && same_three(
                h[0] as int,
                h[1] as int,
                h[2] as int,
                4 * ((#[trigger] reps[i]).0[0] as int / 4) + p[reps[i].0[0] as int % 4],
                4 * (reps[i].0[1] as int / 4) + p[reps[i].0[1] as int % 4],
                4 * (reps[i].0[2] as int / 4) + p[reps[i].0[2] as int % 4],
            ),
{
    every_hand_represented(reps, h);
    representatives_are_hands(reps);
    let i = choose|i: int| 0 <= i < reps.len() && is_canonical((#[trigger] reps[i]).0@, h);
    let m = reps[i].0@;
    class_member(m, h);
    let p = choose|p: Seq<u8>|
        p.len() == 4 && p[0] < 4 && p[1] < 4 && p[2] < 4 && p[3] < 4 && #[trigger] p.no_duplicates()
            && same_three(
            h[0] as int,
            h[1] as int,
            h[2] as int,
            4 * (m[0] as int / 4) + p[m[0] as int % 4],
            4 * (m[1] as int / 4) + p[m[1] as int % 4],
            4 * (m[2] as int / 4) + p[m[2] as int % 4],
        );
    assert(p.no_duplicates());
}

/// Places of the table of triples follow the lexicographic order.
proof fn triple_order(x: int, y: int)
    requires
        0 <= x < y < 140608,
    ensures
        hand_key(triple_at(x)) < hand_key(triple_at(y)),
{
    let (a, b, c) = (x / 2704, x / 52 % 52, x % 52);
    let (d, e, f) = (y / 2704, y / 52 % 52, y % 52);
    assert(x / 52 / 52 == x / 2704 && y / 52 / 52 == y / 2704);
    assert(x / 52 == a * 52 + b && y / 52 == d * 52 + e);
    assert(x == (a * 52 + b) * 52 + c && y == (d * 52 + e) * 52 + f);
    assert(0 <= a < 52 && 0 <= d < 52);
    assert(a < d || (a == d && (b < e || (b == e && c < f))));
}

/// Lists one starting hand for each class of hands that differ only in the names of the suits,
/// with the number of hands in its class.
pub fn representatives() -> (reps: Vec<([u8; 3], u32)>)
    ensures
        is_representatives(reps@),
        reps@.len() == 1755,
        total_combos(reps@) == 22100,
{
    let perms = perms4();
    let mut counts: Vec<u32> = vec![0u32; 140608];
    let hand: [u8; 3] = [0; 3];
    proof {
        binom_closed(52);
        assert(hand@.take(0) =~= seq![]);
        assert(deck().skip(0) =~= deck());
    }
    count_classes(0, 0, hand, &perms, &mut counts);
    let mut reps: Vec<([u8; 3], u32)> = Vec::new();
    let mut x: usize = 0;
    while x < 140608
        invariant
            x <= 140608,
            counts@.len() == 140608,
            forall|y: int| 0 <= y < 140608 ==> #[trigger] counts@[y] == class_size(triple_at(y)),
            forall|i: int|
                0 <= i < reps@.len() ==> (#[trigger] reps@[i]).1 > 0 && reps@[i].1 == class_size(
                    reps@[i].0@,
                ),
            forall|i: int|
                0 <= i < reps@.len() && x < 140608 ==> hand_key((#[trigger] reps@[i]).0@)
                    < hand_key(triple_at(x as int)),
            forall|i: int, j: int|
                0 <= i < j < reps@.len() ==> hand_key((#[trigger] reps@[i]).0@) < hand_key(
                    (#[trigger] reps@[j]).0@,
                ),
            forall|y: int|
                0 <= y < x && class_size(#[trigger] triple_at(y)) > 0 ==> listed(
                    reps@,
                    triple_at(y),
                ),
        decreases 140608 - x,
    {
        let ghost before = reps@;
        let h: [u8; 3] = [(x / 2704) as u8, (x / 52 % 52) as u8, (x % 52) as u8];
        assert(h@ =~= triple_at(x as int));
        let m: u32 = counts[x];
        if m > 0 {
            reps.push((h, m));
        }
        proof {
            assert forall|y: int|
                0 <= y < x + 1 && class_size(#[trigger] triple_at(y)) > 0 implies listed(
                reps@,
                triple_at(y),
            ) by {
                assert(counts@[y] == class_size(triple_at(y)));
                if y < x {
                    assert(listed(before, triple_at(y)));
                    let i = choose|i: int|
                        0 <= i < before.len() && (#[trigger] before[i]).0@ == triple_at(y);
                    assert(reps@[i].0@ == triple_at(y));
                } else {
                    assert(reps@[reps@.len() - 1].0@ == triple_at(y));
                }
            }
            if x + 1 < 140608 {
                triple_order(x as int, x + 1);
            }
        }
        x = x + 1;
    }
    proof {
        assert forall|m: Seq<u8>| m.len() == 3 && #[trigger] class_size(m) > 0 implies exists|
            i: int,
        |
            0 <= i < reps@.len() && (#[trigger] reps@[i]).0@ == m by {
            member_form(m);
            triple_places(m[0], m[1], m[2]);
            assert(m =~= seq![m[0], m[1], m[2]]);
            let y = (m[0] * 52 + m[1]) * 52 + m[2];
            assert(listed(reps@, triple_at(y)));
        }
        representatives_count(reps@);
    }
    reps
}

} // verus!
