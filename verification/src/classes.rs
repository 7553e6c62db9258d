//! One starting hand for each class of hands that a renaming of the suits makes equal.
use crate::cards::{card_fields, rank_of, suit_of};
use crate::draws::{binom, over_draws};
use crate::equity::deck;
use crate::suits::{
    canonical, hand_key, hand_key_injective, image, is_least_image, is_suit_perm, recolor, sorted3,
    sorted3_rearranges,
};
use vstd::prelude::*;

verus! {

/// Whether `m` stands for the hand `h`: of all images of `h` under a renaming of the suits, it is
/// the first in lexicographic order.
pub open spec fn is_canonical(m: Seq<u8>, h: Seq<u8>) -> bool {
    &&& exists|p: Seq<u8>| #[trigger] is_suit_perm(p) && m == image(h, p)
    &&& forall|p: Seq<u8>| #[trigger] is_suit_perm(p) ==> hand_key(m) <= hand_key(image(h, p))
}

/// Counts a hand as one where `m` stands for it.
pub open spec fn in_class(m: Seq<u8>) -> spec_fn(Seq<u8>) -> int {
    |h: Seq<u8>|
        if is_canonical(m, h) {
            1int
        } else {
            0int
        }
}

/// The number of hands that `m` stands for.
pub open spec fn class_size(m: Seq<u8>) -> int {
    over_draws(deck(), 3, seq![], in_class(m))
}

/// Whether `reps` lists, in lexicographic order, every hand that stands for a class, with the
/// number of hands in it.
pub open spec fn is_representatives(reps: Seq<([u8; 3], u32)>) -> bool {
    &&& forall|i: int|
        0 <= i < reps.len() ==> (#[trigger] reps[i]).1 > 0 && reps[i].1 == class_size(reps[i].0@)
    &&& forall|i: int, j: int|
        0 <= i < j < reps.len() ==> hand_key((#[trigger] reps[i]).0@) < hand_key(
            (#[trigger] reps[j]).0@,
        )
    &&& forall|m: Seq<u8>|
        m.len() == 3 && #[trigger] class_size(m) > 0 ==> exists|i: int|
            0 <= i < reps.len() && (#[trigger] reps[i]).0@ == m
}

/// All renamings, as a list.
pub open spec fn lists_perms(perms: Seq<[u8; 4]>) -> bool {
    &&& perms.len() > 0
    &&& forall|i: int| 0 <= i < perms.len() ==> is_suit_perm(#[trigger] perms[i]@)
    &&& forall|p: Seq<u8>| #[trigger]
        is_suit_perm(p) ==> exists|i: int| 0 <= i < perms.len() && #[trigger] perms[i]@ == p
}

/// The least image under all renamings stands for the hand.
pub proof fn least_image_is_canonical(m: Seq<u8>, h: Seq<u8>, perms: Seq<[u8; 4]>)
    requires
        lists_perms(perms),
        is_least_image(m, h, perms),
    ensures
        is_canonical(m, h),
{
    assert forall|p: Seq<u8>| #[trigger] is_suit_perm(p) implies hand_key(m) <= hand_key(
        image(h, p),
    ) by {
        let i = choose|i: int| 0 <= i < perms.len() && #[trigger] perms[i]@ == p;
        assert(hand_key(m) <= hand_key(image(h, perms[i]@)));
    }
    let i = choose|i: int| 0 <= i < perms.len() && m == image(h, #[trigger] perms[i]@);
    assert(is_suit_perm(perms[i]@));
}

/// At most one hand stands for a hand.
pub proof fn canonical_unique(a: Seq<u8>, b: Seq<u8>, h: Seq<u8>)
    requires
        is_canonical(a, h),
        is_canonical(b, h),
    ensures
        a == b,
{
    let p = choose|p: Seq<u8>| #[trigger] is_suit_perm(p) && a == image(h, p);
    let q = choose|p: Seq<u8>| #[trigger] is_suit_perm(p) && b == image(h, p);
    hand_key_injective(a, b);
}

/// A renaming keeps the rank of a card and renames its suit.
pub proof fn recolor_fields(c: u8, p: Seq<u8>)
    requires
        is_suit_perm(p),
    ensures
        recolor(c, p) == 4 * rank_of(c) + p[suit_of(c)],
        recolor(c, p) < 52 <==> c < 52,
        rank_of(recolor(c, p)) == rank_of(c),
        suit_of(recolor(c, p)) == p[suit_of(c)],
{
    card_fields(c);
    let q = p[suit_of(c)];
    assert(q < 4);
    assert(((c >> 2) << 2) | q == 4 * (c / 4) + q) by (bit_vector)
        requires
            q < 4,
    ;
}

/// One renaming after another.
spec fn composed(p: Seq<u8>, q: Seq<u8>) -> Seq<u8> {
    seq![p[q[0] as int], p[q[1] as int], p[q[2] as int], p[q[3] as int]]
}

/// Where a renaming takes a suit from.
spec fn source(q: Seq<u8>, s: int) -> u8 {
    if q[0] == s {
        0
    } else if q[1] == s {
        1
    } else if q[2] == s {
        2
    } else {
        3
    }
}

/// The renaming that undoes another.
spec fn undoing(q: Seq<u8>) -> Seq<u8> {
    seq![source(q, 0), source(q, 1), source(q, 2), source(q, 3)]
}

proof fn renamings_compose(p: Seq<u8>, q: Seq<u8>)
    requires
        is_suit_perm(p),
        is_suit_perm(q),
    ensures
        is_suit_perm(composed(p, q)),
        is_suit_perm(undoing(q)),
        composed(composed(p, undoing(q)), q) == p,
{
    assert(composed(composed(p, undoing(q)), q) =~= p);
}

proof fn recolor_twice(c: u8, p: Seq<u8>, q: Seq<u8>)
    requires
        is_suit_perm(p),
        is_suit_perm(q),
    ensures
        recolor(recolor(c, q), p) == recolor(c, composed(p, q)),
{
    renamings_compose(p, q);
    recolor_fields(c, q);
    recolor_fields(recolor(c, q), p);
    recolor_fields(c, composed(p, q));
    assert(composed(p, q)[suit_of(c)] == p[q[suit_of(c)] as int]);
}

/// Sorting does not depend on the order to begin with.
proof fn sorted3_any_order(x: u8, y: u8, z: u8)
    ensures
        sorted3(seq![x, z, y]) == sorted3(seq![x, y, z]),
        sorted3(seq![y, x, z]) == sorted3(seq![x, y, z]),
        sorted3(seq![y, z, x]) == sorted3(seq![x, y, z]),
        sorted3(seq![z, x, y]) == sorted3(seq![x, y, z]),
        sorted3(seq![z, y, x]) == sorted3(seq![x, y, z]),
{
    let s = sorted3(seq![x, y, z]);
    assert(sorted3(seq![x, z, y]) =~= s);
    assert(sorted3(seq![y, x, z]) =~= s);
    assert(sorted3(seq![y, z, x]) =~= s);
    assert(sorted3(seq![z, x, y]) =~= s);
    assert(sorted3(seq![z, y, x]) =~= s);
}

/// Renaming twice is renaming once.
proof fn image_twice(h: Seq<u8>, p: Seq<u8>, q: Seq<u8>)
    requires
        h.len() == 3,
        is_suit_perm(p),
        is_suit_perm(q),
    ensures
        image(image(h, q), p) == image(h, composed(p, q)),
{
    let (a, b, c) = (recolor(h[0], q), recolor(h[1], q), recolor(h[2], q));
    recolor_twice(h[0], p, q);
    recolor_twice(h[1], p, q);
    recolor_twice(h[2], p, q);
    sorted3_rearranges(seq![a, b, c]);
    sorted3_any_order(recolor(a, p), recolor(b, p), recolor(c, p));
}

proof fn canonical_after(m: Seq<u8>, h: Seq<u8>, q: Seq<u8>)
    requires
        h.len() == 3,
        is_suit_perm(q),
        is_canonical(m, h),
    ensures
        is_canonical(m, image(h, q)),
{
    assert forall|p: Seq<u8>| #[trigger] is_suit_perm(p) implies hand_key(m) <= hand_key(
        image(image(h, q), p),
    ) by {
        renamings_compose(p, q);
        image_twice(h, p, q);
    }
    let p = choose|p: Seq<u8>| #[trigger] is_suit_perm(p) && m == image(h, p);
    let r = composed(p, undoing(q));
    renamings_compose(p, q);
    renamings_compose(p, undoing(q));
    image_twice(h, r, q);
    assert(is_suit_perm(r) && m == image(image(h, q), r));
}

proof fn canonical_before(m: Seq<u8>, h: Seq<u8>, q: Seq<u8>)
    requires
        h.len() == 3,
        is_suit_perm(q),
        is_canonical(m, image(h, q)),
    ensures
        is_canonical(m, h),
{
    assert forall|p: Seq<u8>| #[trigger] is_suit_perm(p) implies hand_key(m) <= hand_key(
        image(h, p),
    ) by {
        let r = composed(p, undoing(q));
        renamings_compose(p, q);
        renamings_compose(p, undoing(q));
        image_twice(h, r, q);
        assert(is_suit_perm(r));
    }
    let p = choose|p: Seq<u8>| #[trigger] is_suit_perm(p) && m == image(image(h, q), p);
    renamings_compose(p, q);
    image_twice(h, p, q);
    assert(is_suit_perm(composed(p, q)) && m == image(h, composed(p, q)));
}

/// A hand and its images have the same hand standing for them.
pub proof fn canonical_of_image(m: Seq<u8>, h: Seq<u8>, q: Seq<u8>)
    requires
        h.len() == 3,
        is_suit_perm(q),
    ensures
        is_canonical(m, image(h, q)) <==> is_canonical(m, h),
{
    if is_canonical(m, h) {
        canonical_after(m, h, q);
    }
    if is_canonical(m, image(h, q)) {
        canonical_before(m, h, q);
    }
}

/// A hand that stands for some hand stands for itself.
pub proof fn canonical_of_canonical(m: Seq<u8>, h: Seq<u8>)
    requires
        h.len() == 3,
        is_canonical(m, h),
    ensures
        is_canonical(m, m),
{
    let q = choose|p: Seq<u8>| #[trigger] is_suit_perm(p) && m == image(h, p);
    canonical_of_image(m, h, q);
}

/// The cards of an image are cards of the deck.
pub proof fn image_in_deck(h: Seq<u8>, p: Seq<u8>)
    requires
        h.len() == 3,
        h[0] < 52 && h[1] < 52 && h[2] < 52,
        is_suit_perm(p),
    ensures
        image(h, p).len() == 3,
        image(h, p)[0] < 52 && image(h, p)[1] < 52 && image(h, p)[2] < 52,
{
    recolor_fields(h[0], p);
    recolor_fields(h[1], p);
    recolor_fields(h[2], p);
}

/// The hand at place `x` of a table of all triples of cards.
pub(crate) open spec fn triple_at(x: int) -> Seq<u8> {
    seq![(x / 2704) as u8, (x / 52 % 52) as u8, (x % 52) as u8]
}

/// A function of hands that is zero or one sums to at most the number of draws.
pub proof fn draws_at_most(from: Seq<u8>, k: nat, drawn: Seq<u8>, f: spec_fn(Seq<u8>) -> int)
    requires
        forall|x: Seq<u8>| 0 <= #[trigger] f(x) <= 1,
    ensures
        0 <= over_draws(from, k, drawn, f) <= binom(from.len(), k),
    decreases from.len(),
{
    if k > 0 && from.len() > 0 {
        draws_at_most(from.drop_first(), (k - 1) as nat, drawn.push(from[0]), f);
        draws_at_most(from.drop_first(), k, drawn, f);
    } else {
        assert(0 <= f(drawn) <= 1);
    }
}

/// Triples of cards and places of the table match one for one.
pub(crate) proof fn triple_places(a: u8, b: u8, c: u8)
    requires
        a < 52 && b < 52 && c < 52,
    ensures
        0 <= (a * 52 + b) * 52 + c < 140608,
        triple_at((a * 52 + b) * 52 + c) == seq![a, b, c],
        forall|y: int|
            0 <= y < 140608 && #[trigger] triple_at(y) == seq![a, b, c] ==> y == (a * 52 + b) * 52
                + c,
{
    let x = (a * 52 + b) * 52 + c;
    assert(x / 2704 == a && x / 52 == a * 52 + b && x % 52 == c);
    assert(x / 52 % 52 == b);
    assert(triple_at(x) =~= seq![a, b, c]);
    assert forall|y: int| 0 <= y < 140608 && #[trigger] triple_at(y) == seq![a, b, c] implies y
        == x by {
        assert(triple_at(y)[0] == a);
        assert(triple_at(y)[1] == b);
        assert(triple_at(y)[2] == c);
        assert(0 <= y / 2704 < 52);
        assert(y / 2704 == a);
        assert(y / 52 / 52 == y / 2704);
        assert(y / 52 == a * 52 + b);
    }
}

/// Adds one to `counts` at the place of the hand that stands for `hand`.
fn count_hand(hand: [u8; 3], perms: &Vec<[u8; 4]>, counts: &mut Vec<u32>)
    requires
        forall|i: int| 0 <= i < 3 ==> #[trigger] hand@[i] < 52,
        lists_perms(perms@),
        old(counts)@.len() == 140608,
        forall|x: int| 0 <= x < 140608 ==> #[trigger] old(counts)@[x] < u32::MAX,
    ensures
        final(counts)@.len() == 140608,
        forall|x: int|
            0 <= x < 140608 ==> #[trigger] final(counts)@[x] == old(counts)@[x] + in_class(
                triple_at(x),
            )(hand@),
{
    let m = canonical(hand, perms.as_slice());
    proof {
        least_image_is_canonical(m@, hand@, perms@);
        let p = choose|p: Seq<u8>| #[trigger] is_suit_perm(p) && m@ == image(hand@, p);
        assert(hand@[0] < 52 && hand@[1] < 52 && hand@[2] < 52);
        image_in_deck(hand@, p);
        triple_places(m@[0], m@[1], m@[2]);
    }
    let x: usize = (m[0] as usize * 52 + m[1] as usize) * 52 + m[2] as usize;
    proof {
        assert(m@ =~= seq![m@[0], m@[1], m@[2]]);
        assert forall|y: int| 0 <= y < 140608 && y != x implies !is_canonical(
            #[trigger] triple_at(y),
            hand@,
        ) by {
            if is_canonical(triple_at(y), hand@) {
                canonical_unique(triple_at(y), m@, hand@);
            }
        }
    }
    let had: u32 = counts[x];
    counts.set(x, had + 1);
}

/// Adds to `counts`, at the place of the hand that stands for it, one for every hand made of the
/// first `n` cards of `hand` and the rest out of the cards from `from` on.
pub(crate) fn count_classes(
    from: u8,
    n: usize,
    hand: [u8; 3],
    perms: &Vec<[u8; 4]>,
    counts: &mut Vec<u32>,
)
    requires
        from <= 52,
        n <= 3,
        forall|i: int| 0 <= i < n ==> #[trigger] hand@[i] < 52,
        lists_perms(perms@),
        old(counts)@.len() == 140608,
        forall|x: int|
            0 <= x < 140608 ==> #[trigger] old(counts)@[x] + binom(
                (52 - from) as nat,
                (3 - n) as nat,
            ) <= u32::MAX,
    ensures
        final(counts)@.len() == 140608,
        forall|x: int|
            0 <= x < 140608 ==> #[trigger] final(counts)@[x] == old(counts)@[x] + over_draws(
                deck().skip(from as int),
                (3 - n) as nat,
                hand@.take(n as int),
                in_class(triple_at(x)),
            ),
    decreases 52 - from,
{
    let ghost before = counts@;
    let ghost drawn = hand@.take(n as int);
    if n == 3 {
        proof {
            assert(drawn =~= hand@);
            assert forall|x: int| 0 <= x < 140608 implies #[trigger] counts@[x] < u32::MAX by {
                assert(before[x] + binom((52 - from) as nat, 0) <= u32::MAX);
            }
        }
        count_hand(hand, perms, counts);
    } else if from < 52 {
        let ghost rest = deck().skip(from as int);
        let ghost tail = deck().skip(from + 1);
        let ghost left = (51 - from) as nat;
        let ghost more = (2 - n) as nat;
        let mut with: [u8; 3] = hand;
        with[n] = from;
        proof {
            assert(rest.drop_first() =~= tail);
            assert(rest[0] == from);
            assert(with@.take(n + 1) =~= drawn.push(from));
            assert(binom((52 - from) as nat, (3 - n) as nat) == binom(left, more) + binom(
                left,
                (3 - n) as nat,
            ));
            assert forall|x: int| 0 <= x < 140608 implies #[trigger] counts@[x] + binom(left, more)
                <= u32::MAX by {
                assert(before[x] + binom((52 - from) as nat, (3 - n) as nat) <= u32::MAX);
            }
        }
        count_classes(from + 1, n + 1, with, perms, counts);
        let ghost between = counts@;
        proof {
            assert forall|x: int| 0 <= x < 140608 implies #[trigger] counts@[x] + binom(
                left,
                (3 - n) as nat,
            ) <= u32::MAX by {
                assert(before[x] + binom((52 - from) as nat, (3 - n) as nat) <= u32::MAX);
                draws_at_most(tail, more, drawn.push(from), in_class(triple_at(x)));
            }
        }
        count_classes(from + 1, n, hand, perms, counts);
        proof {
            assert forall|x: int| 0 <= x < 140608 implies #[trigger] counts@[x] == before[x]
                + over_draws(rest, (3 - n) as nat, drawn, in_class(triple_at(x))) by {
                assert(between[x] == before[x] + over_draws(
                    tail,
                    more,
                    drawn.push(from),
                    in_class(triple_at(x)),
                ));
            }
        }
    }
}

/// Whether `a`, `b` and `c` are `u`, `v` and `w` in some order.
pub open spec fn same_three(a: int, b: int, c: int, u: int, v: int, w: int) -> bool {
    ||| a == u && b == v && c == w
    ||| a == u && b == w && c == v
    ||| a == v && b == u && c == w
    ||| a == v && b == w && c == u
    ||| a == w && b == u && c == v
    ||| a == w && b == v && c == u
}

/// An image holds the cards with each suit replaced by its new name and each rank kept, in ascending
/// order; no other three cards in ascending order do.
pub proof fn image_means(h: Seq<u8>, p: Seq<u8>, a: u8, b: u8, c: u8)
    requires
        h.len() == 3,
        p.len() == 4,
        p[0] < 4 && p[1] < 4 && p[2] < 4 && p[3] < 4,
        p.no_duplicates(),
    ensures
        image(h, p).len() == 3,
        image(h, p) == seq![a, b, c] <==> a <= b && b <= c && same_three(
            a as int,
            b as int,
            c as int,
            4 * (h[0] as int / 4) + p[h[0] as int % 4],
            4 * (h[1] as int / 4) + p[h[1] as int % 4],
            4 * (h[2] as int / 4) + p[h[2] as int % 4],
        ),
{
    assert(is_suit_perm(p));
    recolor_fields(h[0], p);
    recolor_fields(h[1], p);
    recolor_fields(h[2], p);
    let (u, v, w) = (recolor(h[0], p), recolor(h[1], p), recolor(h[2], p));
    sorted3_rearranges(seq![u, v, w]);
    let m = image(h, p);
    if m == seq![a, b, c] {
        assert(m[0] == a && m[1] == b && m[2] == c);
        sorted3_entries(u, v, w);
    }
    if a <= b && b <= c && same_three(a as int, b as int, c as int, u as int, v as int, w as int) {
        sorted3_any_order(a, b, c);
        assert(sorted3(seq![a, b, c]) =~= seq![a, b, c]);
    }
}

proof fn sorted3_entries(u: u8, v: u8, w: u8)
    ensures
        ({
            let m = sorted3(seq![u, v, w]);
            m[0] <= m[1] && m[1] <= m[2] && same_three(
                m[0] as int,
                m[1] as int,
                m[2] as int,
                u as int,
                v as int,
                w as int,
            )
        }),
{
}

/// The hand that stands for another comes first: it is the other with its suits renamed, in
/// ascending order, and in lexicographic order no renaming listed gives three cards before it.
pub proof fn canonical_comes_first(m: Seq<u8>, h: Seq<u8>, perms: Seq<[u8; 4]>)
    requires
        h.len() == 3,
        is_least_image(m, h, perms),
        forall|i: int|
            0 <= i < perms.len() ==> (#[trigger] perms[i])[0] < 4 && perms[i][1] < 4 && perms[i][2]
                < 4 && perms[i][3] < 4 && perms[i]@.no_duplicates(),
    ensures
        m.len() == 3,
        m[0] <= m[1] && m[1] <= m[2],
        exists|i: int|
            0 <= i < perms.len() && same_three(
                m[0] as int,
                m[1] as int,
                m[2] as int,
                4 * (h[0] as int / 4) + (#[trigger] perms[i])[h[0] as int % 4],
                4 * (h[1] as int / 4) + perms[i][h[1] as int % 4],
                4 * (h[2] as int / 4) + perms[i][h[2] as int % 4],
            ),
        forall|i: int, a: u8, b: u8, c: u8|
            0 <= i < perms.len() && a <= b && b <= c && #[trigger] same_three(
                a as int,
                b as int,
                c as int,
                4 * (h[0] as int / 4) + (#[trigger] perms[i])[h[0] as int % 4],
                4 * (h[1] as int / 4) + perms[i][h[1] as int % 4],
                4 * (h[2] as int / 4) + perms[i][h[2] as int % 4],
            ) ==> m[0] < a || (m[0] == a && (m[1] < b || (m[1] == b && m[2] <= c))),
{
    let i = choose|i: int| 0 <= i < perms.len() && m == image(h, #[trigger] perms[i]@);
    assert(perms[i][0] < 4);
    assert(m =~= seq![m[0], m[1], m[2]]) by {
        image_means(h, perms[i]@, 0, 0, 0);
    }
    image_means(h, perms[i]@, m[0], m[1], m[2]);
    assert forall|i: int, a: u8, b: u8, c: u8|
        0 <= i < perms.len() && a <= b && b <= c && #[trigger] same_three(
            a as int,
            b as int,
            c as int,
            4 * (h[0] as int / 4) + (#[trigger] perms[i])[h[0] as int % 4],
            4 * (h[1] as int / 4) + perms[i][h[1] as int % 4],
            4 * (h[2] as int / 4) + perms[i][h[2] as int % 4],
        ) implies m[0] < a || (m[0] == a && (m[1] < b || (m[1] == b && m[2] <= c))) by {
        image_means(h, perms[i]@, a, b, c);
        assert(hand_key(m) <= hand_key(image(h, perms[i]@)));
    }
}

/// A renaming and the one that undoes it leave every suit as it is.
proof fn undoing_undoes(p: Seq<u8>)
    requires
        is_suit_perm(p),
    ensures
        is_suit_perm(undoing(p)),
        composed(undoing(p), p) == seq![0u8, 1, 2, 3],
{
    assert(composed(undoing(p), p) =~= seq![0u8, 1, 2, 3]);
}

/// Renaming every suit to itself changes nothing.
proof fn image_same(h: Seq<u8>)
    requires
        h.len() == 3,
        h[0] <= h[1] && h[1] <= h[2],
    ensures
        image(h, seq![0u8, 1, 2, 3]) == h,
{
    let same = seq![0u8, 1, 2, 3];
    assert(is_suit_perm(same));
    recolor_fields(h[0], same);
    recolor_fields(h[1], same);
    recolor_fields(h[2], same);
    assert(forall|s: int| 0 <= s < 4 ==> #[trigger] same[s] == s);
    assert(recolor(h[0], same) == h[0] && recolor(h[1], same) == h[1] && recolor(h[2], same)
        == h[2]);
    assert(sorted3(seq![h[0], h[1], h[2]]) =~= h);
}

/// The images of a hand that stands for itself are the hands that it stands for.
pub proof fn class_is_images(m: Seq<u8>, h: Seq<u8>)
    requires
        m.len() == 3,
        h.len() == 3,
        h[0] <= h[1] && h[1] <= h[2],
        is_canonical(m, m),
    ensures
        is_canonical(m, h) <==> exists|p: Seq<u8>| #[trigger] is_suit_perm(p) && h == image(m, p),
{
    if is_canonical(m, h) {
        let p = choose|p: Seq<u8>| #[trigger] is_suit_perm(p) && m == image(h, p);
        undoing_undoes(p);
        image_twice(h, undoing(p), p);
        image_same(h);
        assert(is_suit_perm(undoing(p)) && h == image(m, undoing(p)));
    }
    if exists|p: Seq<u8>| #[trigger] is_suit_perm(p) && h == image(m, p) {
        let p = choose|p: Seq<u8>| #[trigger] is_suit_perm(p) && h == image(m, p);
        canonical_of_image(m, m, p);
    }
}

} // verus!
