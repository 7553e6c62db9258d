//! Equities add up: renaming the suits changes no equity, and over all starting hands the mean
//! equity is one half.
use crate::cards::suit_of;
use crate::classes::{is_canonical, is_representatives, recolor_fields};
use crate::draws::{
    binom, binom_closed, draws_agree, draws_count, draws_filter, draws_linear, draws_map,
    draws_same, draws_shuffle, draws_swap, draws_zero, ignores_order, is_draw, over_draws,
};
use crate::equity::{
    deals_count, deals_with, deck, distinct_cards, ends_with, not_in, on_board, showdown, without,
    without_facts, Outcome,
};
use crate::forms::{is_hand, normal_form, normal_form_canonical};
use crate::representatives::{regroup, representatives_count, total_combos, weighted};
use crate::suits::{image, is_suit_perm, recolor, sorted3};
use crate::tallies::{in_deck, recoloring, score_recolored, score_reordered};
use vstd::prelude::*;

verus! {

/// The value of a deal, where it is one: nothing where a card would be in two places.
spec fn deal_value(
    hero: Seq<u8>,
    board: Seq<u8>,
    opponent: Seq<u8>,
    straight: Seq<i8>,
    v: spec_fn(Outcome) -> int,
) -> int {
    if distinct_cards(hero + board + opponent) {
        v(showdown(hero, board, opponent, straight))
    } else {
        0
    }
}

spec fn full_opponent(
    hero: Seq<u8>,
    board: Seq<u8>,
    straight: Seq<i8>,
    v: spec_fn(Outcome) -> int,
) -> spec_fn(Seq<u8>) -> int {
    |opponent: Seq<u8>| deal_value(hero, board, opponent, straight, v)
}

spec fn full_board(
    hero: Seq<u8>,
    straight: Seq<i8>,
    v: spec_fn(Outcome) -> int,
) -> spec_fn(Seq<u8>) -> int {
    |board: Seq<u8>| over_draws(deck(), 3, seq![], full_opponent(hero, board, straight, v))
}

/// The value of all deals, with the board and the opponent's hand drawn from the whole deck.
spec fn full_value(hero: Seq<u8>, straight: Seq<i8>, v: spec_fn(Outcome) -> int) -> int {
    over_draws(deck(), 5, seq![], full_board(hero, straight, v))
}

spec fn near_opponent(
    hero: Seq<u8>,
    board: Seq<u8>,
    straight: Seq<i8>,
    v: spec_fn(Outcome) -> int,
) -> spec_fn(Seq<u8>) -> int {
    |opponent: Seq<u8>| v(showdown(hero, board, opponent, straight))
}

spec fn near_board(
    hero: Seq<u8>,
    straight: Seq<i8>,
    v: spec_fn(Outcome) -> int,
) -> spec_fn(Seq<u8>) -> int {
    |board: Seq<u8>|
        over_draws(without(hero + board), 3, seq![], near_opponent(hero, board, straight, v))
}

/// Cards drawn from what `gone` leaves are different from those.
proof fn drawn_apart(gone: Seq<u8>, x: Seq<u8>, k: nat)
    requires
        distinct_cards(gone),
        is_draw(x, without(gone), k, seq![]),
    ensures
        distinct_cards(gone + x),
{
    without_facts(gone);
    let all = gone + x;
    assert forall|i: int| 0 <= i < all.len() implies #[trigger] all[i] < 52 by {
        if i >= gone.len() {
            assert(without(gone).contains(x[i - gone.len()]));
        } else {
            assert(gone[i] < 52);
        }
    }
    assert forall|i: int, j: int| 0 <= i < j < all.len() implies all[i] != all[j] by {
        if i < gone.len() && j >= gone.len() {
            assert(without(gone).contains(x[j - gone.len()]));
            assert(gone.contains(gone[i]));
        }
    }
}

/// A hand that shares a card with `gone` cannot lie beside it.
proof fn drawn_shared(gone: Seq<u8>, x: Seq<u8>, rest: Seq<u8>, i: int)
    requires
        0 <= i < x.len(),
        gone.contains(x[i]),
    ensures
        !distinct_cards(gone + x + rest),
{
    let j = choose|j: int| 0 <= j < gone.len() && gone[j] == x[i];
    let all = gone + x + rest;
    assert(all[j] == gone[j]);
    assert(all[gone.len() + i] == x[i]);
}

/// Drawing from the whole deck and dropping impossible deals is drawing from what is left.
proof fn opponents_apart(
    hero: Seq<u8>,
    board: Seq<u8>,
    straight: Seq<i8>,
    v: spec_fn(Outcome) -> int,
)
    requires
        distinct_cards(hero + board),
    ensures
        full_board(hero, straight, v)(board) == near_board(hero, straight, v)(board),
{
    let gone = hero + board;
    let f = full_opponent(hero, board, straight, v);
    let g = near_opponent(hero, board, straight, v);
    without_facts(gone);
    assert(Seq::<u8>::empty() + without(gone) =~= without(gone));
    assert forall|x: Seq<u8>| #[trigger] is_draw(x, without(gone), 3, seq![]) implies f(x) == g(
        x,
    ) by {
        drawn_apart(gone, x, 3);
    }
    draws_agree(without(gone), 3, seq![], f, g);
    let keep = not_in(gone);
    assert forall|x: Seq<u8>, i: int| 0 <= i < x.len() && !keep(#[trigger] x[i]) implies f(x)
        == 0 by {
        drawn_shared(gone, x, Seq::empty(), i);
        assert(gone + x + Seq::<u8>::empty() =~= hero + board + x);
    }
    draws_filter(deck(), 3, seq![], keep, f);
}

proof fn boards_apart(hero: Seq<u8>, straight: Seq<i8>, v: spec_fn(Outcome) -> int)
    requires
        distinct_cards(hero),
    ensures
        full_value(hero, straight, v) == over_draws(
            without(hero),
            5,
            seq![],
            near_board(hero, straight, v),
        ),
{
    let f = full_board(hero, straight, v);
    let g = near_board(hero, straight, v);
    without_facts(hero);
    assert(Seq::<u8>::empty() + without(hero) =~= without(hero));
    assert forall|x: Seq<u8>| #[trigger] is_draw(x, without(hero), 5, seq![]) implies f(x) == g(
        x,
    ) by {
        drawn_apart(hero, x, 5);
        opponents_apart(hero, x, straight, v);
    }
    draws_agree(without(hero), 5, seq![], f, g);
    let keep = not_in(hero);
    assert forall|x: Seq<u8>, i: int| 0 <= i < x.len() && !keep(#[trigger] x[i]) implies f(x)
        == 0 by {
        let inner = full_opponent(hero, x, straight, v);
        assert forall|o: Seq<u8>| #[trigger] inner(o) == 0 by {
            drawn_shared(hero, x, o, i);
        }
        draws_zero(deck(), 3, seq![], inner);
    }
    draws_filter(deck(), 5, seq![], keep, f);
}

/// One for the outcome `w`, nothing for others.
spec fn is_outcome(w: Outcome) -> spec_fn(Outcome) -> int {
    |x: Outcome|
        if x == w {
            1int
        } else {
            0int
        }
}

/// Two for a win, one for a tie.
spec fn points() -> spec_fn(Outcome) -> int {
    |x: Outcome|
        match x {
            Outcome::Win => 2int,
            Outcome::Tie => 1int,
            Outcome::Loss => 0int,
        }
}

/// One for every deal.
spec fn one() -> spec_fn(Outcome) -> int {
    |x: Outcome| 1int
}

proof fn deals_in_full(hero: Seq<u8>, straight: Seq<i8>, w: Outcome)
    requires
        distinct_cards(hero),
    ensures
        deals_with(hero, straight, w) == full_value(hero, straight, is_outcome(w)),
{
    boards_apart(hero, straight, is_outcome(w));
    let f = on_board(hero, straight, w);
    let g = near_board(hero, straight, is_outcome(w));
    assert forall|b: Seq<u8>| #[trigger] f(b) == g(b) by {
        draws_same(
            without(hero + b),
            3,
            seq![],
            ends_with(hero, b, straight, w),
            near_opponent(hero, b, straight, is_outcome(w)),
        );
    }
    draws_same(without(hero), 5, seq![], f, g);
}

/// Values of outcomes add up over deals.
proof fn full_linear(
    hero: Seq<u8>,
    straight: Seq<i8>,
    a: int,
    u: spec_fn(Outcome) -> int,
    v: spec_fn(Outcome) -> int,
    w: spec_fn(Outcome) -> int,
)
    requires
        forall|x: Outcome| #[trigger] w(x) == a * u(x) + v(x),
    ensures
        full_value(hero, straight, w) == a * full_value(hero, straight, u) + full_value(
            hero,
            straight,
            v,
        ),
{
    assert forall|b: Seq<u8>| #[trigger] full_board(hero, straight, w)(b) == a * full_board(
        hero,
        straight,
        u,
    )(b) + full_board(hero, straight, v)(b) by {
        assert forall|o: Seq<u8>| #[trigger] full_opponent(hero, b, straight, w)(o) == a
            * full_opponent(hero, b, straight, u)(o) + full_opponent(hero, b, straight, v)(o) by {
            assert(a * 0 == 0) by (nonlinear_arith);
        }
        draws_linear(
            deck(),
            3,
            seq![],
            a,
            full_opponent(hero, b, straight, u),
            full_opponent(hero, b, straight, v),
            full_opponent(hero, b, straight, w),
        );
    }
    draws_linear(
        deck(),
        5,
        seq![],
        a,
        full_board(hero, straight, u),
        full_board(hero, straight, v),
        full_board(hero, straight, w),
    );
}

/// Every deal counts once.
proof fn full_count(hero: Seq<u8>, straight: Seq<i8>)
    requires
        distinct_cards(hero),
        hero.len() == 3,
    ensures
        full_value(hero, straight, one()) == binom(49, 5) * binom(44, 3),
{
    boards_apart(hero, straight, one());
    without_facts(hero);
    let f = near_board(hero, straight, one());
    let each = |b: Seq<u8>| 1int;
    let zero = |b: Seq<u8>| 0int;
    let g = |b: Seq<u8>| binom(44, 3) as int;
    assert(Seq::<u8>::empty() + without(hero) =~= without(hero));
    assert forall|x: Seq<u8>| #[trigger] is_draw(x, without(hero), 5, seq![]) implies f(x) == g(
        x,
    ) by {
        drawn_apart(hero, x, 5);
        without_facts(hero + x);
        draws_count(without(hero + x), 3, seq![], near_opponent(hero, x, straight, one()));
    }
    draws_agree(without(hero), 5, seq![], f, g);
    draws_linear(without(hero), 5, seq![], binom(44, 3) as int, each, zero, g);
    draws_count(without(hero), 5, seq![], each);
    draws_zero(without(hero), 5, seq![], zero);
    assert(binom(44, 3) * binom(49, 5) == binom(49, 5) * binom(44, 3)) by (nonlinear_arith);
}

/// Being different cards of the deck does not depend on the order.
proof fn distinct_reordered(x: Seq<u8>, y: Seq<u8>)
    requires
        x.to_multiset() == y.to_multiset(),
        distinct_cards(x),
    ensures
        distinct_cards(y),
{
    broadcast use vstd::seq_lib::group_to_multiset_ensures;

    x.lemma_multiset_has_no_duplicates();
    y.lemma_multiset_has_no_duplicates_conv();
    assert forall|i: int| 0 <= i < y.len() implies #[trigger] y[i] < 52 by {
        assert(y.contains(y[i]));
        assert(y.to_multiset().count(y[i]) > 0);
        assert(x.to_multiset().count(y[i]) > 0);
        assert(x.contains(y[i]));
        let j = choose|j: int| 0 <= j < x.len() && x[j] == y[i];
        assert(x[j] < 52);
    }
}

/// A part of different cards is different cards.
proof fn distinct_parts(h: Seq<u8>, b: Seq<u8>, o: Seq<u8>)
    requires
        distinct_cards(h + b + o),
    ensures
        in_deck(h),
        in_deck(b),
        in_deck(o),
        in_deck(b + h),
        in_deck(b + o),
{
    let all = h + b + o;
    assert forall|i: int| 0 <= i < h.len() implies #[trigger] h[i] < 52 by {
        assert(all[i] == h[i]);
    }
    assert forall|i: int| 0 <= i < b.len() implies #[trigger] b[i] < 52 by {
        assert(all[h.len() + i] == b[i]);
    }
    assert forall|i: int| 0 <= i < o.len() implies #[trigger] o[i] < 52 by {
        assert(all[h.len() + b.len() + i] == o[i]);
    }
}

/// The value of a deal does not depend on the order of cards in it.
proof fn deal_reordered(
    h: Seq<u8>,
    b: Seq<u8>,
    o: Seq<u8>,
    h2: Seq<u8>,
    b2: Seq<u8>,
    o2: Seq<u8>,
    straight: Seq<i8>,
    v: spec_fn(Outcome) -> int,
)
    requires
        h.to_multiset() == h2.to_multiset(),
        b.to_multiset() == b2.to_multiset(),
        o.to_multiset() == o2.to_multiset(),
    ensures
        deal_value(h, b, o, straight, v) == deal_value(h2, b2, o2, straight, v),
{
    broadcast use vstd::seq_lib::lemma_multiset_commutative;

    let x = h + b + o;
    let y = h2 + b2 + o2;
    assert(x.to_multiset() =~= y.to_multiset());
    if distinct_cards(x) {
        distinct_reordered(x, y);
        distinct_parts(h, b, o);
        distinct_parts(h2, b2, o2);
        assert((b + h).to_multiset() =~= (b2 + h2).to_multiset());
        assert((b + o).to_multiset() =~= (b2 + o2).to_multiset());
        score_reordered(b + h, b2 + h2, straight);
        score_reordered(b + o, b2 + o2, straight);
    } else if distinct_cards(y) {
        distinct_reordered(y, x);
    }
}

proof fn full_ignores_order(
    hero: Seq<u8>,
    board: Seq<u8>,
    straight: Seq<i8>,
    v: spec_fn(Outcome) -> int,
)
    ensures
        ignores_order(full_opponent(hero, board, straight, v)),
        ignores_order(full_board(hero, straight, v)),
{
    let f = full_opponent(hero, board, straight, v);
    assert forall|x: Seq<u8>, y: Seq<u8>| x.to_multiset() == y.to_multiset() implies #[trigger] f(x)
        == #[trigger] f(y) by {
        deal_reordered(hero, board, x, hero, board, y, straight, v);
    }
    let g = full_board(hero, straight, v);
    assert forall|x: Seq<u8>, y: Seq<u8>| x.to_multiset() == y.to_multiset() implies #[trigger] g(x)
        == #[trigger] g(y) by {
        let fx = full_opponent(hero, x, straight, v);
        let fy = full_opponent(hero, y, straight, v);
        assert forall|o: Seq<u8>| #[trigger] fx(o) == fy(o) by {
            deal_reordered(hero, x, o, hero, y, o, straight, v);
        }
        draws_same(deck(), 3, seq![], fx, fy);
    }
}

/// The value of a hand does not depend on the order of its cards.
proof fn full_reordered(
    hero: Seq<u8>,
    hero2: Seq<u8>,
    straight: Seq<i8>,
    v: spec_fn(Outcome) -> int,
)
    requires
        hero.to_multiset() == hero2.to_multiset(),
    ensures
        full_value(hero, straight, v) == full_value(hero2, straight, v),
{
    let f = full_board(hero, straight, v);
    let g = full_board(hero2, straight, v);
    assert forall|b: Seq<u8>| #[trigger] f(b) == g(b) by {
        let fo = full_opponent(hero, b, straight, v);
        let go = full_opponent(hero2, b, straight, v);
        assert forall|o: Seq<u8>| #[trigger] fo(o) == go(o) by {
            deal_reordered(hero, b, o, hero2, b, o, straight, v);
        }
        draws_same(deck(), 3, seq![], fo, go);
    }
    draws_same(deck(), 5, seq![], f, g);
}

/// Renaming the suits keeps different cards different.
proof fn distinct_recolored(x: Seq<u8>, p: Seq<u8>)
    requires
        is_suit_perm(p),
    ensures
        distinct_cards(x.map_values(recoloring(p))) <==> distinct_cards(x),
{
    let y = x.map_values(recoloring(p));
    assert forall|i: int, j: int| 0 <= i < x.len() && 0 <= j < x.len() implies (y[i] == y[j]
        <==> x[i] == x[j]) by {
        recolor_fields(x[i], p);
        recolor_fields(x[j], p);
        assert(0 <= suit_of(x[i]) < 4 && 0 <= suit_of(x[j]) < 4);
    }
    assert forall|i: int| 0 <= i < x.len() implies (y[i] < 52 <==> x[i] < 52) by {
        recolor_fields(x[i], p);
    }
    if distinct_cards(x) {
        assert forall|i: int| 0 <= i < y.len() implies #[trigger] y[i] < 52 by {
            assert(x[i] < 52);
        }
    }
    if distinct_cards(y) {
        assert forall|i: int| 0 <= i < x.len() implies #[trigger] x[i] < 52 by {
            assert(y[i] < 52);
        }
        assert forall|i: int, j: int|
            0 <= i < x.len() && 0 <= j < x.len() && i != j implies x[i] != x[j] by {
            assert(y[i] != y[j]);
        }
    }
}

/// The deck with its suits renamed is the deck in another order.
proof fn deck_recolored(p: Seq<u8>)
    requires
        is_suit_perm(p),
    ensures
        deck().map_values(recoloring(p)).to_multiset() == deck().to_multiset(),
{
    broadcast use vstd::seq_lib::group_to_multiset_ensures;

    let d = deck();
    let e = d.map_values(recoloring(p));
    distinct_recolored(d, p);
    d.lemma_multiset_has_no_duplicates();
    e.lemma_multiset_has_no_duplicates();
    d.unique_seq_to_set();
    e.unique_seq_to_set();
    assert(e.to_set().subset_of(d.to_set())) by {
        assert forall|c: u8| e.to_set().contains(c) implies d.to_set().contains(c) by {
            let i = choose|i: int| 0 <= i < e.len() && e[i] == c;
            assert(e[i] < 52);
            assert(d[c as int] == c);
        }
    }
    vstd::set_lib::lemma_subset_equality(e.to_set(), d.to_set());
    assert forall|c: u8| e.to_multiset().count(c) == d.to_multiset().count(c) by {
        assert(e.contains(c) <==> e.to_set().contains(c));
        assert(d.contains(c) <==> d.to_set().contains(c));
        if e.contains(c) {
            assert(e.to_multiset().contains(c));
            assert(d.to_multiset().contains(c));
        } else {
            assert(!d.contains(c));
        }
    }
    assert(e.to_multiset() =~= d.to_multiset());
}

/// The value of a deal does not depend on the names of the suits.
proof fn deal_recolored(
    h: Seq<u8>,
    b: Seq<u8>,
    o: Seq<u8>,
    p: Seq<u8>,
    straight: Seq<i8>,
    v: spec_fn(Outcome) -> int,
)
    requires
        is_suit_perm(p),
        h.len() == 3,
        b.len() == 5,
        o.len() == 3,
    ensures
        deal_value(
            h.map_values(recoloring(p)),
            b.map_values(recoloring(p)),
            o.map_values(recoloring(p)),
            straight,
            v,
        ) == deal_value(h, b, o, straight, v),
{
    let m = recoloring(p);
    let (h2, b2, o2) = (h.map_values(m), b.map_values(m), o.map_values(m));
    assert(h2 + b2 + o2 =~= (h + b + o).map_values(m));
    distinct_recolored(h + b + o, p);
    if distinct_cards(h + b + o) {
        distinct_parts(h, b, o);
        assert(b2 + h2 =~= (b + h).map_values(m));
        assert(b2 + o2 =~= (b + o).map_values(m));
        score_recolored(b + h, p, straight);
        score_recolored(b + o, p, straight);
    }
}

/// The whole deck drawn from after a renaming of the suits.
proof fn draws_recolored(k: nat, p: Seq<u8>, f: spec_fn(Seq<u8>) -> int, g: spec_fn(Seq<u8>) -> int)
    requires
        is_suit_perm(p),
        ignores_order(f),
        forall|x: Seq<u8>| x.len() == k ==> #[trigger] f(x.map_values(recoloring(p))) == g(x),
    ensures
        over_draws(deck(), k, seq![], f) == over_draws(deck(), k, seq![], g),
{
    let m = recoloring(p);
    let none = Seq::<u8>::empty();
    let fm = |x: Seq<u8>| f(x.map_values(m));
    deck_recolored(p);
    draws_shuffle(deck(), deck().map_values(m), k, none, f);
    assert(none.map_values(m) =~= none);
    draws_map(deck(), k, none, m, f, fm);
    assert(none + deck() =~= deck());
    assert forall|x: Seq<u8>| #[trigger] is_draw(x, deck(), k, none) implies fm(x) == g(x) by {
        assert(f(x.map_values(m)) == g(x));
    }
    draws_agree(deck(), k, none, fm, g);
}

/// The value of a hand does not depend on the names of the suits.
proof fn full_recolored(
    hero: Seq<u8>,
    p: Seq<u8>,
    straight: Seq<i8>,
    v: spec_fn(Outcome) -> int,
)
    requires
        is_suit_perm(p),
        hero.len() == 3,
    ensures
        full_value(hero.map_values(recoloring(p)), straight, v) == full_value(hero, straight, v),
{
    let m = recoloring(p);
    let h2 = hero.map_values(m);
    let f = full_board(h2, straight, v);
    let g = full_board(hero, straight, v);
    full_ignores_order(h2, seq![], straight, v);
    assert forall|b: Seq<u8>| b.len() == 5 implies #[trigger] f(b.map_values(m)) == g(b) by {
        let b2 = b.map_values(m);
        let fo = full_opponent(h2, b2, straight, v);
        let go = full_opponent(hero, b, straight, v);
        full_ignores_order(h2, b2, straight, v);
        assert forall|o: Seq<u8>| o.len() == 3 implies #[trigger] fo(o.map_values(m)) == go(o) by {
            deal_recolored(hero, b, o, p, straight, v);
        }
        draws_recolored(3, p, fo, go);
    }
    draws_recolored(5, p, f, g);
}

/// Three cards in order are the same cards.
proof fn sorted_same(x: Seq<u8>)
    requires
        x.len() == 3,
    ensures
        sorted3(x).to_multiset() == x.to_multiset(),
{
    broadcast use vstd::seq_lib::group_to_multiset_ensures;

    let y = sorted3(x);
    let none = Seq::<u8>::empty();
    assert(x =~= none.push(x[0]).push(x[1]).push(x[2]));
    assert(y =~= none.push(y[0]).push(y[1]).push(y[2]));
    assert(x.to_multiset() =~= none.to_multiset().insert(x[0]).insert(x[1]).insert(x[2]));
    assert(y.to_multiset() =~= none.to_multiset().insert(y[0]).insert(y[1]).insert(y[2]));
    assert(y.to_multiset() =~= x.to_multiset());
}

/// Two hands that a renaming of the suits makes equal win, tie and lose equally many deals.
pub proof fn equity_recolored(hero: Seq<u8>, p: Seq<u8>, straight: Seq<i8>, w: Outcome)
    requires
        distinct_cards(hero),
        hero.len() == 3,
        is_suit_perm(p),
    ensures
        deals_with(image(hero, p), straight, w) == deals_with(hero, straight, w),
{
    let h2 = hero.map_values(recoloring(p));
    let m = image(hero, p);
    assert(h2 =~= seq![recolor(hero[0], p), recolor(hero[1], p), recolor(hero[2], p)]);
    sorted_same(h2);
    distinct_recolored(hero, p);
    distinct_reordered(h2, m);
    deals_in_full(hero, straight, w);
    deals_in_full(m, straight, w);
    full_recolored(hero, p, straight, is_outcome(w));
    full_reordered(h2, m, straight, is_outcome(w));
}

/// A hand wins, ties and loses as many deals as the hand that stands for it.
pub proof fn canonical_equity(m: Seq<u8>, hero: Seq<u8>, straight: Seq<i8>, w: Outcome)
    requires
        distinct_cards(hero),
        hero.len() == 3,
        is_canonical(m, hero),
    ensures
        deals_with(m, straight, w) == deals_with(hero, straight, w),
{
    let p = choose|p: Seq<u8>| #[trigger] is_suit_perm(p) && m == image(hero, p);
    equity_recolored(hero, p, straight, w);
}

/// Every deal is won, tied or lost.
pub proof fn outcomes_add_up(hero: Seq<u8>, straight: Seq<i8>)
    requires
        distinct_cards(hero),
        hero.len() == 3,
    ensures
        deals_with(hero, straight, Outcome::Win) + deals_with(hero, straight, Outcome::Tie)
            + deals_with(hero, straight, Outcome::Loss) == binom(49, 5) * binom(44, 3),
        binom(49, 5) * binom(44, 3) == 25254771696,
{
    let win = is_outcome(Outcome::Win);
    let tie = is_outcome(Outcome::Tie);
    let loss = is_outcome(Outcome::Loss);
    let both = |x: Outcome| win(x) + tie(x);
    deals_in_full(hero, straight, Outcome::Win);
    deals_in_full(hero, straight, Outcome::Tie);
    deals_in_full(hero, straight, Outcome::Loss);
    full_linear(hero, straight, 1, win, tie, both);
    full_linear(hero, straight, 1, both, loss, one());
    full_count(hero, straight);
    deals_count();
}

/// Counts for a hand two for every deal it wins and one for every deal it ties.
pub open spec fn half_points(straight: Seq<i8>) -> spec_fn(Seq<u8>) -> int {
    |hero: Seq<u8>|
        2 * deals_with(hero, straight, Outcome::Win) + deals_with(hero, straight, Outcome::Tie)
}

/// The value of a deal seen from the hero's side and from the opponent's.
proof fn deal_both_sides(h: Seq<u8>, b: Seq<u8>, o: Seq<u8>, straight: Seq<i8>)
    ensures
        deal_value(h, b, o, straight, points()) + deal_value(o, b, h, straight, points()) == 2
            * deal_value(h, b, o, straight, one()),
{
    broadcast use vstd::seq_lib::lemma_multiset_commutative;

    let x = h + b + o;
    let y = o + b + h;
    assert(x.to_multiset() =~= y.to_multiset());
    if distinct_cards(x) {
        distinct_reordered(x, y);
    } else if distinct_cards(y) {
        distinct_reordered(y, x);
    }
}

/// The value of all deals of all hands, as three sums with the board outermost.
proof fn boards_first(straight: Seq<i8>, v: spec_fn(Outcome) -> int)
    ensures
        over_draws(
            deck(),
            3,
            seq![],
            |h: Seq<u8>| full_value(h, straight, v),
        ) == over_draws(
            deck(),
            5,
            seq![],
            |b: Seq<u8>|
                over_draws(
                    deck(),
                    3,
                    seq![],
                    |h: Seq<u8>|
                        over_draws(deck(), 3, seq![], full_opponent(h, b, straight, v)),
                ),
        ),
{
    let g = |h: Seq<u8>, b: Seq<u8>|
        over_draws(deck(), 3, seq![], full_opponent(h, b, straight, v));
    let left = |h: Seq<u8>| full_value(h, straight, v);
    let left2 = |h: Seq<u8>| over_draws(deck(), 5, seq![], |b: Seq<u8>| g(h, b));
    assert forall|h: Seq<u8>| #[trigger] left(h) == left2(h) by {
        draws_same(deck(), 5, seq![], full_board(h, straight, v), |b: Seq<u8>| g(h, b));
    }
    draws_same(deck(), 3, seq![], left, left2);
    draws_swap(deck(), 3, seq![], deck(), 5, seq![], g);
    let right = |b: Seq<u8>|
        over_draws(
            deck(),
            3,
            seq![],
            |h: Seq<u8>| over_draws(deck(), 3, seq![], full_opponent(h, b, straight, v)),
        );
    let right2 = |b: Seq<u8>| over_draws(deck(), 3, seq![], |h: Seq<u8>| g(h, b));
    assert forall|b: Seq<u8>| #[trigger] right(b) == right2(b) by {
        draws_same(
            deck(),
            3,
            seq![],
            |h: Seq<u8>| over_draws(deck(), 3, seq![], full_opponent(h, b, straight, v)),
            |h: Seq<u8>| g(h, b),
        );
    }
    draws_same(deck(), 5, seq![], right, right2);
}

/// On one board, points over all pairs of hands are as many as deals.
proof fn board_balanced(b: Seq<u8>, straight: Seq<i8>)
    ensures
        over_draws(
            deck(),
            3,
            seq![],
            |h: Seq<u8>| over_draws(deck(), 3, seq![], full_opponent(h, b, straight, points())),
        ) == over_draws(
            deck(),
            3,
            seq![],
            |h: Seq<u8>| over_draws(deck(), 3, seq![], full_opponent(h, b, straight, one())),
        ),
{
    let a = |h: Seq<u8>, o: Seq<u8>| deal_value(h, b, o, straight, points());
    let t = |h: Seq<u8>, o: Seq<u8>| deal_value(h, b, o, straight, one());
    let mine = |h: Seq<u8>| over_draws(deck(), 3, seq![], |o: Seq<u8>| a(h, o));
    let theirs = |h: Seq<u8>| over_draws(deck(), 3, seq![], |o: Seq<u8>| a(o, h));
    let deals = |h: Seq<u8>| over_draws(deck(), 3, seq![], |o: Seq<u8>| t(h, o));
    let p0 = |h: Seq<u8>| over_draws(deck(), 3, seq![], full_opponent(h, b, straight, points()));
    let o0 = |h: Seq<u8>| over_draws(deck(), 3, seq![], full_opponent(h, b, straight, one()));
    assert forall|h: Seq<u8>| #[trigger] p0(h) == mine(h) by {
        draws_same(
            deck(),
            3,
            seq![],
            full_opponent(h, b, straight, points()),
            |o: Seq<u8>| a(h, o),
        );
    }
    assert forall|h: Seq<u8>| #[trigger] o0(h) == deals(h) by {
        draws_same(deck(), 3, seq![], full_opponent(h, b, straight, one()), |o: Seq<u8>| t(h, o));
    }
    draws_same(deck(), 3, seq![], p0, mine);
    draws_same(deck(), 3, seq![], o0, deals);
    draws_swap(deck(), 3, seq![], deck(), 3, seq![], a);
    let swapped = |o: Seq<u8>| over_draws(deck(), 3, seq![], |h: Seq<u8>| a(h, o));
    assert forall|h: Seq<u8>| #[trigger] swapped(h) == theirs(h) by {
        draws_same(deck(), 3, seq![], |x: Seq<u8>| a(x, h), |o: Seq<u8>| a(o, h));
    }
    draws_same(deck(), 3, seq![], swapped, theirs);
    let zero = |h: Seq<u8>| 0int;
    let twice = |h: Seq<u8>| 2 * deals(h);
    assert forall|h: Seq<u8>| #[trigger] twice(h) == 1 * mine(h) + theirs(h) by {
        let zi = |o: Seq<u8>| 0int;
        let tw = |o: Seq<u8>| 2 * t(h, o);
        let ti = |o: Seq<u8>| t(h, o);
        let x = |o: Seq<u8>| a(h, o);
        let y = |o: Seq<u8>| a(o, h);
        assert forall|o: Seq<u8>| #[trigger] tw(o) == 1 * x(o) + y(o) by {
            deal_both_sides(h, b, o, straight);
        }
        draws_linear(deck(), 3, seq![], 1, x, y, tw);
        draws_linear(deck(), 3, seq![], 2, ti, zi, tw);
        draws_zero(deck(), 3, seq![], zi);
    }
    draws_linear(deck(), 3, seq![], 1, mine, theirs, twice);
    draws_linear(deck(), 3, seq![], 2, deals, zero, twice);
    draws_zero(deck(), 3, seq![], zero);
}

/// Over all starting hands, half the points are scored.
proof fn points_balanced(straight: Seq<i8>)
    ensures
        over_draws(deck(), 3, seq![], |h: Seq<u8>| full_value(h, straight, points()))
            == over_draws(deck(), 3, seq![], |h: Seq<u8>| full_value(h, straight, one())),
{
    boards_first(straight, points());
    boards_first(straight, one());
    let p = |b: Seq<u8>|
        over_draws(
            deck(),
            3,
            seq![],
            |h: Seq<u8>| over_draws(deck(), 3, seq![], full_opponent(h, b, straight, points())),
        );
    let q = |b: Seq<u8>|
        over_draws(
            deck(),
            3,
            seq![],
            |h: Seq<u8>| over_draws(deck(), 3, seq![], full_opponent(h, b, straight, one())),
        );
    assert forall|b: Seq<u8>| #[trigger] p(b) == q(b) by {
        board_balanced(b, straight);
    }
    draws_same(deck(), 5, seq![], p, q);
}

/// A starting hand is three different cards.
proof fn hands_distinct(h: Seq<u8>)
    requires
        is_hand(h),
    ensures
        distinct_cards(h),
        h.len() == 3,
{
}

/// The mean equity of the representatives, each weighted by the number of hands it stands for, is
/// one half: a won deal counting two and a tied deal one, they score as many points as there are
/// deals, out of two for each.
pub proof fn mean_equity_is_half(reps: Seq<([u8; 3], u32)>, straight: Seq<i8>)
    requires
        is_representatives(reps),
    ensures
        weighted(reps, half_points(straight)) == total_combos(reps) * (binom(49, 5) * binom(
            44,
            3,
        )),
{
    let v = half_points(straight);
    let deals = (binom(49, 5) * binom(44, 3)) as int;
    assert forall|h: Seq<u8>| #[trigger] is_hand(h) implies v(h) == v(normal_form(h)) by {
        hands_distinct(h);
        normal_form_canonical(h);
        canonical_equity(normal_form(h), h, straight, Outcome::Win);
        canonical_equity(normal_form(h), h, straight, Outcome::Tie);
    }
    regroup(reps, v, v);
    representatives_count(reps);
    crate::representatives::drawn_hands();
    let full = |h: Seq<u8>| full_value(h, straight, points());
    let all = |h: Seq<u8>| full_value(h, straight, one());
    let same = |h: Seq<u8>| deals;
    let each = |h: Seq<u8>| 1int;
    let zero = |h: Seq<u8>| 0int;
    assert forall|h: Seq<u8>| #[trigger] is_draw(h, deck(), 3, seq![]) implies v(h) == full(h)
        && all(h) == same(h) by {
        hands_distinct(h);
        deals_in_full(h, straight, Outcome::Win);
        deals_in_full(h, straight, Outcome::Tie);
        full_linear(
            h,
            straight,
            2,
            is_outcome(Outcome::Win),
            is_outcome(Outcome::Tie),
            points(),
        );
        full_count(h, straight);
    }
    draws_agree(deck(), 3, seq![], v, full);
    draws_agree(deck(), 3, seq![], all, same);
    points_balanced(straight);
    assert(deals * 1 == deals) by (nonlinear_arith);
    draws_linear(deck(), 3, seq![], deals, each, zero, same);
    draws_count(deck(), 3, seq![], each);
    draws_zero(deck(), 3, seq![], zero);
    binom_closed(52);
    assert(deals * 22100 == 22100 * deals);
}

} // verus!
