//! What the counts of deals count: one by one, the deals that are won, tied and lost.
use crate::best::{five_of, score_is_best};
use crate::draws::{ascending, is_draw, over_draws};
use crate::equity::{
    deals_with, distinct_cards, ends_with, hand_score, on_board, opponents_with, showdown, without,
    without_facts, Outcome,
};
use crate::straight::straight_table;
use vstd::prelude::*;
use vstd::set_lib::{lemma_map_size, lemma_set_disjoint_lens};

verus! {

/// A draw either takes the next card or does without it.
proof fn draw_splits(x: Seq<u8>, from: Seq<u8>, k: nat, drawn: Seq<u8>)
    requires
        ascending(drawn + from),
        k > 0,
        from.len() > 0,
    ensures
        is_draw(x, from, k, drawn) <==> is_draw(
            x,
            from.drop_first(),
            (k - 1) as nat,
            drawn.push(from[0]),
        ) || is_draw(x, from.drop_first(), k, drawn),
        !(is_draw(x, from.drop_first(), (k - 1) as nat, drawn.push(from[0])) && is_draw(
            x,
            from.drop_first(),
            k,
            drawn,
        )),
        ascending(drawn.push(from[0]) + from.drop_first()),
        ascending(drawn + from.drop_first()),
{
    let h = from[0];
    let tail = from.drop_first();
    let taken = drawn.push(h);
    let n = drawn.len() as int;
    assert(taken + tail =~= drawn + from);
    assert forall|i: int, j: int| 0 <= i < j < (drawn + tail).len() implies (drawn + tail)[i] < (
    drawn + tail)[j] by {
        let a = if i < n {
            i
        } else {
            i + 1
        };
        let b = if j < n {
            j
        } else {
            j + 1
        };
        assert((drawn + from)[a] < (drawn + from)[b]);
    }
    assert forall|c: u8| #[trigger] tail.contains(c) implies c > h && from.contains(c) by {
        let j = choose|j: int| 0 <= j < tail.len() && tail[j] == c;
        assert(from[j + 1] == c);
        assert((drawn + from)[n] == h);
        assert((drawn + from)[n + j + 1] == c);
    }
    assert forall|c: u8| from.contains(c) && c != h implies #[trigger] tail.contains(c) by {
        let j = choose|j: int| 0 <= j < from.len() && from[j] == c;
        assert(tail[j - 1] == c);
    }
    if is_draw(x, tail, (k - 1) as nat, taken) {
        assert(x.take(n) =~= taken.take(n));
        assert(taken.take(n) =~= drawn);
        assert(x[n] == x.take(taken.len() as int)[n]);
        assert(x[n] == h);
        assert(from.contains(h)) by {
            assert(from[0] == h);
        }
        assert forall|i: int| n <= i < x.len() implies from.contains(#[trigger] x[i]) by {
            if i > n {
                assert(tail.contains(x[i]));
            }
        }
        assert(is_draw(x, from, k, drawn));
        if is_draw(x, tail, k, drawn) {
            assert(tail.contains(x[n]));
        }
    }
    if is_draw(x, tail, k, drawn) {
        assert forall|i: int| n <= i < x.len() implies from.contains(#[trigger] x[i]) by {
            assert(tail.contains(x[i]));
        }
        assert(is_draw(x, from, k, drawn));
    }
    if is_draw(x, from, k, drawn) {
        assert(from.contains(x[n]));
        if x[n] == h {
            assert(x.take(n + 1) =~= taken) by {
                assert forall|i: int| 0 <= i < n implies x[i] == drawn[i] by {
                    assert(x.take(n)[i] == x[i]);
                }
            }
            assert forall|i: int| n + 1 <= i < x.len() implies tail.contains(#[trigger] x[i]) by {
                assert(from.contains(x[i]));
                assert(x[n] < x[i]);
            }
            assert(is_draw(x, tail, (k - 1) as nat, taken));
        } else {
            assert forall|i: int| n <= i < x.len() implies tail.contains(#[trigger] x[i]) by {
                assert(from.contains(x[i]));
                assert(tail.contains(x[n]));
                if i > n {
                    assert(x[n] < x[i]);
                }
            }
            assert(is_draw(x, tail, k, drawn));
        }
    }
}

/// The draws that satisfy `p`.
pub(crate) open spec fn drawn_set(
    from: Seq<u8>,
    k: nat,
    drawn: Seq<u8>,
    p: spec_fn(Seq<u8>) -> bool,
) -> Set<Seq<u8>> {
    Set::new(|x: Seq<u8>| is_draw(x, from, k, drawn) && p(x))
}

/// A sum of ones is the number of draws that are counted.
pub(crate) proof fn draws_set(
    from: Seq<u8>,
    k: nat,
    drawn: Seq<u8>,
    p: spec_fn(Seq<u8>) -> bool,
    f: spec_fn(Seq<u8>) -> int,
)
    requires
        ascending(drawn + from),
        forall|x: Seq<u8>| #[trigger]
            f(x) == (if p(x) {
                1int
            } else {
                0int
            }),
    ensures
        drawn_set(from, k, drawn, p).finite(),
        over_draws(from, k, drawn, f) == drawn_set(from, k, drawn, p).len(),
    decreases from.len(),
{
    let all = drawn_set(from, k, drawn, p);
    if k == 0 {
        assert forall|x: Seq<u8>| #[trigger] is_draw(x, from, 0, drawn) <==> x == drawn by {
            if is_draw(x, from, 0, drawn) {
                assert(x.take(drawn.len() as int) =~= x);
            }
            assert(drawn.take(drawn.len() as int) =~= drawn);
            assert forall|i: int, j: int| 0 <= i < j < drawn.len() implies drawn[i] < drawn[j] by {
                assert((drawn + from)[i] < (drawn + from)[j]);
            }
        }
        if p(drawn) {
            assert(all =~= Set::empty().insert(drawn));
        } else {
            assert(all =~= Set::empty());
        }
    } else if from.len() == 0 {
        assert forall|x: Seq<u8>| !#[trigger] is_draw(x, from, k, drawn) by {
            if is_draw(x, from, k, drawn) {
                assert(from.contains(x[drawn.len() as int]));
            }
        }
        assert(all =~= Set::empty());
    } else {
        let tail = from.drop_first();
        let taken = drawn.push(from[0]);
        draw_splits(drawn, from, k, drawn);
        draws_set(tail, (k - 1) as nat, taken, p, f);
        draws_set(tail, k, drawn, p, f);
        let (a, b) = (drawn_set(tail, (k - 1) as nat, taken, p), drawn_set(tail, k, drawn, p));
        assert forall|x: Seq<u8>| all.contains(x) <==> (a + b).contains(x) by {
            draw_splits(x, from, k, drawn);
        }
        assert(all =~= a + b);
        assert forall|x: Seq<u8>| !(a.contains(x) && b.contains(x)) by {
            draw_splits(x, from, k, drawn);
        }
        assert(a.disjoint(b));
        lemma_set_disjoint_lens(a, b);
    }
}

/// The draws paired with the members of a set that each has.
spec fn drawn_pairs(
    from: Seq<u8>,
    k: nat,
    drawn: Seq<u8>,
    s: spec_fn(Seq<u8>) -> Set<Seq<u8>>,
) -> Set<(Seq<u8>, Seq<u8>)> {
    Set::new(|x: (Seq<u8>, Seq<u8>)| is_draw(x.0, from, k, drawn) && s(x.0).contains(x.1))
}

/// A sum of sizes is the number of pairs.
proof fn draws_pairs(
    from: Seq<u8>,
    k: nat,
    drawn: Seq<u8>,
    s: spec_fn(Seq<u8>) -> Set<Seq<u8>>,
    f: spec_fn(Seq<u8>) -> int,
)
    requires
        ascending(drawn + from),
        forall|x: Seq<u8>| #[trigger]
            is_draw(x, from, k, drawn) ==> s(x).finite() && f(x) == s(x).len(),
    ensures
        drawn_pairs(from, k, drawn, s).finite(),
        over_draws(from, k, drawn, f) == drawn_pairs(from, k, drawn, s).len(),
    decreases from.len(),
{
    let all = drawn_pairs(from, k, drawn, s);
    if k == 0 {
        assert forall|x: Seq<u8>| #[trigger] is_draw(x, from, 0, drawn) <==> x == drawn by {
            if is_draw(x, from, 0, drawn) {
                assert(x.take(drawn.len() as int) =~= x);
            }
            assert(drawn.take(drawn.len() as int) =~= drawn);
            assert forall|i: int, j: int| 0 <= i < j < drawn.len() implies drawn[i] < drawn[j] by {
                assert((drawn + from)[i] < (drawn + from)[j]);
            }
        }
        assert(is_draw(drawn, from, 0, drawn));
        let g = |o: Seq<u8>| (drawn, o);
        assert(s(drawn).map(g) =~= all) by {
            assert forall|x: (Seq<u8>, Seq<u8>)| all.contains(x) implies s(drawn).map(g).contains(
                x,
            ) by {
                assert(s(drawn).contains(x.1));
                assert(g(x.1) == x);
            }
        }
        lemma_map_size(s(drawn), all, g);
    } else if from.len() == 0 {
        assert forall|x: Seq<u8>| !#[trigger] is_draw(x, from, k, drawn) by {
            if is_draw(x, from, k, drawn) {
                assert(from.contains(x[drawn.len() as int]));
            }
        }
        assert(all =~= Set::empty());
    } else {
        let tail = from.drop_first();
        let taken = drawn.push(from[0]);
        draw_splits(drawn, from, k, drawn);
        assert forall|x: Seq<u8>| #[trigger]
            is_draw(x, tail, (k - 1) as nat, taken) implies s(x).finite() && f(x) == s(x).len() by {
            draw_splits(x, from, k, drawn);
        }
        assert forall|x: Seq<u8>| #[trigger] is_draw(x, tail, k, drawn) implies s(x).finite() && f(
            x,
        ) == s(x).len() by {
            draw_splits(x, from, k, drawn);
        }
        draws_pairs(tail, (k - 1) as nat, taken, s, f);
        draws_pairs(tail, k, drawn, s, f);
        let (a, b) = (drawn_pairs(tail, (k - 1) as nat, taken, s), drawn_pairs(tail, k, drawn, s));
        assert forall|x: (Seq<u8>, Seq<u8>)| all.contains(x) <==> (a + b).contains(x) by {
            draw_splits(x.0, from, k, drawn);
        }
        assert(all =~= a + b);
        assert forall|x: (Seq<u8>, Seq<u8>)| !(a.contains(x) && b.contains(x)) by {
            draw_splits(x.0, from, k, drawn);
        }
        assert(a.disjoint(b));
        lemma_set_disjoint_lens(a, b);
    }
}

/// Whether `w` is how a showdown of these scores ends.
spec fn ends(w: Outcome, hv: int, ov: int) -> bool {
    match w {
        Outcome::Win => hv > ov,
        Outcome::Tie => hv == ov,
        Outcome::Loss => hv < ov,
    }
}

/// Whether the opponent may hold `o`, and the showdown against it ends with `w`.
spec fn opponent_ends(
    hero: Seq<u8>,
    board: Seq<u8>,
    straight: Seq<i8>,
    w: Outcome,
) -> spec_fn(Seq<u8>) -> bool {
    |o: Seq<u8>|
        o.len() == 3 && o[0] < o[1] && o[1] < o[2] && o[2] < 52 && !(hero + board).contains(o[0])
            && !(hero + board).contains(o[1]) && !(hero + board).contains(o[2]) && ends(
            w,
            hand_score(board + hero, straight),
            hand_score(board + o, straight),
        )
}

/// The hands an opponent may draw.
proof fn opponent_draws(hero: Seq<u8>, board: Seq<u8>, o: Seq<u8>)
    requires
        distinct_cards(hero + board),
    ensures
        is_draw(o, without(hero + board), 3, seq![]) <==> o.len() == 3 && o[0] < o[1] && o[1] < o[2]
            && o[2] < 52 && !(hero + board).contains(o[0]) && !(hero + board).contains(o[1]) && !(
        hero + board).contains(o[2]),
{
    let from = without(hero + board);
    without_facts(hero + board);
    assert(o.take(0) =~= seq![]);
    if is_draw(o, from, 3, seq![]) {
        assert(from.contains(o[0]) && from.contains(o[1]) && from.contains(o[2]));
    }
}

proof fn opponents_set(hero: Seq<u8>, board: Seq<u8>, straight: Seq<i8>, w: Outcome)
    requires
        distinct_cards(hero + board),
    ensures
        Set::new(opponent_ends(hero, board, straight, w)).finite(),
        opponents_with(hero, board, straight, w) == Set::new(
            opponent_ends(hero, board, straight, w),
        ).len(),
{
    let from = without(hero + board);
    without_facts(hero + board);
    assert(Seq::<u8>::empty() + from =~= from);
    let p = |o: Seq<u8>| showdown(hero, board, o, straight) == w;
    let f = ends_with(hero, board, straight, w);
    draws_set(from, 3, seq![], p, f);
    let named = Set::new(opponent_ends(hero, board, straight, w));
    assert forall|o: Seq<u8>| drawn_set(from, 3, seq![], p).contains(o) <==> named.contains(o) by {
        opponent_draws(hero, board, o);
    }
    assert(drawn_set(from, 3, seq![], p) =~= named);
}

/// On a board, the count of a win, a tie or a loss is the number of hands, three cards in ascending
/// order that neither the hero nor the board holds, against which the hero's eight cards score more
/// than the opponent's, as much, or less.
pub proof fn opponents_counted(hero: Seq<u8>, board: Seq<u8>, straight: Seq<i8>)
    requires
        distinct_cards(hero + board),
    ensures
        opponents_with(hero, board, straight, Outcome::Win) == Set::new(
            |o: Seq<u8>|
                o.len() == 3 && o[0] < o[1] && o[1] < o[2] && o[2] < 52 && !(hero + board).contains(
                    o[0],
                ) && !(hero + board).contains(o[1]) && !(hero + board).contains(o[2])
                    && hand_score(board + hero, straight) > hand_score(board + o, straight),
        ).len(),
        opponents_with(hero, board, straight, Outcome::Tie) == Set::new(
            |o: Seq<u8>|
                o.len() == 3 && o[0] < o[1] && o[1] < o[2] && o[2] < 52 && !(hero + board).contains(
                    o[0],
                ) && !(hero + board).contains(o[1]) && !(hero + board).contains(o[2])
                    && hand_score(board + hero, straight) == hand_score(board + o, straight),
        ).len(),
        opponents_with(hero, board, straight, Outcome::Loss) == Set::new(
            |o: Seq<u8>|
                o.len() == 3 && o[0] < o[1] && o[1] < o[2] && o[2] < 52 && !(hero + board).contains(
                    o[0],
                ) && !(hero + board).contains(o[1]) && !(hero + board).contains(o[2])
                    && hand_score(board + hero, straight) < hand_score(board + o, straight),
        ).len(),
{
    opponents_set(hero, board, straight, Outcome::Win);
    assert(Set::new(opponent_ends(hero, board, straight, Outcome::Win)) =~= Set::new(
            |o: Seq<u8>|
                o.len() == 3 && o[0] < o[1] && o[1] < o[2] && o[2] < 52 && !(hero + board).contains(
                    o[0],
                ) && !(hero + board).contains(o[1]) && !(hero + board).contains(o[2])
                    && hand_score(board + hero, straight) > hand_score(board + o, straight),
        ));
    opponents_set(hero, board, straight, Outcome::Tie);
    assert(Set::new(opponent_ends(hero, board, straight, Outcome::Tie)) =~= Set::new(
            |o: Seq<u8>|
                o.len() == 3 && o[0] < o[1] && o[1] < o[2] && o[2] < 52 && !(hero + board).contains(
                    o[0],
                ) && !(hero + board).contains(o[1]) && !(hero + board).contains(o[2])
                    && hand_score(board + hero, straight) == hand_score(board + o, straight),
        ));
    opponents_set(hero, board, straight, Outcome::Loss);
    assert(Set::new(opponent_ends(hero, board, straight, Outcome::Loss)) =~= Set::new(
            |o: Seq<u8>|
                o.len() == 3 && o[0] < o[1] && o[1] < o[2] && o[2] < 52 && !(hero + board).contains(
                    o[0],
                ) && !(hero + board).contains(o[1]) && !(hero + board).contains(o[2])
                    && hand_score(board + hero, straight) < hand_score(board + o, straight),
        ));
}

/// Whether a board and an opponent's hand make a deal that ends with `w`.
spec fn deal_ends(hero: Seq<u8>, straight: Seq<i8>, w: Outcome) -> spec_fn(
    (Seq<u8>, Seq<u8>),
) -> bool {
    |d: (Seq<u8>, Seq<u8>)|
        d.0.len() == 5 && d.1.len() == 3 && d.0[0] < d.0[1] && d.0[1] < d.0[2] && d.0[2] < d.0[3]
            && d.0[3] < d.0[4] && d.0[4] < 52 && d.1[0] < d.1[1] && d.1[1] < d.1[2] && d.1[2] < 52
            && (hero + d.0 + d.1).no_duplicates() && ends(
            w,
            hand_score(d.0 + hero, straight),
            hand_score(d.0 + d.1, straight),
        )
}

/// The boards that may be dealt.
proof fn board_draws(hero: Seq<u8>, b: Seq<u8>)
    requires
        distinct_cards(hero),
        hero.len() == 3,
    ensures
        is_draw(b, without(hero), 5, seq![]) <==> b.len() == 5 && b[0] < b[1] && b[1] < b[2] && b[2]
            < b[3] && b[3] < b[4] && b[4] < 52 && distinct_cards(hero + b),
{
    let from = without(hero);
    without_facts(hero);
    assert(b.take(0) =~= seq![]);
    let all = hero + b;
    if is_draw(b, from, 5, seq![]) {
        assert(b[0] < b[1] && b[1] < b[2] && b[2] < b[3] && b[3] < b[4]);
        assert(from.contains(b[0]) && from.contains(b[1]) && from.contains(b[2]) && from.contains(
            b[3],
        ) && from.contains(b[4]));
        assert forall|i: int, j: int| 0 <= i < j < all.len() implies all[i] != all[j] by {
            if i < 3 && j >= 3 {
                assert(from.contains(b[j - 3]));
                assert(hero.contains(hero[i]));
            } else if i >= 3 {
                assert(b[i - 3] < b[j - 3]);
            } else {
                assert(hero[i] != hero[j]);
            }
        }
        assert forall|i: int| 0 <= i < all.len() implies #[trigger] all[i] < 52 by {
            if i < 3 {
                assert(hero[i] < 52);
            } else {
                assert(from.contains(b[i - 3]));
            }
        }
    }
    if b.len() == 5 && b[0] < b[1] && b[1] < b[2] && b[2] < b[3] && b[3] < b[4] && b[4] < 52
        && distinct_cards(all) {
        assert forall|i: int| 0 <= i < b.len() implies from.contains(#[trigger] b[i]) by {
            assert(all[3 + i] == b[i]);
            assert(all[3 + i] < 52);
            if hero.contains(b[i]) {
                let j = choose|j: int| 0 <= j < hero.len() && hero[j] == b[i];
                assert(all[j] == all[3 + i]);
            }
        }
        assert(ascending(b));
    }
}

/// The cards of a deal are apart exactly where the opponent's are apart from the rest.
proof fn deal_apart(hero: Seq<u8>, b: Seq<u8>, o: Seq<u8>)
    requires
        o.len() == 3,
        o[0] < o[1] && o[1] < o[2],
    ensures
        (hero + b + o).no_duplicates() <==> (hero + b).no_duplicates() && !(hero + b).contains(o[0])
            && !(hero + b).contains(o[1]) && !(hero + b).contains(o[2]),
{
    let g = hero + b;
    let all = g + o;
    let n = g.len() as int;
    if all.no_duplicates() {
        assert forall|i: int, j: int| 0 <= i < j < g.len() implies g[i] != g[j] by {
            assert(all[i] == g[i] && all[j] == g[j]);
        }
        assert forall|k: int| 0 <= k < 3 implies !g.contains(#[trigger] o[k]) by {
            if g.contains(o[k]) {
                let i = choose|i: int| 0 <= i < g.len() && g[i] == o[k];
                assert(all[i] == all[n + k]);
            }
        }
        assert(!g.contains(o[0]) && !g.contains(o[1]) && !g.contains(o[2]));
    }
    if g.no_duplicates() && !g.contains(o[0]) && !g.contains(o[1]) && !g.contains(o[2]) {
        assert forall|i: int, j: int| 0 <= i < j < all.len() implies all[i] != all[j] by {
            if i < n && j >= n {
                assert(g.contains(all[i]));
                assert(all[j] == o[j - n]);
                assert(j - n == 0 || j - n == 1 || j - n == 2);
            } else if j < n {
                assert(g[i] != g[j]);
            } else {
                assert(all[i] == o[i - n] && all[j] == o[j - n]);
            }
        }
    }
}

proof fn deals_set(hero: Seq<u8>, straight: Seq<i8>, w: Outcome)
    requires
        distinct_cards(hero),
        hero.len() == 3,
    ensures
        Set::new(deal_ends(hero, straight, w)).finite(),
        deals_with(hero, straight, w) == Set::new(deal_ends(hero, straight, w)).len(),
{
    let from = without(hero);
    without_facts(hero);
    assert(Seq::<u8>::empty() + from =~= from);
    let s = |b: Seq<u8>| Set::new(opponent_ends(hero, b, straight, w));
    let f = on_board(hero, straight, w);
    assert forall|b: Seq<u8>| #[trigger] is_draw(b, from, 5, seq![]) implies s(b).finite() && f(b)
        == s(b).len() by {
        board_draws(hero, b);
        opponents_set(hero, b, straight, w);
    }
    draws_pairs(from, 5, seq![], s, f);
    let named = Set::new(deal_ends(hero, straight, w));
    let pairs = drawn_pairs(from, 5, seq![], s);
    assert forall|d: (Seq<u8>, Seq<u8>)| pairs.contains(d) <==> named.contains(d) by {
        board_draws(hero, d.0);
        let g = hero + d.0;
        if pairs.contains(d) {
            assert(s(d.0).contains(d.1));
            deal_apart(hero, d.0, d.1);
        }
        if named.contains(d) {
            deal_apart(hero, d.0, d.1);
            assert forall|i: int| 0 <= i < g.len() implies #[trigger] g[i] < 52 by {
                if i < 3 {
                    assert(hero[i] < 52);
                } else {
                    let k = i - 3;
                    assert(g[i] == d.0[k]);
                    assert(k == 0 || k == 1 || k == 2 || k == 3 || k == 4);
                }
            }
            assert(distinct_cards(g));
            assert(s(d.0).contains(d.1));
        }
    }
    assert(pairs =~= named);
}

/// The count of won, tied and lost deals is the number of pairs of a board and an opponent's hand,
/// each in ascending order and all eleven cards different, in which the hero's eight cards score
/// more than the opponent's, as much, or less.
pub proof fn deals_counted(hero: Seq<u8>, straight: Seq<i8>)
    requires
        distinct_cards(hero),
        hero.len() == 3,
    ensures
        deals_with(hero, straight, Outcome::Win) == Set::new(
            |d: (Seq<u8>, Seq<u8>)|
                d.0.len() == 5 && d.1.len() == 3 && d.0[0] < d.0[1] && d.0[1] < d.0[2] && d.0[2]
                    < d.0[3] && d.0[3] < d.0[4] && d.0[4] < 52 && d.1[0] < d.1[1] && d.1[1]
                    < d.1[2] && d.1[2] < 52 && (hero + d.0 + d.1).no_duplicates() && hand_score(
                    d.0 + hero,
                    straight,
                ) > hand_score(d.0 + d.1, straight),
        ).len(),
        deals_with(hero, straight, Outcome::Tie) == Set::new(
            |d: (Seq<u8>, Seq<u8>)|
                d.0.len() == 5 && d.1.len() == 3 && d.0[0] < d.0[1] && d.0[1] < d.0[2] && d.0[2]
                    < d.0[3] && d.0[3] < d.0[4] && d.0[4] < 52 && d.1[0] < d.1[1] && d.1[1]
                    < d.1[2] && d.1[2] < 52 && (hero + d.0 + d.1).no_duplicates() && hand_score(
                    d.0 + hero,
                    straight,
                ) == hand_score(d.0 + d.1, straight),
        ).len(),
        deals_with(hero, straight, Outcome::Loss) == Set::new(
            |d: (Seq<u8>, Seq<u8>)|
                d.0.len() == 5 && d.1.len() == 3 && d.0[0] < d.0[1] && d.0[1] < d.0[2] && d.0[2]
                    < d.0[3] && d.0[3] < d.0[4] && d.0[4] < 52 && d.1[0] < d.1[1] && d.1[1]
                    < d.1[2] && d.1[2] < 52 && (hero + d.0 + d.1).no_duplicates() && hand_score(
                    d.0 + hero,
                    straight,
                ) < hand_score(d.0 + d.1, straight),
        ).len(),
{
    deals_set(hero, straight, Outcome::Win);
    assert(Set::new(deal_ends(hero, straight, Outcome::Win)) =~= Set::new(
            |d: (Seq<u8>, Seq<u8>)|
                d.0.len() == 5 && d.1.len() == 3 && d.0[0] < d.0[1] && d.0[1] < d.0[2] && d.0[2]
                    < d.0[3] && d.0[3] < d.0[4] && d.0[4] < 52 && d.1[0] < d.1[1] && d.1[1]
                    < d.1[2] && d.1[2] < 52 && (hero + d.0 + d.1).no_duplicates() && hand_score(
                    d.0 + hero,
                    straight,
                ) > hand_score(d.0 + d.1, straight),
        ));
    deals_set(hero, straight, Outcome::Tie);
    assert(Set::new(deal_ends(hero, straight, Outcome::Tie)) =~= Set::new(
            |d: (Seq<u8>, Seq<u8>)|
                d.0.len() == 5 && d.1.len() == 3 && d.0[0] < d.0[1] && d.0[1] < d.0[2] && d.0[2]
                    < d.0[3] && d.0[3] < d.0[4] && d.0[4] < 52 && d.1[0] < d.1[1] && d.1[1]
                    < d.1[2] && d.1[2] < 52 && (hero + d.0 + d.1).no_duplicates() && hand_score(
                    d.0 + hero,
                    straight,
                ) == hand_score(d.0 + d.1, straight),
        ));
    deals_set(hero, straight, Outcome::Loss);
    assert(Set::new(deal_ends(hero, straight, Outcome::Loss)) =~= Set::new(
            |d: (Seq<u8>, Seq<u8>)|
                d.0.len() == 5 && d.1.len() == 3 && d.0[0] < d.0[1] && d.0[1] < d.0[2] && d.0[2]
                    < d.0[3] && d.0[3] < d.0[4] && d.0[4] < 52 && d.1[0] < d.1[1] && d.1[1]
                    < d.1[2] && d.1[2] < 52 && (hero + d.0 + d.1).no_duplicates() && hand_score(
                    d.0 + hero,
                    straight,
                ) < hand_score(d.0 + d.1, straight),
        ));
}

/// A deal is won exactly where some five of the hero's cards score more than any five of the
/// opponent's, lost the other way round, and tied exactly where the best five of both score alike.
pub proof fn deal_by_best_five(hero: Seq<u8>, board: Seq<u8>, opponent: Seq<u8>)
    requires
        distinct_cards(board + hero),
        distinct_cards(board + opponent),
        board.len() == 5,
        hero.len() == 3,
        opponent.len() == 3,
    ensures
        showdown(hero, board, opponent, straight_table()) == Outcome::Win <==> exists|y: Seq<u8>|
            #[trigger] five_of(y, board + hero) && forall|z: Seq<u8>| #[trigger]
                five_of(z, board + opponent) ==> hand_score(y, straight_table()) > hand_score(
                    z,
                    straight_table(),
                ),
        showdown(hero, board, opponent, straight_table()) == Outcome::Loss <==> exists|z: Seq<u8>|
            #[trigger] five_of(z, board + opponent) && forall|y: Seq<u8>| #[trigger]
                five_of(y, board + hero) ==> hand_score(z, straight_table()) > hand_score(
                    y,
                    straight_table(),
                ),
        showdown(hero, board, opponent, straight_table()) == Outcome::Tie <==> hand_score(
            board + hero,
            straight_table(),
        ) == hand_score(board + opponent, straight_table()),
{
    let t = straight_table();
    let (x, w) = (board + hero, board + opponent);
    score_is_best(x);
    score_is_best(w);
    let y0 = choose|y: Seq<u8>| #[trigger] five_of(y, x) && hand_score(y, t) == hand_score(x, t);
    let z0 = choose|z: Seq<u8>| #[trigger] five_of(z, w) && hand_score(z, t) == hand_score(w, t);
    if hand_score(x, t) > hand_score(w, t) {
        assert(five_of(y0, x) && forall|z: Seq<u8>| #[trigger]
            five_of(z, w) ==> hand_score(y0, t) > hand_score(z, t));
    }
    if hand_score(x, t) < hand_score(w, t) {
        assert(five_of(z0, w) && forall|y: Seq<u8>| #[trigger]
            five_of(y, x) ==> hand_score(z0, t) > hand_score(y, t));
    }
}

} // verus!
