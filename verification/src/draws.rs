//! Sums over all ways to draw some cards.
use vstd::prelude::*;

verus! {

/// Whether every card is followed by higher ones only.
pub open spec fn ascending(s: Seq<u8>) -> bool {
    forall|i: int, j: int| 0 <= i < j < s.len() ==> s[i] < s[j]
}

/// The sum of `f` over every hand made of the cards `drawn` and `k` more cards of `from`, which
/// follow in the order in which they stand there.
pub open spec fn over_draws(
    from: Seq<u8>,
    k: nat,
    drawn: Seq<u8>,
    f: spec_fn(Seq<u8>) -> int,
) -> int
    decreases from.len(),
{
    if k == 0 {
        f(drawn)
    } else if from.len() == 0 {
        0
    } else {
        over_draws(from.drop_first(), (k - 1) as nat, drawn.push(from[0]), f) + over_draws(
            from.drop_first(),
            k,
            drawn,
            f,
        )
    }
}

/// The number of ways to choose `k` of `n` things.
pub open spec fn binom(n: nat, k: nat) -> nat
    decreases n,
{
    if k == 0 {
        1
    } else if n == 0 {
        0
    } else {
        binom((n - 1) as nat, (k - 1) as nat) + binom((n - 1) as nat, k)
    }
}

/// More things leave no fewer choices.
pub proof fn binom_grows(n: nat, m: nat, k: nat)
    requires
        n <= m,
    ensures
        binom(n, k) <= binom(m, k),
    decreases m,
{
    if n < m && k > 0 {
        binom_grows(n, (m - 1) as nat, k);
    }
}

/// The coefficients for up to five cards in closed form.
pub proof fn binom_closed(n: nat)
    ensures
        binom(n, 0) == 1,
        binom(n, 1) == n,
        2 * binom(n, 2) == n * (n - 1),
        6 * binom(n, 3) == n * (n - 1) * (n - 2),
        24 * binom(n, 4) == n * (n - 1) * (n - 2) * (n - 3),
        120 * binom(n, 5) == n * (n - 1) * (n - 2) * (n - 3) * (n - 4),
    decreases n,
{
    if n > 0 {
        let m = (n - 1) as nat;
        binom_closed(m);
        assert(binom(n, 1) == binom(m, 0) + binom(m, 1));
        assert(binom(n, 2) == binom(m, 1) + binom(m, 2));
        assert(binom(n, 3) == binom(m, 2) + binom(m, 3));
        assert(binom(n, 4) == binom(m, 3) + binom(m, 4));
        assert(binom(n, 5) == binom(m, 4) + binom(m, 5));
        assert(2 * m + m * (m - 1) == n * (n - 1)) by (nonlinear_arith)
            requires
                n == m + 1,
        ;
        assert(3 * (m * (m - 1)) + m * (m - 1) * (m - 2) == n * (n - 1) * (n - 2))
            by (nonlinear_arith)
            requires
                n == m + 1,
        ;
        assert(4 * (m * (m - 1) * (m - 2)) + m * (m - 1) * (m - 2) * (m - 3) == n * (n - 1) * (n
            - 2) * (n - 3)) by (nonlinear_arith)
            requires
                n == m + 1,
        ;
        assert(5 * (m * (m - 1) * (m - 2) * (m - 3)) + m * (m - 1) * (m - 2) * (m - 3) * (m - 4)
            == n * (n - 1) * (n - 2) * (n - 3) * (n - 4)) by (nonlinear_arith)
            requires
                n == m + 1,
        ;
    } else {
        assert(0 * (0 - 1) * (0 - 2) * (0 - 3) * (0 - 4) == 0) by (nonlinear_arith);
        assert(0 * (0 - 1) * (0 - 2) * (0 - 3) == 0) by (nonlinear_arith);
        assert(0 * (0 - 1) * (0 - 2) == 0) by (nonlinear_arith);
        assert(0 * (0 - 1) == 0) by (nonlinear_arith);
    }
}

/// Whether `x` is `drawn` followed by `k` cards of `from`, in ascending order.
pub open spec fn is_draw(x: Seq<u8>, from: Seq<u8>, k: nat, drawn: Seq<u8>) -> bool {
    &&& x.len() == drawn.len() + k
    &&& ascending(x)
    &&& x.take(drawn.len() as int) == drawn
    &&& forall|i: int| drawn.len() <= i < x.len() ==> from.contains(#[trigger] x[i])
}

/// Functions that agree on every draw have the same sum.
pub proof fn draws_agree(
    from: Seq<u8>,
    k: nat,
    drawn: Seq<u8>,
    f: spec_fn(Seq<u8>) -> int,
    g: spec_fn(Seq<u8>) -> int,
)
    requires
        ascending(drawn + from),
        forall|x: Seq<u8>| #[trigger] is_draw(x, from, k, drawn) ==> f(x) == g(x),
    ensures
        over_draws(from, k, drawn, f) == over_draws(from, k, drawn, g),
    decreases from.len(),
{
    assert forall|i: int, j: int| 0 <= i < j < drawn.len() implies drawn[i] < drawn[j] by {
        assert((drawn + from)[i] == drawn[i]);
        assert((drawn + from)[j] == drawn[j]);
    }
    if k == 0 {
        assert(drawn.take(drawn.len() as int) =~= drawn);
        assert(is_draw(drawn, from, 0, drawn));
    } else if from.len() > 0 {
        let h = from[0];
        let tail = from.drop_first();
        let taken = drawn.push(h);
        assert(taken + tail =~= drawn + from);
        assert forall|i: int, j: int| 0 <= i < j < (drawn + tail).len() implies (drawn + tail)[i]
            < (drawn + tail)[j] by {
            let a = if i < drawn.len() {
                i
            } else {
                i + 1
            };
            let b = if j < drawn.len() {
                j
            } else {
                j + 1
            };
            assert((drawn + from)[a] < (drawn + from)[b]);
        }
        assert forall|x: Seq<u8>| #[trigger]
            is_draw(x, tail, (k - 1) as nat, taken) implies f(x) == g(x) by {
            assert(x.take(drawn.len() as int) =~= taken.take(drawn.len() as int));
            assert(taken.take(drawn.len() as int) =~= drawn);
            assert(x[drawn.len() as int] == x.take(taken.len() as int)[drawn.len() as int]);
            assert forall|i: int| drawn.len() <= i < x.len() implies from.contains(
                #[trigger] x[i],
            ) by {
                if i == drawn.len() {
                    assert(from[0] == x[i]);
                } else {
                    let j = choose|j: int| 0 <= j < tail.len() && tail[j] == x[i];
                    assert(from[j + 1] == x[i]);
                }
            }
            assert(is_draw(x, from, k, drawn));
        }
        draws_agree(tail, (k - 1) as nat, taken, f, g);
        assert forall|x: Seq<u8>| #[trigger] is_draw(x, tail, k, drawn) implies f(x) == g(x) by {
            assert forall|i: int| drawn.len() <= i < x.len() implies from.contains(
                #[trigger] x[i],
            ) by {
                let j = choose|j: int| 0 <= j < tail.len() && tail[j] == x[i];
                assert(from[j + 1] == x[i]);
            }
            assert(is_draw(x, from, k, drawn));
        }
        draws_agree(tail, k, drawn, f, g);
    }
}

/// Functions that agree everywhere have the same sum.
pub proof fn draws_same(
    from: Seq<u8>,
    k: nat,
    drawn: Seq<u8>,
    f: spec_fn(Seq<u8>) -> int,
    g: spec_fn(Seq<u8>) -> int,
)
    requires
        forall|x: Seq<u8>| #[trigger] f(x) == g(x),
    ensures
        over_draws(from, k, drawn, f) == over_draws(from, k, drawn, g),
    decreases from.len(),
{
    if k > 0 && from.len() > 0 {
        draws_same(from.drop_first(), (k - 1) as nat, drawn.push(from[0]), f, g);
        draws_same(from.drop_first(), k, drawn, f, g);
    }
}

/// The sum of a sum of two functions, and of a multiple of one.
pub proof fn draws_linear(
    from: Seq<u8>,
    k: nat,
    drawn: Seq<u8>,
    a: int,
    f: spec_fn(Seq<u8>) -> int,
    g: spec_fn(Seq<u8>) -> int,
    h: spec_fn(Seq<u8>) -> int,
)
    requires
        forall|x: Seq<u8>| #[trigger] h(x) == a * f(x) + g(x),
    ensures
        over_draws(from, k, drawn, h) == a * over_draws(from, k, drawn, f) + over_draws(
            from,
            k,
            drawn,
            g,
        ),
    decreases from.len(),
{
    if k == 0 {
        assert(h(drawn) == a * f(drawn) + g(drawn));
    } else if from.len() > 0 {
        draws_linear(from.drop_first(), (k - 1) as nat, drawn.push(from[0]), a, f, g, h);
        draws_linear(from.drop_first(), k, drawn, a, f, g, h);
        let f1 = over_draws(from.drop_first(), (k - 1) as nat, drawn.push(from[0]), f);
        let f2 = over_draws(from.drop_first(), k, drawn, f);
        assert(a * (f1 + f2) == a * f1 + a * f2) by (nonlinear_arith);
    } else {
        assert(a * 0 == 0) by (nonlinear_arith);
    }
}

/// A function that is nowhere greater has no greater sum.
pub proof fn draws_le(
    from: Seq<u8>,
    k: nat,
    drawn: Seq<u8>,
    f: spec_fn(Seq<u8>) -> int,
    g: spec_fn(Seq<u8>) -> int,
)
    requires
        forall|x: Seq<u8>| #[trigger] f(x) <= g(x),
    ensures
        over_draws(from, k, drawn, f) <= over_draws(from, k, drawn, g),
    decreases from.len(),
{
    if k > 0 && from.len() > 0 {
        draws_le(from.drop_first(), (k - 1) as nat, drawn.push(from[0]), f, g);
        draws_le(from.drop_first(), k, drawn, f, g);
    } else {
        assert(f(drawn) <= g(drawn));
    }
}

/// A function that is zero everywhere sums to zero.
pub proof fn draws_zero(from: Seq<u8>, k: nat, drawn: Seq<u8>, f: spec_fn(Seq<u8>) -> int)
    requires
        forall|x: Seq<u8>| #[trigger] f(x) == 0,
    ensures
        over_draws(from, k, drawn, f) == 0,
    decreases from.len(),
{
    if k > 0 && from.len() > 0 {
        draws_zero(from.drop_first(), (k - 1) as nat, drawn.push(from[0]), f);
        draws_zero(from.drop_first(), k, drawn, f);
    }
}

/// How many draws there are: a function that is one everywhere sums to a binomial coefficient.
pub proof fn draws_count(from: Seq<u8>, k: nat, drawn: Seq<u8>, f: spec_fn(Seq<u8>) -> int)
    requires
        forall|x: Seq<u8>| #[trigger] f(x) == 1,
    ensures
        over_draws(from, k, drawn, f) == binom(from.len(), k),
    decreases from.len(),
{
    if k > 0 && from.len() > 0 {
        draws_count(from.drop_first(), (k - 1) as nat, drawn.push(from[0]), f);
        draws_count(from.drop_first(), k, drawn, f);
    }
}

/// Two draws from separate piles may be summed in either order.
pub proof fn draws_swap(
    from: Seq<u8>,
    k: nat,
    drawn: Seq<u8>,
    from2: Seq<u8>,
    k2: nat,
    drawn2: Seq<u8>,
    g: spec_fn(Seq<u8>, Seq<u8>) -> int,
)
    ensures
        over_draws(
            from,
            k,
            drawn,
            |x: Seq<u8>| over_draws(from2, k2, drawn2, |y: Seq<u8>| g(x, y)),
        ) == over_draws(
            from2,
            k2,
            drawn2,
            |y: Seq<u8>| over_draws(from, k, drawn, |x: Seq<u8>| g(x, y)),
        ),
    decreases from.len(),
{
    let outer = |x: Seq<u8>| over_draws(from2, k2, drawn2, |y: Seq<u8>| g(x, y));
    let inner = |y: Seq<u8>| over_draws(from, k, drawn, |x: Seq<u8>| g(x, y));
    if k == 0 {
        draws_same(from2, k2, drawn2, |y: Seq<u8>| g(drawn, y), inner);
    } else if from.len() == 0 {
        draws_zero(from2, k2, drawn2, inner);
    } else {
        let tail = from.drop_first();
        let taken = drawn.push(from[0]);
        draws_swap(tail, (k - 1) as nat, taken, from2, k2, drawn2, g);
        draws_swap(tail, k, drawn, from2, k2, drawn2, g);
        let left = |y: Seq<u8>| over_draws(tail, (k - 1) as nat, taken, |x: Seq<u8>| g(x, y));
        let right = |y: Seq<u8>| over_draws(tail, k, drawn, |x: Seq<u8>| g(x, y));
        draws_linear(from2, k2, drawn2, 1, left, right, inner);
    }
}

/// Whether `f` looks only at which cards a hand holds, not at their order.
pub open spec fn ignores_order(f: spec_fn(Seq<u8>) -> int) -> bool {
    forall|x: Seq<u8>, y: Seq<u8>|
        x.to_multiset() == y.to_multiset() ==> #[trigger] f(x) == #[trigger] f(y)
}

proof fn drawn_order(from: Seq<u8>, k: nat, d1: Seq<u8>, d2: Seq<u8>, f: spec_fn(Seq<u8>) -> int)
    requires
        ignores_order(f),
        d1.to_multiset() == d2.to_multiset(),
    ensures
        over_draws(from, k, d1, f) == over_draws(from, k, d2, f),
    decreases from.len(),
{
    broadcast use vstd::seq_lib::group_to_multiset_ensures;

    if k > 0 && from.len() > 0 {
        drawn_order(from.drop_first(), (k - 1) as nat, d1.push(from[0]), d2.push(from[0]), f);
        drawn_order(from.drop_first(), k, d1, d2, f);
    }
}

/// One more unfolding of the sum, from a pile given as its first card and the rest.
proof fn draws_cons(c: u8, rest: Seq<u8>, k: nat, drawn: Seq<u8>, f: spec_fn(Seq<u8>) -> int)
    requires
        k > 0,
    ensures
        over_draws(seq![c] + rest, k, drawn, f) == over_draws(
            rest,
            (k - 1) as nat,
            drawn.push(c),
            f,
        ) + over_draws(rest, k, drawn, f),
{
    assert((seq![c] + rest).drop_first() =~= rest);
}

/// A card of the pile may be moved to its top.
proof fn draws_front(from: Seq<u8>, i: int, k: nat, drawn: Seq<u8>, f: spec_fn(Seq<u8>) -> int)
    requires
        ignores_order(f),
        0 <= i < from.len(),
    ensures
        over_draws(seq![from[i]] + from.remove(i), k, drawn, f) == over_draws(from, k, drawn, f),
    decreases i,
{
    broadcast use vstd::seq_lib::group_to_multiset_ensures;

    if i == 0 {
        assert(seq![from[0]] + from.remove(0) =~= from);
    } else if k > 0 {
        let x = from[i];
        let y = from[0];
        let t = from.drop_first();
        let rest = t.remove(i - 1);
        assert(t[i - 1] == x);
        assert(seq![x] + from.remove(i) =~= seq![x] + (seq![y] + rest));
        draws_front(t, i - 1, (k - 1) as nat, drawn.push(y), f);
        draws_front(t, i - 1, k, drawn, f);
        draws_cons(x, rest, k, drawn, f);
        draws_cons(x, seq![y] + rest, k, drawn, f);
        draws_cons(y, rest, k, drawn, f);
        if k >= 2 {
            draws_cons(x, rest, (k - 1) as nat, drawn.push(y), f);
            draws_cons(y, rest, (k - 1) as nat, drawn.push(x), f);
            assert(drawn.push(y).push(x).to_multiset() =~= drawn.push(x).push(y).to_multiset());
            drawn_order(rest, (k - 2) as nat, drawn.push(y).push(x), drawn.push(x).push(y), f);
        }
    }
}

/// The order of the pile does not matter to a function that ignores order.
pub proof fn draws_shuffle(
    from: Seq<u8>,
    from2: Seq<u8>,
    k: nat,
    drawn: Seq<u8>,
    f: spec_fn(Seq<u8>) -> int,
)
    requires
        ignores_order(f),
        from.to_multiset() == from2.to_multiset(),
    ensures
        over_draws(from, k, drawn, f) == over_draws(from2, k, drawn, f),
    decreases from.len(),
{
    broadcast use vstd::seq_lib::group_to_multiset_ensures;

    from.to_multiset_ensures();
    from2.to_multiset_ensures();
    assert(from.len() == from2.len());
    if k > 0 && from.len() > 0 {
        let c = from[0];
        assert(from.to_multiset().count(c) > 0);
        assert(from2.contains(c));
        let i = choose|i: int| 0 <= i < from2.len() && from2[i] == c;
        let rest = from.drop_first();
        let rest2 = from2.remove(i);
        assert(rest =~= from.remove(0));
        assert(rest.to_multiset() =~= rest2.to_multiset());
        draws_front(from2, i, k, drawn, f);
        draws_cons(c, rest2, k, drawn, f);
        draws_shuffle(rest, rest2, (k - 1) as nat, drawn.push(c), f);
        draws_shuffle(rest, rest2, k, drawn, f);
    }
}

/// Recolouring the pile is recolouring every hand drawn from it.
pub proof fn draws_map(
    from: Seq<u8>,
    k: nat,
    drawn: Seq<u8>,
    m: spec_fn(u8) -> u8,
    f: spec_fn(Seq<u8>) -> int,
    g: spec_fn(Seq<u8>) -> int,
)
    requires
        forall|x: Seq<u8>| #[trigger] g(x) == f(x.map_values(m)),
    ensures
        over_draws(from.map_values(m), k, drawn.map_values(m), f) == over_draws(from, k, drawn, g),
    decreases from.len(),
{
    if k == 0 {
        assert(g(drawn) == f(drawn.map_values(m)));
    } else if from.len() > 0 {
        draws_map(from.drop_first(), (k - 1) as nat, drawn.push(from[0]), m, f, g);
        draws_map(from.drop_first(), k, drawn, m, f, g);
        assert(from.map_values(m).drop_first() =~= from.drop_first().map_values(m));
        assert(drawn.map_values(m).push(m(from[0])) =~= drawn.push(from[0]).map_values(m));
    }
}

/// Cards that no counted hand may hold can be left out of the pile.
pub proof fn draws_filter(
    from: Seq<u8>,
    k: nat,
    drawn: Seq<u8>,
    keep: spec_fn(u8) -> bool,
    f: spec_fn(Seq<u8>) -> int,
)
    requires
        forall|x: Seq<u8>, i: int| 0 <= i < x.len() && !keep(#[trigger] x[i]) ==> f(x) == 0,
    ensures
        over_draws(from.filter(keep), k, drawn, f) == over_draws(from, k, drawn, f),
    decreases from.len(),
{
    if k > 0 && from.len() > 0 {
        let tail = from.drop_first();
        filter_cons(from, keep);
        draws_filter(tail, (k - 1) as nat, drawn.push(from[0]), keep, f);
        draws_filter(tail, k, drawn, keep, f);
        if keep(from[0]) {
            draws_cons(from[0], tail.filter(keep), k, drawn, f);
        } else {
            draws_excluded(tail, (k - 1) as nat, drawn.push(from[0]), drawn.len() as int, keep, f);
        }
    } else if from.len() == 0 {
        assert(from.filter(keep) =~= from) by {
            reveal(Seq::filter);
        }
    }
}

/// A hand that already holds an excluded card counts nothing.
proof fn draws_excluded(
    from: Seq<u8>,
    k: nat,
    drawn: Seq<u8>,
    i: int,
    keep: spec_fn(u8) -> bool,
    f: spec_fn(Seq<u8>) -> int,
)
    requires
        0 <= i < drawn.len(),
        !keep(drawn[i]),
        forall|x: Seq<u8>, i: int| 0 <= i < x.len() && !keep(#[trigger] x[i]) ==> f(x) == 0,
    ensures
        over_draws(from, k, drawn, f) == 0,
    decreases from.len(),
{
    if k > 0 && from.len() > 0 {
        draws_excluded(from.drop_first(), (k - 1) as nat, drawn.push(from[0]), i, keep, f);
        draws_excluded(from.drop_first(), k, drawn, i, keep, f);
    }
}

/// Filtering a pile from its top.
pub proof fn filter_cons(from: Seq<u8>, keep: spec_fn(u8) -> bool)
    requires
        from.len() > 0,
    ensures
        from.filter(keep) == (if keep(from[0]) {
            seq![from[0]] + from.drop_first().filter(keep)
        } else {
            from.drop_first().filter(keep)
        }),
{
    let head = seq![from[0]];
    assert(from =~= head + from.drop_first());
    Seq::filter_distributes_over_add(head, from.drop_first(), keep);
    assert(head.drop_last() =~= seq![]);
    reveal_with_fuel(Seq::filter, 2);
    assert(head.filter(keep) =~= (if keep(from[0]) {
        head
    } else {
        seq![]
    }));
    assert(from.filter(keep) =~= head.filter(keep) + from.drop_first().filter(keep));
}

} // verus!
