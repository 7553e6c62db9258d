//! What a score does not depend on: the order of the cards, and the names of the suits.
use crate::cards::{rank_of, suit_of};
use crate::classes::recolor_fields;
use crate::equity::{hand_score, tally, tally_bounds, tally_push};
use crate::score::flush_suit;
use crate::state::Tally;
use crate::suits::{is_suit_perm, recolor};
use vstd::prelude::*;

verus! {

/// Whether all of `cards` belong to the deck.
pub open spec fn in_deck(cards: Seq<u8>) -> bool {
    forall|i: int| 0 <= i < cards.len() ==> #[trigger] cards[i] < 52
}

/// Two cards may be counted in either order.
proof fn add_commutes(t: Tally, a: u8, b: u8)
    requires
        t.f.len() == 13,
        t.sm.len() == 4,
        t.sc.len() == 4,
        a < 52,
        b < 52,
    ensures
        t.add(a).add(b) == t.add(b).add(a),
{
    let x = 1u16 << (rank_of(a) as u16);
    let y = 1u16 << (rank_of(b) as u16);
    let rm = t.rm;
    assert((rm | x) | y == (rm | y) | x) by (bit_vector);
    let m = t.sm[suit_of(a)];
    assert((m | x) | y == (m | y) | x) by (bit_vector);
    assert(t.add(a).add(b) =~= t.add(b).add(a));
}

/// A card may be counted last.
proof fn tally_move(y: Seq<u8>, i: int)
    requires
        in_deck(y),
        0 <= i < y.len(),
    ensures
        tally(y.remove(i).push(y[i])) == tally(y),
    decreases y.len(),
{
    let l = y.len() - 1;
    if i == l {
        assert(y.remove(i).push(y[i]) =~= y);
    } else {
        let z = y.drop_last();
        let c = y.last();
        assert(in_deck(z));
        tally_move(z, i);
        assert(y.remove(i) =~= z.remove(i).push(c));
        tally_push(z.remove(i), c);
        tally_push(z.remove(i).push(c), y[i]);
        tally_push(z.remove(i), y[i]);
        assert(in_deck(z.remove(i)));
        tally_bounds(z.remove(i));
        assert(c == y[l]);
        add_commutes(tally(z.remove(i)), c, y[i]);
    }
}

/// Hands with the same cards have the same tally.
pub proof fn tally_same(x: Seq<u8>, y: Seq<u8>)
    requires
        in_deck(x),
        in_deck(y),
        x.to_multiset() == y.to_multiset(),
    ensures
        tally(x) == tally(y),
    decreases x.len(),
{
    broadcast use vstd::seq_lib::group_to_multiset_ensures;

    x.to_multiset_ensures();
    y.to_multiset_ensures();
    assert(x.len() == y.len());
    if x.len() > 0 {
        let l = x.len() - 1;
        let c = x.last();
        assert(x.contains(x[l]));
        assert(x.to_multiset().count(c) > 0);
        assert(y.contains(c));
        let i = choose|i: int| 0 <= i < y.len() && y[i] == c;
        assert(x.drop_last() =~= x.remove(l));
        assert(x.remove(l).to_multiset() =~= y.remove(i).to_multiset());
        assert(in_deck(x.drop_last()));
        assert(in_deck(y.remove(i)));
        tally_same(x.drop_last(), y.remove(i));
        tally_move(y, i);
        tally_push(y.remove(i), c);
    }
}

/// The suits of a tally count all of its cards.
pub proof fn suits_add_up(x: Seq<u8>)
    requires
        in_deck(x),
    ensures
        tally(x).sc[0] + tally(x).sc[1] + tally(x).sc[2] + tally(x).sc[3] == x.len(),
    decreases x.len(),
{
    if x.len() > 0 {
        assert(in_deck(x.drop_last()));
        suits_add_up(x.drop_last());
        tally_bounds(x.drop_last());
        assert(0 <= suit_of(x.last()) < 4);
    }
}

/// A renaming of the suits, as a map on cards.
pub open spec fn recoloring(p: Seq<u8>) -> spec_fn(u8) -> u8 {
    |c: u8| recolor(c, p)
}

/// Renaming the suits renames the suits of the tally and changes nothing else.
pub proof fn tally_recolored(x: Seq<u8>, p: Seq<u8>)
    requires
        in_deck(x),
        is_suit_perm(p),
    ensures
        in_deck(x.map_values(recoloring(p))),
        tally(x.map_values(recoloring(p))).f == tally(x).f,
        tally(x.map_values(recoloring(p))).rm == tally(x).rm,
        forall|s: int|
            0 <= s < 4 ==> tally(x.map_values(recoloring(p))).sm[p[s] as int] == #[trigger] tally(
                x,
            ).sm[s],
        forall|s: int|
            0 <= s < 4 ==> tally(x.map_values(recoloring(p))).sc[p[s] as int] == #[trigger] tally(
                x,
            ).sc[s],
    decreases x.len(),
{
    let m = recoloring(p);
    let y = x.map_values(m);
    assert forall|i: int| 0 <= i < y.len() implies #[trigger] y[i] < 52 by {
        recolor_fields(x[i], p);
    }
    if x.len() > 0 {
        let w = x.drop_last();
        let c = x.last();
        assert(in_deck(w));
        tally_recolored(w, p);
        assert(y.drop_last() =~= w.map_values(m));
        assert(y.last() == recolor(c, p));
        recolor_fields(c, p);
        assert(c == x[x.len() - 1]);
        tally_bounds(w);
        tally_bounds(y.drop_last());
        assert(0 <= suit_of(c) < 4);
        let t = tally(w);
        let u = tally(y.drop_last());
        assert(u.sm[p[suit_of(c)] as int] == t.sm[suit_of(c)]);
        assert(u.sc[p[suit_of(c)] as int] == t.sc[suit_of(c)]);
        assert forall|s: int| 0 <= s < 4 implies tally(y).sm[p[s] as int] == #[trigger] tally(
            x,
        ).sm[s] by {
            assert(u.sm[p[s] as int] == t.sm[s]);
            assert(p[s] == p[suit_of(c)] <==> s == suit_of(c));
        }
        assert forall|s: int| 0 <= s < 4 implies tally(y).sc[p[s] as int] == #[trigger] tally(
            x,
        ).sc[s] by {
            assert(u.sc[p[s] as int] == t.sc[s]);
            assert(p[s] == p[suit_of(c)] <==> s == suit_of(c));
        }
    } else {
        assert(y =~= x);
        assert(p[0] < 4 && p[1] < 4 && p[2] < 4 && p[3] < 4);
    }
}

/// The score of up to eight cards does not depend on the names of the suits.
pub proof fn score_recolored(x: Seq<u8>, p: Seq<u8>, straight: Seq<i8>)
    requires
        in_deck(x),
        x.len() <= 8,
        is_suit_perm(p),
    ensures
        hand_score(x.map_values(recoloring(p)), straight) == hand_score(x, straight),
{
    let y = x.map_values(recoloring(p));
    tally_recolored(x, p);
    suits_add_up(x);
    suits_add_up(y);
    tally_bounds(x);
    tally_bounds(y);
    let t = tally(x);
    let u = tally(y);
    assert(u.sc[p[0] as int] == t.sc[0]);
    assert(u.sc[p[1] as int] == t.sc[1]);
    assert(u.sc[p[2] as int] == t.sc[2]);
    assert(u.sc[p[3] as int] == t.sc[3]);
    let s = flush_suit(t.sc);
    if s < 4 {
        assert(u.sc[p[s] as int] >= 5);
        assert(flush_suit(u.sc) == p[s]);
        assert(u.sm[p[s] as int] == t.sm[s]);
    } else {
        assert(flush_suit(u.sc) == 4);
    }
}

/// The score does not depend on the order of the cards.
pub proof fn score_reordered(x: Seq<u8>, y: Seq<u8>, straight: Seq<i8>)
    requires
        in_deck(x),
        in_deck(y),
        x.to_multiset() == y.to_multiset(),
    ensures
        hand_score(x, straight) == hand_score(y, straight),
{
    tally_same(x, y);
}

} // verus!
