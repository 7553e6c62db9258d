//! Equity of a starting hand against one random opponent, by counting every deal.
use crate::cards::{rank_of, suit_of};
use crate::draws::{ascending, binom, binom_closed, binom_grows, filter_cons, over_draws};
use crate::score::{score, score_of};
use crate::state::{mask_insert, St, Tally};
use vstd::prelude::*;

verus! {

/// The 52 cards, in order.
pub open spec fn deck() -> Seq<u8> {
    Seq::new(52, |i: int| i as u8)
}

/// Says of a card whether it is not among `gone`.
pub open spec fn not_in(gone: Seq<u8>) -> spec_fn(u8) -> bool {
    |c: u8| !gone.contains(c)
}

/// The cards left in the deck once `gone` are out of it, in order.
pub open spec fn without(gone: Seq<u8>) -> Seq<u8> {
    deck().filter(not_in(gone))
}

/// Whether `cards` are different cards of the deck.
pub open spec fn distinct_cards(cards: Seq<u8>) -> bool {
    &&& cards.no_duplicates()
    &&& forall|i: int| 0 <= i < cards.len() ==> #[trigger] cards[i] < 52
}

/// Cards are different cards of the deck exactly where each is one of the 52 and no two places
/// hold the same.
pub proof fn distinct_means(cards: Seq<u8>)
    ensures
        distinct_cards(cards) <==> (forall|i: int|
            0 <= i < cards.len() ==> (#[trigger] cards[i]) as int / 4 < 13) && (forall|i: int, j: int|
            0 <= i < j < cards.len() ==> #[trigger] cards[i] != #[trigger] cards[j]),
{
    if forall|i: int| 0 <= i < cards.len() ==> (#[trigger] cards[i]) as int / 4 < 13 {
        assert forall|i: int| 0 <= i < cards.len() implies #[trigger] cards[i] < 52 by {
            assert(cards[i] as int / 4 < 13);
        }
    }
}

/// The tally of some cards.
pub open spec fn tally(cards: Seq<u8>) -> Tally
    decreases cards.len(),
{
    if cards.len() == 0 {
        Tally::empty()
    } else {
        tally(cards.drop_last()).add(cards.last())
    }
}

/// The score of some cards.
pub open spec fn hand_score(cards: Seq<u8>, straight: Seq<i8>) -> int {
    score_of(tally(cards), straight)
}

/// How a showdown ends for the hero.
pub enum Outcome {
    /// The hero's score is higher.
    Win,
    /// The scores are equal.
    Tie,
    /// The opponent's score is higher.
    Loss,
}

/// The end of a showdown in which both hands share the board.
pub open spec fn showdown(
    hero: Seq<u8>,
    board: Seq<u8>,
    opponent: Seq<u8>,
    straight: Seq<i8>,
) -> Outcome {
    let hv = hand_score(board + hero, straight);
    let ov = hand_score(board + opponent, straight);
    if hv > ov {
        Outcome::Win
    } else if hv == ov {
        Outcome::Tie
    } else {
        Outcome::Loss
    }
}

/// Counts an opponent's hand as one where the showdown ends with `w`, and as nothing elsewhere.
pub open spec fn ends_with(
    hero: Seq<u8>,
    board: Seq<u8>,
    straight: Seq<i8>,
    w: Outcome,
) -> spec_fn(Seq<u8>) -> int {
    |opponent: Seq<u8>|
        if showdown(hero, board, opponent, straight) == w {
            1int
        } else {
            0int
        }
}

/// The number of opponent's hands against which the hero, on this board, ends with `w`.
pub open spec fn opponents_with(
    hero: Seq<u8>,
    board: Seq<u8>,
    straight: Seq<i8>,
    w: Outcome,
) -> int {
    over_draws(without(hero + board), 3, seq![], ends_with(hero, board, straight, w))
}

/// Counts for a board the opponent's hands against which the hero ends with `w`.
pub open spec fn on_board(hero: Seq<u8>, straight: Seq<i8>, w: Outcome) -> spec_fn(
    Seq<u8>,
) -> int {
    |board: Seq<u8>| opponents_with(hero, board, straight, w)
}

/// The number of deals, a board and an opponent's hand each, that end with `w` for the hero.
pub open spec fn deals_with(hero: Seq<u8>, straight: Seq<i8>, w: Outcome) -> int {
    over_draws(without(hero), 5, seq![], on_board(hero, straight, w))
}

/// How many deals were won, tied, and looked at in all.
#[derive(Clone, Copy, PartialEq, Eq, Debug)]
pub struct Counts {
    /// Deals the hero wins.
    pub win: u64,
    /// Deals the hero splits.
    pub tie: u64,
    /// All deals.
    pub tot: u64,
}

/// Filtering keeps cards in ascending order, keeps no others, and loses none.
pub proof fn filter_ascending(s: Seq<u8>, keep: spec_fn(u8) -> bool)
    requires
        ascending(s),
    ensures
        ascending(s.filter(keep)),
        forall|c: u8| #[trigger] s.filter(keep).contains(c) <==> s.contains(c) && keep(c),
    decreases s.len(),
{
    if s.len() == 0 {
        reveal(Seq::filter);
    } else {
        let tail = s.drop_first();
        filter_cons(s, keep);
        filter_ascending(tail, keep);
        let all = s.filter(keep);
        let rest = tail.filter(keep);
        assert forall|c: u8| s.contains(c) <==> c == s[0] || tail.contains(c) by {
            if s.contains(c) {
                let i = choose|i: int| 0 <= i < s.len() && s[i] == c;
                if i > 0 {
                    assert(tail[i - 1] == c);
                }
            }
            if tail.contains(c) {
                let i = choose|i: int| 0 <= i < tail.len() && tail[i] == c;
                assert(s[i + 1] == c);
            }
        }
        if keep(s[0]) {
            assert(all =~= seq![s[0]] + rest);
            assert forall|c: u8| all.contains(c) <==> c == s[0] || rest.contains(c) by {
                if all.contains(c) {
                    let i = choose|i: int| 0 <= i < all.len() && all[i] == c;
                    if i > 0 {
                        assert(rest[i - 1] == c);
                    }
                }
                if rest.contains(c) {
                    let i = choose|i: int| 0 <= i < rest.len() && rest[i] == c;
                    assert(all[i + 1] == c);
                }
                if c == s[0] {
                    assert(all[0] == c);
                }
            }
            assert forall|i: int, j: int| 0 <= i < j < all.len() implies all[i] < all[j] by {
                if i == 0 {
                    assert(rest.contains(rest[j - 1]));
                    assert(tail.contains(all[j]));
                    let x = choose|x: int| 0 <= x < tail.len() && tail[x] == all[j];
                    assert(s[0] < s[x + 1]);
                }
            }
        }
    }
}

/// What is left of the deck: ascending, all of it outside `gone`, and of the right size.
pub proof fn without_facts(gone: Seq<u8>)
    requires
        distinct_cards(gone),
    ensures
        ascending(without(gone)),
        forall|c: u8| #[trigger] without(gone).contains(c) <==> c < 52 && !gone.contains(c),
        without(gone).len() == 52 - gone.len(),
        distinct_cards(without(gone)),
{
    let d = deck();
    let keep = not_in(gone);
    let left = without(gone);
    assert forall|c: u8| #[trigger] d.contains(c) <==> c < 52 by {
        if c < 52 {
            assert(d[c as int] == c);
        }
    }
    filter_ascending(d, keep);
    assert forall|i: int| 0 <= i < left.len() implies #[trigger] left[i] < 52 by {
        assert(left.contains(left[i]));
    }
    assert(left.to_set() =~= d.to_set().difference(gone.to_set()));
    left.unique_seq_to_set();
    d.unique_seq_to_set();
    gone.unique_seq_to_set();
    assert(gone.to_set().subset_of(d.to_set())) by {
        assert forall|c: u8| gone.to_set().contains(c) implies d.to_set().contains(c) by {
            let i = choose|i: int| 0 <= i < gone.len() && gone[i] == c;
            assert(gone[i] < 52);
            assert(d.contains(c));
        }
    }
    assert(d.to_set().intersect(gone.to_set()) =~= gone.to_set());
    vstd::set_lib::lemma_set_difference_len(d.to_set(), gone.to_set());
}

/// The shape of a tally, and bounds on what it counts.
pub proof fn tally_bounds(cards: Seq<u8>)
    requires
        forall|i: int| 0 <= i < cards.len() ==> #[trigger] cards[i] < 52,
    ensures
        tally(cards).f.len() == 13,
        tally(cards).sm.len() == 4,
        tally(cards).sc.len() == 4,
        forall|r: int| 0 <= r < 13 ==> 0 <= #[trigger] tally(cards).f[r] <= cards.len(),
        forall|s: int| 0 <= s < 4 ==> 0 <= #[trigger] tally(cards).sc[s] <= cards.len(),
        forall|s: int| 0 <= s < 4 ==> #[trigger] tally(cards).sm[s] < 8192,
        tally(cards).rm < 8192,
    decreases cards.len(),
{
    if cards.len() > 0 {
        tally_bounds(cards.drop_last());
        let c = cards.last();
        assert(c < 52);
        mask_insert(tally(cards.drop_last()).rm, rank_of(c) as u16);
        mask_insert(tally(cards.drop_last()).sm[suit_of(c)], rank_of(c) as u16);
    }
}

/// The tally of one more card.
pub proof fn tally_push(cards: Seq<u8>, c: u8)
    ensures
        tally(cards.push(c)) == tally(cards).add(c),
{
    assert(cards.push(c).drop_last() =~= cards);
}

/// Whether `card` is among `cards`.
fn holds(cards: &[u8], card: u8) -> (b: bool)
    ensures
        b == cards@.contains(card),
{
    let mut i: usize = 0;
    while i < cards.len()
        invariant
            i <= cards@.len(),
            forall|j: int| 0 <= j < i ==> cards@[j] != card,
        decreases cards@.len() - i,
    {
        if cards[i] == card {
            return true;
        }
        i = i + 1;
    }
    false
}

/// The cards left in the deck once `gone` are out of it.
fn remaining(gone: &[u8]) -> (left: Vec<u8>)
    ensures
        left@ == without(gone@),
{
    let mut left: Vec<u8> = Vec::new();
    let mut c: u8 = 0;
    let ghost keep = not_in(gone@);
    assert(deck().take(0).filter(keep) =~= seq![]) by {
        reveal(Seq::filter);
    }
    while c < 52
        invariant
            c <= 52,
            keep == not_in(gone@),
            left@ == deck().take(c as int).filter(keep),
        decreases 52 - c,
    {
        proof {
            let longer = deck().take(c + 1);
            assert(longer.drop_last() =~= deck().take(c as int));
            reveal(Seq::filter);
        }
        if !holds(gone, c) {
            left.push(c);
        }
        c = c + 1;
    }
    assert(deck().take(52) =~= deck());
    left
}

/// Whether a state holds the tally of some cards of the deck, eight at most.
spec fn has_room(st: St, cards: Seq<u8>) -> bool {
    &&& st@ == tally(cards)
    &&& forall|i: int| 0 <= i < cards.len() ==> #[trigger] cards[i] < 52
    &&& cards.len() <= 8
}

/// Counts one more card of a hand.
fn deal(st: &mut St, c: u8, Ghost(cards): Ghost<Seq<u8>>)
    requires
        has_room(*old(st), cards),
        cards.len() < 8,
        c < 52,
    ensures
        has_room(*final(st), cards.push(c)),
{
    proof {
        tally_bounds(cards);
        tally_push(cards, c);
    }
    st.add(c);
}

/// Scores the cards of a hand with a table of every straight.
fn hand_value(st: &St, straight: &[i8], Ghost(cards): Ghost<Seq<u8>>) -> (v: i32)
    requires
        has_room(*st, cards),
        straight@.len() >= 8192,
    ensures
        v == hand_score(cards, straight@),
{
    proof {
        tally_bounds(cards);
    }
    score(st, straight)
}

/// Counts the opponent's hands that hold the cards drawn so far and `left` more of
/// `pool[from..]`.
fn count_opponents(
    pool: &Vec<u8>,
    from: usize,
    left: usize,
    st: St,
    hv: i32,
    straight: &[i8],
    Ghost(hero): Ghost<Seq<u8>>,
    Ghost(board): Ghost<Seq<u8>>,
    Ghost(drawn): Ghost<Seq<u8>>,
) -> (n: Counts)
    requires
        from <= pool@.len() <= 44,
        forall|i: int| 0 <= i < pool@.len() ==> #[trigger] pool@[i] < 52,
        board.len() == 5,
        drawn.len() + left == 3,
        has_room(st, board + drawn),
        hv == hand_score(board + hero, straight@),
        straight@.len() >= 8192,
    ensures
        n.win == over_draws(
            pool@.skip(from as int),
            left as nat,
            drawn,
            ends_with(hero, board, straight@, Outcome::Win),
        ),
        n.tie == over_draws(
            pool@.skip(from as int),
            left as nat,
            drawn,
            ends_with(hero, board, straight@, Outcome::Tie),
        ),
        n.tot == binom((pool@.len() - from) as nat, left as nat),
        n.win + n.tie <= n.tot,
    decreases pool@.len() - from,
{
    if left == 0 {
        let ov: i32 = hand_value(&st, straight, Ghost(board + drawn));
        if hv > ov {
            Counts { win: 1, tie: 0, tot: 1 }
        } else if hv == ov {
            Counts { win: 0, tie: 1, tot: 1 }
        } else {
            Counts { win: 0, tie: 0, tot: 1 }
        }
    } else if from == pool.len() {
        Counts { win: 0, tie: 0, tot: 0 }
    } else {
        let c: u8 = pool[from];
        let mut with: St = st;
        deal(&mut with, c, Ghost(board + drawn));
        proof {
            assert((board + drawn).push(c) =~= board + drawn.push(c));
            assert(pool@.skip(from as int).drop_first() =~= pool@.skip(from + 1));
            binom_small((pool@.len() - from) as nat, left as nat);
        }
        let a = count_opponents(
            pool,
            from + 1,
            left - 1,
            with,
            hv,
            straight,
            Ghost(hero),
            Ghost(board),
            Ghost(drawn.push(c)),
        );
        let b = count_opponents(
            pool,
            from + 1,
            left,
            st,
            hv,
            straight,
            Ghost(hero),
            Ghost(board),
            Ghost(drawn),
        );
        Counts { win: a.win + b.win, tie: a.tie + b.tie, tot: a.tot + b.tot }
    }
}

/// Draws of up to five out of up to 49 cards are few.
proof fn binom_small(n: nat, k: nat)
    requires
        n <= 49,
        k <= 5,
    ensures
        binom(n, k) <= 1906884,
        n <= 44 && k <= 3 ==> binom(n, k) <= 13244,
{
    binom_closed(49);
    binom_closed(44);
    binom_grows(n, 49, k);
    if n <= 44 {
        binom_grows(n, 44, k);
    }
}

/// On a given board, counts the opponent's hands that the hero beats and ties.
pub fn showdowns(hero: [u8; 3], board: [u8; 5], straight: &[i8]) -> (n: Counts)
    requires
        distinct_cards(hero@ + board@),
        straight@.len() >= 8192,
    ensures
        n.win == opponents_with(hero@, board@, straight@, Outcome::Win),
        n.tie == opponents_with(hero@, board@, straight@, Outcome::Tie),
        n.tot == binom(44, 3),
        n.tot == 13244,
        n.win + n.tie <= n.tot,
{
    proof {
        binom_closed(44);
    }
    let gone: [u8; 8] = [
        hero[0],
        hero[1],
        hero[2],
        board[0],
        board[1],
        board[2],
        board[3],
        board[4],
    ];
    assert(gone@ =~= hero@ + board@);
    let pool = remaining(&gone);
    proof {
        without_facts(gone@);
        assert forall|i: int| 0 <= i < 8 implies #[trigger] gone@[i] < 52 by {}
        assert(gone@[0] < 52 && gone@[1] < 52 && gone@[2] < 52 && gone@[3] < 52 && gone@[4] < 52
            && gone@[5] < 52 && gone@[6] < 52 && gone@[7] < 52);
    }
    let mut bs: St = St::new();
    let mut i: usize = 0;
    assert(board@.take(0) =~= seq![]);
    while i < 5
        invariant
            i <= 5,
            has_room(bs, board@.take(i as int)),
            forall|j: int| 0 <= j < 5 ==> #[trigger] board@[j] < 52,
        decreases 5 - i,
    {
        assert(board@.take(i as int).push(board@[i as int]) =~= board@.take(i + 1));
        assert(board@[i as int] < 52);
        deal(&mut bs, board[i], Ghost(board@.take(i as int)));
        i = i + 1;
    }
    assert(board@.take(5) =~= board@);
    let mut hs: St = bs;
    deal(&mut hs, hero[0], Ghost(board@));
    deal(&mut hs, hero[1], Ghost(board@.push(hero@[0])));
    deal(&mut hs, hero[2], Ghost(board@.push(hero@[0]).push(hero@[1])));
    assert(board@.push(hero@[0]).push(hero@[1]).push(hero@[2]) =~= board@ + hero@);
    let hv: i32 = hand_value(&hs, straight, Ghost(board@ + hero@));
    assert(board@ + Seq::empty() =~= board@);
    assert(pool@.skip(0) =~= pool@);
    count_opponents(
        &pool,
        0,
        3,
        bs,
        hv,
        straight,
        Ghost(hero@),
        Ghost(board@),
        Ghost(Seq::empty()),
    )
}

/// Counts the deals whose board holds the cards drawn so far, the first `n` of `board`, and the
/// rest of it out of `pool[from..]`.
fn count_boards(
    hero: [u8; 3],
    pool: &Vec<u8>,
    from: usize,
    n: usize,
    board: [u8; 5],
    straight: &[i8],
) -> (m: Counts)
    requires
        from <= pool@.len() <= 49,
        n <= 5,
        distinct_cards(hero@ + (board@.take(n as int) + pool@.skip(from as int))),
        straight@.len() >= 8192,
    ensures
        m.win == over_draws(
            pool@.skip(from as int),
            (5 - n) as nat,
            board@.take(n as int),
            on_board(hero@, straight@, Outcome::Win),
        ),
        m.tie == over_draws(
            pool@.skip(from as int),
            (5 - n) as nat,
            board@.take(n as int),
            on_board(hero@, straight@, Outcome::Tie),
        ),
        m.tot == binom((pool@.len() - from) as nat, (5 - n) as nat) * binom(44, 3),
        m.win + m.tie <= m.tot,
    decreases pool@.len() - from,
{
    let ghost drawn = board@.take(n as int);
    let ghost rest = pool@.skip(from as int);
    let ghost all = hero@ + (drawn + rest);
    if n == 5 {
        proof {
            assert(board@.take(5) =~= board@);
            assert forall|i: int| 0 <= i < (hero@ + board@).len() implies #[trigger] (hero@
                + board@)[i] < 52 by {
                assert(all[i] == (hero@ + board@)[i]);
            }
            assert forall|i: int, j: int|
                0 <= i < j < (hero@ + board@).len() implies (hero@ + board@)[i] != (hero@
                + board@)[j] by {
                assert(all[i] == (hero@ + board@)[i]);
                assert(all[j] == (hero@ + board@)[j]);
            }
        }
        proof {
            assert(binom((pool@.len() - from) as nat, 0) == 1);
            assert(1 * binom(44, 3) == binom(44, 3));
        }
        showdowns(hero, board, straight)
    } else if from == pool.len() {
        proof {
            assert(binom(0, (5 - n) as nat) == 0);
            assert(0 * binom(44, 3) == 0);
        }
        Counts { win: 0, tie: 0, tot: 0 }
    } else {
        let c: u8 = pool[from];
        let mut with: [u8; 5] = board;
        with[n] = c;
        proof {
            assert(with@.take(n + 1) =~= drawn.push(c));
            assert(rest.drop_first() =~= pool@.skip(from + 1));
            let tail = pool@.skip(from + 1);
            assert(hero@ + (drawn.push(c) + tail) =~= all);
            let fewer = hero@ + (drawn + tail);
            assert forall|i: int| 0 <= i < fewer.len() implies #[trigger] fewer[i] < 52 by {
                assert(all[if i < hero@.len() + n {
                    i
                } else {
                    i + 1
                }] == fewer[i]);
            }
            assert forall|i: int, j: int| 0 <= i < j < fewer.len() implies fewer[i] != fewer[j] by {
                assert(all[if i < hero@.len() + n {
                    i
                } else {
                    i + 1
                }] == fewer[i]);
                assert(all[if j < hero@.len() + n {
                    j
                } else {
                    j + 1
                }] == fewer[j]);
            }
            let total = (pool@.len() - from) as nat;
            binom_small(total, (5 - n) as nat);
            binom_closed(44);
            let x = binom((total - 1) as nat, (4 - n) as nat);
            let y = binom((total - 1) as nat, (5 - n) as nat);
            assert(binom(total, (5 - n) as nat) == x + y);
            let z = binom(44, 3);
            assert((x + y) * z == x * z + y * z && 0 <= x * z && 0 <= y * z && (x + y) * z
                <= 1906884 * 13244) by (nonlinear_arith)
                requires
                    x + y <= 1906884,
                    z == 13244,
            ;
        }
        let a = count_boards(hero, pool, from + 1, n + 1, with, straight);
        let b = count_boards(hero, pool, from + 1, n, board, straight);
        Counts { win: a.win + b.win, tie: a.tie + b.tie, tot: a.tot + b.tot }
    }
}

/// There are 1906884 boards, and 13244 opponent's hands for each.
pub proof fn deals_count()
    ensures
        binom(49, 5) == 1906884,
        binom(44, 3) == 13244,
        binom(49, 5) * binom(44, 3) == 25254771696,
{
    binom_closed(49);
    binom_closed(44);
    let (x, y) = (binom(49, 5), binom(44, 3));
    assert(x * y == 25254771696) by (nonlinear_arith)
        requires
            x == 1906884,
            y == 13244,
    ;
}

/// Counts every deal of a board and an opponent's hand against the hero's three cards.
pub fn equity(hero: [u8; 3], straight: &[i8]) -> (n: Counts)
    requires
        distinct_cards(hero@),
        straight@.len() >= 8192,
    ensures
        n.win == deals_with(hero@, straight@, Outcome::Win),
        n.tie == deals_with(hero@, straight@, Outcome::Tie),
        n.tot == binom(49, 5) * binom(44, 3),
        n.tot == 25254771696,
        n.win + n.tie <= n.tot,
{
    let rem = remaining(&hero);
    let board: [u8; 5] = [0; 5];
    proof {
        deals_count();
        without_facts(hero@);
        assert(board@.take(0) =~= seq![]);
        assert(rem@.skip(0) =~= rem@);
        let all = hero@ + (board@.take(0) + rem@);
        assert(all =~= hero@ + rem@);
        assert forall|i: int| 0 <= i < all.len() implies #[trigger] all[i] < 52 by {
            if i < 3 {
                assert(all[i] == hero@[i]);
            } else {
                assert(all[i] == rem@[i - 3]);
            }
        }
        assert forall|i: int, j: int| 0 <= i < j < all.len() implies all[i] != all[j] by {
            if i < 3 && j >= 3 {
                assert(rem@.contains(rem@[j - 3]));
                assert(hero@.contains(hero@[i]));
            }
        }
    }
    count_boards(hero, &rem, 0, 0, board, straight)
}

} // verus!
