//! The score of a hand: one number that orders hands by strength.
//!
//! A score is a number in base 15. Its leading digit is the category, from 8 for a straight flush
//! down to 0 for a high card, and the five digits below it are the ranks that break ties.
use crate::ranks::{nth_or, ranks_where};
use crate::state::{has_rank, St, Tally};
use crate::straight::mask_has;
use vstd::prelude::*;

verus! {

/// Weight of the category.
pub const P5: i32 = 759375;

/// Weight of the first rank.
pub const P4: i32 = 50625;

/// Weight of the second rank.
pub const P3: i32 = 3375;

/// Weight of the third rank.
pub const P2: i32 = 225;

/// Weight of the fourth rank.
pub const P1: i32 = 15;

/// Weight of the fifth rank.
pub const P0: i32 = 1;

/// The suit a flush is looked for in: the first with five cards or more, or 4 where there is none.
pub open spec fn flush_suit(sc: Seq<int>) -> int {
    if sc[0] >= 5 {
        0
    } else if sc[1] >= 5 {
        1
    } else if sc[2] >= 5 {
        2
    } else if sc[3] >= 5 {
        3
    } else {
        4
    }
}

/// Says of a rank whether it is held exactly `n` times.
pub open spec fn held_times(f: Seq<int>, n: int) -> spec_fn(int) -> bool {
    |r: int| f[r] == n
}

/// Says of a rank whether it is held at all and is neither `a` nor `b`.
pub open spec fn held_but(f: Seq<int>, a: int, b: int) -> spec_fn(int) -> bool {
    |r: int| f[r] > 0 && r != a && r != b
}

/// Says of a rank whether a mask holds it.
pub open spec fn in_mask(mask: u16) -> spec_fn(int) -> bool {
    |r: int| has_rank(mask, r)
}

/// The ranks held exactly `n` times, highest first.
pub open spec fn groups(f: Seq<int>, n: int) -> Seq<int> {
    ranks_where(held_times(f, n), 13)
}

/// The ranks held at all, other than `a` and `b`, highest first.
pub open spec fn kickers(f: Seq<int>, a: int, b: int) -> Seq<int> {
    ranks_where(held_but(f, a, b), 13)
}

/// The ranks of a mask, highest first.
pub open spec fn mask_ranks(mask: u16) -> Seq<int> {
    ranks_where(in_mask(mask), 13)
}

/// The score of a flush, not a straight one, in a suit that holds the ranks `mask`.
pub open spec fn flush_score(mask: u16) -> int {
    let k = mask_ranks(mask);
    5 * P5 + nth_or(k, 0, 0) * P4 + nth_or(k, 1, 0) * P3 + nth_or(k, 2, 0) * P2 + nth_or(k, 3, 0)
        * P1 + nth_or(k, 4, 0) * P0
}

/// Whether the ranks alone make four of a kind.
pub open spec fn has_quads(f: Seq<int>) -> bool {
    groups(f, 4).len() > 0
}

/// Whether the ranks make a full house out of ranks held exactly three and exactly two times.
pub open spec fn has_full_house(f: Seq<int>) -> bool {
    groups(f, 3).len() >= 2 || (groups(f, 3).len() == 1 && groups(f, 2).len() >= 1)
}

/// The score of four of a kind: the highest, and the highest card beside it.
pub open spec fn quads_score(f: Seq<int>) -> int {
    let q = groups(f, 4)[0];
    7 * P5 + q * P4 + nth_or(kickers(f, q, -1), 0, -1) * P3
}

/// The rank that fills a full house: the highest held twice or more beside the three.
pub open spec fn full_of(f: Seq<int>) -> int {
    let trips = groups(f, 3);
    let pairs = groups(f, 2);
    if trips.len() < 2 || (pairs.len() >= 1 && pairs[0] > trips[1]) {
        pairs[0]
    } else {
        trips[1]
    }
}

/// The score of a full house: the highest three of a kind, and the highest pair beside it.
pub open spec fn full_house_score(f: Seq<int>) -> int {
    6 * P5 + groups(f, 3)[0] * P4 + full_of(f) * P3
}

/// The score of a hand with no flush, no four of a kind and no full house.
pub open spec fn rank_score(f: Seq<int>, rm: u16, straight: Seq<i8>) -> int {
    let trips = groups(f, 3);
    let pairs = groups(f, 2);
    if straight[rm as int] >= 0 {
        4 * P5 + straight[rm as int] * P4
    } else if trips.len() >= 1 {
        let k = kickers(f, trips[0], -1);
        3 * P5 + trips[0] * P4 + nth_or(k, 0, -1) * P3 + nth_or(k, 1, -1) * P2
    } else if pairs.len() >= 2 {
        let k = kickers(f, pairs[0], pairs[1]);
        2 * P5 + pairs[0] * P4 + pairs[1] * P3 + nth_or(k, 0, -1) * P2
    } else if pairs.len() == 1 {
        let k = kickers(f, pairs[0], -1);
        1 * P5 + pairs[0] * P4 + nth_or(k, 0, -1) * P3 + nth_or(k, 1, -1) * P2 + nth_or(k, 2, -1)
            * P1
    } else {
        let k = kickers(f, -1, -1);
        nth_or(k, 0, 0) * P4 + nth_or(k, 1, 0) * P3 + nth_or(k, 2, 0) * P2 + nth_or(k, 3, 0) * P1
            + nth_or(k, 4, 0) * P0
    }
}

/// Whether the suit of a flush holds a straight.
pub open spec fn has_straight_flush(t: Tally, straight: Seq<i8>) -> bool {
    flush_suit(t.sc) < 4 && straight[t.sm[flush_suit(t.sc)] as int] >= 0
}

/// The score of a tally: that of the highest category its cards make. With the table of every
/// straight it is the score of the best five of up to eight cards
/// ([`crate::best::score_is_best`]).
pub open spec fn score_of(t: Tally, straight: Seq<i8>) -> int {
    let s = flush_suit(t.sc);
    if has_straight_flush(t, straight) {
        8 * P5 + straight[t.sm[s] as int] * P4
    } else if has_quads(t.f) {
        quads_score(t.f)
    } else if has_full_house(t.f) {
        full_house_score(t.f)
    } else if s < 4 {
        flush_score(t.sm[s])
    } else {
        rank_score(t.f, t.rm, straight)
    }
}

/// Whether `straight` reaches every entry that scoring the tally looks up.
pub open spec fn table_reaches(t: Tally, straight: Seq<i8>) -> bool {
    let s = flush_suit(t.sc);
    if s < 4 {
        t.sm[s] < straight.len()
    } else {
        has_quads(t.f) || has_full_house(t.f) || t.rm < straight.len()
    }
}

/// The five highest ranks of a mask; places past the last rank hold 0.
fn top_of_mask(mask: u16) -> (k: [i32; 5])
    ensures
        forall|i: int| 0 <= i < 5 ==> #[trigger] k[i] == nth_or(mask_ranks(mask), i, 0),
        forall|i: int| 0 <= i < 5 ==> 0 <= #[trigger] k[i] <= 12,
{
    let mut k: [i32; 5] = [0; 5];
    let mut n: usize = 0;
    let mut r: u16 = 13;
    let ghost p = in_mask(mask);
    while r > 0 && n < 5
        invariant
            r <= 13,
            n <= 5,
            p == in_mask(mask),
            mask_ranks(mask) == ranks_where(p, 13),
            ranks_where(p, 13).len() == n + ranks_where(p, r as int).len(),
            forall|i: int|
                0 <= i < ranks_where(p, r as int).len() ==> #[trigger] ranks_where(p, r as int)[i]
                    == ranks_where(p, 13)[n + i],
            forall|i: int| 0 <= i < n ==> #[trigger] k[i] == ranks_where(p, 13)[i],
            forall|i: int| n <= i < 5 ==> #[trigger] k[i] == 0,
            forall|i: int| 0 <= i < 5 ==> 0 <= #[trigger] k[i] <= 12,
        decreases r,
    {
        let ghost before = ranks_where(p, r as int);
        r = r - 1;
        proof {
            let after = ranks_where(p, r as int);
            if has_rank(mask, r as int) {
                assert(before =~= seq![r as int] + after);
                assert(before[0] == r);
                assert forall|i: int| 0 <= i < after.len() implies #[trigger] after[i]
                    == ranks_where(p, 13)[n + 1 + i] by {
                    assert(before[i + 1] == after[i]);
                }
            }
        }
        if mask_has(mask, r) {
            k[n] = r as i32;
            n = n + 1;
        }
    }
    k
}

/// The `want` highest ranks held other than `a` and `b`; places past the last rank hold `fill`.
fn top_of_counts(f: &[u8; 13], a: i32, b: i32, want: usize, fill: i32) -> (k: [i32; 5])
    requires
        want <= 5,
        -1 <= fill <= 0,
    ensures
        forall|i: int|
            0 <= i < want ==> #[trigger] k[i] == nth_or(
                kickers(Seq::new(13, |r: int| f[r] as int), a as int, b as int),
                i,
                fill as int,
            ),
        forall|i: int| 0 <= i < 5 ==> -1 <= #[trigger] k[i] <= 12,
{
    let mut k: [i32; 5] = [fill; 5];
    let mut n: usize = 0;
    let mut r: usize = 13;
    let ghost fs = Seq::new(13, |r: int| f[r] as int);
    let ghost p = held_but(fs, a as int, b as int);
    while r > 0 && n < want
        invariant
            r <= 13,
            n <= want <= 5,
            -1 <= fill <= 0,
            fs == Seq::new(13, |r: int| f[r] as int),
            p == held_but(fs, a as int, b as int),
            ranks_where(p, 13).len() == n + ranks_where(p, r as int).len(),
            forall|i: int|
                0 <= i < ranks_where(p, r as int).len() ==> #[trigger] ranks_where(p, r as int)[i]
                    == ranks_where(p, 13)[n + i],
            forall|i: int| 0 <= i < n ==> #[trigger] k[i] == ranks_where(p, 13)[i],
            forall|i: int| n <= i < 5 ==> #[trigger] k[i] == fill,
            forall|i: int| 0 <= i < 5 ==> -1 <= #[trigger] k[i] <= 12,
        decreases r,
    {
        let ghost before = ranks_where(p, r as int);
        r = r - 1;
        proof {
            let after = ranks_where(p, r as int);
            if p(r as int) {
                assert(before =~= seq![r as int] + after);
                assert(before[0] == r);
                assert forall|i: int| 0 <= i < after.len() implies #[trigger] after[i]
                    == ranks_where(p, 13)[n + 1 + i] by {
                    assert(before[i + 1] == after[i]);
                }
            }
        }
        if f[r] > 0 && r as i32 != a && r as i32 != b {
            k[n] = r as i32;
            n = n + 1;
        }
    }
    k
}

/// The groups of equal ranks that decide a category.
struct Groups {
    /// The highest rank held four times, or -1.
    q: i32,
    /// The highest rank held three times, or -1.
    t1: i32,
    /// The second highest rank held three times, or -1.
    t2: i32,
    /// The highest rank held twice, or -1.
    p1: i32,
    /// The second highest rank held twice, or -1.
    p2: i32,
}

/// Groups the ranks by how often they are held.
fn group_ranks(f: &[u8; 13]) -> (g: Groups)
    ensures
        ({
            let fs = Seq::new(13, |r: int| f[r] as int);
            &&& g.q == nth_or(groups(fs, 4), 0, -1)
            &&& g.t1 == nth_or(groups(fs, 3), 0, -1)
            &&& g.t2 == nth_or(groups(fs, 3), 1, -1)
            &&& g.p1 == nth_or(groups(fs, 2), 0, -1)
            &&& g.p2 == nth_or(groups(fs, 2), 1, -1)
            &&& g.q >= 0 <==> groups(fs, 4).len() >= 1
            &&& g.t1 >= 0 <==> groups(fs, 3).len() >= 1
            &&& g.t2 >= 0 <==> groups(fs, 3).len() >= 2
            &&& g.p1 >= 0 <==> groups(fs, 2).len() >= 1
            &&& g.p2 >= 0 <==> groups(fs, 2).len() >= 2
        }),
        -1 <= g.q <= 12,
        -1 <= g.t1 <= 12,
        -1 <= g.t2 <= 12,
        -1 <= g.p1 <= 12,
        -1 <= g.p2 <= 12,
{
    let mut q: i32 = -1;
    let mut t1: i32 = -1;
    let mut t2: i32 = -1;
    let mut p1: i32 = -1;
    let mut p2: i32 = -1;
    let mut r: usize = 13;
    let ghost fs = Seq::new(13, |r: int| f[r] as int);
    let ghost is4 = held_times(fs, 4);
    let ghost is3 = held_times(fs, 3);
    let ghost is2 = held_times(fs, 2);
    let ghost mut quads: Seq<int> = seq![];
    let ghost mut trips: Seq<int> = seq![];
    let ghost mut pairs: Seq<int> = seq![];
    assert(ranks_where(is4, 13) =~= quads + ranks_where(is4, 13));
    assert(ranks_where(is3, 13) =~= trips + ranks_where(is3, 13));
    assert(ranks_where(is2, 13) =~= pairs + ranks_where(is2, 13));
    while r > 0
        invariant
            r <= 13,
            fs == Seq::new(13, |r: int| f[r] as int),
            is4 == held_times(fs, 4),
            is3 == held_times(fs, 3),
            is2 == held_times(fs, 2),
            ranks_where(is4, 13) == quads + ranks_where(is4, r as int),
            ranks_where(is3, 13) == trips + ranks_where(is3, r as int),
            ranks_where(is2, 13) == pairs + ranks_where(is2, r as int),
            q == nth_or(quads, 0, -1),
            t1 == nth_or(trips, 0, -1),
            t2 == nth_or(trips, 1, -1),
            p1 == nth_or(pairs, 0, -1),
            p2 == nth_or(pairs, 1, -1),
            forall|i: int| 0 <= i < quads.len() ==> 0 <= #[trigger] quads[i] <= 12,
            forall|i: int| 0 <= i < trips.len() ==> 0 <= #[trigger] trips[i] <= 12,
            forall|i: int| 0 <= i < pairs.len() ==> 0 <= #[trigger] pairs[i] <= 12,
        decreases r,
    {
        r = r - 1;
        let n: u8 = f[r];
        proof {
            if n == 4 {
                assert(quads + (seq![r as int] + ranks_where(is4, r as int)) =~= quads.push(
                    r as int,
                ) + ranks_where(is4, r as int));
                quads = quads.push(r as int);
            }
            if n == 3 {
                assert(trips + (seq![r as int] + ranks_where(is3, r as int)) =~= trips.push(
                    r as int,
                ) + ranks_where(is3, r as int));
                trips = trips.push(r as int);
            }
            if n == 2 {
                assert(pairs + (seq![r as int] + ranks_where(is2, r as int)) =~= pairs.push(
                    r as int,
                ) + ranks_where(is2, r as int));
                pairs = pairs.push(r as int);
            }
        }
        if n == 4 {
            if q < 0 {
                q = r as i32;
            }
        } else if n == 3 {
            if t1 < 0 {
                t1 = r as i32;
            } else if t2 < 0 {
                t2 = r as i32;
            }
        } else if n == 2 {
            if p1 < 0 {
                p1 = r as i32;
            } else if p2 < 0 {
                p2 = r as i32;
            }
        }
    }
    assert(groups(fs, 4) =~= quads);
    assert(groups(fs, 3) =~= trips);
    assert(groups(fs, 2) =~= pairs);
    Groups { q, t1, t2, p1, p2 }
}

/// Scores the cards of a tally by the highest category they make: the higher score wins.
///
/// `straight` is looked up by the ranks of the flush suit or by all ranks; the table of
/// [`crate::straight::build_straight`] holds every entry.
pub fn score(st: &St, straight: &[i8]) -> (v: i32)
    requires
        table_reaches(st@, straight@),
    ensures
        v == score_of(st@, straight@),
{
    let s: usize = if st.sc[0] >= 5 {
        0
    } else if st.sc[1] >= 5 {
        1
    } else if st.sc[2] >= 5 {
        2
    } else if st.sc[3] >= 5 {
        3
    } else {
        4
    };
    assert(s == flush_suit(st@.sc));
    if s < 4 {
        let sf: i32 = straight[st.sm[s] as usize] as i32;
        if sf >= 0 {
            return 8 * P5 + sf * P4;
        }
    }
    let g = group_ranks(&st.f);
    assert(st@.f =~= Seq::new(13, |r: int| st.f[r] as int));
    if g.q >= 0 {
        let k = top_of_counts(&st.f, g.q, -1, 1, -1);
        return 7 * P5 + g.q * P4 + k[0] * P3;
    }
    if g.t1 >= 0 && (g.t2 >= 0 || g.p1 >= 0) {
        let p: i32 = if g.p1 > g.t2 {
            g.p1
        } else {
            g.t2
        };
        return 6 * P5 + g.t1 * P4 + p * P3;
    }
    if s < 4 {
        let k = top_of_mask(st.sm[s]);
        return 5 * P5 + k[0] * P4 + k[1] * P3 + k[2] * P2 + k[3] * P1 + k[4] * P0;
    }
    let top: i32 = straight[st.rm as usize] as i32;
    if top >= 0 {
        return 4 * P5 + top * P4;
    }
    if g.t1 >= 0 {
        let k = top_of_counts(&st.f, g.t1, -1, 2, -1);
        return 3 * P5 + g.t1 * P4 + k[0] * P3 + k[1] * P2;
    }
    if g.p1 >= 0 && g.p2 >= 0 {
        let k = top_of_counts(&st.f, g.p1, g.p2, 1, -1);
        return 2 * P5 + g.p1 * P4 + g.p2 * P3 + k[0] * P2;
    }
    if g.p1 >= 0 {
        let k = top_of_counts(&st.f, g.p1, -1, 3, -1);
        return 1 * P5 + g.p1 * P4 + k[0] * P3 + k[1] * P2 + k[2] * P1;
    }
    let k = top_of_counts(&st.f, -1, -1, 5, 0);
    k[0] * P4 + k[1] * P3 + k[2] * P2 + k[3] * P1 + k[4] * P0
}

} // verus!
