//! The straight that a set of ranks holds.
use crate::ranks::{nth_or, ranks_where, ranks_where_lists};
use crate::state::has_rank;
use vstd::prelude::*;

verus! {

/// Whether the ranks of `mask` hold the straight whose top is `t`: five ranks in a row down from
/// `t`, or, under a five, the wheel of ace, deuce, three, four and five.
pub open spec fn is_straight(mask: u16, t: int) -> bool {
    if t == 3 {
        has_rank(mask, 12) && has_rank(mask, 0) && has_rank(mask, 1) && has_rank(mask, 2)
            && has_rank(mask, 3)
    } else {
        4 <= t <= 12 && has_rank(mask, t) && has_rank(mask, t - 1) && has_rank(mask, t - 2)
            && has_rank(mask, t - 3) && has_rank(mask, t - 4)
    }
}

/// The top of the highest straight in `mask`, or -1.
pub open spec fn straight_top(mask: u16) -> int {
    nth_or(ranks_where(|t: int| is_straight(mask, t), 13), 0, -1)
}

/// The straight of every set of the thirteen ranks.
pub open spec fn straight_table() -> Seq<i8> {
    Seq::new(8192, |m: int| straight_top(m as u16) as i8)
}

/// Ranks of a mask, as the executable code reads them.
pub fn mask_has(m: u16, r: u16) -> (b: bool)
    requires
        r < 16,
    ensures
        b == has_rank(m, r as int),
        b == ((m >> r) & 1 == 1),
{
    (m >> r) & 1 == 1
}

/// Tabulates, for each set of ranks, the top rank of its highest straight, or -1 where it holds
/// none.
pub fn build_straight() -> (t: Vec<i8>)
    ensures
        t@ == straight_table(),
{
    let mut t: Vec<i8> = Vec::new();
    let mut m: u16 = 0;
    while m < 8192
        invariant
            m <= 8192,
            t@ == straight_table().take(m as int),
        decreases 8192 - m,
    {
        let ghost p = |x: int| is_straight(m, x);
        let mut top: i8 = -1;
        let mut r: u16 = 13;
        while r > 4 && top < 0
            invariant
                4 <= r <= 13,
                p == (|x: int| is_straight(m, x)),
                top < 0 ==> top == -1 && ranks_where(p, 13) == ranks_where(p, r as int),
                top >= 0 ==> top == straight_top(m),
            decreases r,
        {
            if mask_has(m, r - 1) && mask_has(m, r - 2) && mask_has(m, r - 3) && mask_has(m, r - 4)
                && mask_has(m, r - 5) {
                top = (r - 1) as i8;
            }
            r = r - 1;
        }
        if top < 0 && mask_has(m, 12) && mask_has(m, 0) && mask_has(m, 1) && mask_has(m, 2)
            && mask_has(m, 3) {
            top = 3;
        }
        proof {
            reveal_with_fuel(ranks_where, 5);
            assert(top == straight_top(m));
        }
        t.push(top);
        m = m + 1;
        assert(t@ =~= straight_table().take(m as int));
    }
    assert(straight_table().take(8192) =~= straight_table());
    t
}

/// An entry of the table is the highest top of five bits in a row, three for the bits of ace to
/// five where there is none, and minus one where there is neither.
pub proof fn straight_entry(m: u16)
    requires
        m < 8192,
    ensures
        ({
            let e = straight_table()[m as int];
            &&& e == -1 || 3 <= e <= 12
            &&& e >= 4 ==> (m >> (e as u16)) & 1 == 1 && (m >> ((e - 1) as u16)) & 1 == 1 && (m >> (
            (e - 2) as u16)) & 1 == 1 && (m >> ((e - 3) as u16)) & 1 == 1 && (m >> ((e
                - 4) as u16)) & 1 == 1
            &&& e == 3 ==> (m >> 12) & 1 == 1 && (m >> 0) & 1 == 1 && (m >> 1) & 1 == 1 && (m >> 2)
                & 1 == 1 && (m >> 3) & 1 == 1
        }),
        forall|t: u16|
            4 <= t <= 12 && #[trigger] (m >> t) & 1 == 1 && (m >> ((t - 1) as u16)) & 1 == 1 && (m
                >> ((t - 2) as u16)) & 1 == 1 && (m >> ((t - 3) as u16)) & 1 == 1 && (m >> ((t
                - 4) as u16)) & 1 == 1 ==> straight_table()[m as int] >= t,
        (m >> 12) & 1 == 1 && (m >> 0) & 1 == 1 && (m >> 1) & 1 == 1 && (m >> 2) & 1 == 1 && (m
            >> 3) & 1 == 1 ==> straight_table()[m as int] >= 3,
{
    let p = |t: int| is_straight(m, t);
    ranks_where_lists(p, 13);
    let l = ranks_where(p, 13);
    let e = straight_table()[m as int];
    if l.len() > 0 {
        assert(p(l[0]));
    }
    assert forall|t: int| #[trigger] is_straight(m, t) implies t <= straight_top(m) by {
        assert(p(t));
        assert(l.contains(t));
        let i = choose|i: int| 0 <= i < l.len() && l[i] == t;
        if i > 0 {
            assert(l[0] > l[i]);
        }
    }
    assert forall|t: u16|
        4 <= t <= 12 && #[trigger] (m >> t) & 1 == 1 && (m >> ((t - 1) as u16)) & 1 == 1 && (m >> ((
        t - 2) as u16)) & 1 == 1 && (m >> ((t - 3) as u16)) & 1 == 1 && (m >> ((t - 4) as u16)) & 1
            == 1 implies straight_table()[m as int] >= t by {
        assert(is_straight(m, t as int));
    }
    if (m >> 12) & 1 == 1 && (m >> 0) & 1 == 1 && (m >> 1) & 1 == 1 && (m >> 2) & 1 == 1 && (m >> 3)
        & 1 == 1 {
        assert(is_straight(m, 3));
    }
}

} // verus!
