//! How cards, hands and suit patterns are written.
use crate::cards::{card_fields, rank_of, suit_of};
use crate::classes::recolor_fields;
use crate::suits::{image, is_suit_perm, recolor, sort3, sorted3, sorted3_rearranges};
use vstd::prelude::*;

verus! {

/// The characters of the thirteen ranks, from the deuce up.
pub open spec fn rank_chars() -> Seq<char> {
    seq!['2', '3', '4', '5', '6', '7', '8', '9', 'T', 'J', 'Q', 'K', 'A']
}

/// The characters of the four suits.
pub open spec fn suit_chars() -> Seq<char> {
    seq!['♠', '♥', '♦', '♣']
}

/// How a card is written: its rank, then its suit.
pub open spec fn card_text(c: u8) -> Seq<char> {
    seq![rank_chars()[rank_of(c)], suit_chars()[suit_of(c)]]
}

/// How a hand is written: its cards, highest first.
pub open spec fn hand_text(h: Seq<u8>) -> Seq<char> {
    let s = sorted3(h);
    card_text(s[2]) + card_text(s[1]) + card_text(s[0])
}

/// The character of a rank, as text.
fn rank_str(r: u8) -> (t: &'static str)
    requires
        r < 13,
    ensures
        t@ == seq![rank_chars()[r as int]],
{
    proof {
        reveal_strlit("2");
        reveal_strlit("3");
        reveal_strlit("4");
        reveal_strlit("5");
        reveal_strlit("6");
        reveal_strlit("7");
        reveal_strlit("8");
        reveal_strlit("9");
        reveal_strlit("T");
        reveal_strlit("J");
        reveal_strlit("Q");
        reveal_strlit("K");
        reveal_strlit("A");
    }
    let t: &'static str = match r {
        0 => "2",
        1 => "3",
        2 => "4",
        3 => "5",
        4 => "6",
        5 => "7",
        6 => "8",
        7 => "9",
        8 => "T",
        9 => "J",
        10 => "Q",
        11 => "K",
        _ => "A",
    };
    assert(t@ =~= seq![rank_chars()[r as int]]);
    t
}

/// The character of a suit, as text.
fn suit_str(s: u8) -> (t: &'static str)
    requires
        s < 4,
    ensures
        t@ == seq![suit_chars()[s as int]],
{
    proof {
        reveal_strlit("♠");
        reveal_strlit("♥");
        reveal_strlit("♦");
        reveal_strlit("♣");
    }
    let t: &'static str = match s {
        0 => "♠",
        1 => "♥",
        2 => "♦",
        _ => "♣",
    };
    assert(t@ =~= seq![suit_chars()[s as int]]);
    t
}

/// Writes a card.
pub fn card_str(c: u8) -> (t: String)
    requires
        c < 52,
    ensures
        t@ == card_text(c),
        c as int / 4 < 8 ==> t@[0] as int == '0' as int + 2 + c as int / 4,
        c as int / 4 >= 8 ==> t@[0] == seq!['T', 'J', 'Q', 'K', 'A'][c as int / 4 - 8],
        t@[1] == seq!['♠', '♥', '♦', '♣'][c as int % 4],
{
    proof {
        card_fields(c);
        card_text_chars(c);
    }
    let mut t: String = String::new();
    t.append(rank_str(c >> 2));
    t.append(suit_str(c & 3));
    assert(t@ =~= card_text(c));
    t
}

/// Writes a hand, its highest card first.
pub fn hand_str(h: [u8; 3]) -> (t: String)
    requires
        h[0] < 52,
        h[1] < 52,
        h[2] < 52,
    ensures
        t@ == hand_text(h@),
{
    let v: [u8; 3] = sort3(h);
    let mut t: String = card_str(v[2]);
    t.append(card_str(v[1]).as_str());
    t.append(card_str(v[0]).as_str());
    t
}

/// How the suits of a hand lie.
pub enum SuitPattern {
    /// Three cards of one rank.
    Trips,
    /// A pair and a card that shares a suit with it.
    PairSuited,
    /// A pair and a card of a third suit.
    PairOffsuit,
    /// Three ranks in one suit.
    Monotone,
    /// Three ranks in two suits.
    TwoTone,
    /// Three ranks in three suits.
    Rainbow,
}

/// The pattern of three cards of ranks `a`, `b` and `c` and suits `s`, `t` and `u`.
pub open spec fn pattern_of(a: int, s: int, b: int, t: int, c: int, u: int) -> SuitPattern {
    if a == b && b == c {
        SuitPattern::Trips
    } else if a == b || b == c || a == c {
        if (a != b && s == t) || (b != c && t == u) || (a != c && s == u) {
            SuitPattern::PairSuited
        } else {
            SuitPattern::PairOffsuit
        }
    } else if s == t && t == u {
        SuitPattern::Monotone
    } else if s == t || t == u || s == u {
        SuitPattern::TwoTone
    } else {
        SuitPattern::Rainbow
    }
}

/// The pattern of a hand.
pub open spec fn suit_pattern(h: Seq<u8>) -> SuitPattern {
    pattern_of(
        rank_of(h[0]),
        suit_of(h[0]),
        rank_of(h[1]),
        suit_of(h[1]),
        rank_of(h[2]),
        suit_of(h[2]),
    )
}

/// How a pattern is written.
pub open spec fn pattern_text(p: SuitPattern) -> Seq<char> {
    match p {
        SuitPattern::Trips => "trips"@,
        SuitPattern::PairSuited => "pair-suited"@,
        SuitPattern::PairOffsuit => "pair-offsuit"@,
        SuitPattern::Monotone => "monotone"@,
        SuitPattern::TwoTone => "two-tone"@,
        SuitPattern::Rainbow => "rainbow"@,
    }
}

/// How the pattern of a hand is written.
pub open spec fn suit_type_text(h: Seq<u8>) -> Seq<char> {
    pattern_text(suit_pattern(h))
}

/// Names how the suits of a hand lie.
pub fn suit_type(h: [u8; 3]) -> (t: &'static str)
    ensures
        t@ == suit_type_text(h@),
{
    proof {
        card_fields(h[0]);
        card_fields(h[1]);
        card_fields(h[2]);
    }
    let r: [u8; 3] = [h[0] >> 2, h[1] >> 2, h[2] >> 2];
    let s: [u8; 3] = [h[0] & 3, h[1] & 3, h[2] & 3];
    if r[0] == r[1] && r[1] == r[2] {
        return "trips";
    }
    if r[0] == r[1] || r[1] == r[2] || r[0] == r[2] {
        let suited: bool = if r[0] == r[1] {
            s[2] == s[0] || s[2] == s[1]
        } else if r[1] == r[2] {
            s[0] == s[1] || s[0] == s[2]
        } else {
            s[1] == s[0] || s[1] == s[2]
        };
        if suited {
            "pair-suited"
        } else {
            "pair-offsuit"
        }
    } else if s[0] == s[1] && s[1] == s[2] {
        "monotone"
    } else if s[0] == s[1] || s[1] == s[2] || s[0] == s[2] {
        "two-tone"
    } else {
        "rainbow"
    }
}

/// Different patterns are written differently.
pub proof fn pattern_text_tells(p: SuitPattern, q: SuitPattern)
    requires
        pattern_text(p) == pattern_text(q),
    ensures
        p == q,
{
    reveal_strlit("trips");
    reveal_strlit("pair-suited");
    reveal_strlit("pair-offsuit");
    reveal_strlit("monotone");
    reveal_strlit("two-tone");
    reveal_strlit("rainbow");
    assert("trips"@.len() == 5 && "pair-suited"@.len() == 11 && "pair-offsuit"@.len() == 12);
    assert("monotone"@.len() == 8 && "two-tone"@.len() == 8 && "rainbow"@.len() == 7);
    assert("monotone"@[0] == 'm' && "two-tone"@[0] == 't');
}

/// Different cards are written differently.
pub proof fn card_text_tells(c: u8, d: u8)
    requires
        c < 52,
        d < 52,
        card_text(c) == card_text(d),
    ensures
        c == d,
{
    assert(card_text(c)[0] == card_text(d)[0]);
    assert(card_text(c)[1] == card_text(d)[1]);
}

/// Hands of different cards are written differently.
pub proof fn hand_text_tells(h: Seq<u8>, k: Seq<u8>)
    requires
        h.len() == 3,
        k.len() == 3,
        h[0] < 52 && h[1] < 52 && h[2] < 52,
        k[0] < 52 && k[1] < 52 && k[2] < 52,
        hand_text(h) == hand_text(k),
    ensures
        sorted3(h) == sorted3(k),
{
    let (s, t) = (sorted3(h), sorted3(k));
    let (x, y) = (hand_text(h), hand_text(k));
    assert(x[0] == y[0] && x[1] == y[1] && x[2] == y[2] && x[3] == y[3] && x[4] == y[4] && x[5]
        == y[5]);
    assert(card_text(s[2]) =~= card_text(t[2]));
    assert(card_text(s[1]) =~= card_text(t[1]));
    assert(card_text(s[0]) =~= card_text(t[0]));
    card_text_tells(s[2], t[2]);
    card_text_tells(s[1], t[1]);
    card_text_tells(s[0], t[0]);
}

/// The order of the cards does not matter to the suit pattern.
proof fn suit_type_sorted(x: Seq<u8>)
    requires
        x.len() == 3,
    ensures
        suit_type_text(sorted3(x)) == suit_type_text(x),
{
    sorted3_rearranges(x);
    let (a, b, c) = (x[0], x[1], x[2]);
    assert(suit_type_text(seq![a, b, c]) == suit_type_text(x));
    assert(suit_type_text(seq![a, c, b]) == suit_type_text(x));
    assert(suit_type_text(seq![b, a, c]) == suit_type_text(x));
    assert(suit_type_text(seq![b, c, a]) == suit_type_text(x));
    assert(suit_type_text(seq![c, a, b]) == suit_type_text(x));
    assert(suit_type_text(seq![c, b, a]) == suit_type_text(x));
}

/// A renaming gives different suits different names.
proof fn perm_tells(p: Seq<u8>, s: int, t: int)
    requires
        is_suit_perm(p),
        0 <= s < 4,
        0 <= t < 4,
    ensures
        p[s] == p[t] <==> s == t,
{
}

/// Renaming the suits of a hand leaves its suit pattern as it is.
pub proof fn suit_type_recolored(h: Seq<u8>, p: Seq<u8>)
    requires
        h.len() == 3,
        is_suit_perm(p),
    ensures
        suit_type_text(image(h, p)) == suit_type_text(h),
{
    let x = seq![recolor(h[0], p), recolor(h[1], p), recolor(h[2], p)];
    assert(suit_type_text(x) == suit_type_text(h)) by {
        recolor_fields(h[0], p);
        recolor_fields(h[1], p);
        recolor_fields(h[2], p);
        perm_tells(p, suit_of(h[0]), suit_of(h[1]));
        perm_tells(p, suit_of(h[1]), suit_of(h[2]));
        perm_tells(p, suit_of(h[0]), suit_of(h[2]));
    }
    suit_type_sorted(x);
}

/// A card is written in two characters: its rank as a digit from 2 to 9 or as T, J, Q, K or A, then
/// its suit.
pub proof fn card_text_chars(c: u8)
    requires
        c < 52,
    ensures
        card_text(c).len() == 2,
        c as int / 4 < 8 ==> card_text(c)[0] as int == '0' as int + 2 + c as int / 4,
        c as int / 4 == 8 ==> card_text(c)[0] == 'T',
        c as int / 4 == 9 ==> card_text(c)[0] == 'J',
        c as int / 4 == 10 ==> card_text(c)[0] == 'Q',
        c as int / 4 == 11 ==> card_text(c)[0] == 'K',
        c as int / 4 == 12 ==> card_text(c)[0] == 'A',
        c as int % 4 == 0 ==> card_text(c)[1] == '♠',
        c as int % 4 == 1 ==> card_text(c)[1] == '♥',
        c as int % 4 == 2 ==> card_text(c)[1] == '♦',
        c as int % 4 == 3 ==> card_text(c)[1] == '♣',
{
}

/// In whatever order its cards come, a hand is written with the highest card first and the lowest
/// last.
pub proof fn hand_text_falls(a: u8, b: u8, c: u8)
    requires
        a >= b >= c,
    ensures
        hand_text(seq![a, b, c]) == card_text(a) + card_text(b) + card_text(c),
        hand_text(seq![a, c, b]) == card_text(a) + card_text(b) + card_text(c),
        hand_text(seq![b, a, c]) == card_text(a) + card_text(b) + card_text(c),
        hand_text(seq![b, c, a]) == card_text(a) + card_text(b) + card_text(c),
        hand_text(seq![c, a, b]) == card_text(a) + card_text(b) + card_text(c),
        hand_text(seq![c, b, a]) == card_text(a) + card_text(b) + card_text(c),
{
    let s = seq![c, b, a];
    assert(sorted3(seq![a, b, c]) =~= s);
    assert(sorted3(seq![a, c, b]) =~= s);
    assert(sorted3(seq![b, a, c]) =~= s);
    assert(sorted3(seq![b, c, a]) =~= s);
    assert(sorted3(seq![c, a, b]) =~= s);
    assert(sorted3(seq![c, b, a]) =~= s);
}

/// Three cards of one rank are trips. Of a pair and a third card of another rank, whatever the ranks
/// and the order, the name says whether the third card has the suit of one of the pair. Of three
/// ranks it says how many suits there are.
pub proof fn suit_type_means(h: Seq<u8>)
    requires
        h.len() == 3,
    ensures
        suit_type_text(h) == "trips"@ <==> h[0] as int / 4 == h[1] as int / 4 && h[1] as int / 4
            == h[2] as int / 4,
        forall|i: int, j: int, k: int|
            0 <= i < 3 && 0 <= j < 3 && 0 <= k < 3 && i != j && i != k && j != k && #[trigger] h[i] as int
                / 4 == #[trigger] h[j] as int / 4 && #[trigger] h[k] as int / 4 != h[i] as int / 4
                ==> suit_type_text(h) == (if h[k] as int % 4 == h[i] as int % 4 || h[k] as int % 4
                == h[j] as int % 4 {
                "pair-suited"@
            } else {
                "pair-offsuit"@
            }),
        h[0] as int / 4 != h[1] as int / 4 && h[1] as int / 4 != h[2] as int / 4 && h[0] as int / 4
            != h[2] as int / 4 ==> {
            &&& suit_type_text(h) == "monotone"@ <==> h[0] as int % 4 == h[1] as int % 4
                && h[1] as int % 4 == h[2] as int % 4
            &&& suit_type_text(h) == "rainbow"@ <==> h[0] as int % 4 != h[1] as int % 4
                && h[1] as int % 4 != h[2] as int % 4 && h[0] as int % 4 != h[2] as int % 4
            &&& suit_type_text(h) == "two-tone"@ || suit_type_text(h) == "monotone"@
                || suit_type_text(h) == "rainbow"@
        },
{
    reveal_strlit("trips");
    reveal_strlit("pair-suited");
    reveal_strlit("pair-offsuit");
    reveal_strlit("monotone");
    reveal_strlit("two-tone");
    reveal_strlit("rainbow");
    assert("trips"@.len() == 5 && "pair-suited"@.len() == 11 && "pair-offsuit"@.len() == 12);
    assert("monotone"@.len() == 8 && "two-tone"@.len() == 8 && "rainbow"@.len() == 7);
    assert("monotone"@[0] == 'm' && "two-tone"@[0] == 't');
    assert forall|i: int, j: int, k: int|
        0 <= i < 3 && 0 <= j < 3 && 0 <= k < 3 && i != j && i != k && j != k && #[trigger] h[i] as int
            / 4 == #[trigger] h[j] as int / 4 && #[trigger] h[k] as int / 4 != h[i] as int
            / 4 implies suit_type_text(h) == (if h[k] as int % 4 == h[i] as int % 4 || h[k] as int
        % 4 == h[j] as int % 4 {
        "pair-suited"@
    } else {
        "pair-offsuit"@
    }) by {
        assert(i == 0 || i == 1 || i == 2);
        assert(j == 0 || j == 1 || j == 2);
        assert(k == 0 || k == 1 || k == 2);
    }
}

} // verus!
