//! Cards, suits and ranks.
//!
//! A card is a byte below 52: its rank is the byte divided by four (0 is a deuce, 12 an ace) and
//! its suit is the remainder.
use vstd::prelude::*;

verus! {

/// The rank of a card.
pub open spec fn rank_of(c: u8) -> int {
    c as int / 4
}

/// The suit of a card.
pub open spec fn suit_of(c: u8) -> int {
    c as int % 4
}

/// The two bit fields of a card are its rank and its suit.
pub proof fn card_fields(c: u8)
    ensures
        c >> 2 == rank_of(c),
        c & 3 == suit_of(c),
        c >> 2 < 64,
        c & 3 < 4,
{
    assert(c >> 2 == c / 4 && c & 3 == c % 4 && c >> 2 < 64 && c & 3 < 4) by (bit_vector);
}

} // verus!
