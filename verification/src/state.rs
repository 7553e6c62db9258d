//! The running tally of up to eight cards that a hand is scored from.
use crate::cards::{card_fields, rank_of, suit_of};
use vstd::prelude::*;

verus! {

/// Whether rank `r` is in a set of ranks held as a bit mask.
pub open spec fn has_rank(mask: u16, r: int) -> bool {
    (mask >> (r as u16)) & 1 == 1
}

/// Adding a rank to a mask of the thirteen ranks.
pub proof fn mask_insert(m: u16, r: u16)
    requires
        m < 8192,
        r < 13,
    ensures
        m | (1u16 << r) < 8192,
{
    assert(m | (1u16 << r) < 8192) by (bit_vector)
        requires
            m < 8192,
            r < 13,
    ;
}

/// What a [`St`] counts, over mathematical integers.
#[verifier::ext_equal]
pub struct Tally {
    /// How many cards of each rank.
    pub f: Seq<int>,
    /// The ranks held in each suit.
    pub sm: Seq<u16>,
    /// How many cards of each suit.
    pub sc: Seq<int>,
    /// The ranks held in any suit.
    pub rm: u16,
}

impl Tally {
    /// The tally of no cards.
    pub open spec fn empty() -> Tally {
        Tally {
            f: Seq::new(13, |r: int| 0int),
            sm: Seq::new(4, |s: int| 0u16),
            sc: Seq::new(4, |s: int| 0int),
            rm: 0,
        }
    }

    /// Whether the masks hold only the thirteen ranks.
    pub open spec fn ranks_only(self) -> bool {
        &&& self.sm.len() == 4
        &&& forall|s: int| 0 <= s < 4 ==> #[trigger] self.sm[s] < 8192
        &&& self.rm < 8192
    }

    /// The tally with one more card.
    pub open spec fn add(self, c: u8) -> Tally {
        let r = rank_of(c);
        let s = suit_of(c);
        Tally {
            f: self.f.update(r, self.f[r] + 1),
            sm: self.sm.update(s, self.sm[s] | (1u16 << (r as u16))),
            sc: self.sc.update(s, self.sc[s] + 1),
            rm: self.rm | (1u16 << (r as u16)),
        }
    }
}

/// The cards seen so far, as far as scoring needs them.
pub struct St {
    /// How many cards of each rank.
    pub f: [u8; 13],
    /// The ranks held in each suit, as a bit mask.
    pub sm: [u16; 4],
    /// How many cards of each suit.
    pub sc: [u8; 4],
    /// The ranks held in any suit, as a bit mask.
    pub rm: u16,
}

impl Clone for St {
    fn clone(&self) -> (copy: St)
        ensures
            copy == *self,
    {
        *self
    }
}

impl Copy for St {

}

impl View for St {
    type V = Tally;

    open spec fn view(&self) -> Tally {
        Tally {
            f: Seq::new(13, |r: int| self.f[r] as int),
            sm: self.sm@,
            sc: Seq::new(4, |s: int| self.sc[s] as int),
            rm: self.rm,
        }
    }
}

impl St {
    /// A tally of no cards.
    pub fn new() -> (st: St)
        ensures
            st@ == Tally::empty(),
            st@.ranks_only(),
            forall|r: int| 0 <= r < 13 ==> #[trigger] st.f[r] == 0,
            forall|s: int| 0 <= s < 4 ==> #[trigger] st.sc[s] == 0 && st.sm[s] == 0,
            st.rm == 0,
    {
        let st = St { f: [0; 13], sm: [0; 4], sc: [0; 4], rm: 0 };
        assert(st@ =~= Tally::empty());
        st
    }

    /// Counts one more card.
    pub fn add(&mut self, c: u8)
        requires
            c < 52,
            old(self)@.f[rank_of(c)] < 255,
            old(self)@.sc[suit_of(c)] < 255,
        ensures
            final(self)@ == old(self)@.add(c),
            old(self)@.ranks_only() ==> final(self)@.ranks_only(),
            final(self).f[c as int / 4] == old(self).f[c as int / 4] + 1,
            forall|r: int|
                0 <= r < 13 && r != c as int / 4 ==> #[trigger] final(self).f[r] == old(self).f[r],
            final(self).sc[c as int % 4] == old(self).sc[c as int % 4] + 1,
            forall|s: int|
                0 <= s < 4 && s != c as int % 4 ==> #[trigger] final(self).sc[s] == old(
                    self,
                ).sc[s] && final(self).sm[s] == old(self).sm[s],
            final(self).sm[c as int % 4] == old(self).sm[c as int % 4] | (1u16 << ((c as int
                / 4) as u16)),
            final(self).rm == old(self).rm | (1u16 << ((c as int / 4) as u16)),
    {
        proof {
            card_fields(c);
            if old(self)@.ranks_only() {
                mask_insert(old(self)@.rm, rank_of(c) as u16);
                mask_insert(old(self)@.sm[suit_of(c)], rank_of(c) as u16);
            }
            assert(self@.f[rank_of(c)] == self.f[rank_of(c)]);
            assert(self@.sc[suit_of(c)] == self.sc[suit_of(c)]);
        }
        let r: usize = (c >> 2) as usize;
        let s: usize = (c & 3) as usize;
        self.f[r] = self.f[r] + 1;
        self.sm[s] = self.sm[s] | (1u16 << r);
        self.sc[s] = self.sc[s] + 1;
        self.rm = self.rm | (1u16 << r);
        assert(self@ =~= old(self)@.add(c));
    }
}

} // verus!
