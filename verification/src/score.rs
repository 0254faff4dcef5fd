//! One player's 19-slot table of per-round values (bids, in the packed
//! record), indexed by round number.

use vstd::prelude::*;
use crate::round_codec::{round_scheme_max, scheme_max};

verus! {

/// What a well-formed bid table looks like: 19 slots, each within its
/// round's representable range.
pub open spec fn table_wf(t: Seq<u8>) -> bool {
    &&& t.len() == 19
    &&& forall|r: int| 1 <= r <= 19 ==> #[trigger] t[r - 1] as nat <= round_scheme_max(r)
}

/// A fixed table of 19 per-round values.  Every slot stays within its
/// round's representable range, so the table can always be encoded.
pub struct ScoreTable {
    slots: Vec<u8>,
}

impl ScoreTable {
    /// The 19 stored values, slot `r - 1` holding round `r`'s value.
    pub closed spec fn view(&self) -> Seq<u8> {
        self.slots@
    }

    pub open spec fn wf(&self) -> bool {
        table_wf(self@)
    }

    /// A fresh table, every round's value zero.
    pub fn new() -> (t: ScoreTable)
        ensures
            t.wf(),
            t@ == Seq::new(19, |i: int| 0u8),
    {
        let mut slots: Vec<u8> = Vec::new();
        let mut i: usize = 0;
        while i < 19
            invariant
                i <= 19,
                slots@ == Seq::new(i as nat, |j: int| 0u8),
            decreases 19 - i,
        {
            slots.push(0);
            proof {
                assert(slots@ =~= Seq::new((i + 1) as nat, |j: int| 0u8));
            }
            i = i + 1;
        }
        let t = ScoreTable { slots };
        proof {
            assert(t.wf()) by {
                vstd::arithmetic::power2::lemma2_to64();
            };
        }
        t
    }

    /// The value stored for `round`.
    pub fn get_round(&self, round: u8) -> (v: u8)
        requires
            self.wf(),
            1 <= round <= 19,
        ensures
            v == self@[round - 1],
            v as nat <= round_scheme_max(round as int),
    {
        self.slots[(round - 1) as usize]
    }

    /// Stores `value` for `round`; the value must fit the round's scheme.
    pub fn set_round(&mut self, round: u8, value: u8)
        requires
            old(self).wf(),
            1 <= round <= 19,
            value as nat <= round_scheme_max(round as int),
        ensures
            final(self).wf(),
            final(self)@ == old(self)@.update(round - 1, value),
    {
        self.slots.set((round - 1) as usize, value);
    }

    /// Whether `value` can be stored for `round` at all.
    pub fn accepts(round: u8, value: u8) -> (r: bool)
        requires
            1 <= round <= 19,
        ensures
            r == (value as nat <= round_scheme_max(round as int)),
    {
        value <= scheme_max(round)
    }
}

} // verus!
