//! The per-round trump designator and its 3-bit wire tag.

use vstd::prelude::*;

verus! {

/// One round's trump: one of the four suits, or no trump at all.
#[derive(Clone, Copy, Debug, PartialEq, Eq, Structural)]
pub enum Trump {
    Spade,
    Heart,
    Club,
    Diamond,
    NoTrump,
}

/// The 3-bit tag a trump serializes to.
pub open spec fn trump_tag(t: Trump) -> nat {
    match t {
        Trump::Spade => 0,
        Trump::Heart => 1,
        Trump::Club => 2,
        Trump::Diamond => 3,
        Trump::NoTrump => 4,
    }
}

/// The trump a 3-bit tag decodes to; tags above 4 are decode errors.
pub open spec fn trump_of_tag(tag: nat) -> Option<Trump> {
    if tag == 0 {
        Option::Some(Trump::Spade)
    } else if tag == 1 {
        Option::Some(Trump::Heart)
    } else if tag == 2 {
        Option::Some(Trump::Club)
    } else if tag == 3 {
        Option::Some(Trump::Diamond)
    } else if tag == 4 {
        Option::Some(Trump::NoTrump)
    } else {
        Option::None
    }
}

/// The trump a tag maps to when the tag is already known to be valid;
/// tags above 4 fall to `NoTrump` here and are rejected by `trump_of_tag`.
pub open spec fn trump_of_tag_unchecked(tag: nat) -> Trump {
    if tag == 0 {
        Trump::Spade
    } else if tag == 1 {
        Trump::Heart
    } else if tag == 2 {
        Trump::Club
    } else if tag == 3 {
        Trump::Diamond
    } else {
        Trump::NoTrump
    }
}

/// The five trump tags are distinct 3-bit patterns, each decodes back to its
/// own variant, and every tag above 4 is rejected.
pub proof fn lemma_trump_codec()
    ensures
        forall|t: Trump| #[trigger] trump_tag(t) <= 4,
        forall|t: Trump| trump_of_tag(#[trigger] trump_tag(t)) == Option::Some(t),
        forall|t1: Trump, t2: Trump| #[trigger] trump_tag(t1) == #[trigger] trump_tag(t2)
            ==> t1 == t2,
        forall|tag: nat| tag > 4 ==> #[trigger] trump_of_tag(tag) is None,
{
}

impl Trump {
    /// The wire tag of this trump.
    pub fn tag(&self) -> (tag: u8)
        ensures
            tag as nat == trump_tag(*self),
    {
        match self {
            Trump::Spade => 0,
            Trump::Heart => 1,
            Trump::Club => 2,
            Trump::Diamond => 3,
            Trump::NoTrump => 4,
        }
    }

    /// Decodes a wire tag; tags above 4 are unrecognized.
    pub fn from_tag(tag: u8) -> (t: Option<Trump>)
        ensures
            t == trump_of_tag(tag as nat),
    {
        if tag == 0 {
            Option::Some(Trump::Spade)
        } else if tag == 1 {
            Option::Some(Trump::Heart)
        } else if tag == 2 {
            Option::Some(Trump::Club)
        } else if tag == 3 {
            Option::Some(Trump::Diamond)
        } else if tag == 4 {
            Option::Some(Trump::NoTrump)
        } else {
            Option::None
        }
    }
}

} // verus!
