//! Per-round tagged encodings for one bid or trick-count value.
//!
//! Each round stores a value in `0..=cardsPerRound` with one of two schemes,
//! chosen once per round from the card count:
//!
//!   * zero/non-zero — a `0` tag bit encodes the value 0; a `1` tag bit is
//!     followed by `b` payload bits encoding `payload + 1`.  Used for the
//!     small rounds (5 cards or fewer).
//!   * at-most-three/higher — a `0` tag bit plus 2 payload bits encodes
//!     values 0..=3; a `1` tag bit plus `b` payload bits encodes
//!     `payload + 3`.  Used for the large rounds (6 cards or more).

use vstd::prelude::*;
use vstd::arithmetic::power2::*;
use crate::bits::{bits_of, int_of, lemma_bits_of_len, lemma_int_of_bits_of, lemma_int_of_bound,
    BitReader, BitWriter};
use crate::spec_cards_per_round;
use crate::cards_per_round;

verus! {

/// Whether `round` uses the zero/non-zero scheme (the small rounds).
pub open spec fn round_is_zero_nonzero(round: int) -> bool {
    spec_cards_per_round(round) <= 5
}

/// Payload width for `round`, from the fixed per-round table.
pub open spec fn round_payload_bits(round: int) -> nat {
    let c = spec_cards_per_round(round);
    if c >= 7 {
        3
    } else if c == 6 {
        2
    } else if c == 5 {
        3
    } else if c >= 3 {
        2
    } else {
        1
    }
}

/// The largest value the round's scheme can represent.
pub open spec fn round_scheme_max(round: int) -> nat {
    if round_is_zero_nonzero(round) {
        pow2(round_payload_bits(round))
    } else {
        pow2(round_payload_bits(round)) + 2
    }
}

/// Every legal value of a round fits its scheme.
pub proof fn lemma_cards_within_scheme(round: int)
    requires
        1 <= round <= 19,
    ensures
        spec_cards_per_round(round) <= round_scheme_max(round),
        round_scheme_max(round) <= 10,
{
    lemma2_to64();
}

/// The encoded bits of `value` in `round`'s scheme: a tag bit, then the
/// payload if the tag asks for one.
pub open spec fn value_bits(round: int, value: nat) -> Seq<bool> {
    let b = round_payload_bits(round);
    if round_is_zero_nonzero(round) {
        if value == 0 {
            seq![false]
        } else {
            seq![true] + bits_of((value - 1) as nat, b)
        }
    } else {
        if value <= 3 {
            seq![false] + bits_of(value, 2)
        } else {
            seq![true] + bits_of((value - 3) as nat, b)
        }
    }
}

/// What a decoder finds at `pos`: the value and the position after it, or
/// nothing if the stream ends inside the slot.
pub open spec fn sp_parse_value(bits: Seq<bool>, pos: int, round: int) -> Option<(nat, int)> {
    let b = round_payload_bits(round) as int;
    if !(0 <= pos < bits.len()) {
        Option::None
    } else if round_is_zero_nonzero(round) {
        if !bits[pos] {
            Option::Some((0nat, pos + 1))
        } else if pos + 1 + b <= bits.len() {
            Option::Some((int_of(bits.subrange(pos + 1, pos + 1 + b)) + 1, pos + 1 + b))
        } else {
            Option::None
        }
    } else {
        if !bits[pos] {
            if pos + 3 <= bits.len() {
                Option::Some((int_of(bits.subrange(pos + 1, pos + 3)), pos + 3))
            } else {
                Option::None
            }
        } else if pos + 1 + b <= bits.len() {
            Option::Some((int_of(bits.subrange(pos + 1, pos + 1 + b)) + 3, pos + 1 + b))
        } else {
            Option::None
        }
    }
}

/// Decoding finds exactly the value whose encoding sits at `pos`.
pub proof fn lemma_parse_value_inverts(bits: Seq<bool>, pos: int, round: int, value: nat)
    requires
        1 <= round <= 19,
        value <= round_scheme_max(round),
        0 <= pos,
        pos + value_bits(round, value).len() <= bits.len(),
        bits.subrange(pos, pos + value_bits(round, value).len()) == value_bits(round, value),
    ensures
        sp_parse_value(bits, pos, round) == Option::Some((
            value,
            pos + value_bits(round, value).len(),
        )),
{
    let b = round_payload_bits(round);
    let enc = value_bits(round, value);
    lemma2_to64();
    if round_is_zero_nonzero(round) {
        if value == 0 {
            assert(bits[pos] == enc[0]);
        } else {
            lemma_bits_of_len((value - 1) as nat, b);
            assert(bits[pos] == enc[0]);
            assert(bits.subrange(pos + 1, pos + 1 + b as int) =~= bits.subrange(
                pos,
                pos + enc.len(),
            ).subrange(1, 1 + b as int));
            assert(enc.subrange(1, 1 + b as int) =~= bits_of((value - 1) as nat, b));
            lemma_int_of_bits_of((value - 1) as nat, b);
        }
    } else {
        if value <= 3 {
            lemma_bits_of_len(value, 2);
            assert(bits[pos] == enc[0]);
            assert(bits.subrange(pos + 1, pos + 3) =~= bits.subrange(pos, pos + enc.len()).subrange(
                1,
                3,
            ));
            assert(enc.subrange(1, 3) =~= bits_of(value, 2));
            lemma_int_of_bits_of(value, 2);
        } else {
            lemma_bits_of_len((value - 3) as nat, b);
            assert(bits[pos] == enc[0]);
            assert(bits.subrange(pos + 1, pos + 1 + b as int) =~= bits.subrange(
                pos,
                pos + enc.len(),
            ).subrange(1, 1 + b as int));
            assert(enc.subrange(1, 1 + b as int) =~= bits_of((value - 3) as nat, b));
            lemma_int_of_bits_of((value - 3) as nat, b);
        }
    }
}

/// Round-trip law for one slot: every value a round can legally hold comes
/// back unchanged from its own encoding.
pub proof fn lemma_round_value_round_trip(round: int, value: nat)
    requires
        1 <= round <= 19,
        value <= spec_cards_per_round(round),
    ensures
        sp_parse_value(value_bits(round, value), 0, round) == Option::Some((
            value,
            value_bits(round, value).len() as int,
        )),
{
    lemma_cards_within_scheme(round);
    let enc = value_bits(round, value);
    assert(enc.subrange(0, enc.len() as int) =~= enc);
    lemma_parse_value_inverts(enc, 0, round, value);
}

/// The scheme and payload width of `round`, as executable values:
/// `(zero_nonzero, payload_bits)`.
pub fn scheme_of(round: u8) -> (r: (bool, u8))
    requires
        1 <= round <= 19,
    ensures
        r.0 == round_is_zero_nonzero(round as int),
        r.1 as nat == round_payload_bits(round as int),
{
    let c = cards_per_round(round);
    if c >= 7 {
        (false, 3)
    } else if c == 6 {
        (false, 2)
    } else if c == 5 {
        (true, 3)
    } else if c >= 3 {
        (true, 2)
    } else {
        (true, 1)
    }
}

/// The largest value `round`'s scheme can represent.
pub fn scheme_max(round: u8) -> (r: u8)
    requires
        1 <= round <= 19,
    ensures
        r as nat == round_scheme_max(round as int),
{
    proof {
        lemma2_to64();
    }
    let (zero_nonzero, b) = scheme_of(round);
    let base: u8 = if b == 3 {
        8
    } else if b == 2 {
        4
    } else {
        2
    };
    if zero_nonzero {
        base
    } else {
        base + 2
    }
}

/// Appends the encoding of `value` for `round` to the stream.
pub fn encode_value(w: &mut BitWriter, round: u8, value: u8)
    requires
        1 <= round <= 19,
        value as nat <= round_scheme_max(round as int),
    ensures
        final(w)@ == old(w)@ + value_bits(round as int, value as nat),
{
    proof {
        lemma2_to64();
        reveal_with_fuel(bits_of, 3);
    }
    let (zero_nonzero, b) = scheme_of(round);
    if zero_nonzero {
        if value == 0 {
            w.push_bits(0, 1);
            proof {
                assert(bits_of(0nat, 1) =~= seq![false]);
            }
        } else {
            w.push_bits(1, 1);
            w.push_bits((value - 1) as u16, b as usize);
            proof {
                assert(bits_of(1nat, 1) =~= seq![true]);
                assert(old(w)@ + seq![true] + bits_of((value - 1) as nat, b as nat) =~= old(w)@
                    + (seq![true] + bits_of((value - 1) as nat, b as nat)));
            }
        }
    } else {
        if value <= 3 {
            w.push_bits(0, 1);
            w.push_bits(value as u16, 2);
            proof {
                assert(bits_of(0nat, 1) =~= seq![false]);
                assert(old(w)@ + seq![false] + bits_of(value as nat, 2) =~= old(w)@ + (seq![false]
                    + bits_of(value as nat, 2)));
            }
        } else {
            w.push_bits(1, 1);
            w.push_bits((value - 3) as u16, b as usize);
            proof {
                assert(bits_of(1nat, 1) =~= seq![true]);
                assert(old(w)@ + seq![true] + bits_of((value - 3) as nat, b as nat) =~= old(w)@
                    + (seq![true] + bits_of((value - 3) as nat, b as nat)));
            }
        }
    }
}

/// Reads one slot of `round`'s scheme off the stream; fails only when the
/// stream ends inside the slot.
pub fn decode_value(r: &mut BitReader, round: u8) -> (v: Option<u8>)
    requires
        old(r).wf(),
        1 <= round <= 19,
    ensures
        final(r).wf(),
        final(r).bits() == old(r).bits(),
        match v {
            Option::Some(value) => sp_parse_value(old(r).bits(), old(r).pos() as int, round as int)
                == Option::Some((value as nat, final(r).pos() as int)) && value as nat
                <= round_scheme_max(round as int),
            Option::None => sp_parse_value(old(r).bits(), old(r).pos() as int, round as int)
                is None,
        },
{
    proof {
        lemma2_to64();
    }
    let (zero_nonzero, b) = scheme_of(round);
    if r.remaining() == 0 {
        return Option::None;
    }
    let tag = r.read_bits(1);
    proof {
        reveal_with_fuel(int_of, 3);
        let s = old(r).bits().subrange(old(r).pos() as int, old(r).pos() as int + 1);
        assert(s =~= seq![old(r).bits()[old(r).pos() as int]]);
        assert(s.drop_last() =~= Seq::<bool>::empty());
        assert(int_of(s) == (if s[0] { 1nat } else { 0nat }));
    }
    if zero_nonzero {
        if tag == 0 {
            return Option::Some(0);
        }
        if r.remaining() < b as usize {
            return Option::None;
        }
        let p = r.read_bits(b as usize);
        proof {
            lemma_int_of_bound(old(r).bits().subrange(
                old(r).pos() as int + 1,
                old(r).pos() as int + 1 + b as int,
            ));
            lemma_pow2_strictly_increases(b as nat, 4);
        }
        Option::Some((p as u8) + 1)
    } else {
        if tag == 0 {
            if r.remaining() < 2 {
                return Option::None;
            }
            let p = r.read_bits(2);
            proof {
                lemma_int_of_bound(old(r).bits().subrange(old(r).pos() as int + 1, old(r).pos() as int + 3));
            }
            Option::Some(p as u8)
        } else {
            if r.remaining() < b as usize {
                return Option::None;
            }
            let p = r.read_bits(b as usize);
            proof {
                lemma_int_of_bound(old(r).bits().subrange(
                    old(r).pos() as int + 1,
                    old(r).pos() as int + 1 + b as int,
                ));
                lemma_pow2_strictly_increases(b as nat, 4);
            }
            Option::Some((p as u8) + 3)
        }
    }
}

} // verus!
