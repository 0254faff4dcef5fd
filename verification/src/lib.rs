//! Compact binary codec for the saved state of a 19-round trick-taking match.
//!
//! The match state (players, per-round trump, bids and tricks won) is packed
//! into a short byte string with variable-width fields so that a game in
//! progress can be shared as an opaque token.  Every packing and unpacking
//! step is specified and verified down to the bit level.

pub mod bits;
pub mod mapper;
pub mod record;
pub mod round_codec;
pub mod score;
pub mod tricks;
pub mod trump;

use vstd::prelude::*;

verus! {

/// Number of cards dealt in `round` (1-indexed, 1..=19): the triangular
/// schedule 10, 9, ..., 2, 1, 2, ..., 9, 10, symmetric around round 10.
pub open spec fn spec_cards_per_round(round: int) -> int {
    if round <= 10 {
        11 - round
    } else {
        round - 9
    }
}

/// Cards dealt in `round`, following the fixed 19-round schedule.
pub fn cards_per_round(round: u8) -> (n: u8)
    requires
        1 <= round <= 19,
    ensures
        n == spec_cards_per_round(round as int),
        1 <= n <= 10,
{
    if round <= 10 {
        11 - round
    } else {
        round - 9
    }
}

/// Packs a structured match into its byte string.  Succeeds exactly on the
/// matches whose values fit their fields (`packable`); everything else is
/// refused before any packing, as an invalid match.
pub fn serialize(game: &mapper::JsGame) -> (res: Result<Vec<u8>, record::SerializeError>)
    ensures
        mapper::packable(game@) <==> res is Ok,
        res matches Result::Ok(bytes) ==> bits::bits_of_bytes(bytes@) == record::record_padded_bits(
            mapper::record_of(game@),
        ),
        res matches Result::Err(e) ==> e == record::SerializeError::InvalidMatch,
{
    match mapper::match_to_record(game) {
        Result::Ok(rec) => Result::Ok(record::serialize_record(&rec)),
        Result::Err(e) => Result::Err(e),
    }
}

/// Unpacks a byte string into the structured match it encodes.  Succeeds
/// exactly when the bits carry a record; trailing bytes are ignored.
pub fn deserialize(data: Vec<u8>) -> (res: Result<mapper::JsGame, record::SerializeError>)
    ensures
        match record::sp_parse_record(bits::bits_of_bytes(data@)) {
            Option::Some(v) => res matches Result::Ok(g) && g@ == mapper::match_of_record(v),
            Option::None => res matches Result::Err(e) && e == record::sp_parse_record_err(
                bits::bits_of_bytes(data@),
            ),
        },
{
    match record::deserialize_record(&data) {
        Result::Ok(rec) => Result::Ok(mapper::record_to_match(&rec)),
        Result::Err(e) => Result::Err(e),
    }
}

/// The round-trip law: a consistent saved match state packs, and unpacking
/// the packed bytes restores it exactly.  Together with the contracts of
/// `serialize` and `deserialize` this gives
/// `deserialize(serialize(m)) == Ok(m)` for every `m` with `match_wf(m@)`.
pub proof fn lemma_match_round_trip(m: mapper::JsGameView)
    requires
        mapper::match_wf(m),
    ensures
        mapper::packable(m),
        record::record_wf(mapper::record_of(m)),
        record::sp_parse_record(record::record_padded_bits(mapper::record_of(m)))
            == Option::Some(mapper::record_of(m)),
        mapper::match_of_record(mapper::record_of(m)) == m,
{
    mapper::lemma_mapper_round_trip(m);
    record::lemma_record_round_trip(mapper::record_of(m));
}

} // verus!
