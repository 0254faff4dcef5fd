//! The packed match record and its exact bit layout.
//!
//! Field order on the wire, most significant bit first, no padding between
//! fields: name length (8 bits) · name bytes · player count (3) · per player
//! its name length (8) and name bytes · starting dealer (3) · round count
//! (5) · current round (5) · one 3-bit trump tag per round · one 19-slot bid
//! table per player (widths per `round_codec`) · 19 packed trick fields
//! (widths per `trick_width`).  Only the final byte is padded, with zeros.

use vstd::prelude::*;
use vstd::arithmetic::power2::*;
use crate::bits::{bits_of, bits_of_bytes, int_of, lemma_bits_of_len, lemma_bits_of_bytes_len,
    lemma_int_of_bits_of, lemma_int_of_bound, pad_len, zero_bits, bits_to_bytes, bytes_to_bits,
    BitReader, BitWriter};
use crate::round_codec::{sp_parse_value, value_bits, decode_value, encode_value};
use crate::score::{table_wf, ScoreTable};
use crate::spec_cards_per_round;
use crate::cards_per_round;
use crate::trump::{trump_of_tag, trump_tag, Trump};

verus! {

/// Why packing or unpacking a record was refused.
#[derive(Clone, Copy, Debug, PartialEq, Eq, Structural)]
pub enum SerializeError {
    /// The byte string ended inside a field.
    Truncated,
    /// A trump tag above 4 was read.
    UnknownTrump,
    /// The stored player count is zero, or a roster is larger than the
    /// 3-bit field allows.
    BadPlayerCount,
    /// The stored round count exceeds the fixed 19-round schedule.
    BadRoundCount,
    /// The structured match given to packing breaks an invariant of the
    /// data model.
    InvalidMatch,
}

/// Width in bits of the packed trick field of `round`: room for five
/// players' markers on top of the cards dealt.
pub open spec fn trick_width(round: int) -> nat {
    (spec_cards_per_round(round) + 5) as nat
}

/// Executable counterpart of `trick_width`.
pub fn trick_width_of(round: u8) -> (w: u8)
    requires
        1 <= round <= 19,
    ensures
        w as nat == trick_width(round as int),
        6 <= w <= 15,
{
    cards_per_round(round) + 5
}

/// Capacity of the packed trick fields: with at most five players, any
/// full set of trick counts for a round — up to the round's whole card
/// count, one marker bit per player — fits the round's field.
pub proof fn lemma_trick_field_capacity(round: int, ts: Seq<nat>)
    requires
        1 <= round <= 19,
        ts.len() <= 5,
        crate::tricks::trick_sum(ts) <= spec_cards_per_round(round),
    ensures
        crate::tricks::pack_spec(ts) < pow2(trick_width(round)),
{
    crate::tricks::lemma_pack_below_cost(ts);
    let c = crate::tricks::trick_cost(ts);
    if c < trick_width(round) {
        lemma_pow2_strictly_increases(c, trick_width(round));
    }
}

/// The packed record: everything the wire format stores.  `n_players` and
/// `n_rounds` are not stored twice; they are the roster and trump lengths.
pub struct MatchRecord {
    /// Match name, UTF-8 bytes (at most 255).
    pub name: Vec<u8>,
    /// Each player's display name, UTF-8 bytes (at most 255 each).
    pub players: Vec<Vec<u8>>,
    /// 0-based index of the dealer of round 1.
    pub start_dealer: u8,
    /// 1-based round the match is playing or about to bid on.
    pub current_round: u8,
    /// One trump per round of the match.
    pub trumps: Vec<Trump>,
    /// One 19-slot bid table per player.
    pub player_bids: Vec<ScoreTable>,
    /// One packed trick field per schedule round, all 19 always present.
    pub tricks: Vec<u16>,
}

/// The record's mathematical shadow: every field as a sequence or number.
pub struct RecordView {
    pub name: Seq<u8>,
    pub players: Seq<Seq<u8>>,
    pub start_dealer: u8,
    pub current_round: u8,
    pub trumps: Seq<Trump>,
    pub player_bids: Seq<Seq<u8>>,
    pub tricks: Seq<u16>,
}

impl View for MatchRecord {
    type V = RecordView;

    open spec fn view(&self) -> RecordView {
        RecordView {
            name: self.name@,
            players: self.players@.map_values(|p: Vec<u8>| p@),
            start_dealer: self.start_dealer,
            current_round: self.current_round,
            trumps: self.trumps@,
            player_bids: self.player_bids@.map_values(|t: ScoreTable| t@),
            tricks: self.tricks@,
        }
    }
}

/// The invariants a record must meet to be packed.
pub open spec fn record_wf(v: RecordView) -> bool {
    &&& v.name.len() <= 255
    &&& 1 <= v.players.len() <= 7
    &&& forall|i: int| 0 <= i < v.players.len() ==> (#[trigger] v.players[i]).len() <= 255
    &&& v.start_dealer < 8
    &&& v.current_round < 32
    &&& v.trumps.len() <= 19
    &&& v.player_bids.len() == v.players.len()
    &&& forall|i: int| 0 <= i < v.player_bids.len() ==> table_wf(#[trigger] v.player_bids[i])
    &&& v.tricks.len() == 19
    &&& forall|r: int| 1 <= r <= 19 ==> (#[trigger] v.tricks[r - 1] as nat) < pow2(trick_width(r))
}

/// Bits of one roster entry: length prefix, then the name bytes.
pub open spec fn player_bits(name: Seq<u8>) -> Seq<bool> {
    bits_of(name.len(), 8) + bits_of_bytes(name)
}

/// Bits of the roster entries from index `i` on.
pub open spec fn players_bits_from(ps: Seq<Seq<u8>>, i: int) -> Seq<bool>
    decreases ps.len() - i,
{
    if i < 0 || i >= ps.len() {
        Seq::empty()
    } else {
        player_bits(ps[i]) + players_bits_from(ps, i + 1)
    }
}

/// Bits of the trump tags from index `i` on.
pub open spec fn trumps_bits_from(ts: Seq<Trump>, i: int) -> Seq<bool>
    decreases ts.len() - i,
{
    if i < 0 || i >= ts.len() {
        Seq::empty()
    } else {
        bits_of(trump_tag(ts[i]), 3) + trumps_bits_from(ts, i + 1)
    }
}

/// Bits of one bid table from `round` through round 19.
pub open spec fn table_bits_from(t: Seq<u8>, round: int) -> Seq<bool>
    decreases 20 - round,
{
    if round < 1 || round > 19 {
        Seq::empty()
    } else {
        value_bits(round, t[round - 1] as nat) + table_bits_from(t, round + 1)
    }
}

/// Bits of the bid tables from player `i` on.
pub open spec fn bids_bits_from(bs: Seq<Seq<u8>>, i: int) -> Seq<bool>
    decreases bs.len() - i,
{
    if i < 0 || i >= bs.len() {
        Seq::empty()
    } else {
        table_bits_from(bs[i], 1) + bids_bits_from(bs, i + 1)
    }
}

/// Bits of the packed trick fields from `round` through round 19.
pub open spec fn tricks_bits_from(ts: Seq<u16>, round: int) -> Seq<bool>
    decreases 20 - round,
{
    if round < 1 || round > 19 {
        Seq::empty()
    } else {
        bits_of(ts[round - 1] as nat, trick_width(round)) + tricks_bits_from(ts, round + 1)
    }
}

/// The full wire image of a record, before byte padding.
pub open spec fn record_bits(v: RecordView) -> Seq<bool> {
    bits_of(v.name.len(), 8) + bits_of_bytes(v.name) + bits_of(v.players.len(), 3)
        + players_bits_from(v.players, 0) + bits_of(v.start_dealer as nat, 3) + bits_of(
        v.trumps.len(),
        5,
    ) + bits_of(v.current_round as nat, 5) + trumps_bits_from(v.trumps, 0) + bids_bits_from(
        v.player_bids,
        0,
    ) + tricks_bits_from(v.tricks, 1)
}

/// The byte string a record serializes to: its bits, zero-padded to whole
/// bytes.
pub open spec fn record_padded_bits(v: RecordView) -> Seq<bool> {
    record_bits(v) + zero_bits(pad_len(record_bits(v).len()))
}

// ------------------------------------------------------------------
// The specification-level parser: what any stream of bits decodes to.
// ------------------------------------------------------------------

/// A fixed-width read: the value at `pos`, or nothing past the end.
pub open spec fn sp_read(bits: Seq<bool>, pos: int, width: int) -> Option<(nat, int)> {
    if 0 <= pos && pos + width <= bits.len() {
        Option::Some((int_of(bits.subrange(pos, pos + width)), pos + width))
    } else {
        Option::None
    }
}

/// The byte whose eight bits start at `pos`.
pub open spec fn byte_at(bits: Seq<bool>, pos: int) -> u8 {
    int_of(bits.subrange(pos, pos + 8)) as u8
}

/// `count` bytes starting at `pos`, or nothing past the end.
pub open spec fn sp_read_bytes(bits: Seq<bool>, pos: int, count: int) -> Option<(Seq<u8>, int)> {
    if 0 <= pos && 0 <= count && pos + 8 * count <= bits.len() {
        Option::Some((Seq::new(count as nat, |i: int| byte_at(bits, pos + 8 * i)), pos + 8 * count))
    } else {
        Option::None
    }
}

/// One roster entry: a length byte, then that many name bytes.
pub open spec fn sp_parse_player(bits: Seq<bool>, pos: int) -> Option<(Seq<u8>, int)> {
    match sp_read(bits, pos, 8) {
        Option::Some((len, p)) => sp_read_bytes(bits, p, len as int),
        Option::None => Option::None,
    }
}

/// `count` roster entries in order.
pub open spec fn sp_parse_players(bits: Seq<bool>, pos: int, count: int) -> Option<
    (Seq<Seq<u8>>, int),
>
    decreases count,
{
    if count <= 0 {
        Option::Some((Seq::empty(), pos))
    } else {
        match sp_parse_player(bits, pos) {
            Option::Some((name, p)) => match sp_parse_players(bits, p, count - 1) {
                Option::Some((rest, q)) => Option::Some((seq![name] + rest, q)),
                Option::None => Option::None,
            },
            Option::None => Option::None,
        }
    }
}

/// `count` trump tags; a tag above 4 fails the parse.
pub open spec fn sp_parse_trumps(bits: Seq<bool>, pos: int, count: int) -> Option<
    (Seq<Trump>, int),
>
    decreases count,
{
    if count <= 0 {
        Option::Some((Seq::empty(), pos))
    } else {
        match sp_read(bits, pos, 3) {
            Option::Some((tag, p)) => match trump_of_tag(tag) {
                Option::Some(t) => match sp_parse_trumps(bits, p, count - 1) {
                    Option::Some((rest, q)) => Option::Some((seq![t] + rest, q)),
                    Option::None => Option::None,
                },
                Option::None => Option::None,
            },
            Option::None => Option::None,
        }
    }
}

/// One bid table, rounds `round` through 19.
pub open spec fn sp_parse_table_from(bits: Seq<bool>, pos: int, round: int) -> Option<
    (Seq<u8>, int),
>
    decreases 20 - round,
{
    if round > 19 {
        Option::Some((Seq::empty(), pos))
    } else if round < 1 {
        Option::None
    } else {
        match sp_parse_value(bits, pos, round) {
            Option::Some((v, p)) => match sp_parse_table_from(bits, p, round + 1) {
                Option::Some((rest, q)) => Option::Some((seq![v as u8] + rest, q)),
                Option::None => Option::None,
            },
            Option::None => Option::None,
        }
    }
}

/// `count` bid tables in player order.
pub open spec fn sp_parse_tables(bits: Seq<bool>, pos: int, count: int) -> Option<
    (Seq<Seq<u8>>, int),
>
    decreases count,
{
    if count <= 0 {
        Option::Some((Seq::empty(), pos))
    } else {
        match sp_parse_table_from(bits, pos, 1) {
            Option::Some((t, p)) => match sp_parse_tables(bits, p, count - 1) {
                Option::Some((rest, q)) => Option::Some((seq![t] + rest, q)),
                Option::None => Option::None,
            },
            Option::None => Option::None,
        }
    }
}

/// The packed trick fields, rounds `round` through 19.
pub open spec fn sp_parse_tricks_from(bits: Seq<bool>, pos: int, round: int) -> Option<
    (Seq<u16>, int),
>
    decreases 20 - round,
{
    if round > 19 {
        Option::Some((Seq::empty(), pos))
    } else if round < 1 {
        Option::None
    } else {
        match sp_read(bits, pos, trick_width(round) as int) {
            Option::Some((v, p)) => match sp_parse_tricks_from(bits, p, round + 1) {
                Option::Some((rest, q)) => Option::Some((seq![v as u16] + rest, q)),
                Option::None => Option::None,
            },
            Option::None => Option::None,
        }
    }
}

/// Which error a failed trump scan reports: the tag that was unrecognized,
/// or the end of the stream.
pub open spec fn sp_parse_trumps_err(bits: Seq<bool>, pos: int, count: int) -> SerializeError
    decreases count,
{
    if count <= 0 {
        SerializeError::Truncated
    } else {
        match sp_read(bits, pos, 3) {
            Option::Some((tag, p)) => match trump_of_tag(tag) {
                Option::Some(t) => sp_parse_trumps_err(bits, p, count - 1),
                Option::None => SerializeError::UnknownTrump,
            },
            Option::None => SerializeError::Truncated,
        }
    }
}

/// Which error a stream without a record meaning reports: every field but
/// the trump tags and the two stored counts can only fail by running out
/// of bits.
pub open spec fn sp_parse_record_err(bits: Seq<bool>) -> SerializeError {
    match sp_read(bits, 0, 8) {
        Option::None => SerializeError::Truncated,
        Option::Some((name_len, p1)) => match sp_read_bytes(bits, p1, name_len as int) {
            Option::None => SerializeError::Truncated,
            Option::Some((name, p2)) => match sp_read(bits, p2, 3) {
                Option::None => SerializeError::Truncated,
                Option::Some((n_players, p3)) => if n_players == 0 {
                    SerializeError::BadPlayerCount
                } else {
                    match sp_parse_players(bits, p3, n_players as int) {
                        Option::None => SerializeError::Truncated,
                        Option::Some((players, p4)) => match sp_read(bits, p4, 3) {
                            Option::None => SerializeError::Truncated,
                            Option::Some((dealer, p5)) => match sp_read(bits, p5, 5) {
                                Option::None => SerializeError::Truncated,
                                Option::Some((n_rounds, p6)) => if n_rounds > 19 {
                                    SerializeError::BadRoundCount
                                } else {
                                    match sp_read(bits, p6, 5) {
                                        Option::None => SerializeError::Truncated,
                                        Option::Some((current, p7)) => match sp_parse_trumps(
                                            bits,
                                            p7,
                                            n_rounds as int,
                                        ) {
                                            Option::None => sp_parse_trumps_err(
                                                bits,
                                                p7,
                                                n_rounds as int,
                                            ),
                                            Option::Some((trumps, p8)) => SerializeError::Truncated,
                                        },
                                    }
                                },
                            },
                        },
                    }
                },
            },
        },
    }
}

/// What a whole byte-aligned stream decodes to, if anything: the single
/// meaning of every packed record.
pub open spec fn sp_parse_record(bits: Seq<bool>) -> Option<RecordView> {
    match sp_read(bits, 0, 8) {
        Option::None => Option::None,
        Option::Some((name_len, p1)) => match sp_read_bytes(bits, p1, name_len as int) {
            Option::None => Option::None,
            Option::Some((name, p2)) => match sp_read(bits, p2, 3) {
                Option::None => Option::None,
                Option::Some((n_players, p3)) => if n_players == 0 {
                    Option::None
                } else {
                    match sp_parse_players(bits, p3, n_players as int) {
                        Option::None => Option::None,
                        Option::Some((players, p4)) => match sp_read(bits, p4, 3) {
                            Option::None => Option::None,
                            Option::Some((dealer, p5)) => match sp_read(bits, p5, 5) {
                                Option::None => Option::None,
                                Option::Some((n_rounds, p6)) => if n_rounds > 19 {
                                    Option::None
                                } else {
                                    match sp_read(bits, p6, 5) {
                                        Option::None => Option::None,
                                        Option::Some((current, p7)) => match sp_parse_trumps(
                                            bits,
                                            p7,
                                            n_rounds as int,
                                        ) {
                                            Option::None => Option::None,
                                            Option::Some((trumps, p8)) => match sp_parse_tables(
                                                bits,
                                                p8,
                                                n_players as int,
                                            ) {
                                                Option::None => Option::None,
                                                Option::Some((tables, p9)) => match sp_parse_tricks_from(
                                                    bits,
                                                    p9,
                                                    1,
                                                ) {
                                                    Option::None => Option::None,
                                                    Option::Some((tricks, _p10)) => Option::Some(
                                                        RecordView {
                                                            name,
                                                            players,
                                                            start_dealer: dealer as u8,
                                                            current_round: current as u8,
                                                            trumps,
                                                            player_bids: tables,
                                                            tricks,
                                                        },
                                                    ),
                                                },
                                            },
                                        },
                                    }
                                },
                            },
                        },
                    }
                },
            },
        },
    }
}


/// Packs a well-formed record into its byte string: the exact field order
/// above, zero-padded to whole bytes at the very end.
pub fn serialize_record(rec: &MatchRecord) -> (out: Vec<u8>)
    requires
        record_wf(rec@),
    ensures
        bits_of_bytes(out@) == record_padded_bits(rec@),
{
    let ghost v = rec@;
    proof {
        lemma2_to64();
    }
    let mut w = BitWriter::new();

    // Match name, length-prefixed.
    w.push_bits(rec.name.len() as u16, 8);
    w.push_bytes(&rec.name);
    proof {
        assert(w@ =~= Seq::<bool>::empty() + bits_of(v.name.len(), 8) + bits_of_bytes(v.name));
        assert(w@ =~= bits_of(v.name.len(), 8) + bits_of_bytes(v.name));
    }

    // Roster size, then each player's length-prefixed name.
    let n_players = rec.players.len();
    w.push_bits(n_players as u16, 3);
    let ghost p3 = bits_of(v.name.len(), 8) + bits_of_bytes(v.name) + bits_of(v.players.len(), 3);
    let mut i: usize = 0;
    proof {
        assert(w@ =~= p3);
    }
    while i < n_players
        invariant
            i <= n_players,
            n_players == v.players.len(),
            v == rec@,
            record_wf(v),
            w@ + players_bits_from(v.players, i as int) == p3 + players_bits_from(v.players, 0),
        decreases n_players - i,
    {
        let ghost w0 = w@;
        let name_len = rec.players[i].len();
        proof {
            lemma2_to64();
            assert(v.players[i as int] == rec.players@[i as int]@);
        }
        w.push_bits(name_len as u16, 8);
        w.push_bytes(&rec.players[i]);
        proof {
            let a = bits_of(v.players[i as int].len(), 8);
            let b = bits_of_bytes(v.players[i as int]);
            let rest = players_bits_from(v.players, i + 1);
            assert(players_bits_from(v.players, i as int) == (a + b) + rest);
            assert(w@ + rest =~= w0 + ((a + b) + rest));
        }
        i = i + 1;
    }
    let ghost p4 = p3 + players_bits_from(v.players, 0);
    proof {
        assert(players_bits_from(v.players, n_players as int) =~= Seq::<bool>::empty());
        assert(w@ + Seq::<bool>::empty() =~= w@);
        assert(w@ == p4);
    }

    // Dealer, round count, current round.
    w.push_bits(rec.start_dealer as u16, 3);
    let n_rounds = rec.trumps.len();
    w.push_bits(n_rounds as u16, 5);
    w.push_bits(rec.current_round as u16, 5);
    let ghost p7 = p4 + bits_of(v.start_dealer as nat, 3) + bits_of(v.trumps.len(), 5) + bits_of(
        v.current_round as nat,
        5,
    );
    proof {
        assert(w@ =~= p7);
    }

    // One 3-bit trump tag per round.
    let mut i: usize = 0;
    while i < n_rounds
        invariant
            i <= n_rounds,
            n_rounds == v.trumps.len(),
            v == rec@,
            record_wf(v),
            w@ + trumps_bits_from(v.trumps, i as int) == p7 + trumps_bits_from(v.trumps, 0),
        decreases n_rounds - i,
    {
        let ghost w0 = w@;
        let tag = rec.trumps[i].tag();
        proof {
            lemma2_to64();
        }
        w.push_bits(tag as u16, 3);
        proof {
            let a = bits_of(trump_tag(v.trumps[i as int]), 3);
            let rest = trumps_bits_from(v.trumps, i + 1);
            assert(w@ + rest =~= w0 + (a + rest));
        }
        i = i + 1;
    }
    let ghost p8 = p7 + trumps_bits_from(v.trumps, 0);
    proof {
        assert(trumps_bits_from(v.trumps, n_rounds as int) =~= Seq::<bool>::empty());
        assert(w@ + Seq::<bool>::empty() =~= w@);
        assert(w@ == p8);
    }

    // One 19-slot bid table per player.
    let mut p: usize = 0;
    while p < n_players
        invariant
            p <= n_players,
            n_players == v.player_bids.len(),
            v == rec@,
            record_wf(v),
            w@ + bids_bits_from(v.player_bids, p as int) == p8 + bids_bits_from(v.player_bids, 0),
        decreases n_players - p,
    {
        let ghost wp = w@;
        let ghost t = v.player_bids[p as int];
        proof {
            assert(t == rec.player_bids@[p as int]@);
            assert(table_wf(t));
        }
        let mut round: u8 = 1;
        proof {
            assert(wp + table_bits_from(t, 1) =~= wp + table_bits_from(t, 1));
        }
        while round <= 19
            invariant
                1 <= round <= 20,
                p < n_players,
                n_players == v.player_bids.len(),
                v == rec@,
                record_wf(v),
                t == v.player_bids[p as int],
                w@ + table_bits_from(t, round as int) == wp + table_bits_from(t, 1),
            decreases 20 - round,
        {
            let ghost w0 = w@;
            let value = rec.player_bids[p].get_round(round);
            encode_value(&mut w, round, value);
            proof {
                let a = value_bits(round as int, t[round - 1] as nat);
                let rest = table_bits_from(t, round + 1);
                assert(w@ + rest =~= w0 + (a + rest));
            }
            round = round + 1;
        }
        proof {
            let a = table_bits_from(t, 1);
            let rest = bids_bits_from(v.player_bids, p + 1);
            assert(table_bits_from(t, 20) =~= Seq::<bool>::empty());
            assert(w@ + Seq::<bool>::empty() =~= w@);
            assert(w@ == wp + a);
            assert(bids_bits_from(v.player_bids, p as int) == a + rest);
            assert(w@ + rest =~= wp + (a + rest));
        }
        p = p + 1;
    }
    let ghost p9 = p8 + bids_bits_from(v.player_bids, 0);
    proof {
        assert(bids_bits_from(v.player_bids, n_players as int) =~= Seq::<bool>::empty());
        assert(w@ + Seq::<bool>::empty() =~= w@);
        assert(w@ == p9);
    }

    // The 19 packed trick fields.
    let mut round: u8 = 1;
    while round <= 19
        invariant
            1 <= round <= 20,
            v == rec@,
            record_wf(v),
            w@ + tricks_bits_from(v.tricks, round as int) == p9 + tricks_bits_from(v.tricks, 1),
        decreases 20 - round,
    {
        let ghost w0 = w@;
        let width = trick_width_of(round);
        let field = rec.tricks[(round - 1) as usize];
        w.push_bits(field, width as usize);
        proof {
            let a = bits_of(v.tricks[round - 1] as nat, trick_width(round as int));
            let rest = tricks_bits_from(v.tricks, round + 1);
            assert(w@ + rest =~= w0 + (a + rest));
        }
        round = round + 1;
    }
    proof {
        assert(tricks_bits_from(v.tricks, 20) =~= Seq::<bool>::empty());
        assert(w@ + Seq::<bool>::empty() =~= w@);
        assert(w@ == p9 + tricks_bits_from(v.tricks, 1));
        assert(w@ == record_bits(v));
    }
    let all_bits = w.into_bits();
    bits_to_bytes(&all_bits)
}


/// A parse tail prefixed with what an earlier loop iteration already read.
pub open spec fn with_prefix<X>(acc: Seq<X>, r: Option<(Seq<X>, int)>) -> Option<(Seq<X>, int)> {
    match r {
        Option::Some((rest, q)) => Option::Some((acc + rest, q)),
        Option::None => Option::None,
    }
}

/// Reads one fixed-width field, or reports that the stream is too short.
fn read_field(r: &mut BitReader, width: usize) -> (v: Option<u16>)
    requires
        old(r).wf(),
        width <= 16,
    ensures
        final(r).wf(),
        final(r).bits() == old(r).bits(),
        match v {
            Option::Some(x) => sp_read(old(r).bits(), old(r).pos() as int, width as int)
                == Option::Some((x as nat, final(r).pos() as int)),
            Option::None => sp_read(old(r).bits(), old(r).pos() as int, width as int) is None,
        },
{
    if r.remaining() < width {
        Option::None
    } else {
        Option::Some(r.read_bits(width))
    }
}

/// Reads one roster entry: a length byte, then that many name bytes.
fn parse_player(r: &mut BitReader) -> (res: Result<Vec<u8>, SerializeError>)
    requires
        old(r).wf(),
    ensures
        final(r).wf(),
        final(r).bits() == old(r).bits(),
        match res {
            Result::Ok(name) => sp_parse_player(old(r).bits(), old(r).pos() as int)
                == Option::Some((name@, final(r).pos() as int)) && name@.len() <= 255,
            Result::Err(e) => sp_parse_player(old(r).bits(), old(r).pos() as int) is None
                && e == SerializeError::Truncated,
        },
{
    let ghost bits = old(r).bits();
    let ghost p0 = old(r).pos() as int;
    let len_read = read_field(r, 8);
    let name_len: u16 = match len_read {
        Option::Some(x) => x,
        Option::None => {
            return Result::Err(SerializeError::Truncated);
        },
    };
    let ghost p1 = r.pos() as int;
    proof {
        lemma_int_of_bound(bits.subrange(p0, p0 + 8));
        lemma2_to64();
    }
    if r.remaining() < (name_len as usize) * 8 {
        proof {
            assert(sp_read_bytes(bits, p1, name_len as int) is None);
        }
        return Result::Err(SerializeError::Truncated);
    }
    let mut name: Vec<u8> = Vec::new();
    let mut j: usize = 0;
    while j < name_len as usize
        invariant
            j <= name_len as usize,
            r.wf(),
            r.bits() == bits,
            r.pos() == p1 + 8 * j,
            p1 + 8 * (name_len as int) <= bits.len(),
            name@.len() == j,
            forall|k: int| 0 <= k < j ==> name@[k] == byte_at(bits, p1 + 8 * k),
        decreases name_len as usize - j,
    {
        let b = r.read_bits(8);
        proof {
            lemma_int_of_bound(bits.subrange(p1 + 8 * (j as int), p1 + 8 * (j as int) + 8));
            lemma2_to64();
        }
        name.push(b as u8);
        j = j + 1;
    }
    proof {
        assert(name@ =~= Seq::new(name_len as nat, |i: int| byte_at(bits, p1 + 8 * i)));
        assert(sp_read_bytes(bits, p1, name_len as int) == Option::Some((name@, r.pos() as int)));
    }
    Result::Ok(name)
}

/// Reads `count` roster entries.
fn parse_players(r: &mut BitReader, count: u8) -> (res: Result<Vec<Vec<u8>>, SerializeError>)
    requires
        old(r).wf(),
    ensures
        final(r).wf(),
        final(r).bits() == old(r).bits(),
        match res {
            Result::Ok(ps) => sp_parse_players(old(r).bits(), old(r).pos() as int, count as int)
                == Option::Some((ps@.map_values(|p: Vec<u8>| p@), final(r).pos() as int))
                && ps@.len() == count as int && forall|k: int|
                0 <= k < ps@.len() ==> (#[trigger] ps@[k]@).len() <= 255,
            Result::Err(e) => sp_parse_players(old(r).bits(), old(r).pos() as int, count as int)
                is None && e == SerializeError::Truncated,
        },
{
    let ghost bits = old(r).bits();
    let ghost p0 = old(r).pos() as int;
    let mut players: Vec<Vec<u8>> = Vec::new();
    let mut i: u8 = 0;
    proof {
        assert(players@.map_values(|p: Vec<u8>| p@) =~= Seq::<Seq<u8>>::empty());
    }
    while i < count
        invariant
            i <= count,
            r.wf(),
            bits == old(r).bits(),
            p0 == old(r).pos() as int,
            r.bits() == bits,
            players@.len() == i as int,
            forall|k: int| 0 <= k < players@.len() ==> (#[trigger] players@[k]@).len() <= 255,
            sp_parse_players(bits, p0, count as int) == with_prefix(
                players@.map_values(|p: Vec<u8>| p@),
                sp_parse_players(bits, r.pos() as int, count as int - i as int),
            ),
        decreases count - i,
    {
        let ghost acc = players@.map_values(|p: Vec<u8>| p@);
        let ghost pos_i = r.pos() as int;
        let one = parse_player(r);
        match one {
            Result::Ok(name) => {
                proof {
                    assert(sp_parse_players(bits, pos_i, count as int - i as int) == with_prefix(
                        seq![name@],
                        sp_parse_players(bits, r.pos() as int, count as int - i as int - 1),
                    ));
                }
                players.push(name);
                proof {
                    assert(players@.map_values(|p: Vec<u8>| p@) =~= acc + seq![name@]);
                    match sp_parse_players(bits, r.pos() as int, count as int - i as int - 1) {
                        Option::Some((rest, q)) => {
                            assert(acc + (seq![name@] + rest) =~= (acc + seq![name@]) + rest);
                        },
                        Option::None => {},
                    }
                }
                i = i + 1;
            },
            Result::Err(e) => {
                proof {
                    assert(sp_parse_players(bits, pos_i, count as int - i as int) is None);
                    assert(sp_parse_players(bits, p0, count as int) is None);
                }
                return Result::Err(SerializeError::Truncated);
            },
        }
    }
    proof {
        let acc = players@.map_values(|p: Vec<u8>| p@);
        assert(sp_parse_players(bits, r.pos() as int, 0) == Option::Some((
            Seq::<Seq<u8>>::empty(),
            r.pos() as int,
        )));
        assert(acc + Seq::<Seq<u8>>::empty() =~= acc);
    }
    Result::Ok(players)
}

/// Reads `count` 3-bit trump tags, rejecting any tag above 4.
fn parse_trumps(r: &mut BitReader, count: u8) -> (res: Result<Vec<Trump>, SerializeError>)
    requires
        old(r).wf(),
    ensures
        final(r).wf(),
        final(r).bits() == old(r).bits(),
        match res {
            Result::Ok(ts) => sp_parse_trumps(old(r).bits(), old(r).pos() as int, count as int)
                == Option::Some((ts@, final(r).pos() as int)) && ts@.len() == count as int,
            Result::Err(e) => sp_parse_trumps(old(r).bits(), old(r).pos() as int, count as int)
                is None && e == sp_parse_trumps_err(old(r).bits(), old(r).pos() as int, count as int),
        },
{
    let ghost bits = old(r).bits();
    let ghost p0 = old(r).pos() as int;
    let mut trumps: Vec<Trump> = Vec::new();
    let mut i: u8 = 0;
    proof {
        assert(trumps@ =~= Seq::<Trump>::empty());
    }
    while i < count
        invariant
            i <= count,
            r.wf(),
            bits == old(r).bits(),
            p0 == old(r).pos() as int,
            r.bits() == bits,
            trumps@.len() == i as int,
            sp_parse_trumps_err(bits, p0, count as int) == sp_parse_trumps_err(
                bits,
                r.pos() as int,
                count as int - i as int,
            ),
            sp_parse_trumps(bits, p0, count as int) == with_prefix(
                trumps@,
                sp_parse_trumps(bits, r.pos() as int, count as int - i as int),
            ),
        decreases count - i,
    {
        let ghost acc = trumps@;
        let ghost pos_i = r.pos() as int;
        let tag_read = read_field(r, 3);
        let tag: u16 = match tag_read {
            Option::Some(x) => x,
            Option::None => {
                proof {
                    assert(sp_parse_trumps(bits, pos_i, count as int - i as int) is None);
                }
                return Result::Err(SerializeError::Truncated);
            },
        };
        proof {
            lemma_int_of_bound(bits.subrange(pos_i, pos_i + 3));
            lemma2_to64();
        }
        let t_opt = Trump::from_tag(tag as u8);
        match t_opt {
            Option::Some(t) => {
                proof {
                    assert(sp_parse_trumps(bits, pos_i, count as int - i as int) == with_prefix(
                        seq![t],
                        sp_parse_trumps(bits, r.pos() as int, count as int - i as int - 1),
                    ));
                }
                trumps.push(t);
                proof {
                    assert(trumps@ =~= acc + seq![t]);
                    match sp_parse_trumps(bits, r.pos() as int, count as int - i as int - 1) {
                        Option::Some((rest, q)) => {
                            assert(acc + (seq![t] + rest) =~= (acc + seq![t]) + rest);
                        },
                        Option::None => {},
                    }
                }
                i = i + 1;
            },
            Option::None => {
                proof {
                    assert(sp_parse_trumps(bits, pos_i, count as int - i as int) is None);
                }
                return Result::Err(SerializeError::UnknownTrump);
            },
        }
    }
    proof {
        assert(sp_parse_trumps(bits, r.pos() as int, 0) == Option::Some((
            Seq::<Trump>::empty(),
            r.pos() as int,
        )));
        assert(trumps@ + Seq::<Trump>::empty() =~= trumps@);
    }
    Result::Ok(trumps)
}


/// Reads one 19-slot bid table.
fn parse_table(r: &mut BitReader) -> (res: Result<ScoreTable, SerializeError>)
    requires
        old(r).wf(),
    ensures
        final(r).wf(),
        final(r).bits() == old(r).bits(),
        match res {
            Result::Ok(t) => t.wf() && sp_parse_table_from(old(r).bits(), old(r).pos() as int, 1)
                == Option::Some((t@, final(r).pos() as int)),
            Result::Err(e) => sp_parse_table_from(old(r).bits(), old(r).pos() as int, 1) is None
                && e == SerializeError::Truncated,
        },
{
    let ghost bits = old(r).bits();
    let ghost p0 = old(r).pos() as int;
    let mut t = ScoreTable::new();
    let mut round: u8 = 1;
    proof {
        assert(t@.take(0) =~= Seq::<u8>::empty());
    }
    while round <= 19
        invariant
            1 <= round <= 20,
            t.wf(),
            r.wf(),
            bits == old(r).bits(),
            p0 == old(r).pos() as int,
            r.bits() == bits,
            sp_parse_table_from(bits, p0, 1) == with_prefix(
                t@.take(round as int - 1),
                sp_parse_table_from(bits, r.pos() as int, round as int),
            ),
        decreases 20 - round,
    {
        let ghost acc = t@.take(round as int - 1);
        let ghost pos_i = r.pos() as int;
        let v_opt = decode_value(r, round);
        match v_opt {
            Option::Some(v) => {
                proof {
                    assert(sp_parse_table_from(bits, pos_i, round as int) == with_prefix(
                        seq![v],
                        sp_parse_table_from(bits, r.pos() as int, round as int + 1),
                    ));
                }
                t.set_round(round, v);
                proof {
                    assert(t@.take(round as int) =~= acc + seq![v]);
                    match sp_parse_table_from(bits, r.pos() as int, round as int + 1) {
                        Option::Some((rest, q)) => {
                            assert(acc + (seq![v] + rest) =~= (acc + seq![v]) + rest);
                        },
                        Option::None => {},
                    }
                }
                round = round + 1;
            },
            Option::None => {
                proof {
                    assert(sp_parse_table_from(bits, pos_i, round as int) is None);
                }
                return Result::Err(SerializeError::Truncated);
            },
        }
    }
    proof {
        assert(sp_parse_table_from(bits, r.pos() as int, 20) == Option::Some((
            Seq::<u8>::empty(),
            r.pos() as int,
        )));
        assert(t@.take(19) =~= t@);
        assert(t@ + Seq::<u8>::empty() =~= t@);
    }
    Result::Ok(t)
}

/// Reads `count` bid tables, one per player.
fn parse_tables(r: &mut BitReader, count: u8) -> (res: Result<Vec<ScoreTable>, SerializeError>)
    requires
        old(r).wf(),
    ensures
        final(r).wf(),
        final(r).bits() == old(r).bits(),
        match res {
            Result::Ok(ts) => sp_parse_tables(old(r).bits(), old(r).pos() as int, count as int)
                == Option::Some((
                ts@.map_values(|t: ScoreTable| t@),
                final(r).pos() as int,
            )) && ts@.len() == count as int && forall|i: int|
                0 <= i < ts@.len() ==> (#[trigger] ts@[i]).wf(),
            Result::Err(e) => sp_parse_tables(old(r).bits(), old(r).pos() as int, count as int)
                is None && e == SerializeError::Truncated,
        },
{
    let ghost bits = old(r).bits();
    let ghost p0 = old(r).pos() as int;
    let mut tables: Vec<ScoreTable> = Vec::new();
    let mut i: u8 = 0;
    proof {
        assert(tables@.map_values(|t: ScoreTable| t@) =~= Seq::<Seq<u8>>::empty());
    }
    while i < count
        invariant
            i <= count,
            r.wf(),
            bits == old(r).bits(),
            p0 == old(r).pos() as int,
            r.bits() == bits,
            tables@.len() == i as int,
            forall|k: int| 0 <= k < tables@.len() ==> (#[trigger] tables@[k]).wf(),
            sp_parse_tables(bits, p0, count as int) == with_prefix(
                tables@.map_values(|t: ScoreTable| t@),
                sp_parse_tables(bits, r.pos() as int, count as int - i as int),
            ),
        decreases count - i,
    {
        let ghost acc = tables@.map_values(|t: ScoreTable| t@);
        let ghost pos_i = r.pos() as int;
        let one = parse_table(r);
        match one {
            Result::Ok(t) => {
                proof {
                    assert(sp_parse_tables(bits, pos_i, count as int - i as int) == with_prefix(
                        seq![t@],
                        sp_parse_tables(bits, r.pos() as int, count as int - i as int - 1),
                    ));
                }
                tables.push(t);
                proof {
                    assert(tables@.map_values(|x: ScoreTable| x@) =~= acc + seq![tables@.last()@]);
                    match sp_parse_tables(bits, r.pos() as int, count as int - i as int - 1) {
                        Option::Some((rest, q)) => {
                            assert(acc + (seq![tables@.last()@] + rest) =~= (acc + seq![
                                tables@.last()@,
                            ]) + rest);
                        },
                        Option::None => {},
                    }
                }
                i = i + 1;
            },
            Result::Err(e) => {
                proof {
                    assert(sp_parse_tables(bits, pos_i, count as int - i as int) is None);
                }
                return Result::Err(SerializeError::Truncated);
            },
        }
    }
    proof {
        let acc = tables@.map_values(|t: ScoreTable| t@);
        assert(sp_parse_tables(bits, r.pos() as int, 0) == Option::Some((
            Seq::<Seq<u8>>::empty(),
            r.pos() as int,
        )));
        assert(acc + Seq::<Seq<u8>>::empty() =~= acc);
    }
    Result::Ok(tables)
}

/// Reads the 19 packed trick fields.
fn parse_tricks(r: &mut BitReader) -> (res: Result<Vec<u16>, SerializeError>)
    requires
        old(r).wf(),
    ensures
        final(r).wf(),
        final(r).bits() == old(r).bits(),
        match res {
            Result::Ok(ts) => sp_parse_tricks_from(old(r).bits(), old(r).pos() as int, 1)
                == Option::Some((ts@, final(r).pos() as int)) && ts@.len() == 19 && forall|
                rr: int,
            |
                1 <= rr <= 19 ==> (#[trigger] ts@[rr - 1] as nat) < pow2(trick_width(rr)),
            Result::Err(e) => sp_parse_tricks_from(old(r).bits(), old(r).pos() as int, 1) is None
                && e == SerializeError::Truncated,
        },
{
    let ghost bits = old(r).bits();
    let ghost p0 = old(r).pos() as int;
    let mut tricks: Vec<u16> = Vec::new();
    let mut round: u8 = 1;
    proof {
        assert(tricks@ =~= Seq::<u16>::empty());
    }
    while round <= 19
        invariant
            1 <= round <= 20,
            r.wf(),
            bits == old(r).bits(),
            p0 == old(r).pos() as int,
            r.bits() == bits,
            tricks@.len() == round as int - 1,
            forall|rr: int|
                1 <= rr < round ==> (#[trigger] tricks@[rr - 1] as nat) < pow2(trick_width(rr)),
            sp_parse_tricks_from(bits, p0, 1) == with_prefix(
                tricks@,
                sp_parse_tricks_from(bits, r.pos() as int, round as int),
            ),
        decreases 20 - round,
    {
        let ghost acc = tricks@;
        let ghost pos_i = r.pos() as int;
        let width = trick_width_of(round);
        let field_read = read_field(r, width as usize);
        match field_read {
            Option::Some(x) => {
                proof {
                    assert(sp_parse_tricks_from(bits, pos_i, round as int) == with_prefix(
                        seq![x],
                        sp_parse_tricks_from(bits, r.pos() as int, round as int + 1),
                    ));
                }
                tricks.push(x);
                proof {
                    lemma_int_of_bound(bits.subrange(pos_i, pos_i + trick_width(round as int) as int));
                    assert(tricks@ =~= acc + seq![x]);
                    match sp_parse_tricks_from(bits, r.pos() as int, round as int + 1) {
                        Option::Some((rest, q)) => {
                            assert(acc + (seq![x] + rest) =~= (acc + seq![x]) + rest);
                        },
                        Option::None => {},
                    }
                }
                round = round + 1;
            },
            Option::None => {
                proof {
                    assert(sp_parse_tricks_from(bits, pos_i, round as int) is None);
                }
                return Result::Err(SerializeError::Truncated);
            },
        }
    }
    proof {
        assert(sp_parse_tricks_from(bits, r.pos() as int, 20) == Option::Some((
            Seq::<u16>::empty(),
            r.pos() as int,
        )));
        assert(tricks@ + Seq::<u16>::empty() =~= tricks@);
    }
    Result::Ok(tricks)
}

/// Unpacks a byte string into a record; trailing bytes past the record are
/// ignored.  Fails exactly when the stream has no record meaning: it ends
/// inside a field, a trump tag is unrecognized, the stored player count is
/// zero, or the stored round count exceeds the schedule.
pub fn deserialize_record(data: &Vec<u8>) -> (res: Result<MatchRecord, SerializeError>)
    ensures
        match res {
            Result::Ok(rec) => sp_parse_record(bits_of_bytes(data@)) == Option::Some(rec@)
                && record_wf(rec@),
            Result::Err(e) => sp_parse_record(bits_of_bytes(data@)) is None && e
                == sp_parse_record_err(bits_of_bytes(data@)),
        },
{
    let all_bits = bytes_to_bits(data);
    let ghost bits = bits_of_bytes(data@);
    let mut r = BitReader::new(all_bits);

    let name_len: u16 = match read_field(&mut r, 8) {
        Option::Some(x) => x,
        Option::None => {
            return Result::Err(SerializeError::Truncated);
        },
    };
    proof {
        lemma_int_of_bound(bits.subrange(0, 8));
        lemma2_to64();
    }
    if r.remaining() < (name_len as usize) * 8 {
        proof {
            assert(sp_read_bytes(bits, r.pos() as int, name_len as int) is None);
        }
        return Result::Err(SerializeError::Truncated);
    }
    let ghost p1 = r.pos() as int;
    let mut name: Vec<u8> = Vec::new();
    let mut j: usize = 0;
    while j < name_len as usize
        invariant
            j <= name_len as usize,
            r.wf(),
            r.bits() == bits,
            r.pos() == p1 + 8 * j,
            p1 + 8 * (name_len as int) <= bits.len(),
            name@.len() == j,
            forall|k: int| 0 <= k < j ==> name@[k] == byte_at(bits, p1 + 8 * k),
        decreases name_len as usize - j,
    {
        let b = r.read_bits(8);
        proof {
            lemma_int_of_bound(bits.subrange(p1 + 8 * (j as int), p1 + 8 * (j as int) + 8));
            lemma2_to64();
        }
        name.push(b as u8);
        j = j + 1;
    }
    proof {
        assert(name@ =~= Seq::new(name_len as nat, |i: int| byte_at(bits, p1 + 8 * i)));
        assert(sp_read_bytes(bits, p1, name_len as int) == Option::Some((name@, r.pos() as int)));
    }

    let n_players_raw: u16 = match read_field(&mut r, 3) {
        Option::Some(x) => x,
        Option::None => {
            return Result::Err(SerializeError::Truncated);
        },
    };
    let ghost p3 = r.pos() as int;
    proof {
        lemma2_to64();
        lemma_int_of_bound(bits.subrange(p3 - 3, p3));
    }
    if n_players_raw == 0 {
        return Result::Err(SerializeError::BadPlayerCount);
    }
    let n_players: u8 = n_players_raw as u8;

    let players = match parse_players(&mut r, n_players) {
        Result::Ok(ps) => ps,
        Result::Err(e) => {
            return Result::Err(e);
        },
    };

    let dealer: u16 = match read_field(&mut r, 3) {
        Option::Some(x) => x,
        Option::None => {
            return Result::Err(SerializeError::Truncated);
        },
    };
    let ghost p5 = r.pos() as int;
    proof {
        lemma_int_of_bound(bits.subrange(p5 - 3, p5));
        lemma2_to64();
    }

    let n_rounds_raw: u16 = match read_field(&mut r, 5) {
        Option::Some(x) => x,
        Option::None => {
            return Result::Err(SerializeError::Truncated);
        },
    };
    let ghost p6 = r.pos() as int;
    proof {
        lemma_int_of_bound(bits.subrange(p6 - 5, p6));
        lemma2_to64();
    }
    if n_rounds_raw > 19 {
        return Result::Err(SerializeError::BadRoundCount);
    }
    let n_rounds: u8 = n_rounds_raw as u8;

    let current: u16 = match read_field(&mut r, 5) {
        Option::Some(x) => x,
        Option::None => {
            return Result::Err(SerializeError::Truncated);
        },
    };
    let ghost p7 = r.pos() as int;
    proof {
        lemma_int_of_bound(bits.subrange(p7 - 5, p7));
        lemma2_to64();
    }

    let trumps = match parse_trumps(&mut r, n_rounds) {
        Result::Ok(ts) => ts,
        Result::Err(e) => {
            return Result::Err(e);
        },
    };

    let tables = match parse_tables(&mut r, n_players) {
        Result::Ok(ts) => ts,
        Result::Err(e) => {
            return Result::Err(e);
        },
    };

    let tricks = match parse_tricks(&mut r) {
        Result::Ok(ts) => ts,
        Result::Err(e) => {
            return Result::Err(e);
        },
    };

    let rec = MatchRecord {
        name,
        players,
        start_dealer: dealer as u8,
        current_round: current as u8,
        trumps,
        player_bids: tables,
        tricks,
    };
    proof {
        assert(sp_parse_record(bits) == Option::Some(rec@));
        assert(record_wf(rec@));
    }
    Result::Ok(rec)
}


/// Splitting a known concatenation out of a longer stream.
proof fn lemma_split_concat(s: Seq<bool>, off: int, a: Seq<bool>, b: Seq<bool>)
    requires
        0 <= off,
        off + a.len() + b.len() <= s.len(),
        s.subrange(off, off + a.len() + b.len()) == a + b,
    ensures
        s.subrange(off, off + a.len() as int) == a,
        s.subrange(off + a.len() as int, off + a.len() + b.len()) == b,
{
    assert forall|j: int| 0 <= j < a.len() implies s.subrange(off, off + a.len() as int)[j]
        == a[j] by {
        assert((a + b)[j] == a[j]);
        assert(s.subrange(off, off + a.len() + b.len())[j] == s[off + j]);
    };
    assert(s.subrange(off, off + a.len() as int) =~= a);
    assert forall|j: int| 0 <= j < b.len() implies s.subrange(
        off + a.len() as int,
        off + a.len() + b.len(),
    )[j] == b[j] by {
        assert((a + b)[a.len() + j] == b[j]);
        assert(s.subrange(off, off + a.len() + b.len())[a.len() + j] == s[off + a.len() + j]);
    };
    assert(s.subrange(off + a.len() as int, off + a.len() + b.len()) =~= b);
}

/// A fixed-width field is read back as the value it was written from.
proof fn lemma_sp_read_at(bits: Seq<bool>, pos: int, width: nat, x: nat)
    requires
        0 <= pos,
        x < pow2(width),
        pos + width <= bits.len(),
        bits.subrange(pos, pos + width) == bits_of(x, width),
    ensures
        sp_read(bits, pos, width as int) == Option::Some((x, pos + width)),
{
    lemma_int_of_bits_of(x, width);
}

/// Each byte of a byte string sits at its own eight-bit slice.
proof fn lemma_bits_of_bytes_index(bytes: Seq<u8>, i: int)
    requires
        0 <= i < bytes.len(),
    ensures
        bits_of_bytes(bytes).subrange(8 * i, 8 * i + 8) == bits_of(bytes[i] as nat, 8),
    decreases bytes.len(),
{
    lemma_bits_of_bytes_len(bytes);
    lemma_bits_of_bytes_len(bytes.drop_last());
    lemma_bits_of_len(bytes.last() as nat, 8);
    if i == bytes.len() - 1 {
        assert(bits_of_bytes(bytes).subrange(8 * i, 8 * i + 8) =~= bits_of(bytes.last() as nat, 8));
    } else {
        lemma_bits_of_bytes_index(bytes.drop_last(), i);
        assert(bits_of_bytes(bytes).subrange(8 * i, 8 * i + 8) =~= bits_of_bytes(
            bytes.drop_last(),
        ).subrange(8 * i, 8 * i + 8));
        assert(bytes.drop_last()[i] == bytes[i]);
    }
}

/// A byte string is read back as the bytes it was written from.
proof fn lemma_sp_read_bytes_at(bits: Seq<bool>, pos: int, bytes: Seq<u8>)
    requires
        0 <= pos,
        pos + 8 * bytes.len() <= bits.len(),
        bits.subrange(pos, pos + 8 * bytes.len()) == bits_of_bytes(bytes),
    ensures
        sp_read_bytes(bits, pos, bytes.len() as int) == Option::Some((
            bytes,
            pos + 8 * bytes.len(),
        )),
{
    lemma2_to64();
    let count = bytes.len() as int;
    let parsed = Seq::new(bytes.len(), |i: int| byte_at(bits, pos + 8 * i));
    assert forall|i: int| 0 <= i < count implies parsed[i] == bytes[i] by {
        lemma_bits_of_bytes_index(bytes, i);
        assert(bits.subrange(pos + 8 * i, pos + 8 * i + 8) =~= bits.subrange(
            pos,
            pos + 8 * bytes.len(),
        ).subrange(8 * i, 8 * i + 8));
        lemma_int_of_bits_of(bytes[i] as nat, 8);
    };
    assert(parsed =~= bytes);
}

/// One roster entry is read back as the name it was written from.
proof fn lemma_parse_player_at(bits: Seq<bool>, pos: int, name: Seq<u8>)
    requires
        0 <= pos,
        name.len() <= 255,
        pos + player_bits(name).len() <= bits.len(),
        bits.subrange(pos, pos + player_bits(name).len()) == player_bits(name),
    ensures
        sp_parse_player(bits, pos) == Option::Some((name, pos + player_bits(name).len())),
{
    lemma2_to64();
    lemma_bits_of_len(name.len(), 8);
    lemma_bits_of_bytes_len(name);
    lemma_split_concat(bits, pos, bits_of(name.len(), 8), bits_of_bytes(name));
    lemma_sp_read_at(bits, pos, 8, name.len());
    lemma_sp_read_bytes_at(bits, pos + 8, name);
}

/// The roster from entry `i` on is read back as written.
proof fn lemma_parse_players_at(bits: Seq<bool>, pos: int, ps: Seq<Seq<u8>>, i: int)
    requires
        0 <= pos,
        0 <= i <= ps.len(),
        forall|k: int| 0 <= k < ps.len() ==> (#[trigger] ps[k]).len() <= 255,
        pos + players_bits_from(ps, i).len() <= bits.len(),
        bits.subrange(pos, pos + players_bits_from(ps, i).len()) == players_bits_from(ps, i),
    ensures
        sp_parse_players(bits, pos, ps.len() - i) == Option::Some((
            ps.skip(i),
            pos + players_bits_from(ps, i).len(),
        )),
    decreases ps.len() - i,
{
    if i == ps.len() {
        assert(ps.skip(i) =~= Seq::<Seq<u8>>::empty());
    } else {
        let a = player_bits(ps[i]);
        let rest = players_bits_from(ps, i + 1);
        lemma_split_concat(bits, pos, a, rest);
        lemma_parse_player_at(bits, pos, ps[i]);
        lemma_parse_players_at(bits, pos + a.len(), ps, i + 1);
        assert(seq![ps[i]] + ps.skip(i + 1) =~= ps.skip(i));
    }
}

/// The trump tags from index `i` on are read back as written.
proof fn lemma_parse_trumps_at(bits: Seq<bool>, pos: int, ts: Seq<Trump>, i: int)
    requires
        0 <= pos,
        0 <= i <= ts.len(),
        pos + trumps_bits_from(ts, i).len() <= bits.len(),
        bits.subrange(pos, pos + trumps_bits_from(ts, i).len()) == trumps_bits_from(ts, i),
    ensures
        sp_parse_trumps(bits, pos, ts.len() - i) == Option::Some((
            ts.skip(i),
            pos + trumps_bits_from(ts, i).len(),
        )),
    decreases ts.len() - i,
{
    lemma2_to64();
    if i == ts.len() {
        assert(ts.skip(i) =~= Seq::<Trump>::empty());
    } else {
        let a = bits_of(trump_tag(ts[i]), 3);
        let rest = trumps_bits_from(ts, i + 1);
        lemma_bits_of_len(trump_tag(ts[i]), 3);
        lemma_split_concat(bits, pos, a, rest);
        lemma_sp_read_at(bits, pos, 3, trump_tag(ts[i]));
        lemma_parse_trumps_at(bits, pos + a.len(), ts, i + 1);
        assert(seq![ts[i]] + ts.skip(i + 1) =~= ts.skip(i));
    }
}

/// One bid table, from `round` on, is read back as written.
proof fn lemma_parse_table_at(bits: Seq<bool>, pos: int, t: Seq<u8>, round: int)
    requires
        0 <= pos,
        1 <= round <= 20,
        table_wf(t),
        pos + table_bits_from(t, round).len() <= bits.len(),
        bits.subrange(pos, pos + table_bits_from(t, round).len()) == table_bits_from(t, round),
    ensures
        sp_parse_table_from(bits, pos, round) == Option::Some((
            t.skip(round - 1),
            pos + table_bits_from(t, round).len(),
        )),
    decreases 20 - round,
{
    if round == 20 {
        assert(t.skip(19) =~= Seq::<u8>::empty());
    } else {
        let a = value_bits(round, t[round - 1] as nat);
        let rest = table_bits_from(t, round + 1);
        lemma_split_concat(bits, pos, a, rest);
        crate::round_codec::lemma_parse_value_inverts(bits, pos, round, t[round - 1] as nat);
        lemma_parse_table_at(bits, pos + a.len(), t, round + 1);
        assert(seq![t[round - 1]] + t.skip(round) =~= t.skip(round - 1));
    }
}

/// The bid tables from player `i` on are read back as written.
proof fn lemma_parse_tables_at(bits: Seq<bool>, pos: int, bs: Seq<Seq<u8>>, i: int)
    requires
        0 <= pos,
        0 <= i <= bs.len(),
        forall|k: int| 0 <= k < bs.len() ==> table_wf(#[trigger] bs[k]),
        pos + bids_bits_from(bs, i).len() <= bits.len(),
        bits.subrange(pos, pos + bids_bits_from(bs, i).len()) == bids_bits_from(bs, i),
    ensures
        sp_parse_tables(bits, pos, bs.len() - i) == Option::Some((
            bs.skip(i),
            pos + bids_bits_from(bs, i).len(),
        )),
    decreases bs.len() - i,
{
    if i == bs.len() {
        assert(bs.skip(i) =~= Seq::<Seq<u8>>::empty());
    } else {
        let a = table_bits_from(bs[i], 1);
        let rest = bids_bits_from(bs, i + 1);
        lemma_split_concat(bits, pos, a, rest);
        lemma_parse_table_at(bits, pos, bs[i], 1);
        assert(bs[i].skip(0) =~= bs[i]);
        lemma_parse_tables_at(bits, pos + a.len(), bs, i + 1);
        assert(seq![bs[i]] + bs.skip(i + 1) =~= bs.skip(i));
    }
}

/// The packed trick fields from `round` on are read back as written.
proof fn lemma_parse_tricks_at(bits: Seq<bool>, pos: int, ts: Seq<u16>, round: int)
    requires
        0 <= pos,
        1 <= round <= 20,
        ts.len() == 19,
        forall|r: int| 1 <= r <= 19 ==> (#[trigger] ts[r - 1] as nat) < pow2(trick_width(r)),
        pos + tricks_bits_from(ts, round).len() <= bits.len(),
        bits.subrange(pos, pos + tricks_bits_from(ts, round).len()) == tricks_bits_from(ts, round),
    ensures
        sp_parse_tricks_from(bits, pos, round) == Option::Some((
            ts.skip(round - 1),
            pos + tricks_bits_from(ts, round).len(),
        )),
    decreases 20 - round,
{
    if round == 20 {
        assert(ts.skip(19) =~= Seq::<u16>::empty());
    } else {
        let a = bits_of(ts[round - 1] as nat, trick_width(round));
        let rest = tricks_bits_from(ts, round + 1);
        lemma_bits_of_len(ts[round - 1] as nat, trick_width(round));
        lemma_split_concat(bits, pos, a, rest);
        lemma_sp_read_at(bits, pos, trick_width(round), ts[round - 1] as nat);
        lemma_parse_tricks_at(bits, pos + a.len(), ts, round + 1);
        assert(seq![ts[round - 1]] + ts.skip(round) =~= ts.skip(round - 1));
    }
}

/// Round-trip heart: any stream that begins with the wire image of a
/// well-formed record decodes to exactly that record.
pub proof fn lemma_parse_record_inverts(bits: Seq<bool>, v: RecordView)
    requires
        record_wf(v),
        record_bits(v).len() <= bits.len(),
        bits.subrange(0, record_bits(v).len() as int) == record_bits(v),
    ensures
        sp_parse_record(bits) == Option::Some(v),
{
    lemma2_to64();
    let f1 = bits_of(v.name.len(), 8);
    let f2 = bits_of_bytes(v.name);
    let f3 = bits_of(v.players.len(), 3);
    let f4 = players_bits_from(v.players, 0);
    let f5 = bits_of(v.start_dealer as nat, 3);
    let f6 = bits_of(v.trumps.len(), 5);
    let f7 = bits_of(v.current_round as nat, 5);
    let f8 = trumps_bits_from(v.trumps, 0);
    let f9 = bids_bits_from(v.player_bids, 0);
    let f10 = tricks_bits_from(v.tricks, 1);
    let s9 = f1 + f2 + f3 + f4 + f5 + f6 + f7 + f8 + f9;
    let s8 = f1 + f2 + f3 + f4 + f5 + f6 + f7 + f8;
    let s7 = f1 + f2 + f3 + f4 + f5 + f6 + f7;
    let s6 = f1 + f2 + f3 + f4 + f5 + f6;
    let s5 = f1 + f2 + f3 + f4 + f5;
    let s4 = f1 + f2 + f3 + f4;
    let s3 = f1 + f2 + f3;
    let s2 = f1 + f2;
    lemma_split_concat(bits, 0, s9, f10);
    lemma_split_concat(bits, 0, s8, f9);
    lemma_split_concat(bits, 0, s7, f8);
    lemma_split_concat(bits, 0, s6, f7);
    lemma_split_concat(bits, 0, s5, f6);
    lemma_split_concat(bits, 0, s4, f5);
    lemma_split_concat(bits, 0, s3, f4);
    lemma_split_concat(bits, 0, s2, f3);
    lemma_split_concat(bits, 0, f1, f2);
    lemma_bits_of_len(v.name.len(), 8);
    lemma_bits_of_bytes_len(v.name);
    lemma_bits_of_len(v.players.len(), 3);
    lemma_bits_of_len(v.start_dealer as nat, 3);
    lemma_bits_of_len(v.trumps.len(), 5);
    lemma_bits_of_len(v.current_round as nat, 5);

    lemma_sp_read_at(bits, 0, 8, v.name.len());
    lemma_sp_read_bytes_at(bits, f1.len() as int, v.name);
    lemma_sp_read_at(bits, s2.len() as int, 3, v.players.len());
    lemma_parse_players_at(bits, s3.len() as int, v.players, 0);
    assert(v.players.skip(0) =~= v.players);
    lemma_sp_read_at(bits, s4.len() as int, 3, v.start_dealer as nat);
    lemma_sp_read_at(bits, s5.len() as int, 5, v.trumps.len());
    lemma_sp_read_at(bits, s6.len() as int, 5, v.current_round as nat);
    lemma_parse_trumps_at(bits, s7.len() as int, v.trumps, 0);
    assert(v.trumps.skip(0) =~= v.trumps);
    lemma_parse_tables_at(bits, s8.len() as int, v.player_bids, 0);
    assert(v.player_bids.skip(0) =~= v.player_bids);
    lemma_parse_tricks_at(bits, s9.len() as int, v.tricks, 1);
    assert(v.tricks.skip(0) =~= v.tricks);

    assert(sp_parse_record(bits) == Option::Some(v));
}

/// The record-level round trip: a well-formed record's padded wire bytes
/// decode back to the record itself.
pub proof fn lemma_record_round_trip(v: RecordView)
    requires
        record_wf(v),
    ensures
        sp_parse_record(record_padded_bits(v)) == Option::Some(v),
{
    let padded = record_padded_bits(v);
    assert(padded.subrange(0, record_bits(v).len() as int) =~= record_bits(v));
    lemma_parse_record_inverts(padded, v);
}

} // verus!
