//! Conversion between the structured match and the packed record.
//!
//! Packing derives the redundant fields — the current round from which
//! rounds have complete bids and tricks, the trick fields from each round's
//! counts — instead of storing them twice.  Unpacking replays the fixed
//! schedule: cards per round, dealer rotation, and which rounds contribute
//! bids and tricks, all governed by the stored current round.

use vstd::prelude::*;
use vstd::arithmetic::power2::*;
use crate::record::{record_wf, trick_width, MatchRecord, RecordView, SerializeError};
use crate::round_codec::{lemma_cards_within_scheme, round_scheme_max};
use crate::score::{table_wf, ScoreTable};
use crate::spec_cards_per_round;
use crate::cards_per_round;
use crate::tricks::{nats_of, pack_spec, serialize_tricks, deserialize_tricks, trick_cost,
    trick_sum, unpack_spec, lemma_pack_below_cost, lemma_trick_sum_take};
use crate::trump::{trump_of_tag_unchecked, trump_tag, Trump};

verus! {

/// One entry of the structured roster.
#[derive(Debug, PartialEq, Eq)]
pub struct JsPlayer {
    /// Sequential 0-based id.
    pub id: u8,
    /// Display name, UTF-8 bytes.
    pub name: Vec<u8>,
}

/// One round of the structured match.
#[derive(Debug, PartialEq, Eq)]
pub struct JsRound {
    /// Cards dealt this round; follows the fixed schedule.
    pub n_cards: u8,
    /// Trump tag, 0..=4 as in `trump`.
    pub trump: u8,
    /// One bid per player once bidding is complete, else empty.
    pub bids: Vec<u8>,
    /// One trick count per player once play is complete, else empty.
    pub tricks: Vec<u8>,
    /// 0-based index of this round's dealer.
    pub dealer_id: u8,
}

/// The structured match the host application exchanges with the codec.
#[derive(Debug, PartialEq, Eq)]
pub struct JsGame {
    pub game_version: u8,
    pub name: Vec<u8>,
    pub players: Vec<JsPlayer>,
    pub rounds: Vec<JsRound>,
}

pub struct JsPlayerView {
    pub id: u8,
    pub name: Seq<u8>,
}

pub struct JsRoundView {
    pub n_cards: u8,
    pub trump: u8,
    pub bids: Seq<u8>,
    pub tricks: Seq<u8>,
    pub dealer_id: u8,
}

pub struct JsGameView {
    pub game_version: u8,
    pub name: Seq<u8>,
    pub players: Seq<JsPlayerView>,
    pub rounds: Seq<JsRoundView>,
}

impl View for JsPlayer {
    type V = JsPlayerView;

    open spec fn view(&self) -> JsPlayerView {
        JsPlayerView { id: self.id, name: self.name@ }
    }
}

impl View for JsRound {
    type V = JsRoundView;

    open spec fn view(&self) -> JsRoundView {
        JsRoundView {
            n_cards: self.n_cards,
            trump: self.trump,
            bids: self.bids@,
            tricks: self.tricks@,
            dealer_id: self.dealer_id,
        }
    }
}

impl View for JsGame {
    type V = JsGameView;

    open spec fn view(&self) -> JsGameView {
        JsGameView {
            game_version: self.game_version,
            name: self.name@,
            players: self.players@.map_values(|p: JsPlayer| p@),
            rounds: self.rounds@.map_values(|r: JsRound| r@),
        }
    }
}

/// The dealer index after rotating `i` rounds forward from `d0`, modulo
/// `n` players.
pub open spec fn rotate_dealer(d0: u8, i: int, n: int) -> u8
    decreases i,
{
    if i <= 0 {
        d0
    } else {
        (((rotate_dealer(d0, i - 1, n) + 1) % n) as u8)
    }
}

/// The derived current round after scanning the first `r` rounds: the last
/// round with complete bids, advanced once more when its tricks are also
/// complete.
pub open spec fn current_round_upto(m: JsGameView, r: int) -> int
    decreases r,
{
    if r <= 0 {
        1
    } else {
        let rd = m.rounds[r - 1];
        if rd.tricks.len() == m.players.len() {
            r + 1
        } else if rd.bids.len() == m.players.len() {
            r
        } else {
            current_round_upto(m, r - 1)
        }
    }
}

/// The current round the whole match derives to.
pub open spec fn current_round_of(m: JsGameView) -> int {
    current_round_upto(m, m.rounds.len() as int)
}

pub proof fn lemma_current_round_bounds(m: JsGameView, r: int)
    requires
        0 <= r,
    ensures
        1 <= current_round_upto(m, r) <= r + 1,
    decreases r,
{
    if r > 0 {
        lemma_current_round_bounds(m, r - 1);
    }
}

/// The bid stored for player `p` in `round`: the round's bid when one was
/// given, else the neutral zero.
pub open spec fn bid_at(m: JsGameView, p: int, round: int) -> u8 {
    if round - 1 < m.rounds.len() && p < m.rounds[round - 1].bids.len() {
        m.rounds[round - 1].bids[p]
    } else {
        0
    }
}

/// The packed trick field for `round`: the run-length packing of the
/// round's counts once a full set is present, else zero.
pub open spec fn trick_field_at(m: JsGameView, round: int) -> u16 {
    if round - 1 < m.rounds.len() && m.rounds[round - 1].tricks.len() == m.players.len() {
        pack_spec(nats_of(m.rounds[round - 1].tricks)) as u16
    } else {
        0
    }
}

/// The packed record a structured match maps to.
pub open spec fn record_of(m: JsGameView) -> RecordView {
    RecordView {
        name: m.name,
        players: m.players.map_values(|p: JsPlayerView| p.name),
        start_dealer: m.rounds[0].dealer_id,
        current_round: current_round_of(m) as u8,
        trumps: Seq::new(m.rounds.len(), |i: int| trump_of_tag_unchecked(m.rounds[i].trump as nat)),
        player_bids: Seq::new(
            m.players.len(),
            |p: int| Seq::new(19, |ri: int| bid_at(m, p, ri + 1)),
        ),
        tricks: Seq::new(19, |ri: int| trick_field_at(m, ri + 1)),
    }
}

/// Bids stored for round `i` stay within the round's legal range.
pub open spec fn round_bids_ok(m: JsGameView, i: int) -> bool {
    forall|k: int|
        0 <= k < m.players.len() && k < m.rounds[i].bids.len()
            ==> #[trigger] m.rounds[i].bids[k] <= spec_cards_per_round(i + 1)
}

/// A complete set of trick counts for round `i` fits its packed field.
pub open spec fn round_tricks_ok(m: JsGameView, i: int) -> bool {
    m.rounds[i].tricks.len() == m.players.len() ==> trick_cost(nats_of(m.rounds[i].tricks))
        <= trick_width(i + 1)
}

/// What packing accepts: everything it stores fits its field.  A match
/// outside this set is refused with `InvalidMatch` before any packing.
pub open spec fn packable(m: JsGameView) -> bool {
    &&& m.name.len() <= 255
    &&& 1 <= m.players.len() <= 7
    &&& forall|i: int| 0 <= i < m.players.len() ==> (#[trigger] m.players[i].name).len() <= 255
    &&& 1 <= m.rounds.len() <= 19
    &&& m.rounds[0].dealer_id < 8
    &&& forall|i: int| 0 <= i < m.rounds.len() ==> (#[trigger] m.rounds[i].trump) <= 4
    &&& forall|i: int| 0 <= i < m.rounds.len() ==> #[trigger] round_bids_ok(m, i)
    &&& forall|i: int| 0 <= i < m.rounds.len() ==> #[trigger] round_tricks_ok(m, i)
}

/// Checks `packable` field by field.
fn check_packable(m: &JsGame) -> (ok: bool)
    ensures
        ok == packable(m@),
{
    proof {
        lemma2_to64();
    }
    if m.name.len() > 255 {
        return false;
    }
    let n_players = m.players.len();
    if n_players < 1 || n_players > 7 {
        return false;
    }
    let n_rounds = m.rounds.len();
    if n_rounds < 1 || n_rounds > 19 {
        return false;
    }
    let mut i: usize = 0;
    while i < n_players
        invariant
            i <= n_players,
            n_players == m@.players.len(),
            forall|k: int| 0 <= k < i ==> (#[trigger] m@.players[k].name).len() <= 255,
        decreases n_players - i,
    {
        proof {
            assert(m@.players[i as int].name == m.players@[i as int]@.name);
        }
        if m.players[i].name.len() > 255 {
            return false;
        }
        i = i + 1;
    }
    if m.rounds[0].dealer_id >= 8 {
        proof {
            assert(m@.rounds[0] == m.rounds@[0]@);
        }
        return false;
    }
    let mut i: usize = 0;
    while i < n_rounds
        invariant
            i <= n_rounds,
            n_rounds == m@.rounds.len(),
            n_rounds <= 19,
            n_players == m@.players.len(),
            n_players <= 7,
            forall|k: int| 0 <= k < i ==> (#[trigger] m@.rounds[k].trump) <= 4,
            forall|k: int| 0 <= k < i ==> #[trigger] round_bids_ok(m@, k),
            forall|k: int| 0 <= k < i ==> #[trigger] round_tricks_ok(m@, k),
        decreases n_rounds - i,
    {
        proof {
            assert(m@.rounds[i as int] == m.rounds@[i as int]@);
        }
        if m.rounds[i].trump > 4 {
            proof {
                assert(m@.rounds[i as int].trump > 4);
                assert(!packable(m@));
            }
            return false;
        }
        let cards = cards_per_round((i + 1) as u8);
        let bids_len = m.rounds[i].bids.len();
        let bound = if bids_len < n_players {
            bids_len
        } else {
            n_players
        };
        let mut k: usize = 0;
        while k < bound
            invariant
                k <= bound,
                i < n_rounds,
                n_rounds == m@.rounds.len(),
                n_players == m@.players.len(),
                bound <= m@.rounds[i as int].bids.len(),
                bound <= n_players,
                bids_len == m@.rounds[i as int].bids.len(),
                bound == if bids_len < n_players {
                    bids_len as int
                } else {
                    n_players as int
                },
                cards == spec_cards_per_round(i + 1),
                m@.rounds[i as int] == m.rounds@[i as int]@,
                forall|j: int|
                    0 <= j < k ==> #[trigger] m@.rounds[i as int].bids[j]
                        <= spec_cards_per_round(i + 1),
            decreases bound - k,
        {
            if m.rounds[i].bids[k] > cards {
                proof {
                    assert(!round_bids_ok(m@, i as int));
                }
                return false;
            }
            k = k + 1;
        }
        proof {
            assert(round_bids_ok(m@, i as int));
        }
        let tricks_len = m.rounds[i].tricks.len();
        if tricks_len == n_players {
            let width = crate::record::trick_width_of((i + 1) as u8);
            let ghost ts = nats_of(m@.rounds[i as int].tricks);
            let mut cost: u32 = tricks_len as u32;
            let mut k: usize = 0;
            proof {
                assert(ts.take(0) =~= Seq::<nat>::empty());
            }
            while k < tricks_len
                invariant
                    k <= tricks_len,
                    i < n_rounds,
                    n_rounds == m@.rounds.len(),
                    tricks_len == m@.rounds[i as int].tricks.len(),
                    tricks_len <= 7,
                    m@.rounds[i as int] == m.rounds@[i as int]@,
                    ts == nats_of(m@.rounds[i as int].tricks),
                    cost == tricks_len + trick_sum(ts.take(k as int)),
                    cost <= tricks_len + k * 255,
                decreases tricks_len - k,
            {
                proof {
                    lemma_trick_sum_take(ts, k as int);
                }
                cost = cost + m.rounds[i].tricks[k] as u32;
                k = k + 1;
            }
            proof {
                assert(ts.take(tricks_len as int) =~= ts);
            }
            if cost > width as u32 {
                proof {
                    assert(!round_tricks_ok(m@, i as int));
                }
                return false;
            }
            proof {
                assert(round_tricks_ok(m@, i as int));
            }
        } else {
            proof {
                assert(round_tricks_ok(m@, i as int));
            }
        }
        i = i + 1;
    }
    true
}


/// A fresh copy of a byte string.
fn copy_bytes(v: &Vec<u8>) -> (r: Vec<u8>)
    ensures
        r@ == v@,
{
    let n = v.len();
    let mut r: Vec<u8> = Vec::new();
    let mut i: usize = 0;
    while i < n
        invariant
            i <= n,
            n == v@.len(),
            r@ == v@.take(i as int),
        decreases n - i,
    {
        r.push(v[i]);
        proof {
            assert(r@ =~= v@.take(i + 1 as int));
        }
        i = i + 1;
    }
    proof {
        assert(v@.take(n as int) =~= v@);
    }
    r
}

/// Builds the packed record of a structured match, deriving the current
/// round, the bid tables and the packed trick fields; refuses a match whose
/// values do not fit their fields.
pub fn match_to_record(m: &JsGame) -> (res: Result<MatchRecord, SerializeError>)
    ensures
        packable(m@) <==> res is Ok,
        res matches Result::Ok(rec) ==> rec@ == record_of(m@) && record_wf(rec@),
        res matches Result::Err(e) ==> e == SerializeError::InvalidMatch,
{
    if !check_packable(m) {
        return Result::Err(SerializeError::InvalidMatch);
    }
    let ghost mv = m@;
    let n_players = m.players.len();
    let n_rounds = m.rounds.len();

    // The roster: each player's name bytes.
    let mut players: Vec<Vec<u8>> = Vec::new();
    let mut i: usize = 0;
    while i < n_players
        invariant
            i <= n_players,
            mv == m@,
            packable(mv),
            n_players == mv.players.len(),
            players@.len() == i,
            forall|k: int|
                0 <= k < i ==> #[trigger] players@[k]@ == mv.players[k].name,
        decreases n_players - i,
    {
        proof {
            assert(mv.players[i as int] == m.players@[i as int]@);
        }
        let name = copy_bytes(&m.players[i].name);
        players.push(name);
        i = i + 1;
    }

    // The derived current round.
    let mut current_round: u8 = 1;
    let mut i: usize = 0;
    while i < n_rounds
        invariant
            i <= n_rounds,
            mv == m@,
            packable(mv),
            n_rounds == mv.rounds.len(),
            n_rounds <= 19,
            n_players == mv.players.len(),
            current_round as int == current_round_upto(mv, i as int),
        decreases n_rounds - i,
    {
        proof {
            assert(mv.rounds[i as int] == m.rounds@[i as int]@);
            lemma_current_round_bounds(mv, i as int);
        }
        if m.rounds[i].bids.len() == n_players {
            current_round = (i + 1) as u8;
        }
        if m.rounds[i].tricks.len() == n_players {
            current_round = (i + 2) as u8;
        }
        i = i + 1;
    }

    // One trump per round.
    let mut trumps: Vec<Trump> = Vec::new();
    let mut i: usize = 0;
    while i < n_rounds
        invariant
            i <= n_rounds,
            mv == m@,
            packable(mv),
            n_rounds == mv.rounds.len(),
            trumps@.len() == i,
            forall|k: int|
                0 <= k < i ==> #[trigger] trumps@[k] == trump_of_tag_unchecked(
                    mv.rounds[k].trump as nat,
                ),
        decreases n_rounds - i,
    {
        proof {
            assert(mv.rounds[i as int] == m.rounds@[i as int]@);
        }
        let t_opt = Trump::from_tag(m.rounds[i].trump);
        match t_opt {
            Option::Some(t) => {
                trumps.push(t);
            },
            Option::None => {
                proof {
                    assert(mv.rounds[i as int].trump <= 4);
                    assert(false);
                }
                return Result::Err(SerializeError::InvalidMatch);
            },
        }
        i = i + 1;
    }

    // One 19-slot bid table per player; rounds beyond the data stay zero.
    let mut player_bids: Vec<ScoreTable> = Vec::new();
    let mut p: usize = 0;
    while p < n_players
        invariant
            p <= n_players,
            mv == m@,
            packable(mv),
            n_players == mv.players.len(),
            n_rounds == mv.rounds.len(),
            n_rounds <= 19,
            player_bids@.len() == p,
            forall|k: int| 0 <= k < p ==> (#[trigger] player_bids@[k]).wf(),
            forall|k: int|
                0 <= k < p ==> #[trigger] player_bids@[k]@ == Seq::new(
                    19,
                    |ri: int| bid_at(mv, k, ri + 1),
                ),
        decreases n_players - p,
    {
        let mut t = ScoreTable::new();
        let mut i: usize = 0;
        proof {
            assert(t@ =~= Seq::new(19, |ri: int| if ri < 0 { bid_at(mv, p as int, ri + 1) } else { 0u8 }));
        }
        while i < n_rounds
            invariant
                i <= n_rounds,
                p < n_players,
                mv == m@,
                packable(mv),
                n_players == mv.players.len(),
                n_rounds == mv.rounds.len(),
                n_rounds <= 19,
                t.wf(),
                t@ == Seq::new(
                    19,
                    |ri: int| if ri < i { bid_at(mv, p as int, ri + 1) } else { 0u8 },
                ),
            decreases n_rounds - i,
        {
            proof {
                assert(mv.rounds[i as int] == m.rounds@[i as int]@);
            }
            let bids_len = m.rounds[i].bids.len();
            let value: u8 = if p < bids_len {
                m.rounds[i].bids[p]
            } else {
                0
            };
            proof {
                lemma_cards_within_scheme(i + 1);
                assert(round_bids_ok(mv, i as int));
                if p < bids_len {
                    assert(value == mv.rounds[i as int].bids[p as int]);
                    assert(mv.rounds[i as int].bids[p as int] <= spec_cards_per_round(i + 1));
                }
                assert(value as nat <= round_scheme_max(i + 1));
                assert(value == bid_at(mv, p as int, i + 1));
            }
            let ghost t_old = t@;
            t.set_round((i + 1) as u8, value);
            proof {
                assert(t@ =~= Seq::new(
                    19,
                    |ri: int| if ri < i + 1 { bid_at(mv, p as int, ri + 1) } else { 0u8 },
                ));
            }
            i = i + 1;
        }
        proof {
            assert(t@ =~= Seq::new(19, |ri: int| bid_at(mv, p as int, ri + 1)));
        }
        player_bids.push(t);
        p = p + 1;
    }

    // The 19 packed trick fields; a round without a full set stays zero.
    let mut tricks: Vec<u16> = Vec::new();
    let mut ri: usize = 0;
    while ri < 19
        invariant
            ri <= 19,
            mv == m@,
            packable(mv),
            n_players == mv.players.len(),
            n_rounds == mv.rounds.len(),
            n_rounds <= 19,
            tricks@.len() == ri,
            forall|k: int|
                0 <= k < ri ==> #[trigger] tricks@[k] == trick_field_at(mv, k + 1),
            forall|k: int|
                0 <= k < ri ==> (#[trigger] tricks@[k] as nat) < pow2(trick_width(k + 1)),
        decreases 19 - ri,
    {
        proof {
            lemma2_to64();
            if ri < n_rounds {
                assert(mv.rounds[ri as int] == m.rounds@[ri as int]@);
            }
        }
        let field: u16 = if ri < n_rounds && m.rounds[ri].tricks.len() == n_players {
            proof {
                assert(round_tricks_ok(mv, ri as int));
                assert(trick_cost(nats_of(mv.rounds[ri as int].tricks)) <= trick_width(
                    ri + 1,
                ));
                assert(trick_width(ri + 1) <= 15);
            }
            let f = serialize_tricks(&m.rounds[ri].tricks);
            proof {
                let ts = nats_of(mv.rounds[ri as int].tricks);
                lemma_pack_below_cost(ts);
                assert(pack_spec(ts) < pow2(trick_width(ri + 1))) by {
                    if trick_cost(ts) < trick_width(ri + 1) {
                        lemma_pow2_strictly_increases(trick_cost(ts), trick_width(ri + 1));
                    }
                };
                assert(f == trick_field_at(mv, ri + 1));
            }
            f
        } else {
            proof {
                lemma_pow2_pos(trick_width(ri + 1));
                assert(0u16 == trick_field_at(mv, ri + 1));
            }
            0
        };
        tricks.push(field);
        ri = ri + 1;
    }

    proof {
        assert(mv.rounds[0] == m.rounds@[0]@);
        lemma_current_round_bounds(mv, mv.rounds.len() as int);
    }
    let rec = MatchRecord {
        name: copy_bytes(&m.name),
        players,
        start_dealer: m.rounds[0].dealer_id,
        current_round,
        trumps,
        player_bids,
        tricks,
    };
    proof {
        let rv = rec@;
        let gv = record_of(mv);
        assert(rv.players =~= gv.players);
        assert(rv.trumps =~= gv.trumps);
        assert(rv.player_bids =~= gv.player_bids);
        assert(rv.tricks =~= gv.tricks);
        assert(rv == gv);
        assert(record_wf(rv));
    }
    Result::Ok(rec)
}


/// The trick counts a packed field unpacks to, as bytes.
pub open spec fn tricks_list_of(x: u16) -> Seq<u8> {
    unpack_spec(x as nat, 0).map_values(|t: nat| t as u8)
}

/// The structured match a packed record maps back to: roster ids are
/// sequential, the card schedule and dealer rotation are replayed, and only
/// rounds the current round has reached contribute bids and tricks.
pub open spec fn match_of_record(v: RecordView) -> JsGameView {
    JsGameView {
        game_version: 3,
        name: v.name,
        players: Seq::new(
            v.players.len(),
            |i: int| JsPlayerView { id: i as u8, name: v.players[i] },
        ),
        rounds: Seq::new(
            v.trumps.len(),
            |i: int|
                JsRoundView {
                    n_cards: spec_cards_per_round(i + 1) as u8,
                    trump: trump_tag(v.trumps[i]) as u8,
                    bids: if i + 1 <= v.current_round as int {
                        Seq::new(v.players.len(), |p: int| v.player_bids[p][i])
                    } else {
                        Seq::empty()
                    },
                    tricks: if i + 1 < v.current_round as int {
                        tricks_list_of(v.tricks[i])
                    } else {
                        Seq::empty()
                    },
                    dealer_id: rotate_dealer(v.start_dealer, i, v.players.len() as int),
                },
        ),
    }
}

/// Rebuilds the structured match from a packed record.
pub fn record_to_match(rec: &MatchRecord) -> (g: JsGame)
    requires
        record_wf(rec@),
    ensures
        g@ == match_of_record(rec@),
{
    let ghost rv = rec@;
    let ghost mor = match_of_record(rv);
    let n_players = rec.players.len();

    let mut players: Vec<JsPlayer> = Vec::new();
    let mut i: usize = 0;
    while i < n_players
        invariant
            i <= n_players,
            rv == rec@,
            record_wf(rv),
            n_players == rv.players.len(),
            players@.len() == i,
            forall|k: int|
                0 <= k < i ==> #[trigger] players@[k]@ == (JsPlayerView {
                    id: k as u8,
                    name: rv.players[k],
                }),
        decreases n_players - i,
    {
        proof {
            assert(rv.players[i as int] == rec.players@[i as int]@);
        }
        let name = copy_bytes(&rec.players[i]);
        players.push(JsPlayer { id: i as u8, name });
        i = i + 1;
    }

    let n_rounds = rec.trumps.len();
    let mut rounds: Vec<JsRound> = Vec::new();
    let mut dealer_id: u8 = rec.start_dealer;
    let mut i: usize = 0;
    while i < n_rounds
        invariant
            i <= n_rounds,
            rv == rec@,
            record_wf(rv),
            mor == match_of_record(rv),
            n_players == rv.players.len(),
            n_rounds == rv.trumps.len(),
            n_rounds <= 19,
            rounds@.len() == i,
            dealer_id == rotate_dealer(rv.start_dealer, i as int, n_players as int),
            forall|k: int| 0 <= k < i ==> #[trigger] rounds@[k]@ == mor.rounds[k],
        decreases n_rounds - i,
    {
        let round_no = (i + 1) as u8;
        let n_cards = cards_per_round(round_no);
        let trump = rec.trumps[i].tag();

        let mut bids: Vec<u8> = Vec::new();
        if round_no <= rec.current_round {
            let mut p: usize = 0;
            while p < n_players
                invariant
                    p <= n_players,
                    i < n_rounds,
                    rv == rec@,
                    record_wf(rv),
                    n_players == rv.players.len(),
                    n_rounds == rv.trumps.len(),
                    n_rounds <= 19,
                    round_no == i + 1,
                    bids@.len() == p,
                    forall|k: int| 0 <= k < p ==> #[trigger] bids@[k] == rv.player_bids[k][i as int],
                decreases n_players - p,
            {
                proof {
                    assert(rv.player_bids[p as int] == rec.player_bids@[p as int]@);
                    assert(table_wf(rv.player_bids[p as int]));
                }
                bids.push(rec.player_bids[p].get_round(round_no));
                p = p + 1;
            }
        }

        let mut tricks: Vec<u8> = Vec::new();
        if (round_no as usize) < rec.current_round as usize {
            tricks = deserialize_tricks(&rec.tricks[i]);
            proof {
                assert(rv.tricks[i as int] == rec.tricks@[i as int]);
                assert(tricks@ =~= tricks_list_of(rv.tricks[i as int]));
            }
        }

        rounds.push(JsRound { n_cards, trump, bids, tricks, dealer_id });
        proof {
            let k = i as int;
            if k + 1 <= rv.current_round as int {
                assert(bids@ =~= Seq::new(rv.players.len(), |p: int| rv.player_bids[p][k]));
            } else {
                assert(bids@ =~= Seq::<u8>::empty());
            }
            if !(k + 1 < rv.current_round as int) {
                assert(tricks@ =~= Seq::<u8>::empty());
            }
            assert(rounds@.last()@ == mor.rounds[k]);
        }
        dealer_id = (dealer_id + 1) % (n_players as u8);
        i = i + 1;
    }

    let g = JsGame { game_version: 3, name: copy_bytes(&rec.name), players, rounds };
    proof {
        assert(g@.players =~= mor.players);
        assert(g@.rounds =~= mor.rounds);
        assert(g@ == mor);
    }
    g
}


/// A structured match in a consistent saved state: the data model's
/// invariants, with the current round agreeing with which rounds hold
/// complete bids and tricks.  Only such states survive the pack/unpack round trip, since a
/// stored zero bid cannot be told apart from "no bid yet" except through
/// the current round.
pub open spec fn match_wf(m: JsGameView) -> bool {
    &&& m.game_version == 3
    &&& m.name.len() <= 255
    &&& 1 <= m.players.len() <= 7
    &&& forall|i: int| 0 <= i < m.players.len() ==> (#[trigger] m.players[i].id) as int == i
    &&& forall|i: int| 0 <= i < m.players.len() ==> (#[trigger] m.players[i].name).len() <= 255
    &&& 1 <= m.rounds.len() <= 19
    &&& m.rounds[0].dealer_id < m.players.len()
    &&& forall|i: int|
        0 <= i < m.rounds.len() ==> (#[trigger] m.rounds[i].n_cards) as int
            == spec_cards_per_round(i + 1)
    &&& forall|i: int| 0 <= i < m.rounds.len() ==> (#[trigger] m.rounds[i].trump) <= 4
    &&& forall|i: int|
        0 <= i < m.rounds.len() ==> (#[trigger] m.rounds[i].dealer_id) == rotate_dealer(
            m.rounds[0].dealer_id,
            i,
            m.players.len() as int,
        )
    &&& forall|i: int|
        0 <= i < m.rounds.len() ==> ((#[trigger] m.rounds[i].bids).len() == m.players.len()
            || m.rounds[i].bids.len() == 0)
    &&& forall|i: int|
        0 <= i < m.rounds.len() ==> ((#[trigger] m.rounds[i].tricks).len() == m.players.len()
            || m.rounds[i].tricks.len() == 0)
    &&& forall|i: int| 0 <= i < m.rounds.len() ==> #[trigger] round_bids_ok(m, i)
    &&& forall|i: int| 0 <= i < m.rounds.len() ==> #[trigger] round_tricks_ok(m, i)
    &&& forall|i: int|
        0 <= i < m.rounds.len() ==> ((#[trigger] m.rounds[i].bids).len() == m.players.len()
            <==> i + 1 <= current_round_of(m))
    &&& forall|i: int|
        0 <= i < m.rounds.len() ==> ((#[trigger] m.rounds[i].tricks).len() == m.players.len()
            <==> i + 1 < current_round_of(m))
}

/// A consistent match packs, its record is well-formed, and unpacking the
/// record restores the match exactly.
pub proof fn lemma_mapper_round_trip(m: JsGameView)
    requires
        match_wf(m),
    ensures
        packable(m),
        record_wf(record_of(m)),
        match_of_record(record_of(m)) == m,
{
    lemma2_to64();
    let n = m.players.len() as int;
    let v = record_of(m);
    let cur = current_round_of(m);
    lemma_current_round_bounds(m, m.rounds.len() as int);

    // The record is well-formed.
    assert forall|i: int| 0 <= i < v.players.len() implies (#[trigger] v.players[i]).len()
        <= 255 by {
        assert(v.players[i] == m.players[i].name);
    };
    assert forall|p: int| 0 <= p < v.player_bids.len() implies table_wf(
        #[trigger] v.player_bids[p],
    ) by {
        assert forall|r: int| 1 <= r <= 19 implies #[trigger] v.player_bids[p][r - 1] as nat
            <= round_scheme_max(r) by {
            lemma_cards_within_scheme(r);
            assert(v.player_bids[p][r - 1] == bid_at(m, p, r));
            if r - 1 < m.rounds.len() && p < m.rounds[r - 1].bids.len() {
                assert(round_bids_ok(m, r - 1));
                assert(m.rounds[r - 1].bids[p] <= spec_cards_per_round(r));
            }
        };
    };
    assert forall|r: int| 1 <= r <= 19 implies (#[trigger] v.tricks[r - 1] as nat) < pow2(
        trick_width(r),
    ) by {
        assert(v.tricks[r - 1] == trick_field_at(m, r));
        lemma_pow2_pos(trick_width(r));
        if r - 1 < m.rounds.len() && m.rounds[r - 1].tricks.len() == m.players.len() {
            let ts = nats_of(m.rounds[r - 1].tricks);
            assert(round_tricks_ok(m, r - 1));
            lemma_pack_below_cost(ts);
            if trick_cost(ts) < trick_width(r) {
                lemma_pow2_strictly_increases(trick_cost(ts), trick_width(r));
            }
            assert(pack_spec(ts) < pow2(16)) by {
                if trick_cost(ts) < 16 {
                    lemma_pow2_strictly_increases(trick_cost(ts), 16);
                }
            };
        }
    };
    assert(record_wf(v));

    // Unpacking the record rebuilds the match, field by field.
    let mo = match_of_record(v);
    assert forall|i: int| 0 <= i < n implies mo.players[i] == m.players[i] by {
        assert(v.players[i] == m.players[i].name);
        assert(m.players[i].id as int == i);
    };
    assert(mo.players =~= m.players);

    assert(v.current_round as int == cur);
    assert forall|i: int| 0 <= i < m.rounds.len() implies mo.rounds[i] == m.rounds[i] by {
        let rd = m.rounds[i];
        assert(v.trumps[i] == trump_of_tag_unchecked(rd.trump as nat));
        assert(trump_tag(trump_of_tag_unchecked(rd.trump as nat)) as u8 == rd.trump);
        assert(mo.rounds[i].dealer_id == rd.dealer_id);
        assert(rd.n_cards as int == spec_cards_per_round(i + 1));
        if i + 1 <= cur {
            assert(rd.bids.len() == m.players.len());
            assert forall|p: int| 0 <= p < n implies #[trigger] v.player_bids[p][i]
                == rd.bids[p] by {
                assert(v.player_bids[p][i] == bid_at(m, p, i + 1));
            };
            assert(mo.rounds[i].bids =~= rd.bids);
        } else {
            assert(rd.bids.len() != m.players.len());
            assert(rd.bids.len() == 0);
            assert(mo.rounds[i].bids =~= rd.bids);
        }
        if i + 1 < cur {
            assert(rd.tricks.len() == m.players.len());
            let ts = nats_of(rd.tricks);
            assert(round_tricks_ok(m, i));
            lemma_pack_below_cost(ts);
            assert(pack_spec(ts) < pow2(16)) by {
                if trick_cost(ts) < 16 {
                    lemma_pow2_strictly_increases(trick_cost(ts), 16);
                }
            };
            assert(v.tricks[i] == trick_field_at(m, i + 1));
            assert(v.tricks[i] as nat == pack_spec(ts));
            crate::tricks::lemma_trick_round_trip(ts);
            assert(unpack_spec(v.tricks[i] as nat, 0) == ts);
            assert(mo.rounds[i].tricks =~= rd.tricks);
        } else {
            assert(rd.tricks.len() != m.players.len());
            assert(rd.tricks.len() == 0);
            assert(mo.rounds[i].tricks =~= rd.tricks);
        }
    };
    assert(mo.rounds =~= m.rounds);
    assert(mo == m);
}

} // verus!
