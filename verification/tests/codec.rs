use serializer::bits::calculate_needed_bits;
use serializer::bits::{bits_to_bytes, BitReader, BitWriter};
use serializer::round_codec::{decode_value, encode_value};
use serializer::cards_per_round;
use serializer::mapper::{match_to_record, record_to_match, JsGame, JsPlayer, JsRound};
use serializer::record::{deserialize_record, serialize_record, MatchRecord, SerializeError};
use serializer::score::ScoreTable;
use serializer::tricks::{deserialize_tricks, serialize_tricks};
use serializer::trump::Trump;
use serializer::{deserialize, serialize};

fn zero_tricks() -> Vec<u16> {
    vec![0u16; 19]
}

fn testgame() -> JsGame {
    JsGame {
        game_version: 3,
        name: b"Testgame".to_vec(),
        players: vec![
            JsPlayer {
                id: 0,
                name: b"Player 1".to_vec(),
            },
            JsPlayer {
                id: 1,
                name: b"Player 2".to_vec(),
            },
        ],
        rounds: vec![JsRound {
            n_cards: 10,
            trump: 1,
            bids: vec![2, 3],
            tricks: vec![4, 6],
            dealer_id: 0,
        }],
    }
}

#[test]
fn test_serialize_tricks() {
    let tricks = vec![0, 3, 2, 4, 0];
    let serialized = serialize_tricks(&tricks);
    assert_eq!(0b11000100100001, serialized);

    let original = deserialize_tricks(&serialized);
    assert_eq!(tricks, original);
}

#[test]
fn test_8bit_tricks_serialize() {
    let tricks = vec![0, 0, 1, 2, 0];
    let serialized = serialize_tricks(&tricks);
    assert_eq!(0b11101001, serialized);

    // Store the value in round 8's packed trick field (8 bits wide), write
    // the whole record out and read it back.
    let mut fields = zero_tricks();
    fields[7] = serialized;
    let container = MatchRecord {
        name: b"t".to_vec(),
        players: vec![b"a".to_vec()],
        start_dealer: 0,
        current_round: 1,
        trumps: vec![],
        player_bids: vec![ScoreTable::new()],
        tricks: fields,
    };
    let container_serialized = serialize_record(&container);
    let container_deserialized = deserialize_record(&container_serialized).unwrap();

    let original = deserialize_tricks(&container_deserialized.tricks[7]);
    assert_eq!(tricks, original);
}

#[test]
fn test_8bit_tricks_deserialize() {
    let serialized = 0b11101001;
    let deserialized = deserialize_tricks(&serialized);
    assert_eq!(vec![0, 0, 1, 2, 0], deserialized);
}

#[test]
fn test_variable_bit_array() {
    let _bids = ScoreTable::new();
}

#[test]
fn serialize_enum() {
    for trump in vec![
        Trump::Spade,
        Trump::Heart,
        Trump::Club,
        Trump::Diamond,
        Trump::NoTrump,
    ] {
        let tag = trump.tag();
        println!("{:?}, {:08b}", trump, tag);
    }
}

#[test]
fn test_serialize_round_scores() {
    let js_game = testgame();
    let game = match_to_record(&js_game).unwrap();
    assert_eq!(game.player_bids[0].get_round(1), 2);
    assert_eq!(game.player_bids[1].get_round(1), 3);
}

#[test]
fn test_calculate_highest_bit() {
    assert_eq!(4, calculate_needed_bits(10))
}

#[test]
fn test_trick_pack_edge_values() {
    // The empty list and the single zero count share the bare guard bit.
    let empty: Vec<u8> = vec![];
    assert_eq!(serialize_tricks(&empty), 1);
    assert_eq!(serialize_tricks(&vec![0]), 1);
    assert_eq!(deserialize_tricks(&1), vec![0]);
    assert_eq!(deserialize_tricks(&0), Vec::<u8>::new());
}

#[test]
fn test_trick_pack_round_trip_cases() {
    for tricks in [
        vec![5u8],
        vec![0, 0, 0, 0, 0],
        vec![1, 1, 1],
        vec![10, 0],
        vec![4, 6],
        vec![0, 3, 2, 4, 0],
    ] {
        let packed = serialize_tricks(&tricks);
        assert_eq!(deserialize_tricks(&packed), tricks);
    }
}

#[test]
fn test_round_value_codec_round_trip() {
    for round in 1..=19u8 {
        let cards = cards_per_round(round);
        for value in 0..=cards {
            let mut w = BitWriter::new();
            encode_value(&mut w, round, value);
            let mut r = BitReader::new(w.into_bits());
            assert_eq!(decode_value(&mut r, round), Some(value));
        }
    }
}

#[test]
fn test_trump_tags_distinct_and_round_trip() {
    let all = vec![
        Trump::Spade,
        Trump::Heart,
        Trump::Club,
        Trump::Diamond,
        Trump::NoTrump,
    ];
    let mut seen = Vec::new();
    for trump in all {
        let tag = trump.tag();
        assert!(tag <= 4, "a trump tag must fit three bits");
        assert!(!seen.contains(&tag));
        seen.push(tag);
        assert_eq!(Trump::from_tag(tag), Some(trump));
    }
    for bad in 5..=7u8 {
        assert_eq!(Trump::from_tag(bad), None);
    }
}

#[test]
fn test_unknown_trump_is_a_decode_error() {
    // A hand-built stream: empty name, one player with an empty name,
    // dealer 0, one round, current round 1, then the trump tag 5.
    let mut w = BitWriter::new();
    w.push_bits(0, 8); // name length
    w.push_bits(1, 3); // player count
    w.push_bits(0, 8); // player name length
    w.push_bits(0, 3); // start dealer
    w.push_bits(1, 5); // round count
    w.push_bits(1, 5); // current round
    w.push_bits(5, 3); // unrecognized trump tag
    let data = bits_to_bytes(&w.into_bits());
    assert!(matches!(
        deserialize_record(&data),
        Err(SerializeError::UnknownTrump)
    ));
}

#[test]
fn test_bad_player_count_is_a_decode_error() {
    let mut w = BitWriter::new();
    w.push_bits(0, 8); // name length
    w.push_bits(0, 3); // player count zero
    let data = bits_to_bytes(&w.into_bits());
    assert!(matches!(
        deserialize_record(&data),
        Err(SerializeError::BadPlayerCount)
    ));
}

#[test]
fn test_bad_round_count_is_a_decode_error() {
    let mut w = BitWriter::new();
    w.push_bits(0, 8); // name length
    w.push_bits(1, 3); // player count
    w.push_bits(0, 8); // player name length
    w.push_bits(0, 3); // start dealer
    w.push_bits(20, 5); // round count past the 19-round schedule
    let data = bits_to_bytes(&w.into_bits());
    assert!(matches!(
        deserialize_record(&data),
        Err(SerializeError::BadRoundCount)
    ));
}

#[test]
fn test_truncated_is_a_decode_error() {
    assert!(matches!(
        deserialize_record(&Vec::new()),
        Err(SerializeError::Truncated)
    ));
    let full = serialize(&testgame()).unwrap();
    let cut: Vec<u8> = full[..full.len() - 1].to_vec();
    assert_eq!(deserialize(cut), Err(SerializeError::Truncated));
}

#[test]
fn test_invalid_match_is_refused() {
    // A bid above the round's card count must never be truncated into the
    // slot: the whole match is refused instead.
    let mut game = testgame();
    game.rounds[0].bids = vec![11, 3];
    assert_eq!(serialize(&game), Err(SerializeError::InvalidMatch));

    // An over-long name is refused the same way.
    let mut game = testgame();
    game.name = vec![b'x'; 256];
    assert_eq!(serialize(&game), Err(SerializeError::InvalidMatch));
}

fn ten_round_solo_game(round10_bid: u8) -> JsGame {
    let mut rounds = Vec::new();
    for i in 0..10u8 {
        rounds.push(JsRound {
            n_cards: cards_per_round(i + 1),
            trump: 4,
            bids: vec![if i == 9 { round10_bid } else { 0 }],
            tricks: vec![],
            dealer_id: 0,
        });
    }
    JsGame {
        game_version: 3,
        name: b"solo".to_vec(),
        players: vec![JsPlayer {
            id: 0,
            name: b"p".to_vec(),
        }],
        rounds,
    }
}

#[test]
fn test_score_table_boundary() {
    let mut t = ScoreTable::new();
    t.set_round(1, 10);
    assert_eq!(t.get_round(1), 10);
    t.set_round(19, 10);
    assert_eq!(t.get_round(19), 10);
    t.set_round(1, 0);
    assert_eq!(t.get_round(1), 0);

    // Round 10 deals a single card, so its legal values are 0 and 1 only.
    assert_eq!(cards_per_round(10), 1);
    t.set_round(10, 0);
    assert_eq!(t.get_round(10), 0);
    t.set_round(10, 1);
    assert_eq!(t.get_round(10), 1);
    assert!(serialize(&ten_round_solo_game(0)).is_ok());
    assert!(serialize(&ten_round_solo_game(1)).is_ok());
    assert_eq!(
        serialize(&ten_round_solo_game(2)),
        Err(SerializeError::InvalidMatch)
    );
}

fn three_player_match() -> JsGame {
    // Round 1 fully played, round 2 bid on, the rest untouched: the state a
    // match is saved in between rounds.
    let mut rounds = Vec::new();
    for i in 0..19u8 {
        let (bids, tricks) = if i == 0 {
            (vec![3, 4, 3], vec![4, 5, 1])
        } else if i == 1 {
            (vec![0, 2, 1], vec![])
        } else {
            (vec![], vec![])
        };
        rounds.push(JsRound {
            n_cards: cards_per_round(i + 1),
            trump: (i % 5) as u8,
            bids,
            tricks,
            dealer_id: (1 + i) % 3,
        });
    }
    JsGame {
        game_version: 3,
        name: b"Weekly match".to_vec(),
        players: vec![
            JsPlayer {
                id: 0,
                name: b"Ada".to_vec(),
            },
            JsPlayer {
                id: 1,
                name: b"Grace".to_vec(),
            },
            JsPlayer {
                id: 2,
                name: b"Edsger".to_vec(),
            },
        ],
        rounds,
    }
}

#[test]
fn test_match_round_trip() {
    let game = three_player_match();
    let bytes = serialize(&game).unwrap();
    let back = deserialize(bytes).unwrap();
    assert_eq!(back, game);
}

#[test]
fn test_round_trip_ignores_trailing_bytes() {
    let game = testgame();
    let mut bytes = serialize(&game).unwrap();
    bytes.push(0xFF);
    bytes.push(0x00);
    let back = deserialize(bytes).unwrap();
    assert_eq!(back, game);
}

#[test]
fn test_end_to_end_scenario() {
    let game = testgame();
    let record = match_to_record(&game).unwrap();
    assert_eq!(record.player_bids[0].get_round(1), 2);
    assert_eq!(record.player_bids[1].get_round(1), 3);
    assert_eq!(deserialize_tricks(&record.tricks[0]), vec![4, 6]);

    let rebuilt = record_to_match(&record);
    assert_eq!(rebuilt, game);

    let bytes = serialize(&game).unwrap();
    let back = deserialize(bytes).unwrap();
    assert_eq!(back, game);
}

#[test]
fn test_value_encodings_bit_exact() {
    // Round 1 (10 cards): values 0..=3 cost a zero tag plus two bits.
    let mut w = BitWriter::new();
    encode_value(&mut w, 1, 2);
    assert_eq!(w.into_bits(), vec![false, true, false]);

    // Round 1, value 10: a one tag plus the 3-bit payload 7.
    let mut w = BitWriter::new();
    encode_value(&mut w, 1, 10);
    assert_eq!(w.into_bits(), vec![true, true, true, true]);

    // Round 10 (1 card): zero is the bare zero tag.
    let mut w = BitWriter::new();
    encode_value(&mut w, 10, 0);
    assert_eq!(w.into_bits(), vec![false]);

    // Round 10, value 1: a one tag plus the 1-bit payload 0.
    let mut w = BitWriter::new();
    encode_value(&mut w, 10, 1);
    assert_eq!(w.into_bits(), vec![true, false]);

    // Round 6 (5 cards): value 4 is a one tag plus the 3-bit payload 3.
    let mut w = BitWriter::new();
    encode_value(&mut w, 6, 4);
    assert_eq!(w.into_bits(), vec![true, false, true, true]);
}

#[test]
fn test_packed_size_of_scenario() {
    // Name 72 bits, roster 3 + 144, dealer 3, round count 5, current round
    // 5, one trump tag 3, two 39-bit bid tables, 204 bits of trick fields:
    // 517 bits, padded to 65 bytes.
    let bytes = serialize(&testgame()).unwrap();
    assert_eq!(bytes.len(), 65);
}
