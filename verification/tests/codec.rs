//! Wire codec, framing, limiter and analysis checks.

use lila_ws_gateway::analysis::{
    piotr, piotr_inv, EffectiveVariantKey, GetDests, GetOpening, Opening, OpeningBook, PlayDrop,
    PlayMove, VariantKey,
};
use lila_ws_gateway::ids::{Flag, GameId, UserId};
use lila_ws_gateway::ipc::{LilaIn, LilaOut};
use lila_ws_gateway::limiter::RateLimiter;
use lila_ws_gateway::protocol::{
    classify_frame, dests_failure_msg, fen_msg, idle_deadline_after, idle_expired, mlat_msg,
    pong_msg, FrameClass,
};
use lila_ws_gateway::session::{flag_of_query, session_id_of_header, trim_vec};
use lila_ws_gateway::text::{parse_u32, push_u32_decimal};

#[test]
fn test_piotr() {
    assert_eq!(piotr(0), b'a'); // a1
    assert_eq!(piotr(25), b'z'); // b4
    assert_eq!(piotr(26), b'A'); // c4
    assert_eq!(piotr(51), b'Z'); // d7
    assert_eq!(piotr(52), b'0'); // e7
    assert_eq!(piotr(61), b'9'); // f8
    assert_eq!(piotr(62), b'!'); // g8
    assert_eq!(piotr(63), b'?'); // h8
}

#[test]
fn piotr_round_trips_every_square() {
    let mut seen = std::collections::HashSet::new();
    for sq in 0u8..64 {
        let c = piotr(sq);
        assert!(seen.insert(c), "duplicate character for square {sq}");
        assert_eq!(piotr_inv(c), Some(sq));
    }
    assert_eq!(seen.len(), 64);
}

#[test]
fn lila_in_encodes_every_record() {
    let alice = UserId::new(b"alice".to_vec()).unwrap();
    let game = GameId::new(b"abcd1234".to_vec()).unwrap();
    assert_eq!(LilaIn::Connect(alice.duplicate()).encode(), b"connect/alice");
    assert_eq!(
        LilaIn::Disconnect(alice.duplicate()).encode(),
        b"disconnect/alice"
    );
    assert_eq!(LilaIn::DisconnectAll.encode(), b"disconnect/all");
    assert_eq!(LilaIn::Watch(game.duplicate()).encode(), b"watch/abcd1234");
    assert_eq!(
        LilaIn::Unwatch(game.duplicate()).encode(),
        b"unwatch/abcd1234"
    );
    assert_eq!(
        LilaIn::Notified(alice.duplicate()).encode(),
        b"notified/alice"
    );
    assert_eq!(LilaIn::Friends(alice.duplicate()).encode(), b"friends/alice");
    assert_eq!(LilaIn::Lag(alice.duplicate(), 250).encode(), b"lag/alice/250");
    assert_eq!(LilaIn::Connections(40000).encode(), b"connections/40000");
}

#[test]
fn lila_in_round_trips_through_the_codec() {
    let alice = UserId::new(b"alice".to_vec()).unwrap();
    let game = GameId::new(b"abcd1234".to_vec()).unwrap();
    let records = vec![
        LilaIn::Connect(alice.duplicate()),
        LilaIn::Disconnect(alice.duplicate()),
        LilaIn::DisconnectAll,
        LilaIn::Watch(game.duplicate()),
        LilaIn::Unwatch(game.duplicate()),
        LilaIn::Notified(alice.duplicate()),
        LilaIn::Friends(alice.duplicate()),
        LilaIn::Lag(alice.duplicate(), 0),
        LilaIn::Connections(4294967295),
    ];
    for rec in records {
        let bytes = rec.encode();
        let back = LilaIn::parse(&bytes).expect("round trip");
        assert_eq!(back.encode(), bytes);
    }
}

#[test]
fn lila_out_parses_backend_records() {
    let msg = LilaOut::parse(&b"mlat/123".to_vec()).unwrap();
    assert!(matches!(msg, LilaOut::MoveLatency(123)));
    let msg = LilaOut::parse(&b"mlat 123".to_vec()).unwrap();
    assert!(matches!(msg, LilaOut::MoveLatency(123)));

    let msg = LilaOut::parse(
        &b"move/abcd1234/rnbqkbnr/pppppppp/8/8/4P3/8/PPPP1PPP/RNBQKBNR b KQkq - 0 1/e2e4".to_vec(),
    )
    .unwrap();
    match msg {
        LilaOut::Move {
            game,
            fen,
            last_uci,
        } => {
            assert_eq!(game.as_bytes(), b"abcd1234");
            assert_eq!(
                fen,
                b"rnbqkbnr/pppppppp/8/8/4P3/8/PPPP1PPP/RNBQKBNR b KQkq - 0 1"
            );
            assert_eq!(last_uci, b"e2e4");
        }
        _ => panic!("expected a move"),
    }

    let msg = LilaOut::parse(&b"tell-user/alice,bob/{\"t\":\"x\"}".to_vec()).unwrap();
    match msg {
        LilaOut::TellUsers { users, payload } => {
            assert_eq!(users.len(), 2);
            assert_eq!(users[0].as_bytes(), b"alice");
            assert_eq!(users[1].as_bytes(), b"bob");
            assert_eq!(payload, b"{\"t\":\"x\"}");
        }
        _ => panic!("expected tell-user"),
    }

    let msg = LilaOut::parse(&b"tell-all/{\"t\":\"y\"}".to_vec()).unwrap();
    match msg {
        LilaOut::TellAll { payload } => assert_eq!(payload, b"{\"t\":\"y\"}"),
        _ => panic!("expected tell-all"),
    }

    let msg = LilaOut::parse(&b"tell-flag/simul/{\"t\":\"z\"}".to_vec()).unwrap();
    match msg {
        LilaOut::TellFlag { flag, payload } => {
            assert_eq!(flag, Flag::Simul);
            assert_eq!(payload, b"{\"t\":\"z\"}");
        }
        _ => panic!("expected tell-flag"),
    }

    assert!(LilaOut::parse(&b"bogus/record".to_vec()).is_none());
    assert!(LilaOut::parse(&b"tell-flag/weird/{}".to_vec()).is_none());
    assert!(LilaOut::parse(&b"mlat/notanumber".to_vec()).is_none());
}

#[test]
fn decimal_codec_handles_the_edges() {
    assert_eq!(parse_u32(&b"0".to_vec()), Some(0));
    assert_eq!(parse_u32(&b"4294967295".to_vec()), Some(4294967295));
    assert_eq!(parse_u32(&b"4294967296".to_vec()), None);
    assert_eq!(parse_u32(&b"".to_vec()), None);
    assert_eq!(parse_u32(&b"12a".to_vec()), None);
    let mut out = Vec::new();
    push_u32_decimal(&mut out, 40000);
    assert_eq!(out, b"40000");
}

#[test]
fn frames_are_classified_by_the_message_discipline() {
    assert!(matches!(
        classify_frame(&b"null".to_vec()),
        FrameClass::PingShortcut
    ));
    let exactly_limit = vec![b'x'; 1024];
    assert!(matches!(classify_frame(&exactly_limit), FrameClass::Payload));
    let over_limit = vec![b'x'; 1025];
    assert!(matches!(classify_frame(&over_limit), FrameClass::Oversized));
    assert_eq!(pong_msg(), b"0");
}

#[test]
fn idle_timer_resets_and_expires() {
    let deadline = idle_deadline_after(0);
    assert_eq!(deadline, 15_000);
    // a frame at 14.9s resets the timer
    assert!(!idle_expired(deadline, 14_900));
    let deadline = idle_deadline_after(14_900);
    assert_eq!(deadline, 29_900);
    assert!(!idle_expired(deadline, 29_899));
    assert!(idle_expired(deadline, 29_900));
}

#[test]
fn rate_limiter_admits_forty_then_drops() {
    let mut rl = RateLimiter::new(40);
    let ip: u128 = 0x7f000001;
    for n in 0..39 {
        assert!(rl.check(ip, 0), "message {n} should pass");
    }
    assert!(rl.check(ip, 0), "the 40th message is accepted");
    assert!(!rl.check(ip, 0), "the 41st message within 10s is dropped");
    // a full refill window later the bucket is full again
    assert!(rl.check(ip, 10_000));
    // an untouched address is unaffected
    assert!(rl.check(0x7f000002, 0));
}

#[test]
fn rate_limiter_evicts_idle_keys() {
    let mut rl = RateLimiter::new(1);
    assert!(rl.check(1, 0));
    assert!(rl.check(2, 50_000));
    rl.cleanup(70_000);
    // key 1 was idle for 70s and is gone; key 2 is kept
    assert_eq!(rl.buckets.iter().filter(|b| b.key == 1).count(), 0);
    assert_eq!(rl.buckets.iter().filter(|b| b.key == 2).count(), 1);
}

#[test]
fn json_frames_are_exact() {
    let game = GameId::new(b"abcd1234".to_vec()).unwrap();
    let frame = fen_msg(&game, &b"fen/with/slashes".to_vec(), &b"e2e4".to_vec());
    assert_eq!(
        frame,
        br#"{"t":"fen","d":{"id":"abcd1234","fen":"fen/with/slashes","lm":"e2e4"}}"#
    );
    assert_eq!(mlat_msg(123), br#"{"t":"mlat","d":123}"#);
    assert_eq!(dests_failure_msg(), br#"{"t":"destsFailure"}"#);
    // bytes that need escaping stay valid JSON
    let tricky = fen_msg(&game, &b"a\"b\\c".to_vec(), &b"\x01".to_vec());
    assert_eq!(
        tricky,
        b"{\"t\":\"fen\",\"d\":{\"id\":\"abcd1234\",\"fen\":\"a\\\"b\\\\c\",\"lm\":\"\\u0001\"}}"
            .to_vec()
    );
}

#[test]
fn session_cookie_resolves_to_its_session_id() {
    let header = b"foo=bar; lila2=0a1b2c3d-sessionId=s3ss10n1d&other=1".to_vec();
    assert_eq!(
        session_id_of_header(&header),
        Some(b"s3ss10n1d".to_vec())
    );
    // no lila2 cookie: anonymous
    assert_eq!(session_id_of_header(&b"foo=bar".to_vec()), None);
    // malformed body: anonymous
    assert_eq!(session_id_of_header(&b"lila2=justastring".to_vec()), None);
    assert_eq!(trim_vec(&b"  lila2=x ".to_vec()), b"lila2=x");
}

#[test]
fn query_string_selects_the_flag() {
    assert_eq!(flag_of_query(&b"flag=simul".to_vec()), Some(Flag::Simul));
    assert_eq!(
        flag_of_query(&b"flag=tournament".to_vec()),
        Some(Flag::Tournament)
    );
    assert_eq!(flag_of_query(&b"flag=weird".to_vec()), None);
    assert_eq!(flag_of_query(&b"other=1".to_vec()), None);
}

fn start_position_fen() -> Vec<u8> {
    b"rnbqkbnr/pppppppp/8/8/8/8/PPPPPPPP/RNBQKBNR w KQkq - 0 1".to_vec()
}

fn book_with_start_position() -> OpeningBook {
    let mut book = OpeningBook::new();
    book.add(
        b"rnbqkbnr/pppppppp/8/8/8/8/PPPPPPPP/RNBQKBNR w KQkq -".to_vec(),
        Opening {
            eco: b"A00".to_vec(),
            name: b"Start Position".to_vec(),
        },
    );
    book
}

#[test]
fn opening_lookup_ignores_non_classical_variants() {
    let book = book_with_start_position();
    let anti = GetOpening {
        variant: Some(VariantKey::Antichess),
        path: b"".to_vec(),
        fen: start_position_fen(),
    };
    assert!(anti.respond(&book).is_none());
    let standard = GetOpening {
        variant: Some(VariantKey::Standard),
        path: b"p".to_vec(),
        fen: start_position_fen(),
    };
    let resp = standard.respond(&book).expect("book hit");
    assert_eq!(resp.opening.eco, b"A00");
    assert_eq!(resp.opening.name, b"Start Position");
    assert_eq!(resp.path, b"p");
}

#[test]
fn ana_dests_for_the_start_position() {
    let book = book_with_start_position();
    let req = GetDests {
        variant: None,
        fen: start_position_fen(),
        path: b"".to_vec(),
        chapter_id: None,
    };
    let resp = req.respond(&book).expect("legal position");
    let dests = String::from_utf8(resp.dests.clone()).unwrap();
    let groups: Vec<&str> = dests.split(' ').collect();
    // the eight rank-2 pawns plus the two knights
    assert_eq!(groups.len(), 10);
    // the opening record for the initial position is attached
    let opening = resp.opening.expect("opening attached");
    assert_eq!(opening.eco, b"A00");

    // decode the piotr string back and compare against the rules engine's
    // twenty opening moves
    let mut decoded = std::collections::HashSet::new();
    for group in &groups {
        let bytes = group.as_bytes();
        let from = piotr_inv(bytes[0]).expect("origin in alphabet");
        for &c in &bytes[1..] {
            let to = piotr_inv(c).expect("target in alphabet");
            decoded.insert((from, to));
        }
    }
    let mut expected = std::collections::HashSet::new();
    for file in 0u8..8 {
        let from = 8 + file; // rank 2
        expected.insert((from, from + 8));
        expected.insert((from, from + 16));
    }
    expected.insert((1, 16)); // b1a3
    expected.insert((1, 18)); // b1c3
    expected.insert((6, 21)); // g1f3
    expected.insert((6, 23)); // g1h3
    assert_eq!(decoded, expected);
}

#[test]
fn ana_dests_rejects_garbage_positions() {
    let book = OpeningBook::new();
    let req = GetDests {
        variant: None,
        fen: b"not a fen at all".to_vec(),
        path: b"".to_vec(),
        chapter_id: None,
    };
    assert!(req.respond(&book).is_err());
}

#[test]
fn effective_variant_collapses_to_shared_rules() {
    assert_eq!(
        EffectiveVariantKey::from(VariantKey::Chess960),
        EffectiveVariantKey::Standard
    );
    assert_eq!(
        EffectiveVariantKey::from(VariantKey::FromPosition),
        EffectiveVariantKey::Standard
    );
    assert!(EffectiveVariantKey::Standard.is_opening_sensible());
    assert!(EffectiveVariantKey::Crazyhouse.is_opening_sensible());
    assert!(!EffectiveVariantKey::Antichess.is_opening_sensible());
    assert!(!EffectiveVariantKey::RacingKings.is_opening_sensible());
}

#[test]
fn game_ids_are_eight_printable_ascii_bytes() {
    assert!(GameId::new(b"abcd1234".to_vec()).is_ok());
    // any printable ASCII is a game id byte, dots included
    assert!(GameId::new(b"abc.defg".to_vec()).is_ok());
    // the field separator, spaces and short ids are not
    assert!(GameId::new(b"abc/defg".to_vec()).is_err());
    assert!(GameId::new(b"abc defg".to_vec()).is_err());
    assert!(GameId::new(b"abcdefg".to_vec()).is_err());
    assert!(GameId::new(b"abcdefghi".to_vec()).is_err());
}

#[test]
fn ana_dests_gates_the_opening_on_the_variant() {
    let book = book_with_start_position();
    // antichess has no castling, so its positions carry no rights
    let req = GetDests {
        variant: Some(VariantKey::Antichess),
        fen: b"rnbqkbnr/pppppppp/8/8/8/8/PPPPPPPP/RNBQKBNR w - - 0 1".to_vec(),
        path: b"".to_vec(),
        chapter_id: None,
    };
    let resp = req.respond(&book).expect("legal position");
    assert!(
        resp.opening.is_none(),
        "no opening for a variant without classical opening theory"
    );
}

#[test]
fn play_move_answers_with_the_new_node() {
    let book = book_with_start_position();
    let req = PlayMove {
        orig: b"e2".to_vec(),
        dest: b"e4".to_vec(),
        variant: None,
        fen: start_position_fen(),
        path: b"=".to_vec(),
        promotion: None,
        chapter_id: None,
    };
    let node = req.respond(&book).expect("a legal move");
    assert_eq!(node.node.id, b"e2e4");
    assert_eq!(
        node.node.fen,
        b"rnbqkbnr/pppppppp/8/8/4P3/8/PPPP1PPP/RNBQKBNR b KQkq - 0 1"
    );
    assert_eq!(node.node.ply, 1);
    assert!(!node.node.check);
    assert!(!node.node.dests.is_empty());
    assert!(node.node.opening.is_none(), "the new position is not in the book");
    assert_eq!(node.path, b"=");
}

#[test]
fn play_move_rejects_illegal_moves() {
    let book = OpeningBook::new();
    let req = PlayMove {
        orig: b"e2".to_vec(),
        dest: b"e5".to_vec(),
        variant: None,
        fen: start_position_fen(),
        path: b"".to_vec(),
        promotion: None,
        chapter_id: None,
    };
    assert!(req.respond(&book).is_err());
    let req = PlayMove {
        orig: b"e2".to_vec(),
        dest: b"e4".to_vec(),
        variant: None,
        fen: b"not a fen".to_vec(),
        path: b"".to_vec(),
        promotion: None,
        chapter_id: None,
    };
    assert!(req.respond(&book).is_err());
}

#[test]
fn play_drop_answers_for_crazyhouse_pockets() {
    let book = OpeningBook::new();
    let req = PlayDrop {
        role: b'Q',
        pos: b"e4".to_vec(),
        variant: Some(VariantKey::Crazyhouse),
        fen: b"rnbqkbnr/pppppppp/8/8/8/8/PPPPPPPP/RNB1KBNR[Q] w KQkq - 0 1".to_vec(),
        path: b"".to_vec(),
        chapter_id: None,
    };
    let node = req.respond(&book).expect("a queen in the pocket can drop");
    assert_eq!(node.node.id, b"Q@e4");
    assert_eq!(node.node.ply, 1);

    // the same drop without a pocket is illegal
    let req = PlayDrop {
        role: b'Q',
        pos: b"e4".to_vec(),
        variant: Some(VariantKey::Crazyhouse),
        fen: b"rnbqkbnr/pppppppp/8/8/8/8/PPPPPPPP/RNB1KBNR[] w KQkq - 0 1".to_vec(),
        path: b"".to_vec(),
        chapter_id: None,
    };
    assert!(req.respond(&book).is_err());
}
