//! End-to-end scenarios against the routing tables and the dispatcher.

use lila_ws_gateway::analysis::OpeningBook;
use lila_ws_gateway::cache::WatchedGames;
use lila_ws_gateway::gateway::ClientMsg;
use lila_ws_gateway::ids::{Flag, GameId, UserId};
use lila_ws_gateway::ipc::{LilaIn, LilaOut};
use lila_ws_gateway::registry::Registry;

fn uid(name: &str) -> UserId {
    UserId::new(name.as_bytes().to_vec()).unwrap()
}

fn gid(name: &str) -> GameId {
    GameId::new(name.as_bytes().to_vec()).unwrap()
}

fn encoded(publishes: &[LilaIn]) -> Vec<Vec<u8>> {
    publishes.iter().map(|m| m.encode()).collect()
}

/// Two sockets for the same user: one `connect` on the first
/// authentication, nothing when the first closes, `disconnect` when the
/// last closes.
#[test]
fn first_and_last_user_socket() {
    let mut reg = Registry::new();
    reg.open_socket(1, 101, true, None);
    reg.open_socket(2, 102, true, None);

    let out = reg.set_user(1, Some(uid("alice")));
    assert_eq!(encoded(&out), vec![b"connect/alice".to_vec()]);

    // the second socket authenticates: the backend hears nothing new
    let out = reg.set_user(2, Some(uid("alice")));
    assert!(out.is_empty());

    // closing the first socket: still one socket left, so nothing
    let out = reg.close_socket(1);
    assert!(out.is_empty());

    // closing the last socket: disconnect
    let out = reg.close_socket(2);
    assert_eq!(encoded(&out), vec![b"disconnect/alice".to_vec()]);
    assert_eq!(reg.count(), 0);
}

/// A `notified` sent while the session lookup is in flight is replayed
/// exactly once when it resolves, and never for an anonymous outcome.
#[test]
fn deferred_notified_replays_once() {
    let mut reg = Registry::new();
    let cache = WatchedGames::new();
    let book = OpeningBook::new();

    reg.open_socket(1, 101, true, None);
    let fx = reg.dispatch_client(&cache, &book, 1, Some(ClientMsg::Notified));
    assert!(fx.publishes.is_empty(), "nothing reaches the backend yet");

    let out = reg.set_user(1, Some(uid("bob")));
    let records = encoded(&out);
    assert_eq!(
        records,
        vec![b"connect/bob".to_vec(), b"notified/bob".to_vec()]
    );
    assert_eq!(
        records
            .iter()
            .filter(|r| r.as_slice() == b"notified/bob")
            .count(),
        1
    );

    // a second resolution does not replay the intent again
    let out = reg.set_user(1, Some(uid("bob")));
    assert!(out.is_empty());
}

/// A deferred `notified` on a socket that turns out anonymous is dropped.
#[test]
fn deferred_notified_dropped_for_anonymous() {
    let mut reg = Registry::new();
    let cache = WatchedGames::new();
    let book = OpeningBook::new();

    reg.open_socket(1, 101, true, None);
    let fx = reg.dispatch_client(&cache, &book, 1, Some(ClientMsg::Notified));
    assert!(fx.publishes.is_empty());
    let out = reg.set_user(1, None);
    assert!(out.is_empty(), "an anonymous outcome publishes nothing");
}

/// Watching a cached game: the client gets the cached position at once,
/// and no second `watch` is published for an already-watched game.
#[test]
fn watch_cached_game() {
    let mut reg = Registry::new();
    let mut cache = WatchedGames::new();
    let book = OpeningBook::new();

    // an existing watcher made the game known to the backend
    reg.open_socket(1, 101, false, None);
    let fx = reg.dispatch_client(
        &cache,
        &book,
        1,
        Some(ClientMsg::StartWatching {
            games: vec![gid("abcd1234")],
        }),
    );
    assert_eq!(encoded(&fx.publishes), vec![b"watch/abcd1234".to_vec()]);
    assert!(fx.replies.is_empty(), "cache is still empty");

    // the backend publishes a move: watchers get a fen frame, the cache
    // fills
    let msg = LilaOut::parse(&b"move/abcd1234/4k3/8/8/8/8/8/8/4K3 w - - 0 1/e2e4".to_vec())
        .unwrap();
    let fx = reg.received(&mut cache, msg);
    assert_eq!(fx.sends.len(), 1);
    assert_eq!(fx.sends[0].0, 101);
    assert_eq!(
        fx.sends[0].1,
        br#"{"t":"fen","d":{"id":"abcd1234","fen":"4k3/8/8/8/8/8/8/4K3 w - - 0 1","lm":"e2e4"}}"#
    );

    // a new client starts watching: immediate fen from the cache, and no
    // new watch record
    reg.open_socket(2, 102, false, None);
    let fx = reg.dispatch_client(
        &cache,
        &book,
        2,
        Some(ClientMsg::StartWatching {
            games: vec![gid("abcd1234")],
        }),
    );
    assert!(fx.publishes.is_empty(), "the game is already registered");
    assert_eq!(fx.replies.len(), 1);
    assert_eq!(
        fx.replies[0],
        br#"{"t":"fen","d":{"id":"abcd1234","fen":"4k3/8/8/8/8/8/8/4K3 w - - 0 1","lm":"e2e4"}}"#
    );
}

/// Watching an uncached game: no immediate fen, one `watch` record, and
/// no re-publish for the second watcher.
#[test]
fn watch_uncached_game() {
    let mut reg = Registry::new();
    let cache = WatchedGames::new();
    let book = OpeningBook::new();

    reg.open_socket(1, 101, false, None);
    let fx = reg.dispatch_client(
        &cache,
        &book,
        1,
        Some(ClientMsg::StartWatching {
            games: vec![gid("abcd1234")],
        }),
    );
    assert!(fx.replies.is_empty());
    assert_eq!(encoded(&fx.publishes), vec![b"watch/abcd1234".to_vec()]);

    reg.open_socket(2, 102, false, None);
    let fx = reg.dispatch_client(
        &cache,
        &book,
        2,
        Some(ClientMsg::StartWatching {
            games: vec![gid("abcd1234")],
        }),
    );
    assert!(fx.publishes.is_empty(), "a second watcher does not re-publish");
}

/// The move-latency loop: the heartbeat stores the figure, answers with
/// the connection count, and fans the figure out to its watchers.
#[test]
fn move_latency_loop() {
    let mut reg = Registry::new();
    let mut cache = WatchedGames::new();
    let book = OpeningBook::new();

    reg.open_socket(1, 101, false, None);
    reg.open_socket(2, 102, false, None);

    // socket 1 subscribes to latency updates and gets the current figure
    let fx = reg.dispatch_client(&cache, &book, 1, Some(ClientMsg::MoveLat { on: true }));
    assert_eq!(fx.replies.len(), 1);

    let msg = LilaOut::parse(&b"mlat/123".to_vec()).unwrap();
    let fx = reg.received(&mut cache, msg);
    assert_eq!(encoded(&fx.publishes), vec![b"connections/2".to_vec()]);
    assert_eq!(fx.sends.len(), 1);
    assert_eq!(fx.sends[0].0, 101);
    assert_eq!(fx.sends[0].1, br#"{"t":"mlat","d":123}"#);
    assert_eq!(reg.mlat_value(), 123);

    // switching off stops the updates
    let fx = reg.dispatch_client(&cache, &book, 1, Some(ClientMsg::MoveLat { on: false }));
    assert!(fx.replies.is_empty());
    let msg = LilaOut::parse(&b"mlat/200".to_vec()).unwrap();
    let fx = reg.received(&mut cache, msg);
    assert!(fx.sends.is_empty());
}

/// Closing a socket publishes `unwatch` for every game it was the last
/// watcher of, and tears down its flag subscription.
#[test]
fn close_restores_every_table() {
    let mut reg = Registry::new();
    let cache = WatchedGames::new();
    let book = OpeningBook::new();

    reg.open_socket(1, 101, false, Some(Flag::Simul));
    let fx = reg.dispatch_client(
        &cache,
        &book,
        1,
        Some(ClientMsg::StartWatching {
            games: vec![gid("abcd1234"), gid("wxyz9876")],
        }),
    );
    assert_eq!(
        encoded(&fx.publishes),
        vec![b"watch/abcd1234".to_vec(), b"watch/wxyz9876".to_vec()]
    );

    let out = reg.close_socket(1);
    assert_eq!(
        encoded(&out),
        vec![b"unwatch/abcd1234".to_vec(), b"unwatch/wxyz9876".to_vec()]
    );
    assert_eq!(reg.count(), 0);
    assert!(reg.flag_simul.is_empty());
    assert!(reg.by_game.is_empty());
}

/// Backend fan-outs reach exactly the addressed sockets.
#[test]
fn backend_fan_out() {
    let mut reg = Registry::new();
    let mut cache = WatchedGames::new();

    reg.open_socket(1, 101, true, Some(Flag::Simul));
    reg.open_socket(2, 102, true, None);
    let _ = reg.set_user(1, Some(uid("alice")));
    let _ = reg.set_user(2, Some(uid("bob")));

    let msg = LilaOut::parse(&b"tell-user/alice/{\"t\":\"hi\"}".to_vec()).unwrap();
    let fx = reg.received(&mut cache, msg);
    assert_eq!(fx.sends.len(), 1);
    assert_eq!(fx.sends[0].0, 101);
    assert_eq!(fx.sends[0].1, b"{\"t\":\"hi\"}");

    let msg = LilaOut::parse(&b"tell-flag/simul/{\"t\":\"s\"}".to_vec()).unwrap();
    let fx = reg.received(&mut cache, msg);
    assert_eq!(fx.sends.len(), 1);
    assert_eq!(fx.sends[0].0, 101);

    let msg = LilaOut::parse(&b"tell-all/{\"t\":\"a\"}".to_vec()).unwrap();
    let fx = reg.received(&mut cache, msg);
    assert_eq!(fx.broadcast, Some(b"{\"t\":\"a\"}".to_vec()));
}

/// Lag reports are published only for authenticated sockets, and a parse
/// failure closes the socket with the protocol code.
#[test]
fn pings_and_protocol_violations() {
    let mut reg = Registry::new();
    let cache = WatchedGames::new();
    let book = OpeningBook::new();

    reg.open_socket(1, 101, false, None);
    let fx = reg.dispatch_client(&cache, &book, 1, Some(ClientMsg::Ping { lag: Some(30) }));
    assert!(fx.publishes.is_empty(), "anonymous lag is dropped");
    assert_eq!(fx.replies, vec![b"0".to_vec()]);

    reg.open_socket(2, 102, true, None);
    let _ = reg.set_user(2, Some(uid("carol")));
    let fx = reg.dispatch_client(&cache, &book, 2, Some(ClientMsg::Ping { lag: Some(30) }));
    assert_eq!(encoded(&fx.publishes), vec![b"lag/carol/30".to_vec()]);

    // negative lag figures are dropped
    let fx = reg.dispatch_client(&cache, &book, 2, Some(ClientMsg::Ping { lag: Some(-1) }));
    assert!(fx.publishes.is_empty());

    let fx = reg.dispatch_client(&cache, &book, 2, None);
    assert_eq!(fx.close, Some(1002));
}

/// The cache keeps the last known position of a game.
#[test]
fn cache_keeps_last_position() {
    let mut cache = WatchedGames::new();
    assert!(cache.peek(&gid("abcd1234")).is_none());
    cache.put(gid("abcd1234"), b"fen1".to_vec(), b"e2e4".to_vec());
    cache.put(gid("abcd1234"), b"fen2".to_vec(), b"e7e5".to_vec());
    let w = cache.peek(&gid("abcd1234")).expect("cached");
    assert_eq!(w.fen, b"fen2");
    assert_eq!(w.lm, b"e7e5");
}
