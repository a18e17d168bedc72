//! Dispatch: what the gateway does with each backend record and each
//! parsed client message. The functions here decide; the caller performs
//! the sends, publishes and closes they return.

use vstd::prelude::*;

use crate::analysis::{GetOpening, GetDests, PlayMove, PlayDrop, OpeningBook, lookup_spec, opening_sensible, effective_of_opt, variant_code, variant_moves_of, dests_spec, step_of, step_result_ok, uci_of_move, uci_of_drop, ply_of, EffectiveVariantKey, Node, StepFailure};
use crate::cache::{WatchedGames, watched_entries};
use crate::ids::{GameId, UserId, valid_game_id};
use crate::ipc::{LilaIn, LilaInView, LilaOut, LilaOutView};
use crate::protocol::{fen_msg, fen_msg_spec, mlat_msg, mlat_msg_spec, pong_msg, pong_spec, opening_msg, opening_msg_spec, dests_msg, dests_msg_spec, dests_failure_msg, dests_failure_spec, step_failure_msg, step_failure_spec, close_protocol_error, node_msg, node_msg_spec};
use crate::registry::{Registry, registry_unchanged, intent_post, intent_msg, watch_post, watching_views, auth_user_of};
use crate::text::subvec;

verus! {

/// The per-socket sends of a backend event, as (token, payload) pairs.
pub open spec fn sends_view(s: Seq<(u64, Vec<u8>)>) -> Seq<(u64, Seq<u8>)> {
    s.map_values(|p: (u64, Vec<u8>)| (p.0, p.1@))
}

/// One payload addressed to every listed token, in order.
pub open spec fn sends_to(tokens: Seq<u64>, payload: Seq<u8>) -> Seq<(u64, Seq<u8>)> {
    tokens.map_values(|t: u64| (t, payload))
}

/// The published records, as views.
pub open spec fn pubs_view(s: Seq<LilaIn>) -> Seq<LilaInView> {
    s.map_values(|m: LilaIn| m@)
}

fn send_all(tokens: &Vec<u64>, payload: &Vec<u8>) -> (r: Vec<(u64, Vec<u8>)>)
    ensures
        sends_view(r@) == sends_to(tokens@, payload@),
{
    let mut out: Vec<(u64, Vec<u8>)> = Vec::new();
    let mut i: usize = 0;
    let n = tokens.len();
    while i < n
        invariant
            n == tokens@.len(),
            0 <= i <= n,
            sends_view(out@) == sends_to(tokens@.subrange(0, i as int), payload@),
        decreases n - i,
    {
        let pay = subvec(payload, 0, payload.len());
        proof {
            assert(pay@ =~= payload@);
        }
        let ghost outold = out@;
        out.push((tokens[i], pay));
        proof {
            assert(sends_view(out@) =~= sends_view(outold).push(
                (tokens@[i as int], payload@),
            ));
            assert(sends_to(tokens@.subrange(0, i + 1), payload@) =~= sends_to(
                tokens@.subrange(0, i as int),
                payload@,
            ).push((tokens@[i as int], payload@)));
        }
        i += 1;
    }
    proof {
        assert(tokens@.subrange(0, n as int) =~= tokens@);
    }
    out
}

/// What the gateway does with one backend record.
pub struct BackendEffects {
    /// Records to publish back on `site-in`.
    pub publishes: Vec<LilaIn>,
    /// Frames to send to single sockets, by sender token.
    pub sends: Vec<(u64, Vec<u8>)>,
    /// A frame for the broadcast handle, reaching every open socket.
    pub broadcast: Option<Vec<u8>>,
}

/// The per-user fan-out of a `tell-user` record over the first `upto`
/// listed users.
pub open spec fn tell_users_sends(
    reg: Registry,
    users: Seq<UserId>,
    payload: Seq<u8>,
    upto: int,
) -> Seq<(u64, Seq<u8>)>
    decreases upto,
{
    if upto <= 0 {
        Seq::empty()
    } else {
        tell_users_sends(reg, users, payload, upto - 1) + sends_to(
            reg.user_tokens(users[upto - 1]@),
            payload,
        )
    }
}

impl Registry {
    /// Routes one backend record: a board update reaches its watchers and
    /// refreshes the cache, `tell-*` payloads fan out verbatim, and the
    /// latency heartbeat is stored, fanned out, and answered with the
    /// connection count.
    pub fn received(&mut self, cache: &mut WatchedGames, msg: LilaOut) -> (fx: BackendEffects)
        requires
            old(self).wf(),
        ensures
            final(self).wf(),
            match msg@ {
                LilaOutView::Move { game, fen, last_uci } => {
                    &&& registry_unchanged(*old(self), *final(self))
                    &&& watched_entries(*final(cache)).contains_key(game)
                    &&& watched_entries(*final(cache))[game] == (fen, last_uci)
                    &&& sends_view(fx.sends@) == sends_to(
                        old(self).game_tokens(game),
                        fen_msg_spec(game, fen, last_uci),
                    )
                    &&& fx.publishes@.len() == 0
                    &&& fx.broadcast is None
                },
                LilaOutView::TellUsers { users, payload } => {
                    &&& registry_unchanged(*old(self), *final(self))
                    &&& *final(cache) == *old(cache)
                    &&& (match msg {
                        LilaOut::TellUsers { users: us, payload: _ } => sends_view(fx.sends@)
                            == tell_users_sends(*old(self), us@, payload, us@.len() as int),
                        _ => false,
                    })
                    &&& fx.publishes@.len() == 0
                    &&& fx.broadcast is None
                },
                LilaOutView::TellAll { payload } => {
                    &&& registry_unchanged(*old(self), *final(self))
                    &&& *final(cache) == *old(cache)
                    &&& fx.sends@.len() == 0
                    &&& fx.publishes@.len() == 0
                    &&& (match fx.broadcast {
                        Some(b) => b@ == payload,
                        None => false,
                    })
                },
                LilaOutView::TellFlag { flag, payload } => {
                    &&& registry_unchanged(*old(self), *final(self))
                    &&& *final(cache) == *old(cache)
                    &&& sends_view(fx.sends@) == sends_to(old(self).flag_tokens(flag), payload)
                    &&& fx.publishes@.len() == 0
                    &&& fx.broadcast is None
                },
                LilaOutView::MoveLatency(n) => {
                    &&& final(self).mlat == n
                    &&& final(self).by_id == old(self).by_id
                    &&& final(self).by_user == old(self).by_user
                    &&& final(self).by_game == old(self).by_game
                    &&& final(self).flag_simul == old(self).flag_simul
                    &&& final(self).flag_tournament == old(self).flag_tournament
                    &&& final(self).watching_mlat == old(self).watching_mlat
                    &&& final(self).connection_count == old(self).connection_count
                    &&& *final(cache) == *old(cache)
                    &&& pubs_view(fx.publishes@) == seq![
                        LilaInView::Connections(old(self).connection_count),
                    ]
                    &&& sends_view(fx.sends@) == sends_to(
                        old(self).watching_mlat@,
                        mlat_msg_spec(n),
                    )
                    &&& fx.broadcast is None
                },
            },
    {
        match msg {
            LilaOut::Move { game, fen, last_uci } => {
                let frame = fen_msg(&game, &fen, &last_uci);
                let watchers = self.watchers_of(&game);
                let sends = send_all(&watchers, &frame);
                cache.put(game, fen, last_uci);
                BackendEffects { publishes: Vec::new(), sends, broadcast: None }
            },
            LilaOut::TellUsers { users, payload } => {
                let mut sends: Vec<(u64, Vec<u8>)> = Vec::new();
                let mut i: usize = 0;
                let n = users.len();
                let ghost pre = *self;
                while i < n
                    invariant
                        n == users@.len(),
                        0 <= i <= n,
                        *self == pre,
                        pre.wf(),
                        sends_view(sends@) == tell_users_sends(pre, users@, payload@, i as int),
                    decreases n - i,
                {
                    let toks = self.tokens_of_user(&users[i]);
                    let mut batch = send_all(&toks, &payload);
                    let ghost sendsold = sends@;
                    sends.append(&mut batch);
                    proof {
                        assert(sends_view(sends@) =~= sends_view(sendsold) + sends_to(
                            pre.user_tokens(users@[i as int]@),
                            payload@,
                        ));
                        assert(sends_view(sends@) =~= tell_users_sends(
                            pre,
                            users@,
                            payload@,
                            i + 1,
                        ));
                    }
                    i += 1;
                }
                BackendEffects { publishes: Vec::new(), sends, broadcast: None }
            },
            LilaOut::TellAll { payload } => {
                BackendEffects { publishes: Vec::new(), sends: Vec::new(), broadcast: Some(payload) }
            },
            LilaOut::TellFlag { flag, payload } => {
                let toks = self.flag_tokens_vec(flag);
                let sends = send_all(&toks, &payload);
                BackendEffects { publishes: Vec::new(), sends, broadcast: None }
            },
            LilaOut::MoveLatency(n) => {
                let count = self.count();
                let mut publishes: Vec<LilaIn> = Vec::new();
                publishes.push(LilaIn::Connections(count));
                self.set_mlat(n);
                let frame = mlat_msg(n);
                let watchers = self.mlat_watchers();
                let sends = send_all(&watchers, &frame);
                proof {
                    assert(pubs_view(publishes@) =~= seq![
                        LilaInView::Connections(old(self).connection_count),
                    ]);
                }
                BackendEffects { publishes, sends, broadcast: None }
            },
        }
    }
}

/// A parsed client message: the closed tagged-envelope taxonomy. Unknown
/// tags fail parsing and close the socket.
pub enum ClientMsg {
    /// `p`: ping with optional client lag figure.
    Ping { lag: Option<i32> },
    /// `notified`: the client viewed their notifications.
    Notified,
    /// `following_onlines`: the client wants their friend-online list.
    FollowingOnlines,
    /// `startWatching`: subscribe to each listed game.
    StartWatching { games: Vec<GameId> },
    /// `moveLat`: toggle move-latency updates.
    MoveLat { on: bool },
    /// `opening`: an opening lookup request.
    Opening { req: GetOpening },
    /// `anaDests`: a legal-destination request.
    AnaDests { req: GetDests },
    /// `anaMove`: a move-step request.
    AnaMove { req: PlayMove },
    /// `anaDrop`: a drop-step request.
    AnaDrop { req: PlayDrop },
    /// `evalGet`: reserved for the evaluation subsystem.
    EvalGet,
    /// `evalPut`: reserved for the evaluation subsystem.
    EvalPut,
    /// `ping`: a challenge ping the gateway does not serve.
    ChallengePing,
}

/// What the gateway does with one client message.
pub struct ClientEffects {
    /// Records to publish on `site-in`.
    pub publishes: Vec<LilaIn>,
    /// Frames to send back on this socket, in order.
    pub replies: Vec<Vec<u8>>,
    /// Close the socket with this code.
    pub close: Option<u16>,
}

/// Reply frames as byte strings.
pub open spec fn replies_view(s: Seq<Vec<u8>>) -> Seq<Seq<u8>> {
    s.map_values(|v: Vec<u8>| v@)
}

/// `watch/g` stands among the published records.
pub open spec fn watch_published(ps: Seq<LilaInView>, g: Seq<u8>) -> bool {
    exists|x: int| 0 <= x < ps.len() && ps[x] == LilaInView::Watch(g)
}

/// `g` is among the listed games.
pub open spec fn game_in_list(gs: Seq<GameId>, g: Seq<u8>) -> bool {
    exists|m: int| 0 <= m < gs.len() && (#[trigger] gs[m])@ == g
}

/// The frame stands among the replies.
pub open spec fn reply_present(rs: Seq<Seq<u8>>, frame: Seq<u8>) -> bool {
    exists|x: int| 0 <= x < rs.len() && rs[x] == frame
}

/// The frame is the cached-position answer of some listed game the
/// socket was not yet watching.
pub open spec fn reply_is_cached_fen(
    rv: Seq<u8>,
    games: Seq<GameId>,
    cache: WatchedGames,
    pre_watching: Seq<Seq<u8>>,
) -> bool {
    exists|g: Seq<u8>|
        game_in_list(games, g) && !pre_watching.contains(g) && watched_entries(
            cache,
        ).contains_key(g) && rv == fen_msg_spec(
            g,
            watched_entries(cache)[g].0,
            watched_entries(cache)[g].1,
        )
}

/// The frame answering one analysis step: the new node when the step is
/// legal, `stepFailure` otherwise.
pub open spec fn step_reply_spec(
    variant: EffectiveVariantKey,
    book: &OpeningBook,
    fen: Seq<u8>,
    uci: Seq<u8>,
    path: Seq<u8>,
    chapter: Option<Seq<u8>>,
) -> Seq<u8> {
    match step_of(variant_code(variant), fen, uci) {
        Some(o) => node_msg_spec(
            uci,
            ply_of(o.2, o.3),
            o.0,
            o.1,
            (match variant_moves_of(variant_code(variant), o.0) {
                Some(ms) => dests_spec(ms),
                None => Seq::<u8>::empty(),
            }),
            (if opening_sensible(variant) {
                lookup_spec(book, o.0)
            } else {
                None
            }),
            Seq::<u8>::empty(),
            Seq::<u8>::empty(),
            path,
            chapter,
        ),
        None => step_failure_spec(),
    }
}


/// Builds the one-frame reply list of a step request.
fn step_replies(
    r: Result<Node, StepFailure>,
    Ghost(eff): Ghost<EffectiveVariantKey>,
    Ghost(fenv): Ghost<Seq<u8>>,
    Ghost(uciv): Ghost<Seq<u8>>,
    Ghost(pathv): Ghost<Seq<u8>>,
    Ghost(chv): Ghost<Option<Seq<u8>>>,
    book: &OpeningBook,
) -> (replies: Vec<Vec<u8>>)
    requires
        r is Ok <==> step_of(variant_code(eff), fenv, uciv) is Some,
        r matches Ok(n) ==> step_result_ok(eff, book, fenv, uciv, pathv, chv, n),
    ensures
        replies_view(replies@) == seq![step_reply_spec(eff, book, fenv, uciv, pathv, chv)],
{
    let mut replies: Vec<Vec<u8>> = Vec::new();
    match r {
        Ok(n) => {
            let frame = match (&n.node.opening, &n.chapter_id) {
                (Some(op), Some(c)) => node_msg(
                    &n.node.id,
                    n.node.ply,
                    &n.node.fen,
                    n.node.check,
                    &n.node.dests,
                    Some((&op.eco, &op.name)),
                    &n.node.drops,
                    &n.node.crazy_data,
                    &n.path,
                    Some(c),
                ),
                (Some(op), None) => node_msg(
                    &n.node.id,
                    n.node.ply,
                    &n.node.fen,
                    n.node.check,
                    &n.node.dests,
                    Some((&op.eco, &op.name)),
                    &n.node.drops,
                    &n.node.crazy_data,
                    &n.path,
                    None,
                ),
                (None, Some(c)) => node_msg(
                    &n.node.id,
                    n.node.ply,
                    &n.node.fen,
                    n.node.check,
                    &n.node.dests,
                    None,
                    &n.node.drops,
                    &n.node.crazy_data,
                    &n.path,
                    Some(c),
                ),
                (None, None) => node_msg(
                    &n.node.id,
                    n.node.ply,
                    &n.node.fen,
                    n.node.check,
                    &n.node.dests,
                    None,
                    &n.node.drops,
                    &n.node.crazy_data,
                    &n.path,
                    None,
                ),
            };
            replies.push(frame);
            proof {
                assert(n.node.drops@ =~= Seq::<u8>::empty());
                assert(n.node.crazy_data@ =~= Seq::<u8>::empty());
                assert(replies_view(replies@) =~= seq![
                    step_reply_spec(eff, book, fenv, uciv, pathv, chv),
                ]);
            }
        },
        Err(_) => {
            replies.push(step_failure_msg());
            proof {
                assert(replies_view(replies@) =~= seq![
                    step_reply_spec(eff, book, fenv, uciv, pathv, chv),
                ]);
            }
        },
    }
    replies
}

/// The view of an optional byte string.
pub open spec fn opt_bytes_view(o: Option<Vec<u8>>) -> Option<Seq<u8>> {
    match o {
        Some(c) => Some(c@),
        None => None,
    }
}

/// The optional single record, as a sequence.
pub open spec fn opt_msg_seq(m: Option<LilaInView>) -> Seq<LilaInView> {
    match m {
        Some(v) => seq![v],
        None => seq![],
    }
}

impl Registry {
    /// Dispatches one parsed client message (or a parse failure) for an
    /// open socket: the per-tag behaviour of the socket handler after
    /// rate limiting and framing.
    #[verifier::rlimit(100)]
    pub fn dispatch_client(
        &mut self,
        cache: &WatchedGames,
        book: &OpeningBook,
        sid: u64,
        msg: Option<ClientMsg>,
    ) -> (fx: ClientEffects)
        requires
            old(self).wf(),
            old(self).has_socket(sid),
            match msg {
                Some(ClientMsg::StartWatching { games }) => forall|m: int|
                    0 <= m < games@.len() ==> valid_game_id((#[trigger] games@[m])@),
                _ => true,
            },
        ensures
            final(self).wf(),
            match msg {
                None => {
                    &&& registry_unchanged(*old(self), *final(self))
                    &&& fx.publishes@.len() == 0
                    &&& fx.replies@.len() == 0
                    &&& fx.close == Some(close_protocol_error())
                },
                Some(m) => match m {
                    ClientMsg::Ping { lag } => {
                        &&& registry_unchanged(*old(self), *final(self))
                        &&& fx.close is None
                        &&& replies_view(fx.replies@) == seq![pong_spec()]
                        &&& pubs_view(fx.publishes@) == (match lag {
                            Some(l) => if l >= 0 {
                                opt_msg_seq(
                                    match auth_user_of(old(self).sock_at(sid)) {
                                        Some(u) => Some(LilaInView::Lag(u, l as u32)),
                                        None => None,
                                    },
                                )
                            } else {
                                seq![]
                            },
                            None => seq![],
                        })
                    },
                    ClientMsg::Notified => {
                        &&& intent_post(*old(self), *final(self), sid, false)
                        &&& fx.close is None
                        &&& fx.replies@.len() == 0
                        &&& pubs_view(fx.publishes@) == opt_msg_seq(
                            intent_msg(*old(self), sid, false),
                        )
                    },
                    ClientMsg::FollowingOnlines => {
                        &&& intent_post(*old(self), *final(self), sid, true)
                        &&& fx.close is None
                        &&& fx.replies@.len() == 0
                        &&& pubs_view(fx.publishes@) == opt_msg_seq(
                            intent_msg(*old(self), sid, true),
                        )
                    },
                    ClientMsg::StartWatching { games } => {
                        &&& fx.close is None
                        &&& final(self).has_socket(sid)
                        &&& final(self).by_user == old(self).by_user
                        &&& final(self).flag_simul == old(self).flag_simul
                        &&& final(self).flag_tournament == old(self).flag_tournament
                        &&& final(self).watching_mlat == old(self).watching_mlat
                        &&& final(self).connection_count == old(self).connection_count
                        &&& final(self).mlat == old(self).mlat
                        &&& (forall|m: int|
                            0 <= m < games@.len() ==> watching_views(
                                final(self).sock_at(sid),
                            ).contains((#[trigger] games@[m])@))
                        &&& (forall|x: int|
                            0 <= x < fx.publishes@.len() ==> (#[trigger] fx.publishes@[x])@
                                is Watch)
                        &&& (forall|g: Seq<u8>|
                            #[trigger] watch_published(pubs_view(fx.publishes@), g) <==> (
                            game_in_list(games@, g) && !old(self).game_watched(g)
                                && !watching_views(old(self).sock_at(sid)).contains(g)))
                        &&& (forall|m: int|
                            0 <= m < games@.len() ==> {
                                let g = (#[trigger] games@[m])@;
                                (!watching_views(old(self).sock_at(sid)).contains(g)
                                    && watched_entries(*cache).contains_key(g)) ==> reply_present(
                                    replies_view(fx.replies@),
                                    fen_msg_spec(
                                        g,
                                        watched_entries(*cache)[g].0,
                                        watched_entries(*cache)[g].1,
                                    ),
                                )
                            })
                        &&& (forall|x: int|
                            0 <= x < fx.replies@.len() ==> reply_is_cached_fen(
                                (#[trigger] fx.replies@[x])@,
                                games@,
                                *cache,
                                watching_views(old(self).sock_at(sid)),
                            ))
                        &&& (forall|x1: int, x2: int|
                            0 <= x1 < x2 < fx.publishes@.len() ==> (
                            #[trigger] fx.publishes@[x1])@ != (#[trigger] fx.publishes@[x2])@)
                        &&& (forall|g: Seq<u8>|
                            #![trigger final(self).game_tokens(g)]
                            #![trigger final(self).game_watched(g)]
                            !game_in_list(games@, g) ==> final(self).game_tokens(g) == old(
                                self,
                            ).game_tokens(g) && final(self).game_watched(g) == old(
                                self,
                            ).game_watched(g))
                        &&& (forall|g: Seq<u8>| #[trigger]
                            watching_views(final(self).sock_at(sid)).contains(g) <==> (
                            watching_views(old(self).sock_at(sid)).contains(g) || game_in_list(
                                games@,
                                g,
                            )))
                        &&& final(self).by_id@.len() == old(self).by_id@.len()
                        &&& final(self).sock_idx(sid) == old(self).sock_idx(sid)
                        &&& (forall|k: int|
                            0 <= k < old(self).by_id@.len() && k != old(self).sock_idx(sid)
                                ==> #[trigger] final(self).by_id@[k] == old(self).by_id@[k])
                    },
                    ClientMsg::MoveLat { on } => {
                        &&& fx.close is None
                        &&& fx.publishes@.len() == 0
                        &&& replies_view(fx.replies@) == (if on && !old(
                            self,
                        ).watching_mlat@.contains(old(self).sock_at(sid).sender) {
                            seq![mlat_msg_spec(old(self).mlat)]
                        } else {
                            seq![]
                        })
                        &&& final(self).by_id == old(self).by_id
                        &&& final(self).by_user == old(self).by_user
                        &&& final(self).by_game == old(self).by_game
                        &&& final(self).mlat == old(self).mlat
                        &&& final(self).connection_count == old(self).connection_count
                        &&& (on ==> final(self).watching_mlat@.contains(
                            old(self).sock_at(sid).sender,
                        ))
                        &&& (!on ==> !final(self).watching_mlat@.contains(
                            old(self).sock_at(sid).sender,
                        ))
                        &&& (forall|x: u64|
                            x != old(self).sock_at(sid).sender
                                ==> final(self).watching_mlat@.contains(x) == old(
                                self,
                            ).watching_mlat@.contains(x))
                        &&& final(self).flag_simul == old(self).flag_simul
                        &&& final(self).flag_tournament == old(self).flag_tournament
                    },
                    ClientMsg::Opening { req } => {
                        &&& registry_unchanged(*old(self), *final(self))
                        &&& fx.close is None
                        &&& fx.publishes@.len() == 0
                        &&& replies_view(fx.replies@) == (if opening_sensible(
                            effective_of_opt(req.variant),
                        ) {
                            match lookup_spec(book, req.fen@) {
                                Some(o) => seq![opening_msg_spec(req.path@, o.0, o.1)],
                                None => seq![],
                            }
                        } else {
                            seq![]
                        })
                    },
                    ClientMsg::AnaDests { req } => {
                        &&& registry_unchanged(*old(self), *final(self))
                        &&& fx.close is None
                        &&& fx.publishes@.len() == 0
                        &&& replies_view(fx.replies@) == (match variant_moves_of(
                            variant_code(effective_of_opt(req.variant)),
                            req.fen@,
                        ) {
                            Some(ms) => seq![
                                dests_msg_spec(
                                    req.path@,
                                    dests_spec(ms),
                                    (if opening_sensible(effective_of_opt(req.variant)) {
                                        lookup_spec(book, req.fen@)
                                    } else {
                                        None
                                    }),
                                    match req.chapter_id {
                                        Some(c) => Some(c@),
                                        None => None,
                                    },
                                ),
                            ],
                            None => seq![dests_failure_spec()],
                        })
                    },
                    ClientMsg::AnaMove { req } => {
                        &&& registry_unchanged(*old(self), *final(self))
                        &&& fx.close is None
                        &&& fx.publishes@.len() == 0
                        &&& replies_view(fx.replies@) == seq![
                            step_reply_spec(
                                effective_of_opt(req.variant),
                                book,
                                req.fen@,
                                uci_of_move(req.orig@, req.dest@, req.promotion),
                                req.path@,
                                match req.chapter_id {
                                    Some(c) => Some(c@),
                                    None => None,
                                },
                            ),
                        ]
                    },
                    ClientMsg::AnaDrop { req } => {
                        &&& registry_unchanged(*old(self), *final(self))
                        &&& fx.close is None
                        &&& fx.publishes@.len() == 0
                        &&& replies_view(fx.replies@) == seq![
                            step_reply_spec(
                                effective_of_opt(req.variant),
                                book,
                                req.fen@,
                                uci_of_drop(req.role, req.pos@),
                                req.path@,
                                match req.chapter_id {
                                    Some(c) => Some(c@),
                                    None => None,
                                },
                            ),
                        ]
                    },
                    ClientMsg::EvalGet => {
                        &&& registry_unchanged(*old(self), *final(self))
                        &&& fx.close is None
                        &&& fx.publishes@.len() == 0
                        &&& fx.replies@.len() == 0
                    },
                    ClientMsg::EvalPut => {
                        &&& registry_unchanged(*old(self), *final(self))
                        &&& fx.close is None
                        &&& fx.publishes@.len() == 0
                        &&& fx.replies@.len() == 0
                    },
                    ClientMsg::ChallengePing => {
                        &&& registry_unchanged(*old(self), *final(self))
                        &&& fx.close is None
                        &&& fx.publishes@.len() == 0
                        &&& fx.replies@.len() == 0
                    },
                },
            },
    {
        let ghost pre = *old(self);
        match msg {
            None => {
                ClientEffects { publishes: Vec::new(), replies: Vec::new(), close: Some(1002) }
            },
            Some(m) => match m {
                ClientMsg::Ping { lag } => {
                    let mut publishes: Vec<LilaIn> = Vec::new();
                    match lag {
                        Some(l) => {
                            if l >= 0 {
                                match self.on_ping(sid, l as u32) {
                                    Some(p) => {
                                        publishes.push(p);
                                        proof {
                                            assert(pubs_view(publishes@) =~= opt_msg_seq(
                                                match auth_user_of(pre.sock_at(sid)) {
                                                    Some(u) => Some(
                                                        LilaInView::Lag(u, l as u32),
                                                    ),
                                                    None => None,
                                                },
                                            ));
                                        }
                                    },
                                    None => {
                                        proof {
                                            assert(pubs_view(publishes@) =~= Seq::<
                                                LilaInView,
                                            >::empty());
                                        }
                                    },
                                }
                            }
                        },
                        None => {},
                    }
                    let mut replies: Vec<Vec<u8>> = Vec::new();
                    replies.push(pong_msg());
                    proof {
                        assert(replies_view(replies@) =~= seq![pong_spec()]);
                        assert(pubs_view(Seq::<LilaIn>::empty()) =~= Seq::<LilaInView>::empty());
                    }
                    ClientEffects { publishes, replies, close: None }
                },
                ClientMsg::Notified => {
                    let mut publishes: Vec<LilaIn> = Vec::new();
                    match self.on_notified(sid) {
                        Some(p) => {
                            publishes.push(p);
                            proof {
                                assert(pubs_view(publishes@) =~= opt_msg_seq(
                                    intent_msg(pre, sid, false),
                                ));
                            }
                        },
                        None => {
                            proof {
                                assert(pubs_view(publishes@) =~= opt_msg_seq(
                                    intent_msg(pre, sid, false),
                                ));
                            }
                        },
                    }
                    ClientEffects { publishes, replies: Vec::new(), close: None }
                },
                ClientMsg::FollowingOnlines => {
                    let mut publishes: Vec<LilaIn> = Vec::new();
                    match self.on_following_onlines(sid) {
                        Some(p) => {
                            publishes.push(p);
                            proof {
                                assert(pubs_view(publishes@) =~= opt_msg_seq(
                                    intent_msg(pre, sid, true),
                                ));
                            }
                        },
                        None => {
                            proof {
                                assert(pubs_view(publishes@) =~= opt_msg_seq(
                                    intent_msg(pre, sid, true),
                                ));
                            }
                        },
                    }
                    ClientEffects { publishes, replies: Vec::new(), close: None }
                },
                ClientMsg::StartWatching { games } => self.start_watching(cache, sid, games),
                ClientMsg::MoveLat { on } => {
                    let ghost t = pre.sock_at(sid).sender;
                    let snapshot = self.mlat_value();
                    let newly = self.set_mlat_watch(sid, on);
                    let mut replies: Vec<Vec<u8>> = Vec::new();
                    if newly {
                        replies.push(mlat_msg(snapshot));
                        proof {
                            assert(replies_view(replies@) =~= seq![mlat_msg_spec(pre.mlat)]);
                        }
                    } else {
                        proof {
                            assert(replies_view(replies@) =~= Seq::<Seq<u8>>::empty());
                        }
                    }
                    ClientEffects { publishes: Vec::new(), replies, close: None }
                },
                ClientMsg::Opening { req } => {
                    let mut replies: Vec<Vec<u8>> = Vec::new();
                    match req.respond(book) {
                        Some(resp) => {
                            let frame = opening_msg(
                                &resp.path,
                                &resp.opening.eco,
                                &resp.opening.name,
                            );
                            replies.push(frame);
                            proof {
                                assert(replies_view(replies@) =~= seq![
                                    opening_msg_spec(
                                        resp.path@,
                                        resp.opening.eco@,
                                        resp.opening.name@,
                                    ),
                                ]);
                            }
                        },
                        None => {
                            proof {
                                assert(replies_view(replies@) =~= Seq::<Seq<u8>>::empty());
                            }
                        },
                    }
                    ClientEffects { publishes: Vec::new(), replies, close: None }
                },
                ClientMsg::AnaDests { req } => {
                    let mut replies: Vec<Vec<u8>> = Vec::new();
                    match req.respond(book) {
                        Ok(d) => {
                            let frame = match (&d.opening, &d.chapter_id) {
                                (Some(o), Some(c)) => dests_msg(
                                    &d.path,
                                    &d.dests,
                                    Some((&o.eco, &o.name)),
                                    Some(c),
                                ),
                                (Some(o), None) => dests_msg(
                                    &d.path,
                                    &d.dests,
                                    Some((&o.eco, &o.name)),
                                    None,
                                ),
                                (None, Some(c)) => dests_msg(&d.path, &d.dests, None, Some(c)),
                                (None, None) => dests_msg(&d.path, &d.dests, None, None),
                            };
                            replies.push(frame);
                        },
                        Err(_) => {
                            replies.push(dests_failure_msg());
                        },
                    }
                    proof {
                        assert(replies_view(replies@) =~= replies_view(replies@));
                    }
                    ClientEffects { publishes: Vec::new(), replies, close: None }
                },
                ClientMsg::AnaMove { req } => {
                    let ghost eff = effective_of_opt(req.variant);
                    let ghost fenv = req.fen@;
                    let ghost uciv = uci_of_move(req.orig@, req.dest@, req.promotion);
                    let ghost pathv = req.path@;
                    let ghost chv = opt_bytes_view(req.chapter_id);
                    let replies = step_replies(
                        req.respond(book),
                        Ghost(eff),
                        Ghost(fenv),
                        Ghost(uciv),
                        Ghost(pathv),
                        Ghost(chv),
                        book,
                    );
                    ClientEffects { publishes: Vec::new(), replies, close: None }
                },
                ClientMsg::AnaDrop { req } => {
                    let ghost eff = effective_of_opt(req.variant);
                    let ghost fenv = req.fen@;
                    let ghost uciv = uci_of_drop(req.role, req.pos@);
                    let ghost pathv = req.path@;
                    let ghost chv = opt_bytes_view(req.chapter_id);
                    let replies = step_replies(
                        req.respond(book),
                        Ghost(eff),
                        Ghost(fenv),
                        Ghost(uciv),
                        Ghost(pathv),
                        Ghost(chv),
                        book,
                    );
                    ClientEffects { publishes: Vec::new(), replies, close: None }
                },
                ClientMsg::EvalGet => {
                    ClientEffects { publishes: Vec::new(), replies: Vec::new(), close: None }
                },
                ClientMsg::EvalPut => {
                    ClientEffects { publishes: Vec::new(), replies: Vec::new(), close: None }
                },
                ClientMsg::ChallengePing => {
                    ClientEffects { publishes: Vec::new(), replies: Vec::new(), close: None }
                },
            },
        }
    }

    /// Subscribes the socket to each listed game: a game new to this
    /// socket gets an immediate `fen` frame when cached, and the game's
    /// first watcher obliges a `watch` publish.
    #[verifier::rlimit(100)]
    fn start_watching(
        &mut self,
        cache: &WatchedGames,
        sid: u64,
        games: Vec<GameId>,
    ) -> (fx: ClientEffects)
        requires
            old(self).wf(),
            old(self).has_socket(sid),
            forall|m: int| 0 <= m < games@.len() ==> valid_game_id((#[trigger] games@[m])@),
        ensures
            final(self).wf(),
            fx.close is None,
            final(self).has_socket(sid),
            final(self).by_user == old(self).by_user,
            final(self).flag_simul == old(self).flag_simul,
            final(self).flag_tournament == old(self).flag_tournament,
            final(self).watching_mlat == old(self).watching_mlat,
            final(self).connection_count == old(self).connection_count,
            final(self).mlat == old(self).mlat,
            forall|m: int|
                0 <= m < games@.len() ==> watching_views(final(self).sock_at(sid)).contains(
                    (#[trigger] games@[m])@,
                ),
            forall|x: int|
                0 <= x < fx.publishes@.len() ==> (#[trigger] fx.publishes@[x])@ is Watch,
            forall|g: Seq<u8>|
                #[trigger] watch_published(pubs_view(fx.publishes@), g) <==> (game_in_list(
                    games@,
                    g,
                ) && !old(self).game_watched(g) && !watching_views(
                    old(self).sock_at(sid),
                ).contains(g)),
            forall|m: int|
                0 <= m < games@.len() ==> {
                    let g = (#[trigger] games@[m])@;
                    (!watching_views(old(self).sock_at(sid)).contains(g) && watched_entries(
                        *cache,
                    ).contains_key(g)) ==> reply_present(
                        replies_view(fx.replies@),
                        fen_msg_spec(g, watched_entries(*cache)[g].0, watched_entries(*cache)[g].1),
                    )
                },
            forall|x: int|
                0 <= x < fx.replies@.len() ==> reply_is_cached_fen(
                    (#[trigger] fx.replies@[x])@,
                    games@,
                    *cache,
                    watching_views(old(self).sock_at(sid)),
                ),
            forall|x1: int, x2: int|
                0 <= x1 < x2 < fx.publishes@.len() ==> (#[trigger] fx.publishes@[x1])@ != (
                #[trigger] fx.publishes@[x2])@,
            forall|g: Seq<u8>|
                #![trigger final(self).game_tokens(g)]
                #![trigger final(self).game_watched(g)]
                !game_in_list(games@, g) ==> final(self).game_tokens(g) == old(self).game_tokens(
                    g,
                ) && final(self).game_watched(g) == old(self).game_watched(g),
            forall|g: Seq<u8>| #[trigger]
                watching_views(final(self).sock_at(sid)).contains(g) <==> (watching_views(
                    old(self).sock_at(sid),
                ).contains(g) || game_in_list(games@, g)),
            final(self).by_id@.len() == old(self).by_id@.len(),
            final(self).sock_idx(sid) == old(self).sock_idx(sid),
            forall|k: int|
                0 <= k < old(self).by_id@.len() && k != old(self).sock_idx(sid)
                    ==> #[trigger] final(self).by_id@[k] == old(self).by_id@[k],
    {
        let ghost pre = *old(self);
        let mut publishes: Vec<LilaIn> = Vec::new();
        let mut replies: Vec<Vec<u8>> = Vec::new();
        let mut i: usize = 0;
        let n = games.len();
        while i < n
            invariant
                n == games@.len(),
                0 <= i <= n,
                pre == *old(self),
                pre.wf(),
                pre.has_socket(sid),
                forall|m: int| 0 <= m < n ==> valid_game_id((#[trigger] games@[m])@),
                self.wf(),
                self.has_socket(sid),
                self.sock_idx(sid) == pre.sock_idx(sid),
                self.sock_at(sid).sender == pre.sock_at(sid).sender,
                self.by_user == pre.by_user,
                self.flag_simul == pre.flag_simul,
                self.flag_tournament == pre.flag_tournament,
                self.watching_mlat == pre.watching_mlat,
                self.connection_count == pre.connection_count,
                self.mlat == pre.mlat,
                self.by_id@.len() == pre.by_id@.len(),
                forall|k: int|
                    0 <= k < pre.by_id@.len() && k != pre.sock_idx(sid) ==> #[trigger] self.by_id@[k]
                        == pre.by_id@[k],
                forall|g: Seq<u8>|
                    !game_in_list(games@.subrange(0, i as int), g) ==> #[trigger] self.game_tokens(
                        g,
                    ) == pre.game_tokens(g),
                forall|x1: int, x2: int|
                    0 <= x1 < x2 < publishes@.len() ==> (#[trigger] publishes@[x1])@ != (
                    #[trigger] publishes@[x2])@,
                forall|x: int|
                    0 <= x < replies@.len() ==> reply_is_cached_fen(
                        (#[trigger] replies@[x])@,
                        games@,
                        *cache,
                        watching_views(pre.sock_at(sid)),
                    ),
                forall|g: Seq<u8>| #[trigger]
                    watching_views(self.sock_at(sid)).contains(g) <==> (watching_views(
                        pre.sock_at(sid),
                    ).contains(g) || game_in_list(games@.subrange(0, i as int), g)),
                forall|g: Seq<u8>| #[trigger]
                    self.game_watched(g) <==> (pre.game_watched(g) || game_in_list(
                        games@.subrange(0, i as int),
                        g,
                    )),
                forall|x: int|
                    0 <= x < publishes@.len() ==> (#[trigger] publishes@[x])@ is Watch,
                forall|g: Seq<u8>| #[trigger]
                    watch_published(pubs_view(publishes@), g) <==> (game_in_list(
                        games@.subrange(0, i as int),
                        g,
                    ) && !pre.game_watched(g) && !watching_views(pre.sock_at(sid)).contains(g)),
                forall|m: int|
                    0 <= m < i ==> {
                        let g = (#[trigger] games@[m])@;
                        (!watching_views(pre.sock_at(sid)).contains(g) && watched_entries(
                            *cache,
                        ).contains_key(g)) ==> reply_present(
                            replies_view(replies@),
                            fen_msg_spec(
                                g,
                                watched_entries(*cache)[g].0,
                                watched_entries(*cache)[g].1,
                            ),
                        )
                    },
            decreases n - i,
        {
            let ghost cur = *self;
            let g = &games[i];
            let (added, first) = self.watch_game(sid, g);
            let ghost post = *self;
            proof {
                // where the socket's entry stands afterwards
                if added {
                    assert(post.sock_idx(sid) == cur.sock_idx(sid)) by {
                        assert(post.by_id@[cur.sock_idx(sid)].0 == sid);
                        let kc = post.sock_idx(sid);
                        if kc != cur.sock_idx(sid) {
                            assert(post.by_id@[kc].0 == sid);
                        }
                    }
                    assert(watching_views(post.sock_at(sid)) == watching_views(
                        cur.sock_at(sid),
                    ).push(g@));
                } else {
                    assert(post.by_id == cur.by_id);
                    assert(post.has_socket(sid) == cur.has_socket(sid));
                    assert(post.sock_idx(sid) == cur.sock_idx(sid));
                    assert(post.sock_at(sid) == cur.sock_at(sid));
                    crate::registry::lemma_game_table_funcs(cur, post);
                    assert(watching_views(cur.sock_at(sid)).contains(g@));
                }
            }
            let ghost repold = replies@;
            if added {
                match cache.peek(g) {
                    Some(w) => {
                        let frame = fen_msg(g, &w.fen, &w.lm);
                        replies.push(frame);
                        proof {
                            assert((replies@[replies@.len() - 1])@ == fen_msg_spec(
                                g@,
                                watched_entries(*cache)[g@].0,
                                watched_entries(*cache)[g@].1,
                            ));
                        }
                    },
                    None => {},
                }
            }
            let ghost pubold = publishes@;
            if first {
                publishes.push(LilaIn::Watch(g.duplicate()));
            }
            proof {
                let fin = *self;
                // reply frames carry over a push
                assert forall|f: Seq<u8>|
                    reply_present(replies_view(repold), f) implies #[trigger] reply_present(
                    replies_view(replies@),
                    f,
                ) by {
                    let x = choose|x: int|
                        0 <= x < replies_view(repold).len() && replies_view(repold)[x] == f;
                    assert(replies_view(replies@)[x] == f);
                }
                // list membership in the one-longer prefix
                assert forall|g2: Seq<u8>| #[trigger]
                    game_in_list(games@.subrange(0, i + 1), g2) <==> (game_in_list(
                    games@.subrange(0, i as int),
                    g2,
                ) || g2 == g@) by {
                    if game_in_list(games@.subrange(0, i + 1), g2) {
                        let m0 = choose|m0: int|
                            0 <= m0 < i + 1 && (#[trigger] games@.subrange(0, i + 1)[m0])@ == g2;
                        if m0 < i {
                            assert(games@.subrange(0, i as int)[m0]@ == g2);
                        }
                    }
                    if game_in_list(games@.subrange(0, i as int), g2) {
                        let m0 = choose|m0: int|
                            0 <= m0 < i && (#[trigger] games@.subrange(0, i as int)[m0])@ == g2;
                        assert(games@.subrange(0, i + 1)[m0]@ == g2);
                    }
                    if g2 == g@ {
                        assert(games@.subrange(0, i + 1)[i as int]@ == g2);
                    }
                }
                // the socket's watching set
                assert forall|g2: Seq<u8>| #[trigger]
                    watching_views(fin.sock_at(sid)).contains(g2) <==> (watching_views(
                        pre.sock_at(sid),
                    ).contains(g2) || game_in_list(games@.subrange(0, i + 1), g2)) by {
                    if added {
                        let pv = watching_views(cur.sock_at(sid));
                        assert(watching_views(fin.sock_at(sid)) == pv.push(g@));
                        if watching_views(fin.sock_at(sid)).contains(g2) {
                            let q = choose|q: int|
                                0 <= q < pv.push(g@).len() && pv.push(g@)[q] == g2;
                            if q < pv.len() {
                                assert(pv[q] == g2);
                            } else {
                                assert(g2 == g@);
                            }
                        }
                        if pv.contains(g2) {
                            let q = choose|q: int| 0 <= q < pv.len() && pv[q] == g2;
                            assert(pv.push(g@)[q] == g2);
                        }
                        if g2 == g@ {
                            assert(pv.push(g@)[pv.len() as int] == g@);
                        }
                    } else {
                        if g2 == g@ {
                            assert(watching_views(cur.sock_at(sid)).contains(g@));
                        }
                    }
                }
                // which games have watchers
                assert forall|g2: Seq<u8>| #[trigger]
                    fin.game_watched(g2) <==> (pre.game_watched(g2) || game_in_list(
                        games@.subrange(0, i + 1),
                        g2,
                    )) by {
                    if added {
                        if g2 == g@ {
                            assert(fin.game_watched(g@));
                        } else {
                            assert(fin.game_tokens(g2) == cur.game_tokens(g2)
                                && fin.game_watched(g2) == cur.game_watched(g2));
                        }
                    } else {
                        if g2 == g@ {
                            assert(cur.game_watched(g@)) by {
                                let wv = watching_views(cur.sock_at(sid));
                                let m0 = choose|m0: int| 0 <= m0 < wv.len() && wv[m0] == g@;
                                assert(cur.sock_watch_registered(cur.sock_idx(sid), m0));
                                assert(cur.game_tokens(g@).contains(
                                    cur.by_id@[cur.sock_idx(sid)].1.sender,
                                ));
                                if !cur.game_watched(g@) {
                                    assert(cur.game_tokens(g@) =~= Seq::<u64>::empty());
                                }
                            }
                        }
                    }
                }
                // the publishes so far
                if first {
                    assert(pubs_view(publishes@) =~= pubs_view(pubold).push(
                        LilaInView::Watch(g@),
                    ));
                }
                assert forall|g2: Seq<u8>| #[trigger]
                    watch_published(pubs_view(publishes@), g2) <==> (game_in_list(
                        games@.subrange(0, i + 1),
                        g2,
                    ) && !pre.game_watched(g2) && !watching_views(pre.sock_at(sid)).contains(
                        g2,
                    )) by {
                    let oldp = pubs_view(pubold);
                    let newp = pubs_view(publishes@);
                    if first {
                        assert(watch_published(newp, g2) <==> (watch_published(oldp, g2) || g2
                            == g@)) by {
                            if watch_published(newp, g2) {
                                let x = choose|x: int|
                                    0 <= x < newp.len() && newp[x] == LilaInView::Watch(g2);
                                if x < oldp.len() {
                                    assert(oldp[x] == LilaInView::Watch(g2));
                                }
                            }
                            if watch_published(oldp, g2) {
                                let x = choose|x: int|
                                    0 <= x < oldp.len() && oldp[x] == LilaInView::Watch(g2);
                                assert(newp[x] == LilaInView::Watch(g2));
                            }
                            if g2 == g@ {
                                assert(newp[newp.len() - 1] == LilaInView::Watch(g@));
                            }
                        }
                    } else {
                        assert(newp == oldp);
                        if g2 == g@ && !watch_published(oldp, g@) && game_in_list(
                            games@.subrange(0, i + 1),
                            g@,
                        ) && !pre.game_watched(g@) && !watching_views(
                            pre.sock_at(sid),
                        ).contains(g@) {
                            // not `first` means the game was already watched
                            // by this socket or by someone
                            assert(!game_in_list(games@.subrange(0, i as int), g@));
                            assert(!cur.game_watched(g@) && !watching_views(
                                cur.sock_at(sid),
                            ).contains(g@));
                            assert(added && !cur.game_watched(g@));
                            assert(false);
                        }
                    }
                }
                // replies: every requested cached game so far is answered
                assert forall|m: int| 0 <= m < i + 1 implies {
                    let g2 = (#[trigger] games@[m])@;
                    (!watching_views(pre.sock_at(sid)).contains(g2) && watched_entries(
                        *cache,
                    ).contains_key(g2)) ==> reply_present(
                        replies_view(replies@),
                        fen_msg_spec(
                            g2,
                            watched_entries(*cache)[g2].0,
                            watched_entries(*cache)[g2].1,
                        ),
                    )
                } by {
                    let g2 = games@[m]@;
                    if !watching_views(pre.sock_at(sid)).contains(g2) && watched_entries(
                        *cache,
                    ).contains_key(g2) {
                        if m < i {
                            assert(reply_present(
                                replies_view(repold),
                                fen_msg_spec(
                                    g2,
                                    watched_entries(*cache)[g2].0,
                                    watched_entries(*cache)[g2].1,
                                ),
                            ));
                        } else {
                            assert(g2 == g@);
                            if added {
                                assert(reply_present(
                                    replies_view(replies@),
                                    fen_msg_spec(
                                        g2,
                                        watched_entries(*cache)[g2].0,
                                        watched_entries(*cache)[g2].1,
                                    ),
                                )) by {
                                    assert((replies@[replies@.len() - 1])@ == fen_msg_spec(
                                        g2,
                                        watched_entries(*cache)[g2].0,
                                        watched_entries(*cache)[g2].1,
                                    ));
                                    assert(replies_view(replies@)[replies@.len() - 1]
                                        == fen_msg_spec(
                                        g2,
                                        watched_entries(*cache)[g2].0,
                                        watched_entries(*cache)[g2].1,
                                    ));
                                }
                            } else {
                                // already watching: the game came earlier in
                                // the list
                                assert(watching_views(cur.sock_at(sid)).contains(g@));
                                assert(game_in_list(games@.subrange(0, i as int), g@));
                                let m0 = choose|m0: int|
                                    0 <= m0 < i && (#[trigger] games@.subrange(0, i as int)[
                                        m0
                                    ])@ == g@;
                                assert(games@[m0]@ == g2);
                                assert(reply_present(
                                    replies_view(repold),
                                    fen_msg_spec(
                                        g2,
                                        watched_entries(*cache)[g2].0,
                                        watched_entries(*cache)[g2].1,
                                    ),
                                ));
                            }
                        }
                    }
                }
                // the game table beyond the listed games is untouched
                assert forall|g2: Seq<u8>|
                    !game_in_list(games@.subrange(0, i + 1), g2) implies #[trigger]
                    fin.game_tokens(g2) == pre.game_tokens(g2) by {
                    assert(g2 != g@) by {
                        if g2 == g@ {
                            assert(games@.subrange(0, i + 1)[i as int]@ == g@);
                        }
                    }
                    assert(!game_in_list(games@.subrange(0, i as int), g2)) by {
                        if game_in_list(games@.subrange(0, i as int), g2) {
                            let m0 = choose|m0: int|
                                0 <= m0 < i && (#[trigger] games@.subrange(0, i as int)[m0])@
                                    == g2;
                            assert(games@.subrange(0, i + 1)[m0]@ == g2);
                        }
                    }
                    if added {
                        assert(fin.game_tokens(g2) == cur.game_tokens(g2));
                    } else {
                        assert(fin.game_tokens(g2) == cur.game_tokens(g2));
                    }
                }
                // other sockets are untouched
                assert forall|k: int|
                    0 <= k < pre.by_id@.len() && k != pre.sock_idx(sid) implies #[trigger]
                    fin.by_id@[k] == pre.by_id@[k] by {
                    if added {
                        assert(fin.by_id@[k] == cur.by_id@[k]);
                    } else {
                        assert(fin.by_id@[k] == cur.by_id@[k]);
                    }
                }
                // no watch record is repeated
                assert forall|x1: int, x2: int|
                    0 <= x1 < x2 < publishes@.len() implies (#[trigger] publishes@[x1])@ != (
                #[trigger] publishes@[x2])@ by {
                    if first && x2 == publishes@.len() - 1 {
                        assert((publishes@[x2])@ == LilaInView::Watch(g@));
                        assert((publishes@[x1])@ == (pubold[x1])@);
                        match (publishes@[x1])@ {
                            LilaInView::Watch(gp) => {
                                assert(watch_published(pubs_view(pubold), gp)) by {
                                    assert(pubs_view(pubold)[x1] == LilaInView::Watch(gp));
                                }
                                assert(game_in_list(games@.subrange(0, i as int), gp));
                                assert(gp != g@) by {
                                    if gp == g@ {
                                        assert(!watching_views(cur.sock_at(sid)).contains(g@));
                                        assert(!game_in_list(games@.subrange(0, i as int), g@));
                                    }
                                }
                            },
                            _ => {
                                assert(false);
                            },
                        }
                    } else {
                        assert((publishes@[x1])@ == (pubold[x1])@);
                        assert((publishes@[x2])@ == (pubold[x2])@);
                    }
                }
                // every reply so far is a cached answer of a listed game
                assert forall|x: int|
                    0 <= x < replies@.len() implies reply_is_cached_fen(
                    (#[trigger] replies@[x])@,
                    games@,
                    *cache,
                    watching_views(pre.sock_at(sid)),
                ) by {
                    if x < repold.len() {
                        assert(replies@[x] == repold[x]);
                    } else {
                        assert(game_in_list(games@, g@)) by {
                            assert(games@[i as int]@ == g@);
                        }
                        assert(!watching_views(cur.sock_at(sid)).contains(g@));
                        assert(!watching_views(pre.sock_at(sid)).contains(g@));
                        assert(watched_entries(*cache).contains_key(g@));
                        assert((replies@[x])@ == fen_msg_spec(
                            g@,
                            watched_entries(*cache)[g@].0,
                            watched_entries(*cache)[g@].1,
                        ));
                    }
                }
            }
            i += 1;
        }
        proof {
            assert(games@.subrange(0, n as int) =~= games@);
        }
        ClientEffects { publishes, replies, close: None }
    }
}

} // verus!
