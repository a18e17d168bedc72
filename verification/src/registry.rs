//! The routing tables and the per-socket authentication state machine.
//!
//! The registry is the in-memory fabric that maps users, games and flags
//! to the sockets that should receive each event. Every mutating
//! operation returns the records that must be published to the backend;
//! performing the publishes and the per-socket sends is the caller's
//! business.

use vstd::prelude::*;

use crate::ids::{Flag, GameId, UserId, valid_game_id, valid_user_id};
use crate::ipc::{LilaIn, LilaInView};

verus! {

/// Authentication state of one socket.
pub enum SocketAuth {
    /// A session cookie was present; the lookup is still in flight.
    Requested,
    /// The session resolved to this user.
    Authenticated(UserId),
    /// No cookie, or the lookup failed.
    Anonymous,
}

/// Per-socket state, keyed by socket id in the registry.
pub struct UserSocket {
    /// Stable per-connection token of the sender handle.
    pub sender: u64,
    pub auth: SocketAuth,
    /// A `notified` intent deferred while authentication is pending.
    pub pending_notified: bool,
    /// A `following_onlines` intent deferred while authentication is pending.
    pub pending_following_onlines: bool,
    /// Games this socket watches; a set, kept duplicate-free.
    pub watching: Vec<GameId>,
    /// The flag channel chosen at handshake, if any.
    pub flag: Option<Flag>,
}

/// The user a socket is authenticated as, if any.
pub open spec fn auth_user_of(s: UserSocket) -> Option<Seq<u8>> {
    match s.auth {
        SocketAuth::Authenticated(u) => Some(u@),
        _ => None,
    }
}

/// The games a socket watches, as byte strings.
pub open spec fn watching_views(s: UserSocket) -> Seq<Seq<u8>> {
    s.watching@.map_values(|g: GameId| g@)
}

/// No two elements of `s` are equal.
pub open spec fn distinct_u64(s: Seq<u64>) -> bool {
    forall|k1: int, k2: int| 0 <= k1 < k2 < s.len() ==> s[k1] != s[k2]
}

/// The connection multiplexer's routing tables.
pub struct Registry {
    /// Socket id to per-socket state; present iff the socket is open.
    pub by_id: Vec<(u64, UserSocket)>,
    /// User id to the sender tokens of that user's open sockets.
    pub by_user: Vec<(UserId, Vec<u64>)>,
    /// Game id to the sender tokens of its watchers.
    pub by_game: Vec<(GameId, Vec<u64>)>,
    /// Sender tokens subscribed to the simul flag channel.
    pub flag_simul: Vec<u64>,
    /// Sender tokens subscribed to the tournament flag channel.
    pub flag_tournament: Vec<u64>,
    /// Sender tokens that asked for move-latency updates.
    pub watching_mlat: Vec<u64>,
    /// Number of open sockets.
    pub connection_count: u32,
    /// Last move-latency figure received from the backend.
    pub mlat: u32,
}

impl Registry {
    /// Whether a socket with this id is open.
    pub open spec fn has_socket(&self, sid: u64) -> bool {
        exists|k: int| 0 <= k < self.by_id@.len() && (#[trigger] self.by_id@[k]).0 == sid
    }

    /// The index of the socket with this id.
    pub open spec fn sock_idx(&self, sid: u64) -> int {
        choose|k: int| 0 <= k < self.by_id@.len() && (#[trigger] self.by_id@[k]).0 == sid
    }

    /// The state of the socket with this id.
    pub open spec fn sock_at(&self, sid: u64) -> UserSocket {
        self.by_id@[self.sock_idx(sid)].1
    }

    /// Whether some open socket uses this sender token.
    pub open spec fn token_used(&self, t: u64) -> bool {
        exists|k: int| 0 <= k < self.by_id@.len() && (#[trigger] self.by_id@[k]).1.sender == t
    }

    /// Whether the user has an entry (equivalently: at least one socket).
    pub open spec fn user_online(&self, u: Seq<u8>) -> bool {
        exists|j: int| 0 <= j < self.by_user@.len() && (#[trigger] self.by_user@[j]).0@ == u
    }

    pub open spec fn user_idx(&self, u: Seq<u8>) -> int {
        choose|j: int| 0 <= j < self.by_user@.len() && (#[trigger] self.by_user@[j]).0@ == u
    }

    /// The sender tokens of a user's open sockets.
    pub open spec fn user_tokens(&self, u: Seq<u8>) -> Seq<u64> {
        if self.user_online(u) {
            self.by_user@[self.user_idx(u)].1@
        } else {
            Seq::empty()
        }
    }

    /// Whether the game has at least one watcher.
    pub open spec fn game_watched(&self, g: Seq<u8>) -> bool {
        exists|j: int| 0 <= j < self.by_game@.len() && (#[trigger] self.by_game@[j]).0@ == g
    }

    pub open spec fn game_idx(&self, g: Seq<u8>) -> int {
        choose|j: int| 0 <= j < self.by_game@.len() && (#[trigger] self.by_game@[j]).0@ == g
    }

    /// The sender tokens of a game's watchers.
    pub open spec fn game_tokens(&self, g: Seq<u8>) -> Seq<u64> {
        if self.game_watched(g) {
            self.by_game@[self.game_idx(g)].1@
        } else {
            Seq::empty()
        }
    }

    /// The tokens subscribed to a flag channel.
    pub open spec fn flag_tokens(&self, f: Flag) -> Seq<u64> {
        match f {
            Flag::Simul => self.flag_simul@,
            Flag::Tournament => self.flag_tournament@,
        }
    }

    /// Entry `l` of user row `j` is backed by an authenticated socket.
    pub open spec fn user_entry_backed(&self, j: int, l: int) -> bool {
        exists|k: int|
            0 <= k < self.by_id@.len() && (#[trigger] self.by_id@[k]).1.sender
                == self.by_user@[j].1@[l] && auth_user_of(self.by_id@[k].1) == Some(
                self.by_user@[j].0@,
            )
    }

    /// Socket `k`'s watched game `m` lists the socket's token.
    pub open spec fn sock_watch_registered(&self, k: int, m: int) -> bool {
        self.game_tokens(self.by_id@[k].1.watching@[m]@).contains(self.by_id@[k].1.sender)
    }

    /// Entry `l` of game row `j` is backed by a watching socket.
    pub open spec fn game_entry_backed(&self, j: int, l: int) -> bool {
        exists|k: int|
            0 <= k < self.by_id@.len() && (#[trigger] self.by_id@[k]).1.sender
                == self.by_game@[j].1@[l] && watching_views(self.by_id@[k].1).contains(
                self.by_game@[j].0@,
            )
    }

    /// Entry `l` of a flag list is backed by a socket that chose the flag.
    pub open spec fn flag_entry_backed(&self, f: Flag, l: int) -> bool {
        exists|k: int|
            0 <= k < self.by_id@.len() && (#[trigger] self.by_id@[k]).1.sender
                == self.flag_tokens(f)[l] && self.by_id@[k].1.flag == Some(f)
    }

    /// Entry `l` of the move-latency list is the token of an open socket.
    pub open spec fn mlat_entry_backed(&self, l: int) -> bool {
        exists|k: int|
            0 <= k < self.by_id@.len() && (#[trigger] self.by_id@[k]).1.sender
                == self.watching_mlat@[l]
    }

    /// Socket ids are distinct: an id is never reused while open.
    pub open spec fn wf_sock_ids(&self) -> bool {
        forall|k1: int, k2: int|
            0 <= k1 < k2 < self.by_id@.len() ==> (#[trigger] self.by_id@[k1]).0 != (
            #[trigger] self.by_id@[k2]).0
    }

    /// Sender tokens are distinct across open sockets.
    pub open spec fn wf_tokens(&self) -> bool {
        forall|k1: int, k2: int|
            0 <= k1 < k2 < self.by_id@.len() ==> (#[trigger] self.by_id@[k1]).1.sender != (
            #[trigger] self.by_id@[k2]).1.sender
    }

    /// Per-socket state is internally well formed.
    pub open spec fn wf_socks(&self) -> bool {
        forall|k: int|
            0 <= k < self.by_id@.len() ==> {
                let s = (#[trigger] self.by_id@[k]).1;
                &&& (match s.auth {
                    SocketAuth::Authenticated(u) => valid_user_id(u@),
                    _ => true,
                })
                &&& (forall|m: int|
                    0 <= m < s.watching@.len() ==> valid_game_id(
                        (#[trigger] s.watching@[m])@,
                    ))
                &&& (forall|m1: int, m2: int|
                    0 <= m1 < m2 < s.watching@.len() ==> (#[trigger] s.watching@[m1])@ != (
                    #[trigger] s.watching@[m2])@)
            }
    }

    /// The user table: distinct valid keys, nonempty duplicate-free lists.
    pub open spec fn wf_user_table(&self) -> bool {
        &&& (forall|j1: int, j2: int|
            0 <= j1 < j2 < self.by_user@.len() ==> (#[trigger] self.by_user@[j1]).0@ != (
            #[trigger] self.by_user@[j2]).0@)
        &&& (forall|j: int|
            0 <= j < self.by_user@.len() ==> {
                let e = #[trigger] self.by_user@[j];
                valid_user_id(e.0@) && e.1@.len() > 0 && distinct_u64(e.1@)
            })
    }

    /// The game table: distinct valid keys, nonempty duplicate-free lists.
    pub open spec fn wf_game_table(&self) -> bool {
        &&& (forall|j1: int, j2: int|
            0 <= j1 < j2 < self.by_game@.len() ==> (#[trigger] self.by_game@[j1]).0@ != (
            #[trigger] self.by_game@[j2]).0@)
        &&& (forall|j: int|
            0 <= j < self.by_game@.len() ==> {
                let e = #[trigger] self.by_game@[j];
                valid_game_id(e.0@) && e.1@.len() > 0 && distinct_u64(e.1@)
            })
    }

    /// A socket is in `by_user[u]` exactly when it is authenticated as `u`.
    pub open spec fn wf_link_user(&self) -> bool {
        &&& (forall|k: int|
            0 <= k < self.by_id@.len() ==> (match (#[trigger] self.by_id@[k]).1.auth {
                SocketAuth::Authenticated(u) => self.user_tokens(u@).contains(
                    self.by_id@[k].1.sender,
                ),
                _ => true,
            }))
        &&& (forall|j: int, l: int|
            0 <= j < self.by_user@.len() && 0 <= l < self.by_user@[j].1@.len()
                ==> #[trigger] self.user_entry_backed(j, l))
    }

    /// A socket is in `by_game[g]` exactly when `g` is in its watching set.
    pub open spec fn wf_link_game(&self) -> bool {
        &&& (forall|k: int, m: int|
            0 <= k < self.by_id@.len() && 0 <= m < self.by_id@[k].1.watching@.len()
                ==> #[trigger] self.sock_watch_registered(k, m))
        &&& (forall|j: int, l: int|
            0 <= j < self.by_game@.len() && 0 <= l < self.by_game@[j].1@.len()
                ==> #[trigger] self.game_entry_backed(j, l))
    }

    /// A socket is in a flag list exactly when it chose that flag.
    pub open spec fn wf_link_flag(&self) -> bool {
        &&& distinct_u64(self.flag_simul@)
        &&& distinct_u64(self.flag_tournament@)
        &&& (forall|k: int|
            0 <= k < self.by_id@.len() ==> (match (#[trigger] self.by_id@[k]).1.flag {
                Some(f) => self.flag_tokens(f).contains(self.by_id@[k].1.sender),
                None => true,
            }))
        &&& (forall|l: int|
            0 <= l < self.flag_simul@.len() ==> #[trigger] self.flag_entry_backed(
                Flag::Simul,
                l,
            ))
        &&& (forall|l: int|
            0 <= l < self.flag_tournament@.len() ==> #[trigger] self.flag_entry_backed(
                Flag::Tournament,
                l,
            ))
    }

    /// Move-latency watchers are open sockets.
    pub open spec fn wf_mlat(&self) -> bool {
        &&& distinct_u64(self.watching_mlat@)
        &&& (forall|l: int|
            0 <= l < self.watching_mlat@.len() ==> #[trigger] self.mlat_entry_backed(l))
    }

    /// The connection count equals the number of open sockets.
    pub open spec fn wf_count(&self) -> bool {
        self.connection_count == self.by_id@.len()
    }

    /// All the registry invariants together.
    pub open spec fn wf(&self) -> bool {
        &&& self.wf_sock_ids()
        &&& self.wf_tokens()
        &&& self.wf_socks()
        &&& self.wf_user_table()
        &&& self.wf_game_table()
        &&& self.wf_link_user()
        &&& self.wf_link_game()
        &&& self.wf_link_flag()
        &&& self.wf_mlat()
        &&& self.wf_count()
    }

    /// The empty registry a freshly started gateway begins with.
    pub fn new() -> (r: Registry)
        ensures
            r.wf(),
            r.by_id@.len() == 0,
            r.by_user@.len() == 0,
            r.by_game@.len() == 0,
            r.flag_simul@.len() == 0,
            r.flag_tournament@.len() == 0,
            r.watching_mlat@.len() == 0,
            r.connection_count == 0,
            r.mlat == u32::MAX,
    {
        Registry {
            by_id: Vec::new(),
            by_user: Vec::new(),
            by_game: Vec::new(),
            flag_simul: Vec::new(),
            flag_tournament: Vec::new(),
            watching_mlat: Vec::new(),
            connection_count: 0,
            mlat: u32::MAX,
        }
    }

    /// Registers a freshly opened socket: auth is `Requested` exactly when
    /// a session cookie was present, the flag subscription is recorded,
    /// and the connection count grows by one.
    pub fn open_socket(&mut self, sid: u64, sender: u64, has_cookie: bool, flag: Option<Flag>)
        requires
            old(self).wf(),
            !old(self).has_socket(sid),
            !old(self).token_used(sender),
            old(self).by_id@.len() < u32::MAX,
        ensures
            final(self).wf(),
            final(self).by_id@ == old(self).by_id@.push(
                (
                    sid,
                    UserSocket {
                        sender,
                        auth: if has_cookie {
                            SocketAuth::Requested
                        } else {
                            SocketAuth::Anonymous
                        },
                        pending_notified: false,
                        pending_following_onlines: false,
                        watching: final(self).sock_at(sid).watching,
                        flag,
                    },
                ),
            ),
            final(self).sock_at(sid).watching@.len() == 0,
            final(self).by_user == old(self).by_user,
            final(self).by_game == old(self).by_game,
            final(self).watching_mlat == old(self).watching_mlat,
            final(self).mlat == old(self).mlat,
            final(self).connection_count == old(self).connection_count + 1,
            final(self).flag_tokens(Flag::Simul) == (if flag == Some(Flag::Simul) {
                old(self).flag_tokens(Flag::Simul).push(sender)
            } else {
                old(self).flag_tokens(Flag::Simul)
            }),
            final(self).flag_tokens(Flag::Tournament) == (if flag == Some(Flag::Tournament) {
                old(self).flag_tokens(Flag::Tournament).push(sender)
            } else {
                old(self).flag_tokens(Flag::Tournament)
            }),
    {
        let s = UserSocket {
            sender,
            auth: if has_cookie {
                SocketAuth::Requested
            } else {
                SocketAuth::Anonymous
            },
            pending_notified: false,
            pending_following_onlines: false,
            watching: Vec::new(),
            flag,
        };
        self.by_id.push((sid, s));
        match flag {
            Some(Flag::Simul) => self.flag_simul.push(sender),
            Some(Flag::Tournament) => self.flag_tournament.push(sender),
            None => {},
        }
        self.connection_count = self.connection_count + 1;
        proof {
            let n = old(self).by_id@.len() as int;
            assert(self.by_id@[n].0 == sid);
            assert(self.has_socket(sid));
            assert(self.sock_idx(sid) == n) by {
                let k = self.sock_idx(sid);
                if k < n {
                    assert(old(self).by_id@[k].0 == sid);
                }
            }
            assert forall|u: Seq<u8>| #[trigger]
                self.user_tokens(u) == old(self).user_tokens(u) by {
                assert(self.user_online(u) == old(self).user_online(u));
                if self.user_online(u) {
                    assert(self.user_idx(u) == old(self).user_idx(u));
                }
            }
            assert forall|g: Seq<u8>| #[trigger]
                self.game_tokens(g) == old(self).game_tokens(g) by {
                assert(self.game_watched(g) == old(self).game_watched(g));
                if self.game_watched(g) {
                    assert(self.game_idx(g) == old(self).game_idx(g));
                }
            }
            assert(self.wf_link_user()) by {
                assert forall|k: int|
                    0 <= k < self.by_id@.len() implies (match (
                    #[trigger] self.by_id@[k]).1.auth {
                    SocketAuth::Authenticated(u) => self.user_tokens(u@).contains(
                        self.by_id@[k].1.sender,
                    ),
                    _ => true,
                }) by {
                    if k < n {
                        match self.by_id@[k].1.auth {
                            SocketAuth::Authenticated(u) => {
                                assert(old(self).user_tokens(u@).contains(
                                    old(self).by_id@[k].1.sender,
                                ));
                                assert(self.user_tokens(u@) == old(self).user_tokens(u@));
                            },
                            _ => {},
                        }
                    }
                }
                assert forall|j: int, l: int|
                    0 <= j < self.by_user@.len() && 0 <= l < self.by_user@[j].1@.len() implies
                    #[trigger] self.user_entry_backed(j, l) by {
                    assert(old(self).user_entry_backed(j, l));
                    let k0 = choose|k: int|
                        0 <= k < old(self).by_id@.len() && (#[trigger] old(self).by_id@[k]).1.sender
                            == old(self).by_user@[j].1@[l] && auth_user_of(old(self).by_id@[k].1)
                            == Some(old(self).by_user@[j].0@);
                    assert(self.by_id@[k0].1.sender == self.by_user@[j].1@[l]
                        && auth_user_of(self.by_id@[k0].1) == Some(self.by_user@[j].0@));
                }
            }
            assert(self.wf_link_game()) by {
                assert forall|k: int, m: int|
                    0 <= k < self.by_id@.len() && 0 <= m < self.by_id@[k].1.watching@.len() implies
                    #[trigger] self.sock_watch_registered(k, m) by {
                    if k < n {
                        assert(old(self).sock_watch_registered(k, m));
                        let g = old(self).by_id@[k].1.watching@[m]@;
                        assert(self.game_tokens(g) == old(self).game_tokens(g));
                    }
                }
                assert forall|j: int, l: int|
                    0 <= j < self.by_game@.len() && 0 <= l < self.by_game@[j].1@.len() implies
                    #[trigger] self.game_entry_backed(j, l) by {
                    assert(old(self).game_entry_backed(j, l));
                    let k0 = choose|k: int|
                        0 <= k < old(self).by_id@.len() && (#[trigger] old(self).by_id@[k]).1.sender
                            == old(self).by_game@[j].1@[l] && watching_views(
                            old(self).by_id@[k].1,
                        ).contains(old(self).by_game@[j].0@);
                    assert(self.by_id@[k0].1.sender == self.by_game@[j].1@[l] && watching_views(
                        self.by_id@[k0].1,
                    ).contains(self.by_game@[j].0@));
                }
            }
            assert(self.wf_link_flag()) by {
                assert forall|l: int| 0 <= l < old(self).flag_simul@.len() implies old(
                    self,
                ).flag_simul@[l] != sender by {
                    assert(old(self).flag_entry_backed(Flag::Simul, l));
                    let k0 = choose|k: int|
                        0 <= k < old(self).by_id@.len() && (#[trigger] old(self).by_id@[k]).1.sender
                            == old(self).flag_tokens(Flag::Simul)[l] && old(self).by_id@[k].1.flag
                            == Some(Flag::Simul);
                    assert(old(self).token_used(old(self).by_id@[k0].1.sender));
                }
                assert forall|l: int| 0 <= l < old(self).flag_tournament@.len() implies old(
                    self,
                ).flag_tournament@[l] != sender by {
                    assert(old(self).flag_entry_backed(Flag::Tournament, l));
                    let k0 = choose|k: int|
                        0 <= k < old(self).by_id@.len() && (#[trigger] old(self).by_id@[k]).1.sender
                            == old(self).flag_tokens(Flag::Tournament)[l] && old(
                            self,
                        ).by_id@[k].1.flag == Some(Flag::Tournament);
                    assert(old(self).token_used(old(self).by_id@[k0].1.sender));
                }
                assert(distinct_u64(self.flag_simul@));
                assert(distinct_u64(self.flag_tournament@));
                assert forall|k: int|
                    0 <= k < self.by_id@.len() implies (match (
                    #[trigger] self.by_id@[k]).1.flag {
                    Some(f) => self.flag_tokens(f).contains(self.by_id@[k].1.sender),
                    None => true,
                }) by {
                    if k < n {
                        match self.by_id@[k].1.flag {
                            Some(f) => {
                                assert(old(self).flag_tokens(f).contains(
                                    old(self).by_id@[k].1.sender,
                                ));
                                let l0 = choose|l: int|
                                    0 <= l < old(self).flag_tokens(f).len() && old(
                                        self,
                                    ).flag_tokens(f)[l] == old(self).by_id@[k].1.sender;
                                assert(self.flag_tokens(f)[l0] == self.by_id@[k].1.sender);
                            },
                            None => {},
                        }
                    } else {
                        match flag {
                            Some(f) => {
                                assert(self.flag_tokens(f).last() == sender);
                            },
                            None => {},
                        }
                    }
                }
                assert forall|l: int| 0 <= l < self.flag_simul@.len() implies
                    #[trigger] self.flag_entry_backed(Flag::Simul, l) by {
                    if l < old(self).flag_simul@.len() {
                        assert(old(self).flag_entry_backed(Flag::Simul, l));
                        let k0 = choose|k: int|
                            0 <= k < old(self).by_id@.len() && (
                            #[trigger] old(self).by_id@[k]).1.sender == old(self).flag_tokens(
                                Flag::Simul,
                            )[l] && old(self).by_id@[k].1.flag == Some(Flag::Simul);
                        assert(self.by_id@[k0].1.sender == self.flag_tokens(Flag::Simul)[l]
                            && self.by_id@[k0].1.flag == Some(Flag::Simul));
                    } else {
                        assert(self.by_id@[n].1.sender == self.flag_tokens(Flag::Simul)[l]
                            && self.by_id@[n].1.flag == Some(Flag::Simul));
                    }
                }
                assert forall|l: int| 0 <= l < self.flag_tournament@.len() implies
                    #[trigger] self.flag_entry_backed(Flag::Tournament, l) by {
                    if l < old(self).flag_tournament@.len() {
                        assert(old(self).flag_entry_backed(Flag::Tournament, l));
                        let k0 = choose|k: int|
                            0 <= k < old(self).by_id@.len() && (
                            #[trigger] old(self).by_id@[k]).1.sender == old(self).flag_tokens(
                                Flag::Tournament,
                            )[l] && old(self).by_id@[k].1.flag == Some(Flag::Tournament);
                        assert(self.by_id@[k0].1.sender == self.flag_tokens(Flag::Tournament)[l]
                            && self.by_id@[k0].1.flag == Some(Flag::Tournament));
                    } else {
                        assert(self.by_id@[n].1.sender == self.flag_tokens(Flag::Tournament)[l]
                            && self.by_id@[n].1.flag == Some(Flag::Tournament));
                    }
                }
            }
            assert(self.wf_mlat()) by {
                assert forall|l: int| 0 <= l < self.watching_mlat@.len() implies
                    #[trigger] self.mlat_entry_backed(l) by {
                    assert(old(self).mlat_entry_backed(l));
                    let k0 = choose|k: int|
                        0 <= k < old(self).by_id@.len() && (#[trigger] old(self).by_id@[k]).1.sender
                            == old(self).watching_mlat@[l];
                    assert(self.by_id@[k0].1.sender == self.watching_mlat@[l]);
                }
            }
        }
    }
}

/// Invariant: a sender token stands in `by_user[u]` exactly when its
/// socket is authenticated as `u`, and then exactly once.
pub proof fn lemma_user_table_tracks_auth(r: Registry, u: Seq<u8>, t: u64)
    requires
        r.wf(),
    ensures
        r.user_tokens(u).contains(t) <==> exists|k: int|
            0 <= k < r.by_id@.len() && (#[trigger] r.by_id@[k]).1.sender == t && auth_user_of(
                r.by_id@[k].1,
            ) == Some(u),
        distinct_u64(r.user_tokens(u)),
{
    if r.user_tokens(u).contains(t) {
        let j = r.user_idx(u);
        let l = choose|l: int| 0 <= l < r.user_tokens(u).len() && r.user_tokens(u)[l] == t;
        assert(r.by_user@[j].1@[l] == t);
        assert(r.user_entry_backed(j, l));
        let k = choose|k: int|
            0 <= k < r.by_id@.len() && (#[trigger] r.by_id@[k]).1.sender == r.by_user@[j].1@[l]
                && auth_user_of(r.by_id@[k].1) == Some(r.by_user@[j].0@);
        assert(r.by_id@[k].1.sender == t && auth_user_of(r.by_id@[k].1) == Some(u));
    }
    if exists|k: int|
        0 <= k < r.by_id@.len() && (#[trigger] r.by_id@[k]).1.sender == t && auth_user_of(
            r.by_id@[k].1,
        ) == Some(u) {
        let k = choose|k: int|
            0 <= k < r.by_id@.len() && (#[trigger] r.by_id@[k]).1.sender == t && auth_user_of(
                r.by_id@[k].1,
            ) == Some(u);
        match r.by_id@[k].1.auth {
            SocketAuth::Authenticated(uu) => {
                assert(r.user_tokens(uu@).contains(r.by_id@[k].1.sender));
            },
            _ => {
                assert(false);
            },
        }
    }
}

/// Invariant: a sender token stands in `by_game[g]` exactly when its
/// socket watches `g`, and then exactly once.
pub proof fn lemma_game_table_tracks_watching(r: Registry, g: Seq<u8>, t: u64)
    requires
        r.wf(),
    ensures
        r.game_tokens(g).contains(t) <==> exists|k: int|
            0 <= k < r.by_id@.len() && (#[trigger] r.by_id@[k]).1.sender == t && watching_views(
                r.by_id@[k].1,
            ).contains(g),
        distinct_u64(r.game_tokens(g)),
{
    if r.game_tokens(g).contains(t) {
        let j = r.game_idx(g);
        let l = choose|l: int| 0 <= l < r.game_tokens(g).len() && r.game_tokens(g)[l] == t;
        assert(r.by_game@[j].1@[l] == t);
        assert(r.game_entry_backed(j, l));
        let k = choose|k: int|
            0 <= k < r.by_id@.len() && (#[trigger] r.by_id@[k]).1.sender == r.by_game@[j].1@[l]
                && watching_views(r.by_id@[k].1).contains(r.by_game@[j].0@);
        assert(r.by_id@[k].1.sender == t && watching_views(r.by_id@[k].1).contains(g));
    }
    if exists|k: int|
        0 <= k < r.by_id@.len() && (#[trigger] r.by_id@[k]).1.sender == t && watching_views(
            r.by_id@[k].1,
        ).contains(g) {
        let k = choose|k: int|
            0 <= k < r.by_id@.len() && (#[trigger] r.by_id@[k]).1.sender == t && watching_views(
                r.by_id@[k].1,
            ).contains(g);
        let m = choose|m: int|
            0 <= m < watching_views(r.by_id@[k].1).len() && watching_views(r.by_id@[k].1)[m] == g;
        assert(watching_views(r.by_id@[k].1)[m] == r.by_id@[k].1.watching@[m]@);
        assert(r.sock_watch_registered(k, m));
        assert(r.game_tokens(r.by_id@[k].1.watching@[m]@).contains(r.by_id@[k].1.sender));
    }
}

/// Invariant: in this sequential model the connection count is exact,
/// the state every quiescent gateway settles into.
pub proof fn lemma_connection_count_exact(r: Registry)
    requires
        r.wf(),
    ensures
        r.connection_count == r.by_id@.len(),
{
}

/// The view of an optional user id.
pub open spec fn opt_uid_view(o: Option<UserId>) -> Option<Seq<u8>> {
    match o {
        Some(u) => Some(u@),
        None => None,
    }
}

/// Every field of the registry is unchanged.
pub open spec fn registry_unchanged(pre: Registry, post: Registry) -> bool {
    &&& post.by_id == pre.by_id
    &&& post.by_user == pre.by_user
    &&& post.by_game == pre.by_game
    &&& post.flag_simul == pre.flag_simul
    &&& post.flag_tournament == pre.flag_tournament
    &&& post.watching_mlat == pre.watching_mlat
    &&& post.connection_count == pre.connection_count
    &&& post.mlat == pre.mlat
}

/// The token `t` left the user's row: one occurrence gone, everything
/// else intact, and the row itself gone when `t` was the last token.
pub open spec fn user_removed(pre: Registry, post: Registry, u: Seq<u8>, t: u64) -> bool {
    &&& post.user_tokens(u).len() == pre.user_tokens(u).len() - 1
    &&& !post.user_tokens(u).contains(t)
    &&& (forall|x: u64| x != t ==> post.user_tokens(u).contains(x) == pre.user_tokens(
        u,
    ).contains(x))
    &&& post.user_online(u) == (pre.user_tokens(u).len() > 1)
}

/// All user rows but those keyed in `ws` are untouched.
pub open spec fn users_unchanged_except(pre: Registry, post: Registry, ws: Set<Seq<u8>>) -> bool {
    forall|w: Seq<u8>|
        #![trigger post.user_tokens(w)]
        #![trigger post.user_online(w)]
        !ws.contains(w) ==> post.user_tokens(w) == pre.user_tokens(w) && post.user_online(w)
            == pre.user_online(w)
}

/// The records `set_user` publishes: `connect` when the first socket of a
/// user arrives, `disconnect` when the last one leaves, and the deferred
/// intents replayed exactly once when authentication resolves.
pub open spec fn set_user_msgs(pre: Registry, sid: u64, uid: Option<Seq<u8>>) -> Seq<LilaInView> {
    if !pre.has_socket(sid) {
        seq![]
    } else {
        let s = pre.sock_at(sid);
        match uid {
            Some(u) => {
                if auth_user_of(s) == Some(u) {
                    seq![]
                } else {
                    let connects: Seq<LilaInView> = if !pre.user_online(u) {
                        seq![LilaInView::Connect(u)]
                    } else {
                        seq![]
                    };
                    match s.auth {
                        SocketAuth::Authenticated(ou) => connects + (if pre.user_tokens(
                            ou@,
                        ).len() == 1 {
                            seq![LilaInView::Disconnect(ou@)]
                        } else {
                            seq![]
                        }),
                        SocketAuth::Requested => connects + (if s.pending_notified {
                            seq![LilaInView::Notified(u)]
                        } else {
                            seq![]
                        }) + (if s.pending_following_onlines {
                            seq![LilaInView::Friends(u)]
                        } else {
                            seq![]
                        }),
                        SocketAuth::Anonymous => connects,
                    }
                }
            },
            None => match s.auth {
                SocketAuth::Authenticated(ou) => if pre.user_tokens(ou@).len() == 1 {
                    seq![LilaInView::Disconnect(ou@)]
                } else {
                    seq![]
                },
                _ => seq![],
            },
        }
    }
}

/// How `set_user` changes the state: the socket's auth field moves, its
/// deferred intents are consumed when it leaves `Requested`, the user
/// table gains the socket under its new user and loses it under its old
/// one, and nothing else moves.
pub open spec fn set_user_post(
    pre: Registry,
    post: Registry,
    sid: u64,
    uid: Option<Seq<u8>>,
) -> bool {
    if !pre.has_socket(sid) {
        registry_unchanged(pre, post)
    } else {
        let idx = pre.sock_idx(sid);
        let s = pre.by_id@[idx].1;
        let t = s.sender;
        let s2 = post.by_id@[idx].1;
        &&& post.by_id@.len() == pre.by_id@.len()
        &&& (forall|k: int|
            0 <= k < pre.by_id@.len() && k != idx ==> #[trigger] post.by_id@[k] == pre.by_id@[k])
        &&& post.by_id@[idx].0 == sid
        &&& s2.sender == t
        &&& s2.watching == s.watching
        &&& s2.flag == s.flag
        &&& s2.pending_notified == (if s.auth is Requested {
            false
        } else {
            s.pending_notified
        })
        &&& s2.pending_following_onlines == (if s.auth is Requested {
            false
        } else {
            s.pending_following_onlines
        })
        &&& (match uid {
            Some(u) => auth_user_of(s2) == Some(u),
            None => s2.auth is Anonymous,
        })
        &&& post.by_game == pre.by_game
        &&& post.flag_simul == pre.flag_simul
        &&& post.flag_tournament == pre.flag_tournament
        &&& post.watching_mlat == pre.watching_mlat
        &&& post.connection_count == pre.connection_count
        &&& post.mlat == pre.mlat
        &&& (match uid {
            Some(u) => {
                if auth_user_of(s) == Some(u) {
                    users_unchanged_except(pre, post, Set::empty())
                } else {
                    &&& post.user_tokens(u) == pre.user_tokens(u).push(t)
                    &&& post.user_online(u)
                    &&& (match s.auth {
                        SocketAuth::Authenticated(ou) => user_removed(pre, post, ou@, t)
                            && users_unchanged_except(pre, post, set![u, ou@]),
                        _ => users_unchanged_except(pre, post, set![u]),
                    })
                }
            },
            None => match s.auth {
                SocketAuth::Authenticated(ou) => user_removed(pre, post, ou@, t)
                    && users_unchanged_except(pre, post, set![ou@]),
                _ => users_unchanged_except(pre, post, Set::empty()),
            },
        })
    }
}

impl Registry {
    /// Index of the socket with this id, by linear scan.
    fn find_sock(&self, sid: u64) -> (r: Option<usize>)
        ensures
            match r {
                Some(i) => i < self.by_id@.len() && self.by_id@[i as int].0 == sid,
                None => !self.has_socket(sid),
            },
    {
        let mut i: usize = 0;
        while i < self.by_id.len()
            invariant
                0 <= i <= self.by_id@.len(),
                forall|x: int| 0 <= x < i ==> (#[trigger] self.by_id@[x]).0 != sid,
            decreases self.by_id@.len() - i,
        {
            if self.by_id[i].0 == sid {
                return Some(i);
            }
            i += 1;
        }
        None
    }

    /// Index of the user's row, by linear scan.
    fn find_user_row(&self, uid: &UserId) -> (r: Option<usize>)
        ensures
            match r {
                Some(j) => j < self.by_user@.len() && self.by_user@[j as int].0@ == uid@,
                None => !self.user_online(uid@),
            },
    {
        let mut j: usize = 0;
        while j < self.by_user.len()
            invariant
                0 <= j <= self.by_user@.len(),
                forall|x: int| 0 <= x < j ==> (#[trigger] self.by_user@[x]).0@ != uid@,
            decreases self.by_user@.len() - j,
        {
            let row = &self.by_user[j];
            if crate::text::bytes_eq(&row.0.bytes, &uid.bytes) {
                return Some(j);
            }
            j += 1;
        }
        None
    }

    /// First position of `t` in a token list.
    fn token_pos(v: &Vec<u64>, t: u64) -> (r: Option<usize>)
        ensures
            match r {
                Some(l) => l < v@.len() && v@[l as int] == t,
                None => !v@.contains(t),
            },
    {
        let mut l: usize = 0;
        while l < v.len()
            invariant
                0 <= l <= v@.len(),
                forall|x: int| 0 <= x < l ==> v@[x] != t,
            decreases v@.len() - l,
        {
            if v[l] == t {
                return Some(l);
            }
            l += 1;
        }
        None
    }

    /// Records the socket token `t` under user `uid`, creating the row if
    /// the user was offline; returns whether the row is new.
    fn user_add_token(&mut self, uid: &UserId, t: u64) -> (was_new: bool)
        requires
            old(self).wf_user_table(),
            valid_user_id(uid@),
            !old(self).user_tokens(uid@).contains(t),
        ensures
            final(self).wf_user_table(),
            was_new == !old(self).user_online(uid@),
            final(self).user_tokens(uid@) == old(self).user_tokens(uid@).push(t),
            final(self).user_online(uid@),
            users_unchanged_except(*old(self), *final(self), set![uid@]),
            final(self).by_id == old(self).by_id,
            final(self).by_game == old(self).by_game,
            final(self).flag_simul == old(self).flag_simul,
            final(self).flag_tournament == old(self).flag_tournament,
            final(self).watching_mlat == old(self).watching_mlat,
            final(self).connection_count == old(self).connection_count,
            final(self).mlat == old(self).mlat,
    {
        let rj = self.find_user_row(uid);
        match rj {
            Some(j) => {
                proof {
                    lemma_user_row_unique(*old(self), j as int);
                }
                let mut row = self.by_user.remove(j);
                row.1.push(t);
                self.by_user.push(row);
                proof {
                    let pre = *old(self);
                    let n = self.by_user@.len() - 1;
                    assert(self.by_user@[n].0@ == uid@);
                    assert(forall|x: int|
                        0 <= x < n ==> #[trigger] self.by_user@[x] == (if x < j {
                            pre.by_user@[x]
                        } else {
                            pre.by_user@[x + 1]
                        }));
                    assert(self.wf_user_table()) by {
                        assert(forall|x: int|
                            0 <= x < n ==> (#[trigger] self.by_user@[x]).0@ != uid@);
                    }
                    lemma_user_row_unique(*self, n);
                    assert(self.user_tokens(uid@) =~= pre.user_tokens(uid@).push(t));
                    assert forall|w: Seq<u8>|
                        #![trigger self.user_tokens(w)]
                        #![trigger self.user_online(w)]
                        !set![uid@].contains(w) implies self.user_tokens(w) == pre.user_tokens(w)
                        && self.user_online(w) == pre.user_online(w) by {
                        if pre.user_online(w) {
                            let x0 = pre.user_idx(w);
                            lemma_user_row_unique(pre, x0);
                            let xn: int = if x0 < j { x0 } else { x0 - 1 };
                            assert(self.by_user@[xn].0@ == w);
                            lemma_user_row_unique(*self, xn);
                        } else {
                            if self.user_online(w) {
                                let xc = self.user_idx(w);
                                if xc < n {
                                    if xc < j {
                                        assert(pre.by_user@[xc].0@ == w);
                                    } else {
                                        assert(pre.by_user@[xc + 1].0@ == w);
                                    }
                                }
                                assert(false);
                            }
                        }
                    }
                }
                false
            },
            None => {
                let mut toks: Vec<u64> = Vec::new();
                toks.push(t);
                self.by_user.push((uid.duplicate(), toks));
                proof {
                    let pre = *old(self);
                    let n = self.by_user@.len() - 1;
                    assert(self.by_user@[n].0@ == uid@);
                    assert(self.wf_user_table()) by {
                        assert(forall|x: int|
                            0 <= x < n ==> #[trigger] self.by_user@[x] == pre.by_user@[x]);
                    }
                    lemma_user_row_unique(*self, n);
                    assert(self.user_tokens(uid@) =~= pre.user_tokens(uid@).push(t));
                    assert forall|w: Seq<u8>|
                        #![trigger self.user_tokens(w)]
                        #![trigger self.user_online(w)]
                        !set![uid@].contains(w) implies self.user_tokens(w) == pre.user_tokens(w)
                        && self.user_online(w) == pre.user_online(w) by {
                        if pre.user_online(w) {
                            let x0 = pre.user_idx(w);
                            lemma_user_row_unique(pre, x0);
                            assert(self.by_user@[x0].0@ == w);
                            lemma_user_row_unique(*self, x0);
                        } else {
                            if self.user_online(w) {
                                let xc = self.user_idx(w);
                                if xc < n {
                                    assert(pre.by_user@[xc].0@ == w);
                                }
                                assert(false);
                            }
                        }
                    }
                }
                true
            },
        }
    }

    /// Removes the socket token `t` from the user's row, dropping the row
    /// when it empties; returns whether the row emptied.
    fn user_remove_token(&mut self, uid: &UserId, t: u64) -> (now_empty: bool)
        requires
            old(self).wf_user_table(),
            old(self).user_tokens(uid@).contains(t),
        ensures
            final(self).wf_user_table(),
            now_empty == (old(self).user_tokens(uid@).len() == 1),
            user_removed(*old(self), *final(self), uid@, t),
            users_unchanged_except(*old(self), *final(self), set![uid@]),
            final(self).by_id == old(self).by_id,
            final(self).by_game == old(self).by_game,
            final(self).flag_simul == old(self).flag_simul,
            final(self).flag_tournament == old(self).flag_tournament,
            final(self).watching_mlat == old(self).watching_mlat,
            final(self).connection_count == old(self).connection_count,
            final(self).mlat == old(self).mlat,
    {
        let rj = match self.find_user_row(uid) {
            Some(j) => j,
            None => {
                proof {
                    assert(false);
                }
                0
            },
        };
        proof {
            lemma_user_row_unique(*old(self), rj as int);
        }
        let mut row = self.by_user.remove(rj);
        let l = match Self::token_pos(&row.1, t) {
            Some(l) => l,
            None => {
                proof {
                    assert(false);
                }
                0
            },
        };
        let _ = row.1.remove(l);
        let emptied = row.1.len() == 0;
        let ghost rowseq = row.1@;
        if !emptied {
            self.by_user.push(row);
        }
        proof {
            let pre = *old(self);
            let j = rj as int;
            let oldtoks = pre.user_tokens(uid@);
            assert(rowseq =~= oldtoks.remove(l as int));
            assert(!rowseq.contains(t)) by {
                if rowseq.contains(t) {
                    let x = choose|x: int| 0 <= x < rowseq.len() && rowseq[x] == t;
                    if x < l {
                        assert(oldtoks[x] == t && oldtoks[l as int] == t);
                    } else {
                        assert(oldtoks[x + 1] == t && oldtoks[l as int] == t);
                    }
                }
            }
            assert(forall|x: u64|
                x != t ==> #[trigger] rowseq.contains(x) == oldtoks.contains(x)) by {
                assert forall|x: u64| x != t && oldtoks.contains(x) implies rowseq.contains(
                    x,
                ) by {
                    let p = choose|p: int| 0 <= p < oldtoks.len() && oldtoks[p] == x;
                    if p < l {
                        assert(rowseq[p] == x);
                    } else {
                        assert(rowseq[p - 1] == x);
                    }
                }
                assert forall|x: u64| x != t && rowseq.contains(x) implies oldtoks.contains(
                    x,
                ) by {
                    let p = choose|p: int| 0 <= p < rowseq.len() && rowseq[p] == x;
                    if p < l {
                        assert(oldtoks[p] == x);
                    } else {
                        assert(oldtoks[p + 1] == x);
                    }
                }
            }
            assert(distinct_u64(rowseq));
            if emptied {
                assert(forall|x: int|
                    0 <= x < self.by_user@.len() ==> #[trigger] self.by_user@[x] == (if x < j {
                        pre.by_user@[x]
                    } else {
                        pre.by_user@[x + 1]
                    }));
                assert(self.wf_user_table());
                assert(!self.user_online(uid@)) by {
                    if self.user_online(uid@) {
                        let xc = self.user_idx(uid@);
                        if xc < j {
                            assert(pre.by_user@[xc].0@ == uid@);
                        } else {
                            assert(pre.by_user@[xc + 1].0@ == uid@);
                        }
                        assert(false);
                    }
                }
                assert(oldtoks.len() == 1) by {
                    assert(oldtoks =~= rowseq.insert(l as int, t));
                }
                assert forall|w: Seq<u8>|
                    #![trigger self.user_tokens(w)]
                    #![trigger self.user_online(w)]
                    !set![uid@].contains(w) implies self.user_tokens(w) == pre.user_tokens(w)
                    && self.user_online(w) == pre.user_online(w) by {
                    if pre.user_online(w) {
                        let x0 = pre.user_idx(w);
                        lemma_user_row_unique(pre, x0);
                        let xn: int = if x0 < j { x0 } else { x0 - 1 };
                        assert(self.by_user@[xn].0@ == w);
                        lemma_user_row_unique(*self, xn);
                    } else {
                        if self.user_online(w) {
                            let xc = self.user_idx(w);
                            if xc < j {
                                assert(pre.by_user@[xc].0@ == w);
                            } else {
                                assert(pre.by_user@[xc + 1].0@ == w);
                            }
                            assert(false);
                        }
                    }
                }
            } else {
                let n = self.by_user@.len() - 1;
                assert(self.by_user@[n].0@ == uid@);
                assert(forall|x: int|
                    0 <= x < n ==> #[trigger] self.by_user@[x] == (if x < j {
                        pre.by_user@[x]
                    } else {
                        pre.by_user@[x + 1]
                    }));
                assert(self.wf_user_table()) by {
                    assert(forall|x: int|
                        0 <= x < n ==> (#[trigger] self.by_user@[x]).0@ != uid@);
                }
                lemma_user_row_unique(*self, n);
                assert(self.user_tokens(uid@) == rowseq);
                assert(oldtoks.len() > 1) by {
                    assert(oldtoks =~= rowseq.insert(l as int, t));
                }
                assert forall|w: Seq<u8>|
                    #![trigger self.user_tokens(w)]
                    #![trigger self.user_online(w)]
                    !set![uid@].contains(w) implies self.user_tokens(w) == pre.user_tokens(w)
                    && self.user_online(w) == pre.user_online(w) by {
                    if pre.user_online(w) {
                        let x0 = pre.user_idx(w);
                        lemma_user_row_unique(pre, x0);
                        let xn: int = if x0 < j { x0 } else { x0 - 1 };
                        assert(self.by_user@[xn].0@ == w);
                        lemma_user_row_unique(*self, xn);
                    } else {
                        if self.user_online(w) {
                            let xc = self.user_idx(w);
                            if xc < n {
                                if xc < j {
                                    assert(pre.by_user@[xc].0@ == w);
                                } else {
                                    assert(pre.by_user@[xc + 1].0@ == w);
                                }
                            }
                            assert(false);
                        }
                    }
                }
            }
        }
        emptied
    }
}

/// Row `j` is the unique row of its key, so the keyed views read it.
pub proof fn lemma_user_row_unique(r: Registry, j: int)
    requires
        r.wf_user_table(),
        0 <= j < r.by_user@.len(),
    ensures
        r.user_online(r.by_user@[j].0@),
        r.user_idx(r.by_user@[j].0@) == j,
        r.user_tokens(r.by_user@[j].0@) == r.by_user@[j].1@,
{
    let w = r.by_user@[j].0@;
    assert(r.user_online(w));
    let jc = r.user_idx(w);
    if jc != j {
        assert(r.by_user@[jc].0@ == w && r.by_user@[j].0@ == w);
        assert(false);
    }
}

/// Replacing one socket's entry while keeping its id, sender token,
/// watching set and flag preserves every invariant that does not involve
/// the user table.
pub proof fn lemma_socket_update_preserves_links(pre: Registry, post: Registry, idx: int)
    requires
        pre.wf(),
        0 <= idx < pre.by_id@.len(),
        post.by_id@.len() == pre.by_id@.len(),
        forall|k: int|
            0 <= k < pre.by_id@.len() && k != idx ==> #[trigger] post.by_id@[k] == pre.by_id@[k],
        post.by_id@[idx].0 == pre.by_id@[idx].0,
        post.by_id@[idx].1.sender == pre.by_id@[idx].1.sender,
        post.by_id@[idx].1.watching == pre.by_id@[idx].1.watching,
        post.by_id@[idx].1.flag == pre.by_id@[idx].1.flag,
        post.by_game == pre.by_game,
        post.flag_simul == pre.flag_simul,
        post.flag_tournament == pre.flag_tournament,
        post.watching_mlat == pre.watching_mlat,
    ensures
        post.wf_sock_ids(),
        post.wf_tokens(),
        post.wf_game_table(),
        post.wf_link_game(),
        post.wf_link_flag(),
        post.wf_mlat(),
{
    assert forall|g: Seq<u8>| #[trigger] post.game_tokens(g) == pre.game_tokens(g) by {
        assert(post.game_watched(g) == pre.game_watched(g));
        if post.game_watched(g) {
            assert(post.game_idx(g) == pre.game_idx(g));
        }
    }
    assert(post.wf_sock_ids()) by {
        assert(forall|k: int|
            0 <= k < post.by_id@.len() ==> (#[trigger] post.by_id@[k]).0 == pre.by_id@[k].0);
    }
    assert(post.wf_tokens()) by {
        assert(forall|k: int|
            0 <= k < post.by_id@.len() ==> (#[trigger] post.by_id@[k]).1.sender
                == pre.by_id@[k].1.sender);
    }
    assert(post.wf_link_game()) by {
        assert forall|k: int, m: int|
            0 <= k < post.by_id@.len() && 0 <= m < post.by_id@[k].1.watching@.len() implies
            #[trigger] post.sock_watch_registered(k, m) by {
            assert(post.by_id@[k].1.watching == pre.by_id@[k].1.watching);
            assert(pre.sock_watch_registered(k, m));
        }
        assert forall|j: int, l: int|
            0 <= j < post.by_game@.len() && 0 <= l < post.by_game@[j].1@.len() implies #[trigger]
            post.game_entry_backed(j, l) by {
            assert(pre.game_entry_backed(j, l));
            let k0 = choose|k: int|
                0 <= k < pre.by_id@.len() && (#[trigger] pre.by_id@[k]).1.sender
                    == pre.by_game@[j].1@[l] && watching_views(pre.by_id@[k].1).contains(
                    pre.by_game@[j].0@,
                );
            assert(watching_views(post.by_id@[k0].1) =~= watching_views(pre.by_id@[k0].1));
            assert(post.by_id@[k0].1.sender == post.by_game@[j].1@[l] && watching_views(
                post.by_id@[k0].1,
            ).contains(post.by_game@[j].0@));
        }
    }
    assert(post.wf_link_flag()) by {
        assert forall|k: int|
            0 <= k < post.by_id@.len() implies (match (#[trigger] post.by_id@[k]).1.flag {
            Some(f) => post.flag_tokens(f).contains(post.by_id@[k].1.sender),
            None => true,
        }) by {
            assert(post.by_id@[k].1.flag == pre.by_id@[k].1.flag);
            assert(post.by_id@[k].1.sender == pre.by_id@[k].1.sender);
            match pre.by_id@[k].1.flag {
                Some(f) => {
                    assert(pre.flag_tokens(f).contains(pre.by_id@[k].1.sender));
                    assert(post.flag_tokens(f) == pre.flag_tokens(f));
                },
                None => {},
            }
        }
        assert forall|l: int| 0 <= l < post.flag_simul@.len() implies #[trigger]
            post.flag_entry_backed(Flag::Simul, l) by {
            assert(pre.flag_entry_backed(Flag::Simul, l));
            let k0 = choose|k: int|
                0 <= k < pre.by_id@.len() && (#[trigger] pre.by_id@[k]).1.sender == pre.flag_tokens(
                    Flag::Simul,
                )[l] && pre.by_id@[k].1.flag == Some(Flag::Simul);
            assert(post.by_id@[k0].1.sender == post.flag_tokens(Flag::Simul)[l]
                && post.by_id@[k0].1.flag == Some(Flag::Simul));
        }
        assert forall|l: int| 0 <= l < post.flag_tournament@.len() implies #[trigger]
            post.flag_entry_backed(Flag::Tournament, l) by {
            assert(pre.flag_entry_backed(Flag::Tournament, l));
            let k0 = choose|k: int|
                0 <= k < pre.by_id@.len() && (#[trigger] pre.by_id@[k]).1.sender == pre.flag_tokens(
                    Flag::Tournament,
                )[l] && pre.by_id@[k].1.flag == Some(Flag::Tournament);
            assert(post.by_id@[k0].1.sender == post.flag_tokens(Flag::Tournament)[l]
                && post.by_id@[k0].1.flag == Some(Flag::Tournament));
        }
    }
    assert(post.wf_mlat()) by {
        assert forall|l: int| 0 <= l < post.watching_mlat@.len() implies #[trigger]
            post.mlat_entry_backed(l) by {
            assert(pre.mlat_entry_backed(l));
            let k0 = choose|k: int|
                0 <= k < pre.by_id@.len() && (#[trigger] pre.by_id@[k]).1.sender
                    == pre.watching_mlat@[l];
            assert(post.by_id@[k0].1.sender == post.watching_mlat@[l]);
        }
    }
}

/// Two registries with the same user table read the same keyed views.
pub proof fn lemma_table_funcs(a: Registry, b: Registry)
    requires
        a.by_user == b.by_user,
    ensures
        forall|w: Seq<u8>|
            #![trigger a.user_tokens(w)]
            #![trigger b.user_tokens(w)]
            a.user_tokens(w) == b.user_tokens(w),
        forall|w: Seq<u8>|
            #![trigger a.user_online(w)]
            #![trigger b.user_online(w)]
            a.user_online(w) == b.user_online(w),
{
    assert forall|w: Seq<u8>| #[trigger] a.user_tokens(w) == b.user_tokens(w) by {
        assert(a.user_online(w) == b.user_online(w));
        if a.user_online(w) {
            assert(a.user_idx(w) == b.user_idx(w));
        }
    }
    assert forall|w: Seq<u8>| #[trigger] a.user_online(w) == b.user_online(w) by {}
}

impl Registry {
    /// The authentication transition of one socket, from the session
    /// worker (`Some` or `None` after lookup) and from the close path
    /// (`None`). Publishes `connect` for a user's first socket,
    /// `disconnect` for the last, and replays deferred intents exactly
    /// once when the socket leaves `Requested`.
    #[verifier::rlimit(100)]
    pub fn set_user(&mut self, sid: u64, maybe_uid: Option<UserId>) -> (out: Vec<LilaIn>)
        requires
            old(self).wf(),
            match maybe_uid {
                Some(u) => valid_user_id(u@),
                None => true,
            },
        ensures
            final(self).wf(),
            set_user_post(*old(self), *final(self), sid, opt_uid_view(maybe_uid)),
            out@.map_values(|m: LilaIn| m@) == set_user_msgs(
                *old(self),
                sid,
                opt_uid_view(maybe_uid),
            ),
            forall|i: int| 0 <= i < out@.len() ==> (#[trigger] out@[i]).wf(),
    {
        let ghost pre = *old(self);
        let ghost uidv = opt_uid_view(maybe_uid);
        let mut out: Vec<LilaIn> = Vec::new();
        let i = match self.find_sock(sid) {
            Some(i) => i,
            None => {
                proof {
                    assert(out@.map_values(|m: LilaIn| m@) =~= set_user_msgs(pre, sid, uidv));
                }
                return out;
            },
        };
        proof {
            assert(pre.has_socket(sid));
            assert(pre.sock_idx(sid) == i as int) by {
                let kc = pre.sock_idx(sid);
                if kc != i as int {
                    assert(pre.by_id@[kc].0 == sid);
                    assert(false);
                }
            }
        }
        let ghost idx = i as int;
        let ghost s = pre.by_id@[idx].1;
        let mut entry = self.by_id.remove(i);
        let t = entry.1.sender;
        let ghost base = *self;
        proof {
            assert(t == s.sender);
            lemma_table_funcs(pre, base);
        }
        match maybe_uid {
            Some(u) => {
                let same = match &entry.1.auth {
                    SocketAuth::Authenticated(ou) => crate::text::bytes_eq(&ou.bytes, &u.bytes),
                    _ => false,
                };
                if same {
                    entry.1.auth = SocketAuth::Authenticated(u);
                } else {
                    proof {
                        // the socket is not listed under its new user yet
                        if pre.user_tokens(u@).contains(t) {
                            lemma_user_table_tracks_auth(pre, u@, t);
                            let k0 = choose|k: int|
                                0 <= k < pre.by_id@.len() && (#[trigger] pre.by_id@[k]).1.sender
                                    == t && auth_user_of(pre.by_id@[k].1) == Some(u@);
                            if k0 != idx {
                                assert(pre.by_id@[k0].1.sender == pre.by_id@[idx].1.sender);
                            }
                            assert(false);
                        }
                    }
                    let was_new = self.user_add_token(&u, t);
                    if was_new {
                        out.push(LilaIn::Connect(u.duplicate()));
                    }
                    let ghost mid1 = *self;
                    let prev_user: Option<UserId> = match &entry.1.auth {
                        SocketAuth::Authenticated(ou) => Some(ou.duplicate()),
                        _ => None,
                    };
                    let was_requested = match &entry.1.auth {
                        SocketAuth::Requested => true,
                        _ => false,
                    };
                    match prev_user {
                        Some(ou) => {
                            proof {
                                assert(ou@ != u@);
                                assert(pre.user_tokens(ou@).contains(t)) by {
                                    assert(pre.wf_link_user());
                                }
                                assert(!set![u@].contains(ou@));
                                assert(mid1.user_tokens(ou@) == base.user_tokens(ou@));
                            }
                            let now_empty = self.user_remove_token(&ou, t);
                            if now_empty {
                                out.push(LilaIn::Disconnect(ou));
                            }
                        },
                        None => {
                            if was_requested {
                                if entry.1.pending_notified {
                                    out.push(LilaIn::Notified(u.duplicate()));
                                }
                                if entry.1.pending_following_onlines {
                                    out.push(LilaIn::Friends(u.duplicate()));
                                }
                                entry.1.pending_notified = false;
                                entry.1.pending_following_onlines = false;
                            }
                        },
                    }
                    entry.1.auth = SocketAuth::Authenticated(u);
                }
            },
            None => {
                let prev_user: Option<UserId> = match &entry.1.auth {
                    SocketAuth::Authenticated(ou) => Some(ou.duplicate()),
                    _ => None,
                };
                let was_requested = match &entry.1.auth {
                    SocketAuth::Requested => true,
                    _ => false,
                };
                entry.1.auth = SocketAuth::Anonymous;
                if was_requested {
                    entry.1.pending_notified = false;
                    entry.1.pending_following_onlines = false;
                }
                match prev_user {
                    Some(ou) => {
                        proof {
                            assert(pre.user_tokens(ou@).contains(t)) by {
                                assert(pre.wf_link_user());
                            }
                        }
                        let now_empty = self.user_remove_token(&ou, t);
                        if now_empty {
                            out.push(LilaIn::Disconnect(ou));
                        }
                    },
                    None => {},
                }
            },
        }
        let ghost tab = *self;
        self.by_id.insert(i, entry);
        proof {
            let post = *self;
            lemma_table_funcs(tab, post);
            assert(post.by_id@ =~= pre.by_id@.update(idx, post.by_id@[idx]));
            let s2 = post.by_id@[idx].1;
            assert(post.by_id@[idx].0 == sid);
            assert(s2.sender == t);
            assert(s2.watching == s.watching);
            assert(s2.flag == s.flag);
            lemma_socket_update_preserves_links(pre, post, idx);
            assert(post.wf_socks());
            // how the keyed user views moved, as one three-way split
            assert forall|w: Seq<u8>|
                (#[trigger] post.user_tokens(w)) == pre.user_tokens(w) || (post.user_tokens(w)
                    == pre.user_tokens(w).push(t) && uidv == Some(w)) || (!post.user_tokens(
                    w,
                ).contains(t) && post.user_tokens(w).len() == pre.user_tokens(w).len() - 1 && (
                forall|x: u64|
                    x != t ==> post.user_tokens(w).contains(x) == pre.user_tokens(w).contains(
                        x,
                    )) && post.user_online(w) == (pre.user_tokens(w).len() > 1)) by {
                assert(pre.user_tokens(w) == base.user_tokens(w));
                assert(post.user_tokens(w) == tab.user_tokens(w));
            }
            assert(post.wf_link_user()) by {
                assert forall|k: int|
                    0 <= k < post.by_id@.len() implies (match (
                    #[trigger] post.by_id@[k]).1.auth {
                    SocketAuth::Authenticated(w) => post.user_tokens(w@).contains(
                        post.by_id@[k].1.sender,
                    ),
                    _ => true,
                }) by {
                    match post.by_id@[k].1.auth {
                        SocketAuth::Authenticated(w) => {
                            let xk = post.by_id@[k].1.sender;
                            if k != idx {
                                assert(pre.user_tokens(w@).contains(xk));
                                assert(xk != t);
                                if post.user_tokens(w@) == pre.user_tokens(w@).push(t) {
                                    let q = choose|q: int|
                                        0 <= q < pre.user_tokens(w@).len() && pre.user_tokens(
                                            w@,
                                        )[q] == xk;
                                    assert(post.user_tokens(w@)[q] == xk);
                                }
                            } else {
                                // the socket's own row: pushed or already present
                                if post.user_tokens(w@) == pre.user_tokens(w@).push(t) {
                                    assert(post.user_tokens(w@).last() == t);
                                } else {
                                    assert(pre.user_tokens(w@).contains(t)) by {
                                        assert(auth_user_of(s) == Some(w@));
                                        assert(pre.wf_link_user());
                                    }
                                }
                            }
                        },
                        _ => {},
                    }
                }
                assert forall|j: int, l: int|
                    0 <= j < post.by_user@.len() && 0 <= l < post.by_user@[j].1@.len() implies
                    #[trigger] post.user_entry_backed(j, l) by {
                    let w = post.by_user@[j].0@;
                    let x = post.by_user@[j].1@[l];
                    lemma_user_row_unique(post, j);
                    assert(post.user_tokens(w).contains(x));
                    if x == t && uidv == Some(w) {
                        assert(auth_user_of(s2) == Some(w));
                        assert(post.by_id@[idx].1.sender == x && auth_user_of(post.by_id@[idx].1)
                            == Some(w));
                    } else {
                        assert(pre.user_tokens(w).contains(x)) by {
                            if post.user_tokens(w) == pre.user_tokens(w) {
                            } else if post.user_tokens(w) == pre.user_tokens(w).push(t) && uidv
                                == Some(w) {
                                let q = choose|q: int|
                                    0 <= q < post.user_tokens(w).len() && post.user_tokens(w)[q]
                                        == x;
                                if q == pre.user_tokens(w).len() {
                                    assert(x == t);
                                    assert(false);
                                } else {
                                    assert(pre.user_tokens(w)[q] == x);
                                }
                            } else {
                                assert(x != t);
                            }
                        }
                        lemma_user_table_tracks_auth(pre, w, x);
                        let k0 = choose|k: int|
                            0 <= k < pre.by_id@.len() && (#[trigger] pre.by_id@[k]).1.sender == x
                                && auth_user_of(pre.by_id@[k].1) == Some(w);
                        if k0 == idx {
                            assert(x == t && auth_user_of(s) == Some(w));
                            assert(auth_user_of(s2) == Some(w));
                            assert(post.by_id@[idx].1.sender == x);
                        } else {
                            assert(post.by_id@[k0] == pre.by_id@[k0]);
                        }
                    }
                }
            }
            assert(out@.map_values(|m: LilaIn| m@) =~= set_user_msgs(pre, sid, uidv));
        }
        out
    }
}

/// The token `t` left the game's row: one occurrence gone, everything
/// else intact, and the row itself gone when `t` was the last watcher.
pub open spec fn game_removed(pre: Registry, post: Registry, g: Seq<u8>, t: u64) -> bool {
    &&& post.game_tokens(g).len() == pre.game_tokens(g).len() - 1
    &&& !post.game_tokens(g).contains(t)
    &&& (forall|x: u64| x != t ==> post.game_tokens(g).contains(x) == pre.game_tokens(
        g,
    ).contains(x))
    &&& post.game_watched(g) == (pre.game_tokens(g).len() > 1)
}

/// All game rows but those keyed in `gs` are untouched.
pub open spec fn games_unchanged_except(pre: Registry, post: Registry, gs: Set<Seq<u8>>) -> bool {
    forall|w: Seq<u8>|
        #![trigger post.game_tokens(w)]
        #![trigger post.game_watched(w)]
        !gs.contains(w) ==> post.game_tokens(w) == pre.game_tokens(w) && post.game_watched(w)
            == pre.game_watched(w)
}

/// Row `j` is the unique row of its key, so the keyed views read it.
pub proof fn lemma_game_row_unique(r: Registry, j: int)
    requires
        r.wf_game_table(),
        0 <= j < r.by_game@.len(),
    ensures
        r.game_watched(r.by_game@[j].0@),
        r.game_idx(r.by_game@[j].0@) == j,
        r.game_tokens(r.by_game@[j].0@) == r.by_game@[j].1@,
{
    let w = r.by_game@[j].0@;
    assert(r.game_watched(w));
    let jc = r.game_idx(w);
    if jc != j {
        assert(r.by_game@[jc].0@ == w && r.by_game@[j].0@ == w);
        assert(false);
    }
}

/// Two registries with the same game table read the same keyed views.
pub proof fn lemma_game_table_funcs(a: Registry, b: Registry)
    requires
        a.by_game == b.by_game,
    ensures
        forall|w: Seq<u8>|
            #![trigger a.game_tokens(w)]
            #![trigger b.game_tokens(w)]
            a.game_tokens(w) == b.game_tokens(w),
        forall|w: Seq<u8>|
            #![trigger a.game_watched(w)]
            #![trigger b.game_watched(w)]
            a.game_watched(w) == b.game_watched(w),
{
    assert forall|w: Seq<u8>| #[trigger] a.game_tokens(w) == b.game_tokens(w) by {
        assert(a.game_watched(w) == b.game_watched(w));
        if a.game_watched(w) {
            assert(a.game_idx(w) == b.game_idx(w));
        }
    }
    assert forall|w: Seq<u8>| #[trigger] a.game_watched(w) == b.game_watched(w) by {}
}

impl Registry {
    /// Index of the game's row, by linear scan.
    fn find_game_row(&self, gid: &GameId) -> (r: Option<usize>)
        ensures
            match r {
                Some(j) => j < self.by_game@.len() && self.by_game@[j as int].0@ == gid@,
                None => !self.game_watched(gid@),
            },
    {
        let mut j: usize = 0;
        while j < self.by_game.len()
            invariant
                0 <= j <= self.by_game@.len(),
                forall|x: int| 0 <= x < j ==> (#[trigger] self.by_game@[x]).0@ != gid@,
            decreases self.by_game@.len() - j,
        {
            let row = &self.by_game[j];
            if crate::text::bytes_eq(&row.0.bytes, &gid.bytes) {
                return Some(j);
            }
            j += 1;
        }
        None
    }

    /// Records the socket token `t` as a watcher of `gid`, creating the
    /// row if the game had none; returns whether the row is new.
    fn game_add_token(&mut self, gid: &GameId, t: u64) -> (was_new: bool)
        requires
            old(self).wf_game_table(),
            valid_game_id(gid@),
            !old(self).game_tokens(gid@).contains(t),
        ensures
            final(self).wf_game_table(),
            was_new == !old(self).game_watched(gid@),
            final(self).game_tokens(gid@) == old(self).game_tokens(gid@).push(t),
            final(self).game_watched(gid@),
            games_unchanged_except(*old(self), *final(self), set![gid@]),
            final(self).by_id == old(self).by_id,
            final(self).by_user == old(self).by_user,
            final(self).flag_simul == old(self).flag_simul,
            final(self).flag_tournament == old(self).flag_tournament,
            final(self).watching_mlat == old(self).watching_mlat,
            final(self).connection_count == old(self).connection_count,
            final(self).mlat == old(self).mlat,
    {
        let rj = self.find_game_row(gid);
        match rj {
            Some(j) => {
                proof {
                    lemma_game_row_unique(*old(self), j as int);
                }
                let mut row = self.by_game.remove(j);
                row.1.push(t);
                self.by_game.push(row);
                proof {
                    let pre = *old(self);
                    let n = self.by_game@.len() - 1;
                    assert(self.by_game@[n].0@ == gid@);
                    assert(forall|x: int|
                        0 <= x < n ==> #[trigger] self.by_game@[x] == (if x < j {
                            pre.by_game@[x]
                        } else {
                            pre.by_game@[x + 1]
                        }));
                    assert(self.wf_game_table()) by {
                        assert(forall|x: int|
                            0 <= x < n ==> (#[trigger] self.by_game@[x]).0@ != gid@);
                    }
                    lemma_game_row_unique(*self, n);
                    assert(self.game_tokens(gid@) =~= pre.game_tokens(gid@).push(t));
                    assert forall|w: Seq<u8>|
                        #![trigger self.game_tokens(w)]
                        #![trigger self.game_watched(w)]
                        !set![gid@].contains(w) implies self.game_tokens(w) == pre.game_tokens(w)
                        && self.game_watched(w) == pre.game_watched(w) by {
                        if pre.game_watched(w) {
                            let x0 = pre.game_idx(w);
                            lemma_game_row_unique(pre, x0);
                            let xn: int = if x0 < j { x0 } else { x0 - 1 };
                            assert(self.by_game@[xn].0@ == w);
                            lemma_game_row_unique(*self, xn);
                        } else {
                            if self.game_watched(w) {
                                let xc = self.game_idx(w);
                                if xc < n {
                                    if xc < j {
                                        assert(pre.by_game@[xc].0@ == w);
                                    } else {
                                        assert(pre.by_game@[xc + 1].0@ == w);
                                    }
                                }
                                assert(false);
                            }
                        }
                    }
                }
                false
            },
            None => {
                let mut toks: Vec<u64> = Vec::new();
                toks.push(t);
                self.by_game.push((gid.duplicate(), toks));
                proof {
                    let pre = *old(self);
                    let n = self.by_game@.len() - 1;
                    assert(self.by_game@[n].0@ == gid@);
                    assert(self.wf_game_table()) by {
                        assert(forall|x: int|
                            0 <= x < n ==> #[trigger] self.by_game@[x] == pre.by_game@[x]);
                    }
                    lemma_game_row_unique(*self, n);
                    assert(self.game_tokens(gid@) =~= pre.game_tokens(gid@).push(t));
                    assert forall|w: Seq<u8>|
                        #![trigger self.game_tokens(w)]
                        #![trigger self.game_watched(w)]
                        !set![gid@].contains(w) implies self.game_tokens(w) == pre.game_tokens(w)
                        && self.game_watched(w) == pre.game_watched(w) by {
                        if pre.game_watched(w) {
                            let x0 = pre.game_idx(w);
                            lemma_game_row_unique(pre, x0);
                            assert(self.by_game@[x0].0@ == w);
                            lemma_game_row_unique(*self, x0);
                        } else {
                            if self.game_watched(w) {
                                let xc = self.game_idx(w);
                                if xc < n {
                                    assert(pre.by_game@[xc].0@ == w);
                                }
                                assert(false);
                            }
                        }
                    }
                }
                true
            },
        }
    }

    /// Removes the socket token `t` from the game's row, dropping the row
    /// when it empties; returns whether the row emptied.
    fn game_remove_token(&mut self, gid: &GameId, t: u64) -> (now_empty: bool)
        requires
            old(self).wf_game_table(),
            old(self).game_tokens(gid@).contains(t),
        ensures
            final(self).wf_game_table(),
            now_empty == (old(self).game_tokens(gid@).len() == 1),
            game_removed(*old(self), *final(self), gid@, t),
            games_unchanged_except(*old(self), *final(self), set![gid@]),
            final(self).by_id == old(self).by_id,
            final(self).by_user == old(self).by_user,
            final(self).flag_simul == old(self).flag_simul,
            final(self).flag_tournament == old(self).flag_tournament,
            final(self).watching_mlat == old(self).watching_mlat,
            final(self).connection_count == old(self).connection_count,
            final(self).mlat == old(self).mlat,
    {
        let rj = match self.find_game_row(gid) {
            Some(j) => j,
            None => {
                proof {
                    assert(false);
                }
                0
            },
        };
        proof {
            lemma_game_row_unique(*old(self), rj as int);
        }
        let mut row = self.by_game.remove(rj);
        let l = match Self::token_pos(&row.1, t) {
            Some(l) => l,
            None => {
                proof {
                    assert(false);
                }
                0
            },
        };
        let _ = row.1.remove(l);
        let emptied = row.1.len() == 0;
        let ghost rowseq = row.1@;
        if !emptied {
            self.by_game.push(row);
        }
        proof {
            let pre = *old(self);
            let j = rj as int;
            let oldtoks = pre.game_tokens(gid@);
            assert(rowseq =~= oldtoks.remove(l as int));
            assert(!rowseq.contains(t)) by {
                if rowseq.contains(t) {
                    let x = choose|x: int| 0 <= x < rowseq.len() && rowseq[x] == t;
                    if x < l {
                        assert(oldtoks[x] == t && oldtoks[l as int] == t);
                    } else {
                        assert(oldtoks[x + 1] == t && oldtoks[l as int] == t);
                    }
                }
            }
            assert(forall|x: u64|
                x != t ==> #[trigger] rowseq.contains(x) == oldtoks.contains(x)) by {
                assert forall|x: u64| x != t && oldtoks.contains(x) implies rowseq.contains(
                    x,
                ) by {
                    let q = choose|q: int| 0 <= q < oldtoks.len() && oldtoks[q] == x;
                    if q < l {
                        assert(rowseq[q] == x);
                    } else {
                        assert(rowseq[q - 1] == x);
                    }
                }
                assert forall|x: u64| x != t && rowseq.contains(x) implies oldtoks.contains(
                    x,
                ) by {
                    let q = choose|q: int| 0 <= q < rowseq.len() && rowseq[q] == x;
                    if q < l {
                        assert(oldtoks[q] == x);
                    } else {
                        assert(oldtoks[q + 1] == x);
                    }
                }
            }
            assert(distinct_u64(rowseq));
            if emptied {
                assert(forall|x: int|
                    0 <= x < self.by_game@.len() ==> #[trigger] self.by_game@[x] == (if x < j {
                        pre.by_game@[x]
                    } else {
                        pre.by_game@[x + 1]
                    }));
                assert(self.wf_game_table());
                assert(!self.game_watched(gid@)) by {
                    if self.game_watched(gid@) {
                        let xc = self.game_idx(gid@);
                        if xc < j {
                            assert(pre.by_game@[xc].0@ == gid@);
                        } else {
                            assert(pre.by_game@[xc + 1].0@ == gid@);
                        }
                        assert(false);
                    }
                }
                assert(oldtoks.len() == 1) by {
                    assert(oldtoks =~= rowseq.insert(l as int, t));
                }
                assert forall|w: Seq<u8>|
                    #![trigger self.game_tokens(w)]
                    #![trigger self.game_watched(w)]
                    !set![gid@].contains(w) implies self.game_tokens(w) == pre.game_tokens(w)
                    && self.game_watched(w) == pre.game_watched(w) by {
                    if pre.game_watched(w) {
                        let x0 = pre.game_idx(w);
                        lemma_game_row_unique(pre, x0);
                        let xn: int = if x0 < j { x0 } else { x0 - 1 };
                        assert(self.by_game@[xn].0@ == w);
                        lemma_game_row_unique(*self, xn);
                    } else {
                        if self.game_watched(w) {
                            let xc = self.game_idx(w);
                            if xc < j {
                                assert(pre.by_game@[xc].0@ == w);
                            } else {
                                assert(pre.by_game@[xc + 1].0@ == w);
                            }
                            assert(false);
                        }
                    }
                }
            } else {
                let n = self.by_game@.len() - 1;
                assert(self.by_game@[n].0@ == gid@);
                assert(forall|x: int|
                    0 <= x < n ==> #[trigger] self.by_game@[x] == (if x < j {
                        pre.by_game@[x]
                    } else {
                        pre.by_game@[x + 1]
                    }));
                assert(self.wf_game_table()) by {
                    assert(forall|x: int|
                        0 <= x < n ==> (#[trigger] self.by_game@[x]).0@ != gid@);
                }
                lemma_game_row_unique(*self, n);
                assert(self.game_tokens(gid@) == rowseq);
                assert(oldtoks.len() > 1) by {
                    assert(oldtoks =~= rowseq.insert(l as int, t));
                }
                assert forall|w: Seq<u8>|
                    #![trigger self.game_tokens(w)]
                    #![trigger self.game_watched(w)]
                    !set![gid@].contains(w) implies self.game_tokens(w) == pre.game_tokens(w)
                    && self.game_watched(w) == pre.game_watched(w) by {
                    if pre.game_watched(w) {
                        let x0 = pre.game_idx(w);
                        lemma_game_row_unique(pre, x0);
                        let xn: int = if x0 < j { x0 } else { x0 - 1 };
                        assert(self.by_game@[xn].0@ == w);
                        lemma_game_row_unique(*self, xn);
                    } else {
                        if self.game_watched(w) {
                            let xc = self.game_idx(w);
                            if xc < n {
                                if xc < j {
                                    assert(pre.by_game@[xc].0@ == w);
                                } else {
                                    assert(pre.by_game@[xc + 1].0@ == w);
                                }
                            }
                            assert(false);
                        }
                    }
                }
            }
        }
        emptied
    }
}

/// Replacing one socket's entry while keeping sender, auth and the user
/// table preserves the user-table links.
pub proof fn lemma_user_links_preserved(pre: Registry, post: Registry, idx: int)
    requires
        pre.wf(),
        0 <= idx < pre.by_id@.len(),
        post.by_id@.len() == pre.by_id@.len(),
        forall|k: int|
            0 <= k < pre.by_id@.len() && k != idx ==> #[trigger] post.by_id@[k] == pre.by_id@[k],
        post.by_id@[idx].1.sender == pre.by_id@[idx].1.sender,
        post.by_id@[idx].1.auth == pre.by_id@[idx].1.auth,
        post.by_user == pre.by_user,
    ensures
        post.wf_user_table(),
        post.wf_link_user(),
{
    lemma_table_funcs(pre, post);
    assert(post.wf_link_user()) by {
        assert forall|k: int|
            0 <= k < post.by_id@.len() implies (match (#[trigger] post.by_id@[k]).1.auth {
            SocketAuth::Authenticated(w) => post.user_tokens(w@).contains(
                post.by_id@[k].1.sender,
            ),
            _ => true,
        }) by {
            assert(post.by_id@[k].1.auth == pre.by_id@[k].1.auth);
            assert(post.by_id@[k].1.sender == pre.by_id@[k].1.sender);
            match pre.by_id@[k].1.auth {
                SocketAuth::Authenticated(w) => {
                    assert(pre.user_tokens(w@).contains(pre.by_id@[k].1.sender));
                },
                _ => {},
            }
        }
        assert forall|j: int, l: int|
            0 <= j < post.by_user@.len() && 0 <= l < post.by_user@[j].1@.len() implies #[trigger]
            post.user_entry_backed(j, l) by {
            assert(pre.user_entry_backed(j, l));
            let k0 = choose|k: int|
                0 <= k < pre.by_id@.len() && (#[trigger] pre.by_id@[k]).1.sender
                    == pre.by_user@[j].1@[l] && auth_user_of(pre.by_id@[k].1) == Some(
                    pre.by_user@[j].0@,
                );
            assert(post.by_id@[k0].1.sender == post.by_user@[j].1@[l] && auth_user_of(
                post.by_id@[k0].1,
            ) == Some(post.by_user@[j].0@));
        }
    }
}

/// The message `on_notified` or `on_following_onlines` publishes.
pub open spec fn intent_msg(pre: Registry, sid: u64, friends: bool) -> Option<LilaInView> {
    if pre.has_socket(sid) {
        match pre.sock_at(sid).auth {
            SocketAuth::Authenticated(u) => if friends {
                Some(LilaInView::Friends(u@))
            } else {
                Some(LilaInView::Notified(u@))
            },
            _ => None,
        }
    } else {
        None
    }
}

/// How the deferred-intent handlers move the state: only the pending
/// flag of the addressed socket changes, set exactly while the socket is
/// still `Requested`.
pub open spec fn intent_post(pre: Registry, post: Registry, sid: u64, friends: bool) -> bool {
    if !pre.has_socket(sid) {
        registry_unchanged(pre, post)
    } else {
        let idx = pre.sock_idx(sid);
        let s = pre.by_id@[idx].1;
        let s2 = post.by_id@[idx].1;
        &&& post.by_id@.len() == pre.by_id@.len()
        &&& (forall|k: int|
            0 <= k < pre.by_id@.len() && k != idx ==> #[trigger] post.by_id@[k] == pre.by_id@[k])
        &&& post.by_id@[idx].0 == sid
        &&& s2.sender == s.sender
        &&& s2.auth == s.auth
        &&& s2.watching == s.watching
        &&& s2.flag == s.flag
        &&& (if friends {
            s2.pending_following_onlines == (s.auth is Requested) && s2.pending_notified
                == s.pending_notified
        } else {
            s2.pending_notified == (s.auth is Requested) && s2.pending_following_onlines
                == s.pending_following_onlines
        })
        &&& post.by_user == pre.by_user
        &&& post.by_game == pre.by_game
        &&& post.flag_simul == pre.flag_simul
        &&& post.flag_tournament == pre.flag_tournament
        &&& post.watching_mlat == pre.watching_mlat
        &&& post.connection_count == pre.connection_count
        &&& post.mlat == pre.mlat
    }
}

/// How `watch_game` moves the state.
pub open spec fn watch_post(pre: Registry, post: Registry, sid: u64, g: Seq<u8>) -> bool {
    let idx = pre.sock_idx(sid);
    let s = pre.by_id@[idx].1;
    let t = s.sender;
    if watching_views(s).contains(g) {
        registry_unchanged(pre, post)
    } else {
        &&& post.by_id@.len() == pre.by_id@.len()
        &&& (forall|k: int|
            0 <= k < pre.by_id@.len() && k != idx ==> #[trigger] post.by_id@[k] == pre.by_id@[k])
        &&& post.by_id@[idx].0 == sid
        &&& post.by_id@[idx].1.sender == t
        &&& post.by_id@[idx].1.auth == s.auth
        &&& post.by_id@[idx].1.flag == s.flag
        &&& post.by_id@[idx].1.pending_notified == s.pending_notified
        &&& post.by_id@[idx].1.pending_following_onlines == s.pending_following_onlines
        &&& watching_views(post.by_id@[idx].1) == watching_views(s).push(g)
        &&& post.game_tokens(g) == pre.game_tokens(g).push(t)
        &&& post.game_watched(g)
        &&& games_unchanged_except(pre, post, set![g])
        &&& post.by_user == pre.by_user
        &&& post.flag_simul == pre.flag_simul
        &&& post.flag_tournament == pre.flag_tournament
        &&& post.watching_mlat == pre.watching_mlat
        &&& post.connection_count == pre.connection_count
        &&& post.mlat == pre.mlat
    }
}

/// Whether one of the socket's watched games has these bytes.
fn watching_contains(w: &Vec<GameId>, gid: &GameId) -> (r: bool)
    ensures
        r == w@.map_values(|g: GameId| g@).contains(gid@),
{
    let ghost views = w@.map_values(|g: GameId| g@);
    let mut m: usize = 0;
    while m < w.len()
        invariant
            0 <= m <= w@.len(),
            views == w@.map_values(|g: GameId| g@),
            forall|x: int| 0 <= x < m ==> views[x] != gid@,
        decreases w@.len() - m,
    {
        if crate::text::bytes_eq(&w[m].bytes, &gid.bytes) {
            proof {
                assert(views[m as int] == gid@);
            }
            return true;
        }
        m += 1;
    }
    false
}


/// Two registries with identical tables (`mlat` aside) satisfy the same
/// invariants.
pub proof fn lemma_wf_same_tables(a: Registry, b: Registry)
    requires
        a.wf(),
        b.by_id == a.by_id,
        b.by_user == a.by_user,
        b.by_game == a.by_game,
        b.flag_simul == a.flag_simul,
        b.flag_tournament == a.flag_tournament,
        b.connection_count == a.connection_count,
    ensures
        b.wf_sock_ids(),
        b.wf_tokens(),
        b.wf_socks(),
        b.wf_user_table(),
        b.wf_game_table(),
        b.wf_link_user(),
        b.wf_link_game(),
        b.wf_link_flag(),
        b.wf_count(),
{
    lemma_table_funcs(a, b);
    lemma_game_table_funcs(a, b);
    assert(b.wf_link_user()) by {
        assert forall|k: int|
            0 <= k < b.by_id@.len() implies (match (#[trigger] b.by_id@[k]).1.auth {
            SocketAuth::Authenticated(w) => b.user_tokens(w@).contains(b.by_id@[k].1.sender),
            _ => true,
        }) by {
            match a.by_id@[k].1.auth {
                SocketAuth::Authenticated(w) => {
                    assert(a.user_tokens(w@).contains(a.by_id@[k].1.sender));
                },
                _ => {},
            }
        }
        assert forall|j: int, l: int|
            0 <= j < b.by_user@.len() && 0 <= l < b.by_user@[j].1@.len() implies #[trigger]
            b.user_entry_backed(j, l) by {
            assert(a.user_entry_backed(j, l));
            let k0 = choose|k: int|
                0 <= k < a.by_id@.len() && (#[trigger] a.by_id@[k]).1.sender == a.by_user@[j].1@[l]
                    && auth_user_of(a.by_id@[k].1) == Some(a.by_user@[j].0@);
            assert(b.by_id@[k0].1.sender == b.by_user@[j].1@[l] && auth_user_of(b.by_id@[k0].1)
                == Some(b.by_user@[j].0@));
        }
    }
    assert(b.wf_link_game()) by {
        assert forall|k: int, m: int|
            0 <= k < b.by_id@.len() && 0 <= m < b.by_id@[k].1.watching@.len() implies #[trigger]
            b.sock_watch_registered(k, m) by {
            assert(a.sock_watch_registered(k, m));
        }
        assert forall|j: int, l: int|
            0 <= j < b.by_game@.len() && 0 <= l < b.by_game@[j].1@.len() implies #[trigger]
            b.game_entry_backed(j, l) by {
            assert(a.game_entry_backed(j, l));
            let k0 = choose|k: int|
                0 <= k < a.by_id@.len() && (#[trigger] a.by_id@[k]).1.sender == a.by_game@[j].1@[l]
                    && watching_views(a.by_id@[k].1).contains(a.by_game@[j].0@);
            assert(b.by_id@[k0].1.sender == b.by_game@[j].1@[l] && watching_views(
                b.by_id@[k0].1,
            ).contains(b.by_game@[j].0@));
        }
    }
    assert(b.wf_link_flag()) by {
        assert forall|k: int|
            0 <= k < b.by_id@.len() implies (match (#[trigger] b.by_id@[k]).1.flag {
            Some(f) => b.flag_tokens(f).contains(b.by_id@[k].1.sender),
            None => true,
        }) by {
            match a.by_id@[k].1.flag {
                Some(f) => {
                    assert(a.flag_tokens(f).contains(a.by_id@[k].1.sender));
                    assert(b.flag_tokens(f) == a.flag_tokens(f));
                },
                None => {},
            }
        }
        assert forall|l: int| 0 <= l < b.flag_simul@.len() implies #[trigger] b.flag_entry_backed(
            Flag::Simul,
            l,
        ) by {
            assert(a.flag_entry_backed(Flag::Simul, l));
            let k0 = choose|k: int|
                0 <= k < a.by_id@.len() && (#[trigger] a.by_id@[k]).1.sender == a.flag_tokens(
                    Flag::Simul,
                )[l] && a.by_id@[k].1.flag == Some(Flag::Simul);
            assert(b.by_id@[k0].1.sender == b.flag_tokens(Flag::Simul)[l] && b.by_id@[k0].1.flag
                == Some(Flag::Simul));
        }
        assert forall|l: int| 0 <= l < b.flag_tournament@.len() implies #[trigger]
            b.flag_entry_backed(Flag::Tournament, l) by {
            assert(a.flag_entry_backed(Flag::Tournament, l));
            let k0 = choose|k: int|
                0 <= k < a.by_id@.len() && (#[trigger] a.by_id@[k]).1.sender == a.flag_tokens(
                    Flag::Tournament,
                )[l] && a.by_id@[k].1.flag == Some(Flag::Tournament);
            assert(b.by_id@[k0].1.sender == b.flag_tokens(Flag::Tournament)[l]
                && b.by_id@[k0].1.flag == Some(Flag::Tournament));
        }
    }
}

impl Registry {
    /// The client viewed their notifications: publish `notified` when
    /// authenticated, defer while the lookup is pending, drop otherwise.
    pub fn on_notified(&mut self, sid: u64) -> (out: Option<LilaIn>)
        requires
            old(self).wf(),
        ensures
            final(self).wf(),
            intent_post(*old(self), *final(self), sid, false),
            match out {
                Some(m) => m.wf() && intent_msg(*old(self), sid, false) == Some(m@),
                None => intent_msg(*old(self), sid, false) is None,
            },
    {
        let ghost pre = *old(self);
        let i = match self.find_sock(sid) {
            Some(i) => i,
            None => {
                return None;
            },
        };
        proof {
            assert(pre.has_socket(sid));
            assert(pre.sock_idx(sid) == i as int) by {
                let kc = pre.sock_idx(sid);
                if kc != i as int {
                    assert(pre.by_id@[kc].0 == sid);
                    assert(false);
                }
            }
        }
        let ghost idx = i as int;
        let mut entry = self.by_id.remove(i);
        let mut out: Option<LilaIn> = None;
        match &entry.1.auth {
            SocketAuth::Requested => {
                entry.1.pending_notified = true;
            },
            SocketAuth::Authenticated(u) => {
                out = Some(LilaIn::Notified(u.duplicate()));
                entry.1.pending_notified = false;
            },
            SocketAuth::Anonymous => {
                entry.1.pending_notified = false;
            },
        }
        self.by_id.insert(i, entry);
        proof {
            let post = *self;
            assert(post.by_id@ =~= pre.by_id@.update(idx, post.by_id@[idx]));
            lemma_socket_update_preserves_links(pre, post, idx);
            lemma_user_links_preserved(pre, post, idx);
            assert(post.wf_socks());
        }
        out
    }

    /// The client asked for their friend-online list: publish `friends`
    /// when authenticated, defer while the lookup is pending.
    pub fn on_following_onlines(&mut self, sid: u64) -> (out: Option<LilaIn>)
        requires
            old(self).wf(),
        ensures
            final(self).wf(),
            intent_post(*old(self), *final(self), sid, true),
            match out {
                Some(m) => m.wf() && intent_msg(*old(self), sid, true) == Some(m@),
                None => intent_msg(*old(self), sid, true) is None,
            },
    {
        let ghost pre = *old(self);
        let i = match self.find_sock(sid) {
            Some(i) => i,
            None => {
                return None;
            },
        };
        proof {
            assert(pre.has_socket(sid));
            assert(pre.sock_idx(sid) == i as int) by {
                let kc = pre.sock_idx(sid);
                if kc != i as int {
                    assert(pre.by_id@[kc].0 == sid);
                    assert(false);
                }
            }
        }
        let ghost idx = i as int;
        let mut entry = self.by_id.remove(i);
        let mut out: Option<LilaIn> = None;
        match &entry.1.auth {
            SocketAuth::Requested => {
                entry.1.pending_following_onlines = true;
            },
            SocketAuth::Authenticated(u) => {
                out = Some(LilaIn::Friends(u.duplicate()));
                entry.1.pending_following_onlines = false;
            },
            SocketAuth::Anonymous => {
                entry.1.pending_following_onlines = false;
            },
        }
        self.by_id.insert(i, entry);
        proof {
            let post = *self;
            assert(post.by_id@ =~= pre.by_id@.update(idx, post.by_id@[idx]));
            lemma_socket_update_preserves_links(pre, post, idx);
            lemma_user_links_preserved(pre, post, idx);
            assert(post.wf_socks());
        }
        out
    }

    /// A lag report: published only for authenticated sockets.
    pub fn on_ping(&self, sid: u64, lag: u32) -> (out: Option<LilaIn>)
        requires
            self.wf(),
        ensures
            match out {
                Some(m) => self.has_socket(sid) && auth_user_of(self.sock_at(sid)) is Some && m@
                    == LilaInView::Lag(auth_user_of(self.sock_at(sid))->0, lag) && m.wf(),
                None => !self.has_socket(sid) || auth_user_of(self.sock_at(sid)) is None,
            },
    {
        let i = match self.find_sock(sid) {
            Some(i) => i,
            None => {
                return None;
            },
        };
        proof {
            assert(self.has_socket(sid));
            assert(self.sock_idx(sid) == i as int) by {
                let kc = self.sock_idx(sid);
                if kc != i as int {
                    assert(self.by_id@[kc].0 == sid);
                    assert(false);
                }
            }
        }
        match &self.by_id[i].1.auth {
            SocketAuth::Authenticated(u) => Some(LilaIn::Lag(u.duplicate(), lag)),
            _ => None,
        }
    }

    /// Subscribes the socket to a game. Returns `(added, first)`: whether
    /// the game was new to this socket, and whether this socket is the
    /// game's first watcher (which obliges the caller to publish `watch`).
    pub fn watch_game(&mut self, sid: u64, gid: &GameId) -> (r: (bool, bool))
        requires
            old(self).wf(),
            old(self).has_socket(sid),
            valid_game_id(gid@),
        ensures
            final(self).wf(),
            watch_post(*old(self), *final(self), sid, gid@),
            r.0 == !watching_views(old(self).sock_at(sid)).contains(gid@),
            r.1 == (r.0 && !old(self).game_watched(gid@)),
    {
        let ghost pre = *old(self);
        let i = match self.find_sock(sid) {
            Some(i) => i,
            None => {
                proof {
                    assert(false);
                }
                return (false, false);
            },
        };
        proof {
            assert(pre.sock_idx(sid) == i as int) by {
                let kc = pre.sock_idx(sid);
                if kc != i as int {
                    assert(pre.by_id@[kc].0 == sid);
                    assert(false);
                }
            }
        }
        let ghost idx = i as int;
        let ghost s = pre.by_id@[idx].1;
        if watching_contains(&self.by_id[i].1.watching, gid) {
            return (false, false);
        }
        let mut entry = self.by_id.remove(i);
        let t = entry.1.sender;
        let ghost base = *self;
        proof {
            lemma_game_table_funcs(pre, base);
            if pre.game_tokens(gid@).contains(t) {
                lemma_game_table_tracks_watching(pre, gid@, t);
                let k0 = choose|k: int|
                    0 <= k < pre.by_id@.len() && (#[trigger] pre.by_id@[k]).1.sender == t
                        && watching_views(pre.by_id@[k].1).contains(gid@);
                if k0 != idx {
                    assert(pre.by_id@[k0].1.sender == pre.by_id@[idx].1.sender);
                }
                assert(false);
            }
        }
        let was_new = self.game_add_token(gid, t);
        let ghost tab = *self;
        entry.1.watching.push(gid.duplicate());
        self.by_id.insert(i, entry);
        proof {
            let post = *self;
            lemma_game_table_funcs(tab, post);
            assert(post.by_id@ =~= pre.by_id@.update(idx, post.by_id@[idx]));
            let s2 = post.by_id@[idx].1;
            assert(watching_views(s2) =~= watching_views(s).push(gid@));
            lemma_user_links_preserved(pre, post, idx);
            assert(post.wf_sock_ids()) by {
                assert(forall|k: int|
                    0 <= k < post.by_id@.len() ==> (#[trigger] post.by_id@[k]).0
                        == pre.by_id@[k].0);
            }
            assert(post.wf_tokens()) by {
                assert(forall|k: int|
                    0 <= k < post.by_id@.len() ==> (#[trigger] post.by_id@[k]).1.sender
                        == pre.by_id@[k].1.sender);
            }
            assert(post.wf_socks()) by {
                assert forall|k: int|
                    0 <= k < post.by_id@.len() implies {
                    let sk = (#[trigger] post.by_id@[k]).1;
                    &&& (match sk.auth {
                        SocketAuth::Authenticated(u) => valid_user_id(u@),
                        _ => true,
                    })
                    &&& (forall|m: int|
                        0 <= m < sk.watching@.len() ==> valid_game_id((#[trigger] sk.watching@[m])@))
                    &&& (forall|m1: int, m2: int|
                        0 <= m1 < m2 < sk.watching@.len() ==> (#[trigger] sk.watching@[m1])@ != (
                        #[trigger] sk.watching@[m2])@)
                } by {
                    if k == idx {
                        assert(forall|m: int|
                            0 <= m < s.watching@.len() ==> s2.watching@[m] == s.watching@[m]);
                        assert forall|m1: int, m2: int|
                            0 <= m1 < m2 < s2.watching@.len() implies (
                            #[trigger] s2.watching@[m1])@ != (#[trigger] s2.watching@[m2])@ by {
                            if m2 == s2.watching@.len() - 1 {
                                assert(watching_views(s)[m1] == s.watching@[m1]@);
                                assert(!watching_views(s).contains(gid@));
                            }
                        }
                        assert forall|m: int|
                            0 <= m < s2.watching@.len() implies valid_game_id(
                            (#[trigger] s2.watching@[m])@,
                        ) by {
                            if m < s.watching@.len() {
                                assert(valid_game_id(s.watching@[m]@));
                            }
                        }
                    }
                }
            }
            assert(post.wf_link_flag()) by {
                assert forall|k: int|
                    0 <= k < post.by_id@.len() implies (match (#[trigger] post.by_id@[k]).1.flag {
                    Some(f) => post.flag_tokens(f).contains(post.by_id@[k].1.sender),
                    None => true,
                }) by {
                    match pre.by_id@[k].1.flag {
                        Some(f) => {
                            assert(pre.flag_tokens(f).contains(pre.by_id@[k].1.sender));
                        },
                        None => {},
                    }
                    assert(post.by_id@[k].1.flag == pre.by_id@[k].1.flag);
                    assert(post.by_id@[k].1.sender == pre.by_id@[k].1.sender);
                }
                assert forall|l: int| 0 <= l < post.flag_simul@.len() implies #[trigger]
                    post.flag_entry_backed(Flag::Simul, l) by {
                    assert(pre.flag_entry_backed(Flag::Simul, l));
                    let k0 = choose|k: int|
                        0 <= k < pre.by_id@.len() && (#[trigger] pre.by_id@[k]).1.sender
                            == pre.flag_tokens(Flag::Simul)[l] && pre.by_id@[k].1.flag == Some(
                            Flag::Simul,
                        );
                    assert(post.by_id@[k0].1.sender == post.flag_tokens(Flag::Simul)[l]
                        && post.by_id@[k0].1.flag == Some(Flag::Simul));
                }
                assert forall|l: int| 0 <= l < post.flag_tournament@.len() implies #[trigger]
                    post.flag_entry_backed(Flag::Tournament, l) by {
                    assert(pre.flag_entry_backed(Flag::Tournament, l));
                    let k0 = choose|k: int|
                        0 <= k < pre.by_id@.len() && (#[trigger] pre.by_id@[k]).1.sender
                            == pre.flag_tokens(Flag::Tournament)[l] && pre.by_id@[k].1.flag
                            == Some(Flag::Tournament);
                    assert(post.by_id@[k0].1.sender == post.flag_tokens(Flag::Tournament)[l]
                        && post.by_id@[k0].1.flag == Some(Flag::Tournament));
                }
            }
            assert(post.wf_mlat()) by {
                assert forall|l: int| 0 <= l < post.watching_mlat@.len() implies #[trigger]
                    post.mlat_entry_backed(l) by {
                    assert(pre.mlat_entry_backed(l));
                    let k0 = choose|k: int|
                        0 <= k < pre.by_id@.len() && (#[trigger] pre.by_id@[k]).1.sender
                            == pre.watching_mlat@[l];
                    assert(post.by_id@[k0].1.sender == post.watching_mlat@[l]);
                }
            }
            assert forall|w: Seq<u8>|
                #![trigger post.game_tokens(w)]
                #![trigger post.game_watched(w)]
                w != gid@ implies post.game_tokens(w) == pre.game_tokens(w) && post.game_watched(
                w,
            ) == pre.game_watched(w) by {
                assert(pre.game_tokens(w) == base.game_tokens(w));
                assert(pre.game_watched(w) == base.game_watched(w));
            }
            assert(post.wf_link_game()) by {
                assert forall|k: int, m: int|
                    0 <= k < post.by_id@.len() && 0 <= m < post.by_id@[k].1.watching@.len() implies
                    #[trigger] post.sock_watch_registered(k, m) by {
                    let w = post.by_id@[k].1.watching@[m]@;
                    let xk = post.by_id@[k].1.sender;
                    if k == idx && m == post.by_id@[k].1.watching@.len() - 1 {
                        assert(w == gid@ && xk == t);
                        assert(post.game_tokens(gid@).last() == t);
                    } else {
                        assert(pre.sock_watch_registered(k, m));
                        assert(pre.game_tokens(w).contains(xk));
                        if w == gid@ {
                            let q = choose|q: int|
                                0 <= q < pre.game_tokens(w).len() && pre.game_tokens(w)[q] == xk;
                            assert(post.game_tokens(w)[q] == xk);
                        }
                    }
                }
                assert forall|j: int, l: int|
                    0 <= j < post.by_game@.len() && 0 <= l < post.by_game@[j].1@.len() implies
                    #[trigger] post.game_entry_backed(j, l) by {
                    let w = post.by_game@[j].0@;
                    let x = post.by_game@[j].1@[l];
                    lemma_game_row_unique(post, j);
                    assert(post.game_tokens(w).contains(x));
                    if w == gid@ && x == t {
                        assert(post.by_id@[idx].1.sender == t);
                        assert(watching_views(post.by_id@[idx].1).last() == gid@);
                    } else {
                        assert(pre.game_tokens(w).contains(x)) by {
                            if w == gid@ {
                                let q = choose|q: int|
                                    0 <= q < post.game_tokens(w).len() && post.game_tokens(w)[q]
                                        == x;
                                if q == pre.game_tokens(w).len() {
                                    assert(x == t);
                                    assert(false);
                                } else {
                                    assert(pre.game_tokens(w)[q] == x);
                                }
                            }
                        }
                        lemma_game_table_tracks_watching(pre, w, x);
                        let k0 = choose|k: int|
                            0 <= k < pre.by_id@.len() && (#[trigger] pre.by_id@[k]).1.sender == x
                                && watching_views(pre.by_id@[k].1).contains(w);
                        if k0 == idx {
                            assert(watching_views(s).contains(w));
                            let q = choose|q: int|
                                0 <= q < watching_views(s).len() && watching_views(s)[q] == w;
                            assert(watching_views(s2)[q] == w);
                            assert(post.by_id@[idx].1.sender == x);
                        } else {
                            assert(post.by_id@[k0] == pre.by_id@[k0]);
                        }
                    }
                }
            }
        }
        (true, was_new)
    }

    /// Turns move-latency updates on or off for the socket. Returns
    /// whether the socket was newly added, which obliges the caller to
    /// send the current `mlat` snapshot at once.
    pub fn set_mlat_watch(&mut self, sid: u64, on: bool) -> (newly: bool)
        requires
            old(self).wf(),
            old(self).has_socket(sid),
        ensures
            final(self).wf(),
            final(self).by_id == old(self).by_id,
            final(self).by_user == old(self).by_user,
            final(self).by_game == old(self).by_game,
            final(self).flag_simul == old(self).flag_simul,
            final(self).flag_tournament == old(self).flag_tournament,
            final(self).connection_count == old(self).connection_count,
            final(self).mlat == old(self).mlat,
            newly == (on && !old(self).watching_mlat@.contains(
                old(self).sock_at(sid).sender,
            )),
            on ==> final(self).watching_mlat@.contains(old(self).sock_at(sid).sender),
            on ==> (forall|x: u64|
                x != old(self).sock_at(sid).sender ==> final(self).watching_mlat@.contains(x)
                    == old(self).watching_mlat@.contains(x)),
            !on ==> !final(self).watching_mlat@.contains(old(self).sock_at(sid).sender),
            !on ==> (forall|x: u64|
                x != old(self).sock_at(sid).sender ==> final(self).watching_mlat@.contains(x)
                    == old(self).watching_mlat@.contains(x)),
    {
        let ghost pre = *old(self);
        let i = match self.find_sock(sid) {
            Some(i) => i,
            None => {
                proof {
                    assert(false);
                }
                return false;
            },
        };
        proof {
            assert(pre.sock_idx(sid) == i as int) by {
                let kc = pre.sock_idx(sid);
                if kc != i as int {
                    assert(pre.by_id@[kc].0 == sid);
                    assert(false);
                }
            }
        }
        let t = self.by_id[i].1.sender;
        if on {
            match Self::token_pos(&self.watching_mlat, t) {
                Some(_) => false,
                None => {
                    self.watching_mlat.push(t);
                    proof {
                        let post = *self;
                        lemma_wf_same_tables(pre, post);
                        assert forall|x: u64| x != t implies post.watching_mlat@.contains(x)
                            == pre.watching_mlat@.contains(x) by {
                            if pre.watching_mlat@.contains(x) {
                                let q = choose|q: int|
                                    0 <= q < pre.watching_mlat@.len() && pre.watching_mlat@[q]
                                        == x;
                                assert(post.watching_mlat@[q] == x);
                            }
                            if post.watching_mlat@.contains(x) {
                                let q = choose|q: int|
                                    0 <= q < post.watching_mlat@.len() && post.watching_mlat@[q]
                                        == x;
                                assert(q < pre.watching_mlat@.len());
                                assert(pre.watching_mlat@[q] == x);
                            }
                        }
                        assert(post.wf_mlat()) by {
                            assert forall|l: int|
                                0 <= l < post.watching_mlat@.len() implies #[trigger]
                                post.mlat_entry_backed(l) by {
                                if l < pre.watching_mlat@.len() {
                                    assert(pre.mlat_entry_backed(l));
                                    let k0 = choose|k: int|
                                        0 <= k < pre.by_id@.len() && (
                                        #[trigger] pre.by_id@[k]).1.sender
                                            == pre.watching_mlat@[l];
                                    assert(post.by_id@[k0].1.sender == post.watching_mlat@[l]);
                                } else {
                                    assert(post.by_id@[i as int].1.sender
                                        == post.watching_mlat@[l]);
                                }
                            }
                        }
                        assert(post.watching_mlat@.last() == t);
                    }
                    true
                },
            }
        } else {
            match Self::token_pos(&self.watching_mlat, t) {
                Some(l) => {
                    let _ = self.watching_mlat.remove(l);
                    proof {
                        let post = *self;
                        lemma_wf_same_tables(pre, post);
                        let oldlist = pre.watching_mlat@;
                        assert(post.watching_mlat@ =~= oldlist.remove(l as int));
                        assert(!post.watching_mlat@.contains(t)) by {
                            if post.watching_mlat@.contains(t) {
                                let x = choose|x: int|
                                    0 <= x < post.watching_mlat@.len() && post.watching_mlat@[x]
                                        == t;
                                if x < l {
                                    assert(oldlist[x] == t && oldlist[l as int] == t);
                                } else {
                                    assert(oldlist[x + 1] == t && oldlist[l as int] == t);
                                }
                            }
                        }
                        assert forall|x: u64| x != t implies post.watching_mlat@.contains(x)
                            == oldlist.contains(x) by {
                            if oldlist.contains(x) {
                                let q = choose|q: int|
                                    0 <= q < oldlist.len() && oldlist[q] == x;
                                if q < l {
                                    assert(post.watching_mlat@[q] == x);
                                } else {
                                    assert(post.watching_mlat@[q - 1] == x);
                                }
                            }
                            if post.watching_mlat@.contains(x) {
                                let q = choose|q: int|
                                    0 <= q < post.watching_mlat@.len() && post.watching_mlat@[q]
                                        == x;
                                if q < l {
                                    assert(oldlist[q] == x);
                                } else {
                                    assert(oldlist[q + 1] == x);
                                }
                            }
                        }
                        assert(post.wf_mlat()) by {
                            assert forall|l2: int|
                                0 <= l2 < post.watching_mlat@.len() implies #[trigger]
                                post.mlat_entry_backed(l2) by {
                                let lp: int = if l2 < l { l2 } else { l2 + 1 };
                                assert(pre.mlat_entry_backed(lp));
                                let k0 = choose|k: int|
                                    0 <= k < pre.by_id@.len() && (
                                    #[trigger] pre.by_id@[k]).1.sender == pre.watching_mlat@[lp];
                                assert(post.by_id@[k0].1.sender == post.watching_mlat@[l2]);
                            }
                        }
                    }
                    false
                },
                None => false,
            }
        }
    }

    /// Stores the latest backend move-latency figure.
    pub fn set_mlat(&mut self, n: u32)
        requires
            old(self).wf(),
        ensures
            final(self).wf(),
            final(self).mlat == n,
            final(self).by_id == old(self).by_id,
            final(self).by_user == old(self).by_user,
            final(self).by_game == old(self).by_game,
            final(self).flag_simul == old(self).flag_simul,
            final(self).flag_tournament == old(self).flag_tournament,
            final(self).watching_mlat == old(self).watching_mlat,
            final(self).connection_count == old(self).connection_count,
    {
        self.mlat = n;
        proof {
            lemma_wf_same_tables(*old(self), *self);
            assert(self.wf_mlat()) by {
                assert forall|l: int| 0 <= l < self.watching_mlat@.len() implies #[trigger]
                    self.mlat_entry_backed(l) by {
                    assert(old(self).mlat_entry_backed(l));
                    let k0 = choose|k: int|
                        0 <= k < old(self).by_id@.len() && (#[trigger] old(self).by_id@[k]).1.sender
                            == old(self).watching_mlat@[l];
                    assert(self.by_id@[k0].1.sender == self.watching_mlat@[l]);
                }
            }
        }
    }

    /// The current move-latency figure.
    pub fn mlat_value(&self) -> (r: u32)
        ensures
            r == self.mlat,
    {
        self.mlat
    }

    /// Whether a socket with this id is open, for callers outside the
    /// proofs.
    pub fn contains_socket(&self, sid: u64) -> (r: bool)
        ensures
            r == self.has_socket(sid),
    {
        match self.find_sock(sid) {
            Some(_) => true,
            None => false,
        }
    }

    /// The current connection count.
    pub fn count(&self) -> (r: u32)
        ensures
            r == self.connection_count,
    {
        self.connection_count
    }

    /// A copy of a game's watcher tokens.
    pub fn watchers_of(&self, gid: &GameId) -> (r: Vec<u64>)
        requires
            self.wf_game_table(),
        ensures
            r@ == self.game_tokens(gid@),
    {
        match self.find_game_row(gid) {
            Some(j) => {
                proof {
                    lemma_game_row_unique(*self, j as int);
                }
                copy_tokens(&self.by_game[j].1)
            },
            None => Vec::new(),
        }
    }

    /// A copy of a user's socket tokens.
    pub fn tokens_of_user(&self, uid: &UserId) -> (r: Vec<u64>)
        requires
            self.wf_user_table(),
        ensures
            r@ == self.user_tokens(uid@),
    {
        match self.find_user_row(uid) {
            Some(j) => {
                proof {
                    lemma_user_row_unique(*self, j as int);
                }
                copy_tokens(&self.by_user[j].1)
            },
            None => Vec::new(),
        }
    }

    /// A copy of a flag channel's tokens.
    pub fn flag_tokens_vec(&self, f: Flag) -> (r: Vec<u64>)
        ensures
            r@ == self.flag_tokens(f),
    {
        match f {
            Flag::Simul => copy_tokens(&self.flag_simul),
            Flag::Tournament => copy_tokens(&self.flag_tournament),
        }
    }

    /// A copy of the move-latency watcher tokens.
    pub fn mlat_watchers(&self) -> (r: Vec<u64>)
        ensures
            r@ == self.watching_mlat@,
    {
        copy_tokens(&self.watching_mlat)
    }
}

/// A plain copy of a token list.
fn copy_tokens(v: &Vec<u64>) -> (r: Vec<u64>)
    ensures
        r@ == v@,
{
    let mut out: Vec<u64> = Vec::new();
    let mut k: usize = 0;
    while k < v.len()
        invariant
            0 <= k <= v@.len(),
            out@ == v@.subrange(0, k as int),
        decreases v@.len() - k,
    {
        out.push(v[k]);
        proof {
            assert(out@ =~= v@.subrange(0, k + 1));
        }
        k += 1;
    }
    proof {
        assert(out@ =~= v@);
    }
    out
}

/// The `unwatch` records for the first `upto` watched games whose last
/// watcher is leaving.
pub open spec fn unwatch_msgs(pre: Registry, ws: Seq<Seq<u8>>, upto: int) -> Seq<LilaInView>
    decreases upto,
{
    if upto <= 0 {
        seq![]
    } else {
        unwatch_msgs(pre, ws, upto - 1) + (if pre.game_tokens(ws[upto - 1]).len() == 1 {
            seq![LilaInView::Unwatch(ws[upto - 1])]
        } else {
            seq![]
        })
    }
}

/// What closing a socket publishes: `disconnect` when it was the user's
/// last socket, then `unwatch` for every game left without watchers.
pub open spec fn close_msgs(pre: Registry, sid: u64) -> Seq<LilaInView> {
    let s = pre.sock_at(sid);
    (match s.auth {
        SocketAuth::Authenticated(ou) => if pre.user_tokens(ou@).len() == 1 {
            seq![LilaInView::Disconnect(ou@)]
        } else {
            seq![]
        },
        _ => seq![],
    }) + unwatch_msgs(pre, watching_views(s), watching_views(s).len() as int)
}

/// How closing a socket moves the state: the socket leaves `by_id`, the
/// count drops, and its token leaves every table it was in.
pub open spec fn close_post(pre: Registry, post: Registry, sid: u64) -> bool {
    let idx = pre.sock_idx(sid);
    let s = pre.by_id@[idx].1;
    let t = s.sender;
    &&& post.by_id@ == pre.by_id@.remove(idx)
    &&& post.connection_count == pre.connection_count - 1
    &&& post.mlat == pre.mlat
    &&& (match s.auth {
        SocketAuth::Authenticated(ou) => user_removed(pre, post, ou@, t)
            && users_unchanged_except(pre, post, set![ou@]),
        _ => users_unchanged_except(pre, post, Set::empty()),
    })
    &&& (forall|m: int|
        0 <= m < watching_views(s).len() ==> game_removed(
            pre,
            post,
            #[trigger] watching_views(s)[m],
            t,
        ))
    &&& (forall|g: Seq<u8>|
        #![trigger post.game_tokens(g)]
        #![trigger post.game_watched(g)]
        !watching_views(s).contains(g) ==> post.game_tokens(g) == pre.game_tokens(g)
            && post.game_watched(g) == pre.game_watched(g))
    &&& !post.flag_simul@.contains(t)
    &&& !post.flag_tournament@.contains(t)
    &&& (forall|x: u64|
        x != t ==> post.flag_simul@.contains(x) == pre.flag_simul@.contains(x))
    &&& (forall|x: u64|
        x != t ==> post.flag_tournament@.contains(x) == pre.flag_tournament@.contains(x))
    &&& !post.watching_mlat@.contains(t)
    &&& (forall|x: u64|
        x != t ==> post.watching_mlat@.contains(x) == pre.watching_mlat@.contains(x))
}

/// First position of `t` in a token list.
fn scan_token(v: &Vec<u64>, t: u64) -> (r: Option<usize>)
    ensures
        match r {
            Some(l) => l < v@.len() && v@[l as int] == t,
            None => !v@.contains(t),
        },
{
    let mut l: usize = 0;
    while l < v.len()
        invariant
            0 <= l <= v@.len(),
            forall|x: int| 0 <= x < l ==> v@[x] != t,
        decreases v@.len() - l,
    {
        if v[l] == t {
            return Some(l);
        }
        l += 1;
    }
    None
}

/// Removes `t` from a duplicate-free token list, if present.
fn drop_token(v: &mut Vec<u64>, t: u64)
    requires
        distinct_u64(old(v)@),
    ensures
        distinct_u64(final(v)@),
        !final(v)@.contains(t),
        forall|x: u64| x != t ==> final(v)@.contains(x) == old(v)@.contains(x),
        !old(v)@.contains(t) ==> *final(v) == *old(v),
{
    match scan_token(v, t) {
        Some(l) => {
            let _ = v.remove(l);
            proof {
                let oldseq = old(v)@;
                let li = l as int;
                assert(v@ =~= oldseq.remove(li));
                assert(!v@.contains(t)) by {
                    if v@.contains(t) {
                        let x = choose|x: int| 0 <= x < v@.len() && v@[x] == t;
                        if x < li {
                            assert(oldseq[x] == t && oldseq[li] == t);
                        } else {
                            assert(oldseq[x + 1] == t && oldseq[li] == t);
                        }
                    }
                }
                assert forall|x: u64| x != t implies v@.contains(x) == oldseq.contains(x) by {
                    if oldseq.contains(x) {
                        let q = choose|q: int| 0 <= q < oldseq.len() && oldseq[q] == x;
                        if q < li {
                            assert(v@[q] == x);
                        } else {
                            assert(q != li);
                            assert(v@[q - 1] == x);
                        }
                    }
                    if v@.contains(x) {
                        let q = choose|q: int| 0 <= q < v@.len() && v@[q] == x;
                        if q < li {
                            assert(oldseq[q] == x);
                        } else {
                            assert(oldseq[q + 1] == x);
                        }
                    }
                }
            }
        },
        None => {},
    }
}

impl Registry {
    /// Tears one socket down: every invariant-restoring removal the close
    /// path owes, with the records to publish.
    #[verifier::rlimit(100)]
    pub fn close_socket(&mut self, sid: u64) -> (out: Vec<LilaIn>)
        requires
            old(self).wf(),
            old(self).has_socket(sid),
        ensures
            final(self).wf(),
            close_post(*old(self), *final(self), sid),
            out@.map_values(|m: LilaIn| m@) == close_msgs(*old(self), sid),
            forall|i: int| 0 <= i < out@.len() ==> (#[trigger] out@[i]).wf(),
    {
        let ghost pre = *old(self);
        let i = match self.find_sock(sid) {
            Some(i) => i,
            None => {
                proof {
                    assert(false);
                }
                return Vec::new();
            },
        };
        proof {
            assert(pre.sock_idx(sid) == i as int) by {
                let kc = pre.sock_idx(sid);
                if kc != i as int {
                    assert(pre.by_id@[kc].0 == sid);
                    assert(false);
                }
            }
        }
        let ghost idx = i as int;
        let ghost s = pre.by_id@[idx].1;
        let entry = self.by_id.remove(i);
        let t = entry.1.sender;
        self.connection_count = self.connection_count - 1;
        let ghost base = *self;
        proof {
            lemma_table_funcs(pre, base);
            lemma_game_table_funcs(pre, base);
        }
        let mut out: Vec<LilaIn> = Vec::new();
        match &entry.1.auth {
            SocketAuth::Authenticated(ou) => {
                proof {
                    assert(pre.user_tokens(ou@).contains(t)) by {
                        assert(pre.wf_link_user());
                    }
                }
                let e = self.user_remove_token(ou, t);
                if e {
                    out.push(LilaIn::Disconnect(ou.duplicate()));
                }
            },
            _ => {},
        }
        let ghost afteru = *self;
        let ghost ws = watching_views(s);
        let ghost dpart = out@.map_values(|m: LilaIn| m@);
        proof {
            lemma_game_table_funcs(base, afteru);
            assert(entry.1 == s);
            assert(dpart =~= (match s.auth {
                SocketAuth::Authenticated(ou) => if pre.user_tokens(ou@).len() == 1 {
                    seq![LilaInView::Disconnect(ou@)]
                } else {
                    seq![]
                },
                _ => seq![],
            }));
        }
        proof {
            assert(dpart + unwatch_msgs(pre, ws, 0) =~= dpart);
        }
        let mut gi: usize = 0;
        while gi < entry.1.watching.len()
            invariant
                pre.wf(),
                0 <= gi <= entry.1.watching@.len(),
                entry.1 == s,
                ws == watching_views(s),
                ws.len() == entry.1.watching@.len(),
                0 <= idx < pre.by_id@.len(),
                s == pre.by_id@[idx].1,
                t == s.sender,
                self.wf_game_table(),
                self.by_id == afteru.by_id,
                self.by_user == afteru.by_user,
                self.flag_simul == afteru.flag_simul,
                self.flag_tournament == afteru.flag_tournament,
                self.watching_mlat == afteru.watching_mlat,
                self.connection_count == afteru.connection_count,
                self.mlat == afteru.mlat,
                forall|m: int| 0 <= m < gi ==> game_removed(pre, *self, #[trigger] ws[m], t),
                forall|g: Seq<u8>|
                    #![trigger self.game_tokens(g)]
                    #![trigger self.game_watched(g)]
                    !ws.subrange(0, gi as int).contains(g) ==> self.game_tokens(g)
                        == pre.game_tokens(g) && self.game_watched(g) == pre.game_watched(g),
                out@.map_values(|m: LilaIn| m@) == dpart + unwatch_msgs(pre, ws, gi as int),
                forall|ii: int| 0 <= ii < out@.len() ==> (#[trigger] out@[ii]).wf(),
            decreases entry.1.watching@.len() - gi,
        {
            let ghost cur = *self;
            let g = &entry.1.watching[gi];
            proof {
                assert(ws[gi as int] == g@);
                assert(!ws.subrange(0, gi as int).contains(g@)) by {
                    if ws.subrange(0, gi as int).contains(g@) {
                        let m0 = choose|m0: int| 0 <= m0 < gi && ws.subrange(0, gi as int)[m0] == g@;
                        assert(ws[m0] == g@);
                        assert(s.watching@[m0]@ == s.watching@[gi as int]@);
                        assert(false);
                    }
                }
                assert(cur.game_tokens(g@) == pre.game_tokens(g@));
                assert(pre.game_tokens(g@).contains(t)) by {
                    assert(pre.sock_watch_registered(idx, gi as int));
                }
                assert(valid_game_id(g@));
            }
            let ghost outb = out@;
            let e = self.game_remove_token(g, t);
            if e {
                out.push(LilaIn::Unwatch(g.duplicate()));
            }
            proof {
                let nxt = *self;
                assert(e == (pre.game_tokens(g@).len() == 1));
                assert(unwatch_msgs(pre, ws, gi + 1) =~= unwatch_msgs(pre, ws, gi as int) + (
                if e {
                    seq![LilaInView::Unwatch(g@)]
                } else {
                    seq![]
                }));
                assert(out@.map_values(|m: LilaIn| m@) =~= outb.map_values(|m: LilaIn| m@) + (
                if e {
                    seq![LilaInView::Unwatch(g@)]
                } else {
                    seq![]
                }));
                assert forall|m: int| 0 <= m < gi + 1 implies game_removed(
                    pre,
                    nxt,
                    #[trigger] ws[m],
                    t,
                ) by {
                    if m < gi {
                        assert(ws[m] != g@) by {
                            if ws[m] == g@ {
                                assert(s.watching@[m]@ == s.watching@[gi as int]@);
                            }
                        }
                        assert(game_removed(pre, cur, ws[m], t));
                        assert(nxt.game_tokens(ws[m]) == cur.game_tokens(ws[m]));
                        assert(nxt.game_watched(ws[m]) == cur.game_watched(ws[m]));
                    } else {
                        assert(game_removed(cur, nxt, g@, t));
                    }
                }
                assert forall|g2: Seq<u8>|
                    #![trigger nxt.game_tokens(g2)]
                    #![trigger nxt.game_watched(g2)]
                    !ws.subrange(0, gi + 1).contains(g2) implies nxt.game_tokens(g2)
                    == pre.game_tokens(g2) && nxt.game_watched(g2) == pre.game_watched(g2) by {
                    assert(g2 != g@) by {
                        if g2 == g@ {
                            assert(ws.subrange(0, gi + 1)[gi as int] == g@);
                        }
                    }
                    assert(!ws.subrange(0, gi as int).contains(g2)) by {
                        if ws.subrange(0, gi as int).contains(g2) {
                            let m0 = choose|m0: int|
                                0 <= m0 < gi && ws.subrange(0, gi as int)[m0] == g2;
                            assert(ws.subrange(0, gi + 1)[m0] == g2);
                        }
                    }
                    assert(cur.game_tokens(g2) == pre.game_tokens(g2));
                }
                assert(e == (pre.game_tokens(g@).len() == 1));
                assert(out@.map_values(|m: LilaIn| m@) =~= dpart + unwatch_msgs(
                    pre,
                    ws,
                    gi + 1,
                ));
            }
            gi += 1;
        }
        let ghost aftergames = *self;
        proof {
            assert(ws.subrange(0, ws.len() as int) =~= ws);
        }
        proof {
            // the token stands only in the flag list its socket chose
            if s.flag != Some(Flag::Simul) && pre.flag_simul@.contains(t) {
                let l0 = choose|l0: int|
                    0 <= l0 < pre.flag_simul@.len() && pre.flag_simul@[l0] == t;
                assert(pre.flag_entry_backed(Flag::Simul, l0));
                let k0 = choose|k: int|
                    0 <= k < pre.by_id@.len() && (#[trigger] pre.by_id@[k]).1.sender
                        == pre.flag_tokens(Flag::Simul)[l0] && pre.by_id@[k].1.flag == Some(
                        Flag::Simul,
                    );
                if k0 != idx {
                    assert(pre.by_id@[k0].1.sender == pre.by_id@[idx].1.sender);
                }
                assert(false);
            }
            if s.flag != Some(Flag::Tournament) && pre.flag_tournament@.contains(t) {
                let l0 = choose|l0: int|
                    0 <= l0 < pre.flag_tournament@.len() && pre.flag_tournament@[l0] == t;
                assert(pre.flag_entry_backed(Flag::Tournament, l0));
                let k0 = choose|k: int|
                    0 <= k < pre.by_id@.len() && (#[trigger] pre.by_id@[k]).1.sender
                        == pre.flag_tokens(Flag::Tournament)[l0] && pre.by_id@[k].1.flag == Some(
                        Flag::Tournament,
                    );
                if k0 != idx {
                    assert(pre.by_id@[k0].1.sender == pre.by_id@[idx].1.sender);
                }
                assert(false);
            }
        }
        match &entry.1.flag {
            Some(Flag::Simul) => {
                proof {
                    assert(pre.flag_tokens(Flag::Simul).contains(t)) by {
                        assert(pre.wf_link_flag());
                    }
                }
                drop_token(&mut self.flag_simul, t);
            },
            Some(Flag::Tournament) => {
                proof {
                    assert(pre.flag_tokens(Flag::Tournament).contains(t)) by {
                        assert(pre.wf_link_flag());
                    }
                }
                drop_token(&mut self.flag_tournament, t);
            },
            None => {},
        }
        drop_token(&mut self.watching_mlat, t);
        proof {
            let post = *self;
            lemma_table_funcs(afteru, post);
            lemma_game_table_funcs(aftergames, post);
            assert(post.by_id@ =~= pre.by_id@.remove(idx));
            assert forall|m: int| 0 <= m < ws.len() implies game_removed(
                pre,
                post,
                #[trigger] ws[m],
                t,
            ) by {
                assert(game_removed(pre, aftergames, ws[m], t));
            }
            assert forall|g2: Seq<u8>|
                #![trigger post.game_tokens(g2)]
                #![trigger post.game_watched(g2)]
                !ws.contains(g2) implies post.game_tokens(g2) == pre.game_tokens(g2)
                && post.game_watched(g2) == pre.game_watched(g2) by {
                assert(aftergames.game_tokens(g2) == pre.game_tokens(g2));
                assert(aftergames.game_watched(g2) == pre.game_watched(g2));
            }
            // user rows of the final state read as right after the removal
            assert forall|w: Seq<u8>|
                #![trigger post.user_tokens(w)]
                #![trigger post.user_online(w)]
                post.user_tokens(w) == afteru.user_tokens(w) && post.user_online(w)
                    == afteru.user_online(w) by {}
            assert(post.wf_sock_ids()) by {
                assert forall|k1: int, k2: int|
                    0 <= k1 < k2 < post.by_id@.len() implies (#[trigger] post.by_id@[k1]).0 != (
                #[trigger] post.by_id@[k2]).0 by {
                    let p1: int = if k1 < idx { k1 } else { k1 + 1 };
                    let p2: int = if k2 < idx { k2 } else { k2 + 1 };
                    assert(post.by_id@[k1] == pre.by_id@[p1]);
                    assert(post.by_id@[k2] == pre.by_id@[p2]);
                }
            }
            assert(post.wf_tokens()) by {
                assert forall|k1: int, k2: int|
                    0 <= k1 < k2 < post.by_id@.len() implies (#[trigger] post.by_id@[k1]).1.sender
                    != (#[trigger] post.by_id@[k2]).1.sender by {
                    let p1: int = if k1 < idx { k1 } else { k1 + 1 };
                    let p2: int = if k2 < idx { k2 } else { k2 + 1 };
                    assert(post.by_id@[k1] == pre.by_id@[p1]);
                    assert(post.by_id@[k2] == pre.by_id@[p2]);
                }
            }
            assert(post.wf_socks()) by {
                assert forall|k: int|
                    0 <= k < post.by_id@.len() implies (#[trigger] post.by_id@[k])
                        == pre.by_id@[(if k < idx {
                        k
                    } else {
                        k + 1
                    })] by {}
            }
            // every other socket's sender differs from t
            assert forall|k: int|
                0 <= k < post.by_id@.len() implies (#[trigger] post.by_id@[k]).1.sender != t by {
                let p: int = if k < idx { k } else { k + 1 };
                assert(post.by_id@[k] == pre.by_id@[p]);
                assert(pre.by_id@[p].1.sender != pre.by_id@[idx].1.sender);
            }
            assert(post.wf_link_user()) by {
                assert forall|k: int|
                    0 <= k < post.by_id@.len() implies (match (#[trigger] post.by_id@[k]).1.auth {
                    SocketAuth::Authenticated(w) => post.user_tokens(w@).contains(
                        post.by_id@[k].1.sender,
                    ),
                    _ => true,
                }) by {
                    let p: int = if k < idx { k } else { k + 1 };
                    assert(post.by_id@[k] == pre.by_id@[p]);
                    match post.by_id@[k].1.auth {
                        SocketAuth::Authenticated(w) => {
                            let xk = post.by_id@[k].1.sender;
                            assert(pre.user_tokens(w@).contains(xk));
                            assert(xk != t);
                        },
                        _ => {},
                    }
                }
                assert forall|j: int, l: int|
                    0 <= j < post.by_user@.len() && 0 <= l < post.by_user@[j].1@.len() implies
                    #[trigger] post.user_entry_backed(j, l) by {
                    let w = post.by_user@[j].0@;
                    let x = post.by_user@[j].1@[l];
                    lemma_user_row_unique(post, j);
                    assert(post.user_tokens(w).contains(x));
                    assert(x != t && pre.user_tokens(w).contains(x)) by {
                        match s.auth {
                            SocketAuth::Authenticated(ou) => {
                                if w == ou@ {
                                } else {
                                    if x == t {
                                        lemma_user_table_tracks_auth(pre, w, t);
                                        let k0 = choose|k: int|
                                            0 <= k < pre.by_id@.len() && (
                                            #[trigger] pre.by_id@[k]).1.sender == t
                                                && auth_user_of(pre.by_id@[k].1) == Some(w);
                                        if k0 != idx {
                                            assert(pre.by_id@[k0].1.sender
                                                == pre.by_id@[idx].1.sender);
                                        }
                                        assert(false);
                                    }
                                }
                            },
                            _ => {
                                if x == t {
                                    lemma_user_table_tracks_auth(pre, w, t);
                                    let k0 = choose|k: int|
                                        0 <= k < pre.by_id@.len() && (
                                        #[trigger] pre.by_id@[k]).1.sender == t && auth_user_of(
                                            pre.by_id@[k].1,
                                        ) == Some(w);
                                    if k0 != idx {
                                        assert(pre.by_id@[k0].1.sender
                                            == pre.by_id@[idx].1.sender);
                                    }
                                    assert(false);
                                }
                            },
                        }
                    }
                    lemma_user_table_tracks_auth(pre, w, x);
                    let k0 = choose|k: int|
                        0 <= k < pre.by_id@.len() && (#[trigger] pre.by_id@[k]).1.sender == x
                            && auth_user_of(pre.by_id@[k].1) == Some(w);
                    assert(k0 != idx);
                    let kp: int = if k0 < idx { k0 } else { k0 - 1 };
                    assert(post.by_id@[kp] == pre.by_id@[k0]);
                }
            }
            assert(post.wf_link_game()) by {
                assert forall|k: int, m: int|
                    0 <= k < post.by_id@.len() && 0 <= m < post.by_id@[k].1.watching@.len() implies
                    #[trigger] post.sock_watch_registered(k, m) by {
                    let p: int = if k < idx { k } else { k + 1 };
                    assert(post.by_id@[k] == pre.by_id@[p]);
                    assert(pre.sock_watch_registered(p, m));
                    let w = post.by_id@[k].1.watching@[m]@;
                    let xk = post.by_id@[k].1.sender;
                    assert(pre.game_tokens(w).contains(xk));
                    assert(xk != t);
                    if ws.contains(w) {
                        let m0 = choose|m0: int| 0 <= m0 < ws.len() && ws[m0] == w;
                        assert(game_removed(pre, post, ws[m0], t));
                        assert(post.game_tokens(w).contains(xk));
                    } else {
                        assert(post.game_tokens(w) == pre.game_tokens(w));
                    }
                }
                assert forall|j: int, l: int|
                    0 <= j < post.by_game@.len() && 0 <= l < post.by_game@[j].1@.len() implies
                    #[trigger] post.game_entry_backed(j, l) by {
                    let w = post.by_game@[j].0@;
                    let x = post.by_game@[j].1@[l];
                    lemma_game_row_unique(post, j);
                    assert(post.game_tokens(w).contains(x));
                    assert(x != t && pre.game_tokens(w).contains(x)) by {
                        if ws.contains(w) {
                            let m0 = choose|m0: int| 0 <= m0 < ws.len() && ws[m0] == w;
                            assert(game_removed(pre, post, ws[m0], t));
                        } else {
                            assert(post.game_tokens(w) == pre.game_tokens(w));
                            if x == t {
                                lemma_game_table_tracks_watching(pre, w, t);
                                let k0 = choose|k: int|
                                    0 <= k < pre.by_id@.len() && (
                                    #[trigger] pre.by_id@[k]).1.sender == t && watching_views(
                                        pre.by_id@[k].1,
                                    ).contains(w);
                                if k0 != idx {
                                    assert(pre.by_id@[k0].1.sender == pre.by_id@[idx].1.sender);
                                }
                                assert(ws.contains(w));
                                assert(false);
                            }
                        }
                    }
                    lemma_game_table_tracks_watching(pre, w, x);
                    let k0 = choose|k: int|
                        0 <= k < pre.by_id@.len() && (#[trigger] pre.by_id@[k]).1.sender == x
                            && watching_views(pre.by_id@[k].1).contains(w);
                    assert(k0 != idx);
                    let kp: int = if k0 < idx { k0 } else { k0 - 1 };
                    assert(post.by_id@[kp] == pre.by_id@[k0]);
                }
            }
            assert(post.wf_link_flag()) by {
                assert forall|k: int|
                    0 <= k < post.by_id@.len() implies (match (#[trigger] post.by_id@[k]).1.flag {
                    Some(f) => post.flag_tokens(f).contains(post.by_id@[k].1.sender),
                    None => true,
                }) by {
                    let p: int = if k < idx { k } else { k + 1 };
                    assert(post.by_id@[k] == pre.by_id@[p]);
                    match post.by_id@[k].1.flag {
                        Some(f) => {
                            assert(pre.flag_tokens(f).contains(post.by_id@[k].1.sender));
                            assert(post.by_id@[k].1.sender != t);
                        },
                        None => {},
                    }
                }
                assert forall|l: int| 0 <= l < post.flag_simul@.len() implies #[trigger]
                    post.flag_entry_backed(Flag::Simul, l) by {
                    let x = post.flag_simul@[l];
                    assert(post.flag_simul@.contains(x));
                    assert(x != t);
                    assert(pre.flag_simul@.contains(x));
                    let l0 = choose|l0: int|
                        0 <= l0 < pre.flag_simul@.len() && pre.flag_simul@[l0] == x;
                    assert(pre.flag_entry_backed(Flag::Simul, l0));
                    let k0 = choose|k: int|
                        0 <= k < pre.by_id@.len() && (#[trigger] pre.by_id@[k]).1.sender
                            == pre.flag_tokens(Flag::Simul)[l0] && pre.by_id@[k].1.flag == Some(
                            Flag::Simul,
                        );
                    assert(k0 != idx);
                    let kp: int = if k0 < idx { k0 } else { k0 - 1 };
                    assert(post.by_id@[kp] == pre.by_id@[k0]);
                }
                assert forall|l: int| 0 <= l < post.flag_tournament@.len() implies #[trigger]
                    post.flag_entry_backed(Flag::Tournament, l) by {
                    let x = post.flag_tournament@[l];
                    assert(post.flag_tournament@.contains(x));
                    assert(x != t);
                    assert(pre.flag_tournament@.contains(x));
                    let l0 = choose|l0: int|
                        0 <= l0 < pre.flag_tournament@.len() && pre.flag_tournament@[l0] == x;
                    assert(pre.flag_entry_backed(Flag::Tournament, l0));
                    let k0 = choose|k: int|
                        0 <= k < pre.by_id@.len() && (#[trigger] pre.by_id@[k]).1.sender
                            == pre.flag_tokens(Flag::Tournament)[l0] && pre.by_id@[k].1.flag
                            == Some(Flag::Tournament);
                    assert(k0 != idx);
                    let kp: int = if k0 < idx { k0 } else { k0 - 1 };
                    assert(post.by_id@[kp] == pre.by_id@[k0]);
                }
            }
            assert(post.wf_mlat()) by {
                assert forall|l: int| 0 <= l < post.watching_mlat@.len() implies #[trigger]
                    post.mlat_entry_backed(l) by {
                    let x = post.watching_mlat@[l];
                    assert(post.watching_mlat@.contains(x));
                    assert(x != t);
                    assert(pre.watching_mlat@.contains(x));
                    let l0 = choose|l0: int|
                        0 <= l0 < pre.watching_mlat@.len() && pre.watching_mlat@[l0] == x;
                    assert(pre.mlat_entry_backed(l0));
                    let k0 = choose|k: int|
                        0 <= k < pre.by_id@.len() && (#[trigger] pre.by_id@[k]).1.sender
                            == pre.watching_mlat@[l0];
                    assert(k0 != idx);
                    let kp: int = if k0 < idx { k0 } else { k0 - 1 };
                    assert(post.by_id@[kp] == pre.by_id@[k0]);
                }
            }
        }
        out
    }
}

/// Whether `connect/u` stands in the log more recently than
/// `disconnect/u`.
pub open spec fn online_in_log(log: Seq<LilaInView>, u: Seq<u8>) -> bool {
    exists|i: int|
        0 <= i < log.len() && log[i] == LilaInView::Connect(u) && (forall|j: int|
            i < j < log.len() ==> log[j] != LilaInView::Disconnect(u))
}

/// Whether `watch/g` stands in the log more recently than `unwatch/g`.
pub open spec fn watched_in_log(log: Seq<LilaInView>, g: Seq<u8>) -> bool {
    exists|i: int|
        0 <= i < log.len() && log[i] == LilaInView::Watch(g) && (forall|j: int|
            i < j < log.len() ==> log[j] != LilaInView::Unwatch(g))
}

/// Appending records that mention neither `connect/u` nor `disconnect/u`
/// leaves the user's log status alone.
proof fn lemma_log_user_neutral(log: Seq<LilaInView>, more: Seq<LilaInView>, u: Seq<u8>)
    requires
        forall|i: int|
            0 <= i < more.len() ==> #[trigger] more[i] != LilaInView::Connect(u) && more[i]
                != LilaInView::Disconnect(u),
    ensures
        online_in_log(log + more, u) == online_in_log(log, u),
{
    let whole = log + more;
    if online_in_log(log, u) {
        let i = choose|i: int|
            0 <= i < log.len() && log[i] == LilaInView::Connect(u) && (forall|j: int|
                i < j < log.len() ==> log[j] != LilaInView::Disconnect(u));
        assert(whole[i] == LilaInView::Connect(u));
        assert forall|j: int| i < j < whole.len() implies whole[j] != LilaInView::Disconnect(
            u,
        ) by {
            if j >= log.len() {
                assert(whole[j] == more[j - log.len()]);
            } else {
                assert(whole[j] == log[j]);
            }
        }
        assert(online_in_log(whole, u));
    }
    if online_in_log(whole, u) {
        let i = choose|i: int|
            0 <= i < whole.len() && whole[i] == LilaInView::Connect(u) && (forall|j: int|
                i < j < whole.len() ==> whole[j] != LilaInView::Disconnect(u));
        assert(i < log.len()) by {
            if i >= log.len() {
                assert(more[i - log.len()] == LilaInView::Connect(u));
            }
        }
        assert(log[i] == LilaInView::Connect(u));
        assert forall|j: int| i < j < log.len() implies log[j] != LilaInView::Disconnect(u) by {
            assert(whole[j] == log[j]);
        }
        assert(online_in_log(log, u));
    }
}

/// Appending records that mention neither `watch/g` nor `unwatch/g`
/// leaves the game's log status alone.
proof fn lemma_log_game_neutral(log: Seq<LilaInView>, more: Seq<LilaInView>, g: Seq<u8>)
    requires
        forall|i: int|
            0 <= i < more.len() ==> #[trigger] more[i] != LilaInView::Watch(g) && more[i]
                != LilaInView::Unwatch(g),
    ensures
        watched_in_log(log + more, g) == watched_in_log(log, g),
{
    let whole = log + more;
    if watched_in_log(log, g) {
        let i = choose|i: int|
            0 <= i < log.len() && log[i] == LilaInView::Watch(g) && (forall|j: int|
                i < j < log.len() ==> log[j] != LilaInView::Unwatch(g));
        assert(whole[i] == LilaInView::Watch(g));
        assert forall|j: int| i < j < whole.len() implies whole[j] != LilaInView::Unwatch(g) by {
            if j >= log.len() {
                assert(whole[j] == more[j - log.len()]);
            } else {
                assert(whole[j] == log[j]);
            }
        }
        assert(watched_in_log(whole, g));
    }
    if watched_in_log(whole, g) {
        let i = choose|i: int|
            0 <= i < whole.len() && whole[i] == LilaInView::Watch(g) && (forall|j: int|
                i < j < whole.len() ==> whole[j] != LilaInView::Unwatch(g));
        assert(i < log.len()) by {
            if i >= log.len() {
                assert(more[i - log.len()] == LilaInView::Watch(g));
            }
        }
        assert(log[i] == LilaInView::Watch(g));
        assert forall|j: int| i < j < log.len() implies log[j] != LilaInView::Unwatch(g) by {
            assert(whole[j] == log[j]);
        }
        assert(watched_in_log(log, g));
    }
}

/// `unwatch/g` occurs among the first `upto` unwatch records.
pub open spec fn unwatch_mentions(pre: Registry, ws: Seq<Seq<u8>>, upto: int, g: Seq<u8>) -> bool {
    exists|i: int|
        0 <= i < unwatch_msgs(pre, ws, upto).len() && (#[trigger] unwatch_msgs(pre, ws, upto)[i])
            == LilaInView::Unwatch(g)
}

/// Among the first `upto` watched games, `g` is one the closing socket
/// was the last watcher of.
pub open spec fn last_watcher_among(pre: Registry, ws: Seq<Seq<u8>>, upto: int, g: Seq<u8>) -> bool {
    exists|m: int|
        0 <= m < upto && ws[m] == g && pre.game_tokens(#[trigger] ws[m]).len() == 1
}

/// Every record of `unwatch_msgs` is an `unwatch`, and `unwatch/g`
/// appears exactly for the processed games whose last watcher left.
proof fn lemma_unwatch_msgs_shape(pre: Registry, ws: Seq<Seq<u8>>, upto: int)
    requires
        0 <= upto <= ws.len(),
    ensures
        forall|i: int|
            0 <= i < unwatch_msgs(pre, ws, upto).len() ==> (#[trigger] unwatch_msgs(
                pre,
                ws,
                upto,
            )[i]) is Unwatch,
        forall|g: Seq<u8>| #[trigger]
            unwatch_mentions(pre, ws, upto, g) <==> last_watcher_among(pre, ws, upto, g),
    decreases upto,
{
    if upto > 0 {
        lemma_unwatch_msgs_shape(pre, ws, upto - 1);
        let prevs = unwatch_msgs(pre, ws, upto - 1);
        let cur = unwatch_msgs(pre, ws, upto);
        assert forall|g: Seq<u8>| #[trigger]
            unwatch_mentions(pre, ws, upto, g) implies last_watcher_among(pre, ws, upto, g) by {
            let i = choose|i: int| 0 <= i < cur.len() && cur[i] == LilaInView::Unwatch(g);
            if i < prevs.len() {
                assert(prevs[i] == LilaInView::Unwatch(g));
                assert(unwatch_mentions(pre, ws, upto - 1, g));
                let m = choose|m: int|
                    0 <= m < upto - 1 && ws[m] == g && pre.game_tokens(#[trigger] ws[m]).len()
                        == 1;
                assert(last_watcher_among(pre, ws, upto, g));
            } else {
                assert(cur[i] == LilaInView::Unwatch(ws[upto - 1]));
                assert(ws[upto - 1] == g && pre.game_tokens(ws[upto - 1]).len() == 1);
            }
        }
        assert forall|g: Seq<u8>|
            last_watcher_among(pre, ws, upto, g) implies #[trigger] unwatch_mentions(
            pre,
            ws,
            upto,
            g,
        ) by {
            let m = choose|m: int|
                0 <= m < upto && ws[m] == g && pre.game_tokens(#[trigger] ws[m]).len() == 1;
            if m < upto - 1 {
                assert(last_watcher_among(pre, ws, upto - 1, g));
                assert(unwatch_mentions(pre, ws, upto - 1, g));
                let i = choose|i: int|
                    0 <= i < prevs.len() && (#[trigger] prevs[i]) == LilaInView::Unwatch(g);
                assert(cur[i] == LilaInView::Unwatch(g));
            } else {
                assert(cur[cur.len() - 1] == LilaInView::Unwatch(g));
            }
        }
    } else {
        assert forall|g: Seq<u8>| #[trigger]
            unwatch_mentions(pre, ws, upto, g) implies last_watcher_among(pre, ws, upto, g) by {
            let i = choose|i: int|
                0 <= i < unwatch_msgs(pre, ws, upto).len() && unwatch_msgs(pre, ws, upto)[i]
                    == LilaInView::Unwatch(g);
        }
    }
}

/// Law: a user is keyed in `by_user` exactly when `connect` for that user
/// was published more recently than `disconnect`; the authentication
/// transition keeps it so.
pub proof fn lemma_online_tracking_set_user(
    pre: Registry,
    post: Registry,
    sid: u64,
    uid: Option<Seq<u8>>,
    log: Seq<LilaInView>,
)
    requires
        pre.wf(),
        set_user_post(pre, post, sid, uid),
        forall|u: Seq<u8>| #[trigger] pre.user_online(u) == online_in_log(log, u),
    ensures
        forall|u: Seq<u8>| #[trigger]
            post.user_online(u) == online_in_log(log + set_user_msgs(pre, sid, uid), u),
{
    let msgs = set_user_msgs(pre, sid, uid);
    if !pre.has_socket(sid) {
        lemma_table_funcs(pre, post);
        assert forall|u: Seq<u8>| #[trigger]
            post.user_online(u) == online_in_log(log + msgs, u) by {
            lemma_log_user_neutral(log, msgs, u);
        }
    } else {
        let idx = pre.sock_idx(sid);
        let s = pre.by_id@[idx].1;
        assert forall|u: Seq<u8>| #[trigger]
            post.user_online(u) == online_in_log(log + msgs, u) by {
            match uid {
                Some(u0) => {
                    if auth_user_of(s) == Some(u0) {
                        lemma_log_user_neutral(log, msgs, u);
                    } else {
                        let connects: Seq<LilaInView> = if !pre.user_online(u0) {
                            seq![LilaInView::Connect(u0)]
                        } else {
                            seq![]
                        };
                        if u == u0 {
                            if !pre.user_online(u0) {
                                // a fresh `connect/u` with nothing after it
                                // that disconnects `u`
                                let i = log.len() as int;
                                assert((log + msgs)[i] == LilaInView::Connect(u0));
                                assert forall|j: int|
                                    i < j < (log + msgs).len() implies (log + msgs)[j]
                                    != LilaInView::Disconnect(u0) by {
                                    assert((log + msgs)[j] == msgs[j - log.len()]);
                                }
                                assert(online_in_log(log + msgs, u));
                            } else {
                                assert forall|i: int|
                                    0 <= i < msgs.len() implies #[trigger] msgs[i]
                                    != LilaInView::Connect(u) && msgs[i] != LilaInView::Disconnect(
                                    u,
                                ) by {
                                    match s.auth {
                                        SocketAuth::Authenticated(ou) => {
                                            assert(ou@ != u0);
                                        },
                                        _ => {},
                                    }
                                }
                                lemma_log_user_neutral(log, msgs, u);
                            }
                        } else {
                            match s.auth {
                                SocketAuth::Authenticated(ou) => {
                                    if u == ou@ && pre.user_tokens(ou@).len() == 1 {
                                        // `disconnect/u` is the last word on `u`
                                        let p = connects.len() as int;
                                        assert(msgs[p] == LilaInView::Disconnect(ou@));
                                        assert(!online_in_log(log + msgs, u)) by {
                                            if online_in_log(log + msgs, u) {
                                                let i = choose|i: int|
                                                    0 <= i < (log + msgs).len() && (log + msgs)[i]
                                                        == LilaInView::Connect(u) && (forall|
                                                        j: int,
                                                    |
                                                        i < j < (log + msgs).len() ==> (log
                                                            + msgs)[j] != LilaInView::Disconnect(
                                                            u,
                                                        ));
                                                if i < log.len() {
                                                    assert((log + msgs)[log.len() + p]
                                                        == LilaInView::Disconnect(u));
                                                } else {
                                                    assert(msgs[i - log.len()]
                                                        == LilaInView::Connect(u));
                                                    assert(u != u0);
                                                    assert(false);
                                                }
                                            }
                                        }
                                        assert(!post.user_online(u));
                                    } else {
                                        assert forall|i: int|
                                            0 <= i < msgs.len() implies #[trigger] msgs[i]
                                            != LilaInView::Connect(u) && msgs[i]
                                            != LilaInView::Disconnect(u) by {}
                                        lemma_log_user_neutral(log, msgs, u);
                                        if u == ou@ {
                                            assert(pre.user_tokens(ou@).len() > 1);
                                            assert(pre.user_online(ou@));
                                        }
                                    }
                                },
                                _ => {
                                    assert forall|i: int|
                                        0 <= i < msgs.len() implies #[trigger] msgs[i]
                                        != LilaInView::Connect(u) && msgs[i]
                                        != LilaInView::Disconnect(u) by {}
                                    lemma_log_user_neutral(log, msgs, u);
                                },
                            }
                        }
                    }
                },
                None => {
                    match s.auth {
                        SocketAuth::Authenticated(ou) => {
                            if u == ou@ && pre.user_tokens(ou@).len() == 1 {
                                assert(msgs[0] == LilaInView::Disconnect(ou@));
                                assert(!online_in_log(log + msgs, u)) by {
                                    if online_in_log(log + msgs, u) {
                                        let i = choose|i: int|
                                            0 <= i < (log + msgs).len() && (log + msgs)[i]
                                                == LilaInView::Connect(u) && (forall|j: int|
                                                i < j < (log + msgs).len() ==> (log + msgs)[j]
                                                    != LilaInView::Disconnect(u));
                                        if i < log.len() {
                                            assert((log + msgs)[log.len() as int]
                                                == LilaInView::Disconnect(u));
                                        } else {
                                            assert(msgs[i - log.len()] == LilaInView::Connect(u));
                                            assert(false);
                                        }
                                    }
                                }
                                assert(!post.user_online(u));
                            } else {
                                assert forall|i: int|
                                    0 <= i < msgs.len() implies #[trigger] msgs[i]
                                    != LilaInView::Connect(u) && msgs[i] != LilaInView::Disconnect(
                                    u,
                                ) by {}
                                lemma_log_user_neutral(log, msgs, u);
                                if u == ou@ {
                                    assert(pre.user_tokens(ou@).len() > 1);
                                    assert(pre.user_online(ou@));
                                }
                            }
                        },
                        _ => {
                            lemma_log_user_neutral(log, msgs, u);
                        },
                    }
                },
            }
        }
    }
}

/// Law: the same tracking across the close path, whose records are one
/// possible `disconnect` followed only by `unwatch`es.
pub proof fn lemma_online_tracking_close(
    pre: Registry,
    post: Registry,
    sid: u64,
    log: Seq<LilaInView>,
)
    requires
        pre.wf(),
        pre.has_socket(sid),
        close_post(pre, post, sid),
        forall|u: Seq<u8>| #[trigger] pre.user_online(u) == online_in_log(log, u),
    ensures
        forall|u: Seq<u8>| #[trigger]
            post.user_online(u) == online_in_log(log + close_msgs(pre, sid), u),
{
    let idx = pre.sock_idx(sid);
    let s = pre.by_id@[idx].1;
    let msgs = close_msgs(pre, sid);
    let ws = watching_views(s);
    lemma_unwatch_msgs_shape(pre, ws, ws.len() as int);
    let unw = unwatch_msgs(pre, ws, ws.len() as int);
    assert forall|u: Seq<u8>| #[trigger]
        post.user_online(u) == online_in_log(log + msgs, u) by {
        match s.auth {
            SocketAuth::Authenticated(ou) => {
                if u == ou@ && pre.user_tokens(ou@).len() == 1 {
                    assert(msgs[0] == LilaInView::Disconnect(ou@));
                    assert(!online_in_log(log + msgs, u)) by {
                        if online_in_log(log + msgs, u) {
                            let i = choose|i: int|
                                0 <= i < (log + msgs).len() && (log + msgs)[i]
                                    == LilaInView::Connect(u) && (forall|j: int|
                                    i < j < (log + msgs).len() ==> (log + msgs)[j]
                                        != LilaInView::Disconnect(u));
                            if i < log.len() {
                                assert((log + msgs)[log.len() as int]
                                    == LilaInView::Disconnect(u));
                            } else {
                                assert(msgs[i - log.len()] == LilaInView::Connect(u));
                                if i - log.len() > 0 {
                                    assert(unw[i - log.len() - 1] is Unwatch);
                                }
                                assert(false);
                            }
                        }
                    }
                    assert(!post.user_online(u));
                } else {
                    assert forall|i: int|
                        0 <= i < msgs.len() implies #[trigger] msgs[i] != LilaInView::Connect(u)
                        && msgs[i] != LilaInView::Disconnect(u) by {
                        if pre.user_tokens(ou@).len() == 1 {
                            if i > 0 {
                                assert(msgs[i] == unw[i - 1]);
                                assert(unw[i - 1] is Unwatch);
                            }
                        } else {
                            assert(msgs[i] == unw[i]);
                            assert(unw[i] is Unwatch);
                        }
                    }
                    lemma_log_user_neutral(log, msgs, u);
                    if u == ou@ {
                        assert(pre.user_tokens(ou@).len() > 1);
                        assert(pre.user_online(ou@));
                    }
                }
            },
            _ => {
                assert forall|i: int|
                    0 <= i < msgs.len() implies #[trigger] msgs[i] != LilaInView::Connect(u)
                    && msgs[i] != LilaInView::Disconnect(u) by {
                    assert(msgs[i] == unw[i]);
                    assert(unw[i] is Unwatch);
                }
                lemma_log_user_neutral(log, msgs, u);
            },
        }
    }
}

/// Law: a game is keyed in `by_game` exactly when `watch` for it was
/// published more recently than `unwatch`; kept so by a subscription,
/// whose caller publishes `watch/g` exactly when `first` is returned.
pub proof fn lemma_watched_tracking_watch(
    pre: Registry,
    post: Registry,
    sid: u64,
    g: Seq<u8>,
    log: Seq<LilaInView>,
    added: bool,
    first: bool,
)
    requires
        pre.wf(),
        pre.has_socket(sid),
        watch_post(pre, post, sid, g),
        added == !watching_views(pre.sock_at(sid)).contains(g),
        first == (added && !pre.game_watched(g)),
        forall|g2: Seq<u8>| #[trigger] pre.game_watched(g2) == watched_in_log(log, g2),
    ensures
        forall|g2: Seq<u8>| #[trigger]
            post.game_watched(g2) == watched_in_log(
                log + (if first {
                    seq![LilaInView::Watch(g)]
                } else {
                    seq![]
                }),
                g2,
            ),
{
    let msgs: Seq<LilaInView> = if first {
        seq![LilaInView::Watch(g)]
    } else {
        seq![]
    };
    assert forall|g2: Seq<u8>| #[trigger]
        post.game_watched(g2) == watched_in_log(log + msgs, g2) by {
        if !added {
            lemma_game_table_funcs(pre, post);
            lemma_log_game_neutral(log, msgs, g2);
        } else {
            if g2 == g {
                if first {
                    let i = log.len() as int;
                    assert((log + msgs)[i] == LilaInView::Watch(g));
                    assert forall|j: int|
                        i < j < (log + msgs).len() implies (log + msgs)[j]
                        != LilaInView::Unwatch(g) by {}
                    assert(watched_in_log(log + msgs, g2));
                    assert(post.game_watched(g));
                } else {
                    lemma_log_game_neutral(log, msgs, g2);
                    assert(pre.game_watched(g));
                    assert(post.game_watched(g));
                }
            } else {
                lemma_log_game_neutral(log, msgs, g2);
            }
        }
    }
}

/// Law: the same tracking across the close path.
pub proof fn lemma_watched_tracking_close(
    pre: Registry,
    post: Registry,
    sid: u64,
    log: Seq<LilaInView>,
)
    requires
        pre.wf(),
        pre.has_socket(sid),
        close_post(pre, post, sid),
        forall|g2: Seq<u8>| #[trigger] pre.game_watched(g2) == watched_in_log(log, g2),
    ensures
        forall|g2: Seq<u8>| #[trigger]
            post.game_watched(g2) == watched_in_log(log + close_msgs(pre, sid), g2),
{
    let idx = pre.sock_idx(sid);
    let s = pre.by_id@[idx].1;
    let msgs = close_msgs(pre, sid);
    let ws = watching_views(s);
    lemma_unwatch_msgs_shape(pre, ws, ws.len() as int);
    let unw = unwatch_msgs(pre, ws, ws.len() as int);
    let dlen: int = match s.auth {
        SocketAuth::Authenticated(ou) => if pre.user_tokens(ou@).len() == 1 {
            1
        } else {
            0
        },
        _ => 0,
    };
    assert(msgs.len() == dlen + unw.len());
    assert(forall|i: int| 0 <= i < unw.len() ==> msgs[dlen + i] == unw[i]);
    assert forall|g2: Seq<u8>| #[trigger]
        post.game_watched(g2) == watched_in_log(log + msgs, g2) by {
        let has_unwatch_g2 = unwatch_mentions(pre, ws, ws.len() as int, g2);
        if has_unwatch_g2 {
            // the socket was this game's last watcher: `unwatch/g2` closes it
            assert(last_watcher_among(pre, ws, ws.len() as int, g2));
            let m0 = choose|m: int|
                0 <= m < ws.len() && ws[m] == g2 && pre.game_tokens(#[trigger] ws[m]).len() == 1;
            assert(game_removed(pre, post, ws[m0], t_of(s)));
            assert(!post.game_watched(g2));
            let i0 = choose|i: int|
                0 <= i < unw.len() && (#[trigger] unw[i]) == LilaInView::Unwatch(g2);
            assert(!watched_in_log(log + msgs, g2)) by {
                if watched_in_log(log + msgs, g2) {
                    let i = choose|i: int|
                        0 <= i < (log + msgs).len() && (log + msgs)[i] == LilaInView::Watch(g2) && (
                        forall|j: int|
                            i < j < (log + msgs).len() ==> (log + msgs)[j] != LilaInView::Unwatch(
                                g2,
                            ));
                    if i < log.len() {
                        assert((log + msgs)[log.len() + dlen + i0] == LilaInView::Unwatch(g2));
                    } else {
                        let p = i - log.len();
                        assert(msgs[p] == LilaInView::Watch(g2));
                        if p >= dlen {
                            assert(unw[p - dlen] is Unwatch);
                        }
                        assert(false);
                    }
                }
            }
        } else {
            assert forall|i: int|
                0 <= i < msgs.len() implies #[trigger] msgs[i] != LilaInView::Watch(g2) && msgs[i]
                != LilaInView::Unwatch(g2) by {
                if i >= dlen {
                    assert(msgs[i] == unw[i - dlen]);
                    assert(unw[i - dlen] is Unwatch);
                    if msgs[i] == LilaInView::Unwatch(g2) {
                        assert(false);
                    }
                }
            }
            lemma_log_game_neutral(log, msgs, g2);
            if ws.contains(g2) {
                let m0 = choose|m: int| 0 <= m < ws.len() && ws[m] == g2;
                assert(pre.game_tokens(ws[m0]).len() != 1) by {
                    if pre.game_tokens(ws[m0]).len() == 1 {
                        assert(last_watcher_among(pre, ws, ws.len() as int, g2));
                        assert(unwatch_mentions(pre, ws, ws.len() as int, g2));
                    }
                }
                assert(pre.game_tokens(g2).len() > 1) by {
                    assert(pre.sock_watch_registered(idx, choose|m: int|
                        0 <= m < s.watching@.len() && s.watching@[m]@ == g2));
                    assert(pre.game_tokens(g2).contains(s.sender));
                }
                assert(game_removed(pre, post, ws[m0], t_of(s)));
                assert(post.game_watched(g2) == (pre.game_tokens(g2).len() > 1));
                assert(pre.game_watched(g2));
            } else {
                assert(post.game_watched(g2) == pre.game_watched(g2));
            }
        }
    }
}

/// Law: any step that leaves the user table alone and publishes no
/// `connect` or `disconnect` keeps the user tracking intact.
pub proof fn lemma_online_tracking_other_records(
    pre: Registry,
    post: Registry,
    log: Seq<LilaInView>,
    more: Seq<LilaInView>,
)
    requires
        post.by_user == pre.by_user,
        forall|i: int|
            0 <= i < more.len() ==> !((#[trigger] more[i]) is Connect) && !(more[i] is Disconnect),
        forall|u: Seq<u8>| #[trigger] pre.user_online(u) == online_in_log(log, u),
    ensures
        forall|u: Seq<u8>| #[trigger] post.user_online(u) == online_in_log(log + more, u),
{
    lemma_table_funcs(pre, post);
    assert forall|u: Seq<u8>| #[trigger] post.user_online(u) == online_in_log(log + more, u) by {
        lemma_log_user_neutral(log, more, u);
    }
}

/// Law: any step that leaves the game table alone and publishes no
/// `watch` or `unwatch` keeps the game tracking intact.
pub proof fn lemma_watched_tracking_other_records(
    pre: Registry,
    post: Registry,
    log: Seq<LilaInView>,
    more: Seq<LilaInView>,
)
    requires
        post.by_game == pre.by_game,
        forall|i: int|
            0 <= i < more.len() ==> !((#[trigger] more[i]) is Watch) && !(more[i] is Unwatch),
        forall|g: Seq<u8>| #[trigger] pre.game_watched(g) == watched_in_log(log, g),
    ensures
        forall|g: Seq<u8>| #[trigger] post.game_watched(g) == watched_in_log(log + more, g),
{
    lemma_game_table_funcs(pre, post);
    assert forall|g: Seq<u8>| #[trigger] post.game_watched(g) == watched_in_log(log + more, g) by {
        lemma_log_game_neutral(log, more, g);
    }
}

/// The sender token of a socket, for use in proofs.
pub open spec fn t_of(s: UserSocket) -> u64 {
    s.sender
}

/// How many times a record occurs among published messages.
pub open spec fn count_msg(ms: Seq<LilaInView>, m: LilaInView) -> nat
    decreases ms.len(),
{
    if ms.len() == 0 {
        0
    } else {
        count_msg(ms.drop_last(), m) + (if ms.last() == m {
            1nat
        } else {
            0nat
        })
    }
}

proof fn lemma_count_msg_distributes(a: Seq<LilaInView>, b: Seq<LilaInView>, m: LilaInView)
    ensures
        count_msg(a + b, m) == count_msg(a, m) + count_msg(b, m),
    decreases b.len(),
{
    if b.len() == 0 {
        assert(a + b =~= a);
    } else {
        lemma_count_msg_distributes(a, b.drop_last(), m);
        assert((a + b).drop_last() =~= a + b.drop_last());
        assert((a + b).last() == b.last());
    }
}

/// Law: a `notified` received while authentication is pending reaches the
/// backend exactly once when the lookup resolves to a user, and not at
/// all when the socket turns out anonymous.
pub proof fn lemma_deferred_notified(pre: Registry, sid: u64, uid: Option<Seq<u8>>)
    requires
        pre.wf(),
        pre.has_socket(sid),
        pre.sock_at(sid).auth is Requested,
        pre.sock_at(sid).pending_notified,
    ensures
        match uid {
            Some(u) => count_msg(set_user_msgs(pre, sid, uid), LilaInView::Notified(u)) == 1,
            None => forall|u: Seq<u8>|
                count_msg(set_user_msgs(pre, sid, None), LilaInView::Notified(u)) == 0,
        },
{
    let s = pre.sock_at(sid);
    match uid {
        Some(u) => {
            let msgs = set_user_msgs(pre, sid, uid);
            let nm = LilaInView::Notified(u);
            let connects: Seq<LilaInView> = if !pre.user_online(u) {
                seq![LilaInView::Connect(u)]
            } else {
                seq![]
            };
            let notifies: Seq<LilaInView> = seq![nm];
            let friends: Seq<LilaInView> = if s.pending_following_onlines {
                seq![LilaInView::Friends(u)]
            } else {
                seq![]
            };
            assert(msgs == connects + notifies + friends);
            lemma_count_msg_distributes(connects + notifies, friends, nm);
            lemma_count_msg_distributes(connects, notifies, nm);
            assert(count_msg(Seq::<LilaInView>::empty(), nm) == 0);
            assert(count_msg(notifies, nm) == 1) by {
                assert(notifies.drop_last() =~= Seq::<LilaInView>::empty());
            }
            assert(count_msg(connects, nm) == 0) by {
                if !pre.user_online(u) {
                    assert(connects.drop_last() =~= Seq::<LilaInView>::empty());
                }
            }
            assert(count_msg(friends, nm) == 0) by {
                if s.pending_following_onlines {
                    assert(friends.drop_last() =~= Seq::<LilaInView>::empty());
                }
            }
        },
        None => {
            let msgs = set_user_msgs(pre, sid, None);
            assert(msgs =~= Seq::<LilaInView>::empty());
        },
    }
}

} // verus!
