//! The pub/sub wire codec: records the gateway exchanges with the site
//! backend over the `site-in` and `site-out` channels.
//!
//! Gateway-to-backend records ([`LilaIn`]) and backend-to-gateway records
//! ([`LilaOut`]) are plain byte strings with `/`-separated fields; `tell-*`
//! payloads are carried verbatim and never re-encoded.

use vstd::prelude::*;

use crate::ids::{Flag, GameId, InvalidGameId, InvalidUserId, UserId};
use crate::ids::{valid_game_id, valid_user_id, is_id_byte};
use crate::text::{all_digits, dec_digits, dec_value, bytes_eq, find_byte, rfind_byte, subvec, push_all, parse_u32, push_u32_decimal};

verus! {

/// The field separator `/`.
pub open spec fn slash() -> Seq<u8> {
    seq![47u8]
}

/// The single space that separates `mlat` from its number.
pub open spec fn space() -> Seq<u8> {
    seq![32u8]
}

/// The record word `connect`.
pub open spec fn word_connect() -> Seq<u8> {
    seq![99u8, 111, 110, 110, 101, 99, 116]
}

pub fn word_connect_vec() -> (v: Vec<u8>)
    ensures
        v@ == word_connect(),
{
    let mut v: Vec<u8> = Vec::new();
    v.push(99);
    v.push(111);
    v.push(110);
    v.push(110);
    v.push(101);
    v.push(99);
    v.push(116);
    proof {
        assert(v@ =~= word_connect());
    }
    v
}

/// The record word `disconnect`.
pub open spec fn word_disconnect() -> Seq<u8> {
    seq![100u8, 105, 115, 99, 111, 110, 110, 101, 99, 116]
}

pub fn word_disconnect_vec() -> (v: Vec<u8>)
    ensures
        v@ == word_disconnect(),
{
    let mut v: Vec<u8> = Vec::new();
    v.push(100);
    v.push(105);
    v.push(115);
    v.push(99);
    v.push(111);
    v.push(110);
    v.push(110);
    v.push(101);
    v.push(99);
    v.push(116);
    proof {
        assert(v@ =~= word_disconnect());
    }
    v
}

/// The record word `all`.
pub open spec fn word_all() -> Seq<u8> {
    seq![97u8, 108, 108]
}

pub fn word_all_vec() -> (v: Vec<u8>)
    ensures
        v@ == word_all(),
{
    let mut v: Vec<u8> = Vec::new();
    v.push(97);
    v.push(108);
    v.push(108);
    proof {
        assert(v@ =~= word_all());
    }
    v
}

/// The record word `watch`.
pub open spec fn word_watch() -> Seq<u8> {
    seq![119u8, 97, 116, 99, 104]
}

pub fn word_watch_vec() -> (v: Vec<u8>)
    ensures
        v@ == word_watch(),
{
    let mut v: Vec<u8> = Vec::new();
    v.push(119);
    v.push(97);
    v.push(116);
    v.push(99);
    v.push(104);
    proof {
        assert(v@ =~= word_watch());
    }
    v
}

/// The record word `unwatch`.
pub open spec fn word_unwatch() -> Seq<u8> {
    seq![117u8, 110, 119, 97, 116, 99, 104]
}

pub fn word_unwatch_vec() -> (v: Vec<u8>)
    ensures
        v@ == word_unwatch(),
{
    let mut v: Vec<u8> = Vec::new();
    v.push(117);
    v.push(110);
    v.push(119);
    v.push(97);
    v.push(116);
    v.push(99);
    v.push(104);
    proof {
        assert(v@ =~= word_unwatch());
    }
    v
}

/// The record word `notified`.
pub open spec fn word_notified() -> Seq<u8> {
    seq![110u8, 111, 116, 105, 102, 105, 101, 100]
}

pub fn word_notified_vec() -> (v: Vec<u8>)
    ensures
        v@ == word_notified(),
{
    let mut v: Vec<u8> = Vec::new();
    v.push(110);
    v.push(111);
    v.push(116);
    v.push(105);
    v.push(102);
    v.push(105);
    v.push(101);
    v.push(100);
    proof {
        assert(v@ =~= word_notified());
    }
    v
}

/// The record word `friends`.
pub open spec fn word_friends() -> Seq<u8> {
    seq![102u8, 114, 105, 101, 110, 100, 115]
}

pub fn word_friends_vec() -> (v: Vec<u8>)
    ensures
        v@ == word_friends(),
{
    let mut v: Vec<u8> = Vec::new();
    v.push(102);
    v.push(114);
    v.push(105);
    v.push(101);
    v.push(110);
    v.push(100);
    v.push(115);
    proof {
        assert(v@ =~= word_friends());
    }
    v
}

/// The record word `lag`.
pub open spec fn word_lag() -> Seq<u8> {
    seq![108u8, 97, 103]
}

pub fn word_lag_vec() -> (v: Vec<u8>)
    ensures
        v@ == word_lag(),
{
    let mut v: Vec<u8> = Vec::new();
    v.push(108);
    v.push(97);
    v.push(103);
    proof {
        assert(v@ =~= word_lag());
    }
    v
}

/// The record word `connections`.
pub open spec fn word_connections() -> Seq<u8> {
    seq![99u8, 111, 110, 110, 101, 99, 116, 105, 111, 110, 115]
}

pub fn word_connections_vec() -> (v: Vec<u8>)
    ensures
        v@ == word_connections(),
{
    let mut v: Vec<u8> = Vec::new();
    v.push(99);
    v.push(111);
    v.push(110);
    v.push(110);
    v.push(101);
    v.push(99);
    v.push(116);
    v.push(105);
    v.push(111);
    v.push(110);
    v.push(115);
    proof {
        assert(v@ =~= word_connections());
    }
    v
}

/// The record word `move`.
pub open spec fn word_move() -> Seq<u8> {
    seq![109u8, 111, 118, 101]
}

pub fn word_move_vec() -> (v: Vec<u8>)
    ensures
        v@ == word_move(),
{
    let mut v: Vec<u8> = Vec::new();
    v.push(109);
    v.push(111);
    v.push(118);
    v.push(101);
    proof {
        assert(v@ =~= word_move());
    }
    v
}

/// The record word `tell-user`.
pub open spec fn word_tell_user() -> Seq<u8> {
    seq![116u8, 101, 108, 108, 45, 117, 115, 101, 114]
}

pub fn word_tell_user_vec() -> (v: Vec<u8>)
    ensures
        v@ == word_tell_user(),
{
    let mut v: Vec<u8> = Vec::new();
    v.push(116);
    v.push(101);
    v.push(108);
    v.push(108);
    v.push(45);
    v.push(117);
    v.push(115);
    v.push(101);
    v.push(114);
    proof {
        assert(v@ =~= word_tell_user());
    }
    v
}

/// The record word `tell-all`.
pub open spec fn word_tell_all() -> Seq<u8> {
    seq![116u8, 101, 108, 108, 45, 97, 108, 108]
}

pub fn word_tell_all_vec() -> (v: Vec<u8>)
    ensures
        v@ == word_tell_all(),
{
    let mut v: Vec<u8> = Vec::new();
    v.push(116);
    v.push(101);
    v.push(108);
    v.push(108);
    v.push(45);
    v.push(97);
    v.push(108);
    v.push(108);
    proof {
        assert(v@ =~= word_tell_all());
    }
    v
}

/// The record word `tell-flag`.
pub open spec fn word_tell_flag() -> Seq<u8> {
    seq![116u8, 101, 108, 108, 45, 102, 108, 97, 103]
}

pub fn word_tell_flag_vec() -> (v: Vec<u8>)
    ensures
        v@ == word_tell_flag(),
{
    let mut v: Vec<u8> = Vec::new();
    v.push(116);
    v.push(101);
    v.push(108);
    v.push(108);
    v.push(45);
    v.push(102);
    v.push(108);
    v.push(97);
    v.push(103);
    proof {
        assert(v@ =~= word_tell_flag());
    }
    v
}

/// The record word `mlat`.
pub open spec fn word_mlat() -> Seq<u8> {
    seq![109u8, 108, 97, 116]
}

pub fn word_mlat_vec() -> (v: Vec<u8>)
    ensures
        v@ == word_mlat(),
{
    let mut v: Vec<u8> = Vec::new();
    v.push(109);
    v.push(108);
    v.push(97);
    v.push(116);
    proof {
        assert(v@ =~= word_mlat());
    }
    v
}

/// The record word `simul`.
pub open spec fn word_simul() -> Seq<u8> {
    seq![115u8, 105, 109, 117, 108]
}

pub fn word_simul_vec() -> (v: Vec<u8>)
    ensures
        v@ == word_simul(),
{
    let mut v: Vec<u8> = Vec::new();
    v.push(115);
    v.push(105);
    v.push(109);
    v.push(117);
    v.push(108);
    proof {
        assert(v@ =~= word_simul());
    }
    v
}

/// The record word `tournament`.
pub open spec fn word_tournament() -> Seq<u8> {
    seq![116u8, 111, 117, 114, 110, 97, 109, 101, 110, 116]
}

pub fn word_tournament_vec() -> (v: Vec<u8>)
    ensures
        v@ == word_tournament(),
{
    let mut v: Vec<u8> = Vec::new();
    v.push(116);
    v.push(111);
    v.push(117);
    v.push(114);
    v.push(110);
    v.push(97);
    v.push(109);
    v.push(101);
    v.push(110);
    v.push(116);
    proof {
        assert(v@ =~= word_tournament());
    }
    v
}
/// The first position of `b` in `s` at or after `from`, as a spec-level
/// recursion.
pub open spec fn find_from(s: Seq<u8>, from: int, b: u8) -> Option<int>
    decreases s.len() - from,
{
    if from < 0 || from >= s.len() {
        None
    } else if s[from] == b {
        Some(from)
    } else {
        find_from(s, from + 1, b)
    }
}

pub proof fn lemma_find_from(s: Seq<u8>, from: int, b: u8)
    requires
        0 <= from <= s.len(),
    ensures
        match find_from(s, from, b) {
            Some(i) => from <= i < s.len() && s[i] == b && (forall|j: int|
                from <= j < i ==> s[j] != b),
            None => forall|j: int| from <= j < s.len() ==> s[j] != b,
        },
    decreases s.len() - from,
{
    if from < s.len() && s[from] != b {
        lemma_find_from(s, from + 1, b);
    }
}

/// Pins `find_from` to the known first occurrence `k`.
pub proof fn lemma_find_pins(s: Seq<u8>, from: int, k: int, b: u8)
    requires
        0 <= from <= k < s.len(),
        s[k] == b,
        forall|j: int| from <= j < k ==> s[j] != b,
    ensures
        find_from(s, from, b) == Some(k),
{
    lemma_find_from(s, from, b);
    match find_from(s, from, b) {
        Option::Some(i) => {
            if i < k {
                assert(s[i] != b);
            } else if i > k {
                assert(s[k] != b);
            }
        },
        Option::None => {
            assert(s[k] != b);
        },
    }
}

/// Pins `find_from` to `None` when `b` does not occur.
pub proof fn lemma_find_none(s: Seq<u8>, from: int, b: u8)
    requires
        0 <= from <= s.len(),
        forall|j: int| from <= j < s.len() ==> s[j] != b,
    ensures
        find_from(s, from, b) is None,
{
    lemma_find_from(s, from, b);
    match find_from(s, from, b) {
        Option::Some(i) => {
            assert(s[i] != b);
        },
        Option::None => {},
    }
}

/// The last position of `b` in `s`.
pub open spec fn rfind(s: Seq<u8>, b: u8) -> Option<int>
    decreases s.len(),
{
    if s.len() == 0 {
        None
    } else if s[s.len() - 1] == b {
        Some(s.len() - 1)
    } else {
        rfind(s.drop_last(), b)
    }
}

pub proof fn lemma_rfind(s: Seq<u8>, b: u8)
    ensures
        match rfind(s, b) {
            Some(i) => 0 <= i < s.len() && s[i] == b && (forall|j: int|
                i < j < s.len() ==> s[j] != b),
            None => forall|j: int| 0 <= j < s.len() ==> s[j] != b,
        },
    decreases s.len(),
{
    if s.len() > 0 && s[s.len() - 1] != b {
        lemma_rfind(s.drop_last(), b);
        assert(forall|j: int| 0 <= j < s.len() - 1 ==> s[j] == s.drop_last()[j]);
    }
}

/// Pins `rfind` to the known last occurrence `k`.
pub proof fn lemma_rfind_pins(s: Seq<u8>, k: int, b: u8)
    requires
        0 <= k < s.len(),
        s[k] == b,
        forall|j: int| k < j < s.len() ==> s[j] != b,
    ensures
        rfind(s, b) == Some(k),
{
    lemma_rfind(s, b);
    match rfind(s, b) {
        Option::Some(i) => {
            if i < k {
                assert(s[k] != b);
            } else if i > k {
                assert(s[i] != b);
            }
        },
        Option::None => {
            assert(s[k] != b);
        },
    }
}

/// Identifier bytes are never record separators.
pub proof fn lemma_id_bytes_not_sep(u: Seq<u8>)
    requires
        forall|i: int| 0 <= i < u.len() ==> is_id_byte(#[trigger] u[i]),
    ensures
        forall|i: int| 0 <= i < u.len() ==> u[i] != 47 && u[i] != 44 && u[i] != 32,
{
}

/// Records the gateway publishes to the backend on `site-in`.
pub enum LilaIn {
    /// The first socket of this user came online.
    Connect(UserId),
    /// The last socket of this user went offline.
    Disconnect(UserId),
    /// Emitted once at startup so the backend clears stale state.
    DisconnectAll,
    /// The first watcher subscribed to this game.
    Watch(GameId),
    /// The last watcher left this game.
    Unwatch(GameId),
    /// The user viewed their notifications.
    Notified(UserId),
    /// The user requested their friend-online list.
    Friends(UserId),
    /// Client-reported one-way latency, in milliseconds.
    Lag(UserId, u32),
    /// Current connection count, the response to each `mlat` tick.
    Connections(u32),
}

/// The mathematical shape of a `site-in` record.
pub enum LilaInView {
    Connect(Seq<u8>),
    Disconnect(Seq<u8>),
    DisconnectAll,
    Watch(Seq<u8>),
    Unwatch(Seq<u8>),
    Notified(Seq<u8>),
    Friends(Seq<u8>),
    Lag(Seq<u8>, u32),
    Connections(u32),
}

impl View for LilaIn {
    type V = LilaInView;

    open spec fn view(&self) -> LilaInView {
        match self {
            LilaIn::Connect(u) => LilaInView::Connect(u@),
            LilaIn::Disconnect(u) => LilaInView::Disconnect(u@),
            LilaIn::DisconnectAll => LilaInView::DisconnectAll,
            LilaIn::Watch(g) => LilaInView::Watch(g@),
            LilaIn::Unwatch(g) => LilaInView::Unwatch(g@),
            LilaIn::Notified(u) => LilaInView::Notified(u@),
            LilaIn::Friends(u) => LilaInView::Friends(u@),
            LilaIn::Lag(u, n) => LilaInView::Lag(u@, *n),
            LilaIn::Connections(n) => LilaInView::Connections(*n),
        }
    }
}

/// Well-formedness of a `site-in` record: its identifiers are valid.
pub open spec fn wf_in(m: LilaInView) -> bool {
    match m {
        LilaInView::Connect(u) => valid_user_id(u),
        LilaInView::Disconnect(u) => valid_user_id(u),
        LilaInView::DisconnectAll => true,
        LilaInView::Watch(g) => valid_game_id(g),
        LilaInView::Unwatch(g) => valid_game_id(g),
        LilaInView::Notified(u) => valid_user_id(u),
        LilaInView::Friends(u) => valid_user_id(u),
        LilaInView::Lag(u, _) => valid_user_id(u),
        LilaInView::Connections(_) => true,
    }
}

/// The byte encoding of a `site-in` record.
pub open spec fn encode_in_spec(m: LilaInView) -> Seq<u8> {
    match m {
        LilaInView::Connect(u) => word_connect() + slash() + u,
        LilaInView::Disconnect(u) => word_disconnect() + slash() + u,
        LilaInView::DisconnectAll => word_disconnect() + slash() + word_all(),
        LilaInView::Watch(g) => word_watch() + slash() + g,
        LilaInView::Unwatch(g) => word_unwatch() + slash() + g,
        LilaInView::Notified(u) => word_notified() + slash() + u,
        LilaInView::Friends(u) => word_friends() + slash() + u,
        LilaInView::Lag(u, n) => word_lag() + slash() + u + slash() + dec_digits(n as nat),
        LilaInView::Connections(n) => word_connections() + slash() + dec_digits(n as nat),
    }
}

/// The decoding of a `site-in` record: the command word up to the first
/// `/`, then the arguments. `disconnect/all` is the reserved bulk record.
pub open spec fn parse_in_spec(s: Seq<u8>) -> Option<LilaInView> {
    match find_from(s, 0, 47) {
        None => None,
        Some(i) => {
            let cmd = s.subrange(0, i);
            let rest = s.subrange(i + 1, s.len() as int);
            if cmd == word_connect() {
                if valid_user_id(rest) {
                    Some(LilaInView::Connect(rest))
                } else {
                    None
                }
            } else if cmd == word_disconnect() {
                if rest == word_all() {
                    Some(LilaInView::DisconnectAll)
                } else if valid_user_id(rest) {
                    Some(LilaInView::Disconnect(rest))
                } else {
                    None
                }
            } else if cmd == word_watch() {
                if valid_game_id(rest) {
                    Some(LilaInView::Watch(rest))
                } else {
                    None
                }
            } else if cmd == word_unwatch() {
                if valid_game_id(rest) {
                    Some(LilaInView::Unwatch(rest))
                } else {
                    None
                }
            } else if cmd == word_notified() {
                if valid_user_id(rest) {
                    Some(LilaInView::Notified(rest))
                } else {
                    None
                }
            } else if cmd == word_friends() {
                if valid_user_id(rest) {
                    Some(LilaInView::Friends(rest))
                } else {
                    None
                }
            } else if cmd == word_lag() {
                match find_from(rest, 0, 47) {
                    None => None,
                    Some(j) => {
                        let u = rest.subrange(0, j);
                        let num = rest.subrange(j + 1, rest.len() as int);
                        if valid_user_id(u) && all_digits(num) && dec_value(num) <= u32::MAX {
                            Some(LilaInView::Lag(u, dec_value(num) as u32))
                        } else {
                            None
                        }
                    },
                }
            } else if cmd == word_connections() {
                if all_digits(rest) && dec_value(rest) <= u32::MAX {
                    Some(LilaInView::Connections(dec_value(rest) as u32))
                } else {
                    None
                }
            } else {
                None
            }
        },
    }
}

impl LilaIn {
    pub open spec fn wf(&self) -> bool {
        wf_in(self@)
    }

    /// Encodes the record for the `site-in` channel.
    pub fn encode(&self) -> (r: Vec<u8>)
        ensures
            r@ == encode_in_spec(self@),
    {
        match self {
            LilaIn::Connect(u) => {
                let mut out = word_connect_vec();
                out.push(47);
                push_all(&mut out, u.as_bytes());
                proof {
                    assert(out@ =~= encode_in_spec(self@));
                }
                out
            },
            LilaIn::Disconnect(u) => {
                let mut out = word_disconnect_vec();
                out.push(47);
                push_all(&mut out, u.as_bytes());
                proof {
                    assert(out@ =~= encode_in_spec(self@));
                }
                out
            },
            LilaIn::DisconnectAll => {
                let mut out = word_disconnect_vec();
                out.push(47);
                let all = word_all_vec();
                push_all(&mut out, &all);
                proof {
                    assert(out@ =~= encode_in_spec(self@));
                }
                out
            },
            LilaIn::Watch(g) => {
                let mut out = word_watch_vec();
                out.push(47);
                push_all(&mut out, g.as_bytes());
                proof {
                    assert(out@ =~= encode_in_spec(self@));
                }
                out
            },
            LilaIn::Unwatch(g) => {
                let mut out = word_unwatch_vec();
                out.push(47);
                push_all(&mut out, g.as_bytes());
                proof {
                    assert(out@ =~= encode_in_spec(self@));
                }
                out
            },
            LilaIn::Notified(u) => {
                let mut out = word_notified_vec();
                out.push(47);
                push_all(&mut out, u.as_bytes());
                proof {
                    assert(out@ =~= encode_in_spec(self@));
                }
                out
            },
            LilaIn::Friends(u) => {
                let mut out = word_friends_vec();
                out.push(47);
                push_all(&mut out, u.as_bytes());
                proof {
                    assert(out@ =~= encode_in_spec(self@));
                }
                out
            },
            LilaIn::Lag(u, n) => {
                let mut out = word_lag_vec();
                out.push(47);
                push_all(&mut out, u.as_bytes());
                out.push(47);
                push_u32_decimal(&mut out, *n);
                proof {
                    assert(out@ =~= encode_in_spec(self@));
                }
                out
            },
            LilaIn::Connections(n) => {
                let mut out = word_connections_vec();
                out.push(47);
                push_u32_decimal(&mut out, *n);
                proof {
                    assert(out@ =~= encode_in_spec(self@));
                }
                out
            },
        }
    }

    /// Decodes a `site-in` record; `None` exactly on the inputs the
    /// decoding spec rejects.
    pub fn parse(v: &Vec<u8>) -> (r: Option<LilaIn>)
        ensures
            match r {
                Some(m) => m.wf() && parse_in_spec(v@) == Some(m@),
                None => parse_in_spec(v@) is None,
            },
    {
        let i = match find_byte(v, 0, 47) {
            Some(i) => i,
            None => {
                proof {
                    lemma_find_none(v@, 0, 47);
                }
                return None;
            },
        };
        proof {
            lemma_find_pins(v@, 0, i as int, 47);
        }
        let n = v.len();
        let cmd = subvec(v, 0, i);
        let rest = subvec(v, i + 1, n);
        if bytes_eq(&cmd, &word_connect_vec()) {
            match UserId::new(rest) {
                Ok(u) => Some(LilaIn::Connect(u)),
                Err(_) => None,
            }
        } else if bytes_eq(&cmd, &word_disconnect_vec()) {
            if bytes_eq(&rest, &word_all_vec()) {
                Some(LilaIn::DisconnectAll)
            } else {
                match UserId::new(rest) {
                    Ok(u) => Some(LilaIn::Disconnect(u)),
                    Err(_) => None,
                }
            }
        } else if bytes_eq(&cmd, &word_watch_vec()) {
            match GameId::new(rest) {
                Ok(g) => Some(LilaIn::Watch(g)),
                Err(_) => None,
            }
        } else if bytes_eq(&cmd, &word_unwatch_vec()) {
            match GameId::new(rest) {
                Ok(g) => Some(LilaIn::Unwatch(g)),
                Err(_) => None,
            }
        } else if bytes_eq(&cmd, &word_notified_vec()) {
            match UserId::new(rest) {
                Ok(u) => Some(LilaIn::Notified(u)),
                Err(_) => None,
            }
        } else if bytes_eq(&cmd, &word_friends_vec()) {
            match UserId::new(rest) {
                Ok(u) => Some(LilaIn::Friends(u)),
                Err(_) => None,
            }
        } else if bytes_eq(&cmd, &word_lag_vec()) {
            let j = match find_byte(&rest, 0, 47) {
                Some(j) => j,
                None => {
                    proof {
                        lemma_find_none(rest@, 0, 47);
                    }
                    return None;
                },
            };
            proof {
                lemma_find_pins(rest@, 0, j as int, 47);
            }
            let rn = rest.len();
            let upart = subvec(&rest, 0, j);
            let npart = subvec(&rest, j + 1, rn);
            let n = match parse_u32(&npart) {
                Some(n) => n,
                None => {
                    return None;
                },
            };
            match UserId::new(upart) {
                Ok(u) => Some(LilaIn::Lag(u, n)),
                Err(_) => None,
            }
        } else if bytes_eq(&cmd, &word_connections_vec()) {
            match parse_u32(&rest) {
                Some(n) => Some(LilaIn::Connections(n)),
                None => None,
            }
        } else {
            None
        }
    }
}

/// Law: every well-formed `site-in` record decodes back to itself.
///
/// The record `disconnect/all` is reserved for the bulk disconnect, so a
/// `Disconnect` of the literal user id `all` is the one exclusion: its
/// encoding reads back as `DisconnectAll`.
pub proof fn lemma_lila_in_round_trip(m: LilaInView)
    requires
        wf_in(m),
        m is Disconnect ==> m->Disconnect_0 != word_all(),
    ensures
        parse_in_spec(encode_in_spec(m)) == Some(m),
{
    let s = encode_in_spec(m);
    match m {
        LilaInView::Connect(u) => {
            lemma_id_bytes_not_sep(u);
            assert(s[7] == 47);
            lemma_find_pins(s, 0, 7, 47);
            assert(s.subrange(0, 7) =~= word_connect());
            assert(s.subrange(8, s.len() as int) =~= u);
        },
        LilaInView::Disconnect(u) => {
            lemma_id_bytes_not_sep(u);
            assert(s[10] == 47);
            lemma_find_pins(s, 0, 10, 47);
            assert(s.subrange(0, 10) =~= word_disconnect());
            assert(s.subrange(11, s.len() as int) =~= u);
        },
        LilaInView::DisconnectAll => {
            assert(s[10] == 47);
            lemma_find_pins(s, 0, 10, 47);
            assert(s.subrange(0, 10) =~= word_disconnect());
            assert(s.subrange(11, s.len() as int) =~= word_all());
        },
        LilaInView::Watch(g) => {
            assert(s[5] == 47);
            lemma_find_pins(s, 0, 5, 47);
            assert(s.subrange(0, 5) =~= word_watch());
            assert(s.subrange(6, s.len() as int) =~= g);
        },
        LilaInView::Unwatch(g) => {
            assert(s[7] == 47);
            lemma_find_pins(s, 0, 7, 47);
            assert(s.subrange(0, 7) =~= word_unwatch());
            assert(s.subrange(8, s.len() as int) =~= g);
        },
        LilaInView::Notified(u) => {
            lemma_id_bytes_not_sep(u);
            assert(s[8] == 47);
            lemma_find_pins(s, 0, 8, 47);
            assert(s.subrange(0, 8) =~= word_notified());
            assert(s.subrange(9, s.len() as int) =~= u);
        },
        LilaInView::Friends(u) => {
            lemma_id_bytes_not_sep(u);
            assert(s[7] == 47);
            lemma_find_pins(s, 0, 7, 47);
            assert(s.subrange(0, 7) =~= word_friends());
            assert(s.subrange(8, s.len() as int) =~= u);
        },
        LilaInView::Lag(u, n) => {
            lemma_id_bytes_not_sep(u);
            crate::text::lemma_dec_digits_all_digits(n as nat);
            crate::text::lemma_dec_round_trip(n as nat);
            assert(s[3] == 47);
            lemma_find_pins(s, 0, 3, 47);
            assert(s.subrange(0, 3) =~= word_lag());
            let rest = s.subrange(4, s.len() as int);
            assert(rest =~= u + slash() + dec_digits(n as nat));
            assert(rest[u.len() as int] == 47);
            assert(forall|j: int| 0 <= j < u.len() ==> rest[j] != 47);
            assert(forall|j: int|
                0 <= j < dec_digits(n as nat).len() ==> rest[u.len() + 1 + j] == dec_digits(
                    n as nat,
                )[j]);
            lemma_find_pins(rest, 0, u.len() as int, 47);
            assert(rest.subrange(0, u.len() as int) =~= u);
            assert(rest.subrange(u.len() + 1 as int, rest.len() as int) =~= dec_digits(n as nat));
        },
        LilaInView::Connections(n) => {
            crate::text::lemma_dec_digits_all_digits(n as nat);
            crate::text::lemma_dec_round_trip(n as nat);
            assert(s[11] == 47);
            lemma_find_pins(s, 0, 11, 47);
            assert(s.subrange(0, 11) =~= word_connections());
            assert(s.subrange(12, s.len() as int) =~= dec_digits(n as nat));
        },
    }
}

/// Pins `rfind` to `None` when `b` does not occur.
pub proof fn lemma_rfind_none(s: Seq<u8>, b: u8)
    requires
        forall|j: int| 0 <= j < s.len() ==> s[j] != b,
    ensures
        rfind(s, b) is None,
{
    lemma_rfind(s, b);
    match rfind(s, b) {
        Option::Some(i) => {
            assert(s[i] != b);
        },
        Option::None => {},
    }
}

/// The comma-separated segments of `s` from position `from` on.
pub open spec fn split_commas_from(s: Seq<u8>, from: int) -> Seq<Seq<u8>>
    decreases s.len() - from,
    via split_commas_from_dec
{
    match find_from(s, from, 44) {
        None => seq![s.subrange(from, s.len() as int)],
        Some(i) => seq![s.subrange(from, i)] + split_commas_from(s, i + 1),
    }
}

#[via_fn]
proof fn split_commas_from_dec(s: Seq<u8>, from: int) {
    if 0 <= from <= s.len() {
        lemma_find_from(s, from, 44);
    } else {
        assert(find_from(s, from, 44) is None);
    }
}

/// All segments are valid user ids.
pub open spec fn all_valid_users(segs: Seq<Seq<u8>>) -> bool {
    forall|k: int| 0 <= k < segs.len() ==> valid_user_id(#[trigger] segs[k])
}

/// Records the backend publishes to the gateway on `site-out`.
pub enum LilaOut {
    /// An authoritative board update for one game.
    Move { game: GameId, fen: Vec<u8>, last_uci: Vec<u8> },
    /// Deliver a verbatim payload to all sockets of the listed users.
    TellUsers { users: Vec<UserId>, payload: Vec<u8> },
    /// Deliver a verbatim payload to every socket.
    TellAll { payload: Vec<u8> },
    /// Deliver a verbatim payload to the sockets subscribed to a flag.
    TellFlag { flag: Flag, payload: Vec<u8> },
    /// Average move latency in milliseconds; also the ~1 Hz heartbeat.
    MoveLatency(u32),
}

/// The mathematical shape of a `site-out` record.
pub enum LilaOutView {
    Move { game: Seq<u8>, fen: Seq<u8>, last_uci: Seq<u8> },
    TellUsers { users: Seq<Seq<u8>>, payload: Seq<u8> },
    TellAll { payload: Seq<u8> },
    TellFlag { flag: Flag, payload: Seq<u8> },
    MoveLatency(u32),
}

impl View for LilaOut {
    type V = LilaOutView;

    open spec fn view(&self) -> LilaOutView {
        match self {
            LilaOut::Move { game, fen, last_uci } => LilaOutView::Move {
                game: game@,
                fen: fen@,
                last_uci: last_uci@,
            },
            LilaOut::TellUsers { users, payload } => LilaOutView::TellUsers {
                users: users@.map_values(|u: UserId| u@),
                payload: payload@,
            },
            LilaOut::TellAll { payload } => LilaOutView::TellAll { payload: payload@ },
            LilaOut::TellFlag { flag, payload } => LilaOutView::TellFlag {
                flag: *flag,
                payload: payload@,
            },
            LilaOut::MoveLatency(n) => LilaOutView::MoveLatency(*n),
        }
    }
}

/// Well-formedness of a `site-out` record: its identifiers are valid.
pub open spec fn wf_out(m: LilaOutView) -> bool {
    match m {
        LilaOutView::Move { game, .. } => valid_game_id(game),
        LilaOutView::TellUsers { users, .. } => all_valid_users(users),
        LilaOutView::TellAll { .. } => true,
        LilaOutView::TellFlag { .. } => true,
        LilaOutView::MoveLatency(_) => true,
    }
}

/// The decoding of a `site-out` record.
///
/// `mlat` takes its number after a space or, like every other record,
/// after a `/`. In `move/<game>/<fen>/<uci>` the FEN itself contains `/`,
/// so the move is read back from the last separator; `tell-*` payloads
/// are the verbatim remainder.
pub open spec fn parse_out_spec(s: Seq<u8>) -> Option<LilaOutView> {
    if s.len() >= 5 && s.subrange(0, 5) == word_mlat() + space() {
        let num = s.subrange(5, s.len() as int);
        if all_digits(num) && dec_value(num) <= u32::MAX {
            Some(LilaOutView::MoveLatency(dec_value(num) as u32))
        } else {
            None
        }
    } else {
        match find_from(s, 0, 47) {
            None => None,
            Some(i) => {
                let cmd = s.subrange(0, i);
                let rest = s.subrange(i + 1, s.len() as int);
                if cmd == word_mlat() {
                    if all_digits(rest) && dec_value(rest) <= u32::MAX {
                        Some(LilaOutView::MoveLatency(dec_value(rest) as u32))
                    } else {
                        None
                    }
                } else if cmd == word_move() {
                    match find_from(rest, 0, 47) {
                        None => None,
                        Some(j) => {
                            let game = rest.subrange(0, j);
                            let tail = rest.subrange(j + 1, rest.len() as int);
                            match rfind(tail, 47) {
                                None => None,
                                Some(k) => {
                                    let fen = tail.subrange(0, k);
                                    let uci = tail.subrange(k + 1, tail.len() as int);
                                    if valid_game_id(game) {
                                        Some(LilaOutView::Move { game, fen, last_uci: uci })
                                    } else {
                                        None
                                    }
                                },
                            }
                        },
                    }
                } else if cmd == word_tell_user() {
                    match find_from(rest, 0, 47) {
                        None => None,
                        Some(j) => {
                            let users = split_commas_from(rest.subrange(0, j), 0);
                            let payload = rest.subrange(j + 1, rest.len() as int);
                            if all_valid_users(users) {
                                Some(LilaOutView::TellUsers { users, payload })
                            } else {
                                None
                            }
                        },
                    }
                } else if cmd == word_tell_all() {
                    Some(LilaOutView::TellAll { payload: rest })
                } else if cmd == word_tell_flag() {
                    match find_from(rest, 0, 47) {
                        None => None,
                        Some(j) => {
                            let fname = rest.subrange(0, j);
                            let payload = rest.subrange(j + 1, rest.len() as int);
                            if fname == word_simul() {
                                Some(LilaOutView::TellFlag { flag: Flag::Simul, payload })
                            } else if fname == word_tournament() {
                                Some(LilaOutView::TellFlag { flag: Flag::Tournament, payload })
                            } else {
                                None
                            }
                        },
                    }
                } else {
                    None
                }
            },
        }
    }
}

/// Parses the comma-separated user list of a `tell-user` record,
/// starting at `from`.
fn parse_user_list(v: &Vec<u8>, from: usize) -> (r: Option<Vec<UserId>>)
    requires
        from <= v@.len(),
    ensures
        match r {
            Some(us) => us@.map_values(|u: UserId| u@) == split_commas_from(v@, from as int)
                && all_valid_users(split_commas_from(v@, from as int)),
            None => !all_valid_users(split_commas_from(v@, from as int)),
        },
    decreases v@.len() - from,
{
    let n = v.len();
    match find_byte(v, from, 44) {
        None => {
            proof {
                lemma_find_none(v@, from as int, 44);
            }
            let seg = subvec(v, from, n);
            match UserId::new(seg) {
                Ok(u) => {
                    let mut us: Vec<UserId> = Vec::new();
                    us.push(u);
                    proof {
                        assert(us@.map_values(|x: UserId| x@) =~= split_commas_from(
                            v@,
                            from as int,
                        ));
                    }
                    Some(us)
                },
                Err(_) => {
                    proof {
                        assert(split_commas_from(v@, from as int)[0] == v@.subrange(
                            from as int,
                            v@.len() as int,
                        ));
                    }
                    None
                },
            }
        },
        Some(i) => {
            proof {
                lemma_find_pins(v@, from as int, i as int, 44);
            }
            let seg = subvec(v, from, i);
            let ghost head = v@.subrange(from as int, i as int);
            let ghost tail_split = split_commas_from(v@, i + 1);
            proof {
                assert(split_commas_from(v@, from as int) =~= seq![head] + tail_split);
            }
            match UserId::new(seg) {
                Ok(u) => {
                    match parse_user_list(v, i + 1) {
                        Some(rest_us) => {
                            let mut us: Vec<UserId> = Vec::new();
                            us.push(u);
                            let mut rest_us = rest_us;
                            us.append(&mut rest_us);
                            proof {
                                assert(us@.map_values(|x: UserId| x@) =~= split_commas_from(
                                    v@,
                                    from as int,
                                ));
                                assert forall|k: int|
                                    0 <= k < split_commas_from(v@, from as int).len() implies
                                    valid_user_id(
                                    #[trigger] split_commas_from(v@, from as int)[k],
                                ) by {
                                    if k > 0 {
                                        assert(split_commas_from(v@, from as int)[k] == tail_split[
                                            k - 1
                                        ]);
                                    }
                                }
                            }
                            Some(us)
                        },
                        None => {
                            proof {
                                let bad = choose|k: int|
                                    0 <= k < tail_split.len() && !valid_user_id(
                                        #[trigger] tail_split[k],
                                    );
                                assert(split_commas_from(v@, from as int)[bad + 1] == tail_split[
                                    bad
                                ]);
                            }
                            None
                        },
                    }
                },
                Err(_) => {
                    proof {
                        assert(split_commas_from(v@, from as int)[0] == head);
                    }
                    None
                },
            }
        },
    }
}

impl LilaOut {
    pub open spec fn wf(&self) -> bool {
        wf_out(self@)
    }

    /// Decodes a `site-out` record; `None` exactly on the inputs the
    /// decoding spec rejects. Malformed records are logged and skipped
    /// by the ingress loop.
    pub fn parse(v: &Vec<u8>) -> (r: Option<LilaOut>)
        ensures
            match r {
                Some(m) => m.wf() && parse_out_spec(v@) == Some(m@),
                None => parse_out_spec(v@) is None,
            },
    {
        let n = v.len();
        if n >= 5 {
            let head = subvec(v, 0, 5);
            let mut mlat_space = word_mlat_vec();
            mlat_space.push(32);
            proof {
                assert(mlat_space@ =~= word_mlat() + space());
            }
            if bytes_eq(&head, &mlat_space) {
                let num = subvec(v, 5, n);
                return match parse_u32(&num) {
                    Some(x) => Some(LilaOut::MoveLatency(x)),
                    None => None,
                };
            }
        }
        let i = match find_byte(v, 0, 47) {
            Some(i) => i,
            None => {
                proof {
                    lemma_find_none(v@, 0, 47);
                }
                return None;
            },
        };
        proof {
            lemma_find_pins(v@, 0, i as int, 47);
        }
        let cmd = subvec(v, 0, i);
        let rest = subvec(v, i + 1, n);
        let rn = rest.len();
        if bytes_eq(&cmd, &word_mlat_vec()) {
            match parse_u32(&rest) {
                Some(x) => Some(LilaOut::MoveLatency(x)),
                None => None,
            }
        } else if bytes_eq(&cmd, &word_move_vec()) {
            let j = match find_byte(&rest, 0, 47) {
                Some(j) => j,
                None => {
                    proof {
                        lemma_find_none(rest@, 0, 47);
                    }
                    return None;
                },
            };
            proof {
                lemma_find_pins(rest@, 0, j as int, 47);
            }
            let gpart = subvec(&rest, 0, j);
            let tail = subvec(&rest, j + 1, rn);
            let tn = tail.len();
            let k = match rfind_byte(&tail, 47) {
                Some(k) => k,
                None => {
                    proof {
                        lemma_rfind_none(tail@, 47);
                    }
                    return None;
                },
            };
            proof {
                lemma_rfind_pins(tail@, k as int, 47);
            }
            let fen = subvec(&tail, 0, k);
            let uci = subvec(&tail, k + 1, tn);
            match GameId::new(gpart) {
                Ok(game) => Some(LilaOut::Move { game, fen, last_uci: uci }),
                Err(_) => None,
            }
        } else if bytes_eq(&cmd, &word_tell_user_vec()) {
            let j = match find_byte(&rest, 0, 47) {
                Some(j) => j,
                None => {
                    proof {
                        lemma_find_none(rest@, 0, 47);
                    }
                    return None;
                },
            };
            proof {
                lemma_find_pins(rest@, 0, j as int, 47);
            }
            let upart = subvec(&rest, 0, j);
            let payload = subvec(&rest, j + 1, rn);
            match parse_user_list(&upart, 0) {
                Some(users) => Some(LilaOut::TellUsers { users, payload }),
                None => None,
            }
        } else if bytes_eq(&cmd, &word_tell_all_vec()) {
            Some(LilaOut::TellAll { payload: rest })
        } else if bytes_eq(&cmd, &word_tell_flag_vec()) {
            let j = match find_byte(&rest, 0, 47) {
                Some(j) => j,
                None => {
                    proof {
                        lemma_find_none(rest@, 0, 47);
                    }
                    return None;
                },
            };
            proof {
                lemma_find_pins(rest@, 0, j as int, 47);
            }
            let fname = subvec(&rest, 0, j);
            let payload = subvec(&rest, j + 1, rn);
            if bytes_eq(&fname, &word_simul_vec()) {
                Some(LilaOut::TellFlag { flag: Flag::Simul, payload })
            } else if bytes_eq(&fname, &word_tournament_vec()) {
                Some(LilaOut::TellFlag { flag: Flag::Tournament, payload })
            } else {
                None
            }
        } else {
            None
        }
    }
}

} // verus!
