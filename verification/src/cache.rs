//! The watched-game cache: a bounded LRU from game id to the last known
//! position, serving the `startWatching` fast path. The cache is an
//! optimisation only; a missing entry is always correct.

use vstd::prelude::*;

use crate::ids::GameId;

verus! {

#[verifier::external_type_specification]
#[verifier::external_body]
#[verifier::reject_recursive_types(K)]
#[verifier::reject_recursive_types(V)]
#[verifier::reject_recursive_types(S)]
pub struct ExLruCache<K, V, S>(lru::LruCache<K, V, S>);

/// The last known state of a game: its position and last move in UCI.
pub struct WatchedGame {
    pub fen: Vec<u8>,
    pub lm: Vec<u8>,
}

/// The bounded cache of watched games.
pub struct WatchedGames {
    cache: lru::LruCache<GameId, WatchedGame, std::collections::hash_map::RandomState>,
}

/// What the cache holds: game id bytes to (fen, last move) bytes.
pub uninterp spec fn watched_entries(c: WatchedGames) -> Map<Seq<u8>, (Seq<u8>, Seq<u8>)>;

/// After a put, every old entry other than `dropped` is still cached.
pub open spec fn put_keeps_all_but(
    pre: WatchedGames,
    post: WatchedGames,
    id: Seq<u8>,
    dropped: Seq<u8>,
) -> bool {
    forall|k: Seq<u8>|
        k != id && k != dropped && #[trigger] watched_entries(pre).contains_key(k)
            ==> watched_entries(post).contains_key(k)
}

/// The cache maps nothing.
pub open spec fn no_entries(c: WatchedGames) -> bool {
    watched_entries(c) == Map::<Seq<u8>, (Seq<u8>, Seq<u8>)>::empty()
}

/// The cache holds at most five thousand games.
pub open spec fn watched_capacity() -> int {
    5000
}

impl WatchedGames {
    /// Relies on `lru::LruCache::with_hasher`: a fresh cache of the given
    /// capacity holds nothing.
    #[verifier::external_body]
    pub fn new() -> (r: WatchedGames)
        ensures
            no_entries(r),
            watched_entries(r).dom().finite(),
            watched_entries(r).dom().len() <= watched_capacity(),
    {
        WatchedGames {
            cache: lru::LruCache::with_hasher(
                core::num::NonZeroUsize::new(5000).unwrap(),
                std::collections::hash_map::RandomState::new(),
            ),
        }
    }

    /// Relies on `lru::LruCache::put`: the key now maps to the new value;
    /// every other entry survives except, possibly, the one least
    /// recently used entry the bounded cache evicted to make room; the
    /// cache never holds more keys than its capacity.
    #[verifier::external_body]
    pub fn put(&mut self, id: GameId, fen: Vec<u8>, lm: Vec<u8>)
        ensures
            watched_entries(*final(self)).dom().finite(),
            watched_entries(*final(self)).dom().len() <= watched_capacity(),
            watched_entries(*final(self)).contains_key(id@),
            watched_entries(*final(self))[id@] == (fen@, lm@),
            forall|k: Seq<u8>|
                #[trigger] watched_entries(*final(self)).contains_key(k) ==> k == id@
                    || watched_entries(*old(self)).contains_key(k),
            forall|k: Seq<u8>|
                k != id@ && #[trigger] watched_entries(*final(self)).contains_key(k)
                    ==> watched_entries(*final(self))[k] == watched_entries(*old(self))[k],
            exists|dropped: Seq<u8>| #[trigger] put_keeps_all_but(
                *old(self),
                *final(self),
                id@,
                dropped,
            ),
    {
        self.cache.put(id, WatchedGame { fen, lm });
    }

    /// Relies on `lru::LruCache::peek`: returns the entry under the key
    /// without touching recency; the cache is unchanged (`&self`).
    #[verifier::external_body]
    pub fn peek(&self, id: &GameId) -> (r: Option<WatchedGame>)
        ensures
            match r {
                Some(w) => watched_entries(*self).contains_key(id@) && watched_entries(*self)[id@]
                    == (w.fen@, w.lm@),
                None => !watched_entries(*self).contains_key(id@),
            },
    {
        self.cache.peek(id).map(
            |w| WatchedGame { fen: w.fen.clone(), lm: w.lm.clone() },
        )
    }
}

} // verus!
