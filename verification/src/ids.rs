//! Identifier and value types: game ids, user ids, broadcast flags.

use vstd::prelude::*;

verus! {

/// Bytes allowed in user identifiers: ASCII letters, digits, underscore
/// and hyphen. Keeping `/` and `,` out of user ids is what lets the
/// pub/sub records that carry them be split unambiguously.
pub open spec fn is_id_byte(b: u8) -> bool {
    (97 <= b && b <= 122)  // 'a'..='z'
    || (65 <= b && b <= 90)  // 'A'..='Z'
    || (48 <= b && b <= 57)  // '0'..='9'
    || b == 95  // '_'
    || b == 45  // '-'
}

/// Bytes allowed in game ids: printable ASCII, except the `/` that
/// separates record fields and the space that separates `startWatching`
/// ids (space falls outside the printable range used here).
pub open spec fn is_game_id_byte(b: u8) -> bool {
    33 <= b && b <= 126 && b != 47
}

/// A valid game id: exactly eight printable ASCII bytes with no field
/// separator.
pub open spec fn valid_game_id(s: Seq<u8>) -> bool {
    s.len() == 8 && (forall|i: int| 0 <= i < s.len() ==> is_game_id_byte(#[trigger] s[i]))
}

/// A valid user id: one to thirty identifier bytes, case preserved.
pub open spec fn valid_user_id(s: Seq<u8>) -> bool {
    1 <= s.len() <= 30 && (forall|i: int| 0 <= i < s.len() ==> is_id_byte(#[trigger] s[i]))
}

exec fn all_game_id_bytes(s: &Vec<u8>) -> (r: bool)
    ensures
        r == (forall|i: int| 0 <= i < s@.len() ==> is_game_id_byte(#[trigger] s@[i])),
{
    let mut i: usize = 0;
    while i < s.len()
        invariant
            0 <= i <= s@.len(),
            forall|j: int| 0 <= j < i ==> is_game_id_byte(#[trigger] s@[j]),
        decreases s@.len() - i,
    {
        let b = s[i];
        if !(33 <= b && b <= 126 && b != 47) {
            return false;
        }
        i += 1;
    }
    true
}

exec fn all_id_bytes(s: &Vec<u8>) -> (r: bool)
    ensures
        r == (forall|i: int| 0 <= i < s@.len() ==> is_id_byte(#[trigger] s@[i])),
{
    let mut i: usize = 0;
    while i < s.len()
        invariant
            0 <= i <= s@.len(),
            forall|j: int| 0 <= j < i ==> is_id_byte(#[trigger] s@[j]),
        decreases s@.len() - i,
    {
        let b = s[i];
        if !((97 <= b && b <= 122) || (65 <= b && b <= 90) || (48 <= b && b <= 57) || b == 95
            || b == 45) {
            return false;
        }
        i += 1;
    }
    true
}

/// An eight character game id. Equality is byte-exact.
#[derive(Clone, Debug, PartialEq, Eq, Hash)]
pub struct GameId {
    pub bytes: Vec<u8>,
}

/// Rejection of a byte string that is not a well-formed game id.
#[derive(Debug)]
pub struct InvalidGameId;

/// Rejection of a byte string that is not a well-formed user id.
#[derive(Debug)]
pub struct InvalidUserId;

impl View for GameId {
    type V = Seq<u8>;

    open spec fn view(&self) -> Seq<u8> {
        self.bytes@
    }
}

impl GameId {
    /// The validating constructor: accepts exactly the well-formed ids.
    pub fn new(bytes: Vec<u8>) -> (r: Result<GameId, InvalidGameId>)
        ensures
            r is Ok <==> valid_game_id(bytes@),
            r is Ok ==> r->Ok_0@ == bytes@,
    {
        if bytes.len() == 8 && all_game_id_bytes(&bytes) {
            Ok(GameId { bytes })
        } else {
            Err(InvalidGameId)
        }
    }

    pub fn as_bytes(&self) -> (r: &Vec<u8>)
        ensures
            r@ == self@,
    {
        &self.bytes
    }

    pub open spec fn wf(&self) -> bool {
        valid_game_id(self@)
    }

    /// A copy with the same bytes, with its view known.
    pub fn duplicate(&self) -> (r: GameId)
        ensures
            r@ == self@,
    {
        let mut bytes: Vec<u8> = Vec::new();
        let mut i: usize = 0;
        while i < self.bytes.len()
            invariant
                0 <= i <= self.bytes@.len(),
                bytes@ == self.bytes@.subrange(0, i as int),
            decreases self.bytes@.len() - i,
        {
            bytes.push(self.bytes[i]);
            proof {
                assert(bytes@ =~= self.bytes@.subrange(0, i + 1));
            }
            i += 1;
        }
        proof {
            assert(bytes@ =~= self.bytes@);
        }
        GameId { bytes }
    }
}

/// A case-preserved user id of one to thirty bytes.
#[derive(Clone, Debug, PartialEq, Eq, Hash)]
pub struct UserId {
    pub bytes: Vec<u8>,
}

impl View for UserId {
    type V = Seq<u8>;

    open spec fn view(&self) -> Seq<u8> {
        self.bytes@
    }
}

impl UserId {
    /// The validating constructor: accepts exactly the well-formed ids.
    pub fn new(bytes: Vec<u8>) -> (r: Result<UserId, InvalidUserId>)
        ensures
            r is Ok <==> valid_user_id(bytes@),
            r is Ok ==> r->Ok_0@ == bytes@,
    {
        if 1 <= bytes.len() && bytes.len() <= 30 && all_id_bytes(&bytes) {
            Ok(UserId { bytes })
        } else {
            Err(InvalidUserId)
        }
    }

    pub fn as_bytes(&self) -> (r: &Vec<u8>)
        ensures
            r@ == self@,
    {
        &self.bytes
    }

    pub open spec fn wf(&self) -> bool {
        valid_user_id(self@)
    }

    /// A copy with the same bytes, with its view known.
    pub fn duplicate(&self) -> (r: UserId)
        ensures
            r@ == self@,
    {
        let mut bytes: Vec<u8> = Vec::new();
        let mut i: usize = 0;
        while i < self.bytes.len()
            invariant
                0 <= i <= self.bytes@.len(),
                bytes@ == self.bytes@.subrange(0, i as int),
            decreases self.bytes@.len() - i,
        {
            bytes.push(self.bytes[i]);
            proof {
                assert(bytes@ =~= self.bytes@.subrange(0, i + 1));
            }
            i += 1;
        }
        proof {
            assert(bytes@ =~= self.bytes@);
        }
        UserId { bytes }
    }
}

/// Coarse broadcast categories a socket can subscribe to at handshake.
#[derive(Clone, Copy, Debug, PartialEq, Eq, Structural)]
pub enum Flag {
    Simul,
    Tournament,
}

} // verus!
