//! The chess analysis responder: legal-move enumeration through the rules
//! engine, the piotr destination encoding, and the opening-book lookup.

use vstd::prelude::*;

use crate::ipc::{find_from, lemma_find_pins, lemma_find_none, rfind, lemma_rfind, lemma_rfind_pins, lemma_rfind_none};
use crate::text::{bytes_eq, find_byte, subvec, push_all};
use shakmaty::fen::Fen;
use shakmaty::uci::UciMove;
use shakmaty::variant::{Variant, VariantPosition};
use shakmaty::{CastlingMode, Color, EnPassantMode, Position};

verus! {

/// The piotr encoding of a square index: `a1..b4` map to `a..z`, `c4..d7`
/// to `A..Z`, `e7..f8` to `0..9`, `g8` to `!` and `h8` to `?`. Squares at
/// or above 64 (used to mark drops) fall into the `?` arm.
pub open spec fn piotr_spec(sq: u8) -> u8 {
    if sq < 26 {
        (97 + sq) as u8
    } else if sq < 52 {
        (65 + (sq - 26)) as u8
    } else if sq < 62 {
        (48 + (sq - 52)) as u8
    } else if sq == 62 {
        33
    } else {
        63
    }
}

/// The 64-character piotr alphabet.
pub open spec fn piotr_alphabet(c: u8) -> bool {
    (97 <= c && c <= 122) || (65 <= c && c <= 90) || (48 <= c && c <= 57) || c == 33 || c == 63
}

/// The inverse of the piotr encoding on its alphabet.
pub open spec fn piotr_inv_spec(c: u8) -> u8 {
    if 97 <= c && c <= 122 {
        (c - 97) as u8
    } else if 65 <= c && c <= 90 {
        (26 + (c - 65)) as u8
    } else if 48 <= c && c <= 57 {
        (52 + (c - 48)) as u8
    } else if c == 33 {
        62
    } else {
        63
    }
}

/// Encodes a square as its piotr character.
pub fn piotr(sq: u8) -> (r: u8)
    ensures
        r == piotr_spec(sq),
{
    if sq < 26 {
        97 + sq
    } else if sq < 52 {
        65 + (sq - 26)
    } else if sq < 62 {
        48 + (sq - 52)
    } else if sq == 62 {
        33
    } else {
        63
    }
}

/// Decodes a piotr character back to its square.
pub fn piotr_inv(c: u8) -> (r: Option<u8>)
    ensures
        match r {
            Some(sq) => piotr_alphabet(c) && sq == piotr_inv_spec(c) && sq < 64,
            None => !piotr_alphabet(c),
        },
{
    if 97 <= c && c <= 122 {
        Some(c - 97)
    } else if 65 <= c && c <= 90 {
        Some(26 + (c - 65))
    } else if 48 <= c && c <= 57 {
        Some(52 + (c - 48))
    } else if c == 33 {
        Some(62)
    } else if c == 63 {
        Some(63)
    } else {
        None
    }
}

/// Law: the piotr encoding is a bijection from the squares 0..63 onto the
/// 64-character alphabet; `piotr_inv_spec` is its two-sided inverse.
pub proof fn lemma_piotr_bijective()
    ensures
        forall|a: u8, b: u8|
            a < 64 && b < 64 && piotr_spec(a) == piotr_spec(b) ==> a == b,
        forall|sq: u8| sq < 64 ==> piotr_alphabet(#[trigger] piotr_spec(sq)),
        forall|sq: u8| sq < 64 ==> piotr_inv_spec(#[trigger] piotr_spec(sq)) == sq,
        forall|c: u8|
            piotr_alphabet(c) ==> piotr_inv_spec(c) < 64 && piotr_spec(
                #[trigger] piotr_inv_spec(c),
            ) == c,
{
}

/// The variant names the client protocol carries.
#[derive(Clone, Copy, Debug, PartialEq, Eq, Structural)]
pub enum VariantKey {
    Standard,
    FromPosition,
    Chess960,
    Antichess,
    KingOfTheHill,
    ThreeCheck,
    Atomic,
    Horde,
    RacingKings,
    Crazyhouse,
}

/// Variants collapsed to the rules they share: analysis from a position
/// and from a 960 start both follow the standard rules.
#[derive(Clone, Copy, Debug, PartialEq, Eq, Structural)]
pub enum EffectiveVariantKey {
    Standard,
    Antichess,
    KingOfTheHill,
    ThreeCheck,
    Atomic,
    Horde,
    RacingKings,
    Crazyhouse,
}

/// Which effective variant a protocol variant collapses to.
pub open spec fn effective_of(v: VariantKey) -> EffectiveVariantKey {
    match v {
        VariantKey::Standard => EffectiveVariantKey::Standard,
        VariantKey::FromPosition => EffectiveVariantKey::Standard,
        VariantKey::Chess960 => EffectiveVariantKey::Standard,
        VariantKey::Antichess => EffectiveVariantKey::Antichess,
        VariantKey::KingOfTheHill => EffectiveVariantKey::KingOfTheHill,
        VariantKey::ThreeCheck => EffectiveVariantKey::ThreeCheck,
        VariantKey::Atomic => EffectiveVariantKey::Atomic,
        VariantKey::Horde => EffectiveVariantKey::Horde,
        VariantKey::RacingKings => EffectiveVariantKey::RacingKings,
        VariantKey::Crazyhouse => EffectiveVariantKey::Crazyhouse,
    }
}

/// An absent variant means standard.
pub open spec fn effective_of_opt(v: Option<VariantKey>) -> EffectiveVariantKey {
    match v {
        Some(k) => effective_of(k),
        None => EffectiveVariantKey::Standard,
    }
}

impl From<VariantKey> for EffectiveVariantKey {
    fn from(v: VariantKey) -> (r: EffectiveVariantKey) {
        match v {
            VariantKey::Standard => EffectiveVariantKey::Standard,
            VariantKey::FromPosition => EffectiveVariantKey::Standard,
            VariantKey::Chess960 => EffectiveVariantKey::Standard,
            VariantKey::Antichess => EffectiveVariantKey::Antichess,
            VariantKey::KingOfTheHill => EffectiveVariantKey::KingOfTheHill,
            VariantKey::ThreeCheck => EffectiveVariantKey::ThreeCheck,
            VariantKey::Atomic => EffectiveVariantKey::Atomic,
            VariantKey::Horde => EffectiveVariantKey::Horde,
            VariantKey::RacingKings => EffectiveVariantKey::RacingKings,
            VariantKey::Crazyhouse => EffectiveVariantKey::Crazyhouse,
        }
    }
}

impl vstd::std_specs::convert::FromSpecImpl<VariantKey> for EffectiveVariantKey {
    open spec fn obeys_from_spec() -> bool {
        true
    }

    open spec fn from_spec(v: VariantKey) -> EffectiveVariantKey {
        effective_of(v)
    }
}

/// Whether an opening lookup makes sense for the variant: only where the
/// opening theory overlaps classical chess.
pub open spec fn opening_sensible(v: EffectiveVariantKey) -> bool {
    match v {
        EffectiveVariantKey::Standard => true,
        EffectiveVariantKey::Crazyhouse => true,
        EffectiveVariantKey::ThreeCheck => true,
        EffectiveVariantKey::KingOfTheHill => true,
        _ => false,
    }
}

/// The numeric tag handed to the rules-engine wrapper.
pub open spec fn variant_code(v: EffectiveVariantKey) -> u8 {
    match v {
        EffectiveVariantKey::Standard => 0,
        EffectiveVariantKey::Antichess => 1,
        EffectiveVariantKey::KingOfTheHill => 2,
        EffectiveVariantKey::ThreeCheck => 3,
        EffectiveVariantKey::Atomic => 4,
        EffectiveVariantKey::Horde => 5,
        EffectiveVariantKey::RacingKings => 6,
        EffectiveVariantKey::Crazyhouse => 7,
    }
}

impl EffectiveVariantKey {
    pub fn is_opening_sensible(self) -> (r: bool)
        ensures
            r == opening_sensible(self),
    {
        match self {
            EffectiveVariantKey::Standard => true,
            EffectiveVariantKey::Crazyhouse => true,
            EffectiveVariantKey::ThreeCheck => true,
            EffectiveVariantKey::KingOfTheHill => true,
            _ => false,
        }
    }

    pub fn code(self) -> (r: u8)
        ensures
            r == variant_code(self),
    {
        match self {
            EffectiveVariantKey::Standard => 0,
            EffectiveVariantKey::Antichess => 1,
            EffectiveVariantKey::KingOfTheHill => 2,
            EffectiveVariantKey::ThreeCheck => 3,
            EffectiveVariantKey::Atomic => 4,
            EffectiveVariantKey::Horde => 5,
            EffectiveVariantKey::RacingKings => 6,
            EffectiveVariantKey::Crazyhouse => 7,
        }
    }

    fn of_opt(v: &Option<VariantKey>) -> (r: EffectiveVariantKey)
        ensures
            r == effective_of_opt(*v),
    {
        match v {
            Some(k) => EffectiveVariantKey::from(*k),
            None => EffectiveVariantKey::Standard,
        }
    }
}

/// An opening-book record.
pub struct Opening {
    pub eco: Vec<u8>,
    pub name: Vec<u8>,
}

impl Opening {
    /// A copy with the same bytes, with its view known.
    pub fn duplicate(&self) -> (r: Opening)
        ensures
            r.eco@ == self.eco@,
            r.name@ == self.name@,
    {
        Opening { eco: subvec(&self.eco, 0, self.eco.len()), name: subvec(&self.name, 0, self.name.len()) }
    }
}

/// The static opening book: EPD fingerprint to opening record, loaded
/// once at startup.
pub struct OpeningBook {
    pub entries: Vec<(Vec<u8>, Opening)>,
}

/// The book as key/value byte strings.
pub open spec fn book_view(b: &OpeningBook) -> Seq<(Seq<u8>, (Seq<u8>, Seq<u8>))> {
    b.entries@.map_values(|e: (Vec<u8>, Opening)| (e.0@, (e.1.eco@, e.1.name@)))
}

/// The first entry under `key`, scanning front to back.
pub open spec fn find_entry(
    es: Seq<(Seq<u8>, (Seq<u8>, Seq<u8>))>,
    key: Seq<u8>,
) -> Option<(Seq<u8>, Seq<u8>)>
    decreases es.len(),
{
    if es.len() == 0 {
        None
    } else if es[0].0 == key {
        Some(es[0].1)
    } else {
        find_entry(es.drop_first(), key)
    }
}

impl OpeningBook {
    pub fn new() -> (r: OpeningBook)
        ensures
            book_view(&r).len() == 0,
    {
        OpeningBook { entries: Vec::new() }
    }

    /// Appends one record; the loader feeds the embedded resource in here.
    pub fn add(&mut self, epd: Vec<u8>, opening: Opening)
        ensures
            book_view(final(self)) == book_view(old(self)).push(
                (epd@, (opening.eco@, opening.name@)),
            ),
    {
        self.entries.push((epd, opening));
        proof {
            assert(book_view(self) =~= book_view(old(self)).push(
                (self.entries@.last().0@, (self.entries@.last().1.eco@, self.entries@.last().1.name@)),
            ));
        }
    }

    /// The record under an EPD fingerprint, if the book has one.
    pub fn get(&self, epd: &Vec<u8>) -> (r: Option<&Opening>)
        ensures
            match r {
                Some(o) => find_entry(book_view(self), epd@) == Some((o.eco@, o.name@)),
                None => find_entry(book_view(self), epd@) is None,
            },
    {
        let mut j: usize = 0;
        let n = self.entries.len();
        proof {
            assert(book_view(self).skip(0) =~= book_view(self));
        }
        while j < n
            invariant
                n == self.entries@.len(),
                0 <= j <= n,
                find_entry(book_view(self), epd@) == find_entry(
                    book_view(self).skip(j as int),
                    epd@,
                ),
            decreases n - j,
        {
            let row = &self.entries[j];
            if bytes_eq(&row.0, epd) {
                proof {
                    assert(book_view(self).skip(j as int)[0] == (row.0@, (row.1.eco@, row.1.name@)));
                }
                return Some(&self.entries[j].1);
            }
            proof {
                assert(book_view(self).skip(j as int)[0].0 != epd@);
                assert(book_view(self).skip(j as int).drop_first() =~= book_view(self).skip(
                    j + 1,
                ));
            }
            j += 1;
        }
        proof {
            assert(book_view(self).skip(n as int) =~= Seq::<
                (Seq<u8>, (Seq<u8>, Seq<u8>)),
            >::empty());
        }
        None
    }
}

/// The EPD fingerprint of a FEN: its first four fields, with a crazyhouse
/// pocket (a bracketed suffix of the board field) stripped. A FEN with
/// fewer than four fields has no fingerprint.
pub open spec fn epd_of(fen: Seq<u8>) -> Option<Seq<u8>> {
    match find_from(fen, 0, 32) {
        None => None,
        Some(i1) => match find_from(fen, i1 + 1, 32) {
            None => None,
            Some(i2) => match find_from(fen, i2 + 1, 32) {
                None => None,
                Some(i3) => {
                    let end: int = match find_from(fen, i3 + 1, 32) {
                        None => fen.len() as int,
                        Some(i4) => i4,
                    };
                    let board = fen.subrange(0, i1);
                    let board2 = match find_from(board, 0, 91) {
                        None => board,
                        Some(p) => board.subrange(0, p),
                    };
                    Some(board2 + fen.subrange(i1, end))
                },
            },
        },
    }
}

/// Computes the EPD fingerprint of a FEN.
pub fn epd_of_fen(fen: &Vec<u8>) -> (r: Option<Vec<u8>>)
    ensures
        match r {
            Some(e) => epd_of(fen@) == Some(e@),
            None => epd_of(fen@) is None,
        },
{
    let n = fen.len();
    let i1 = match find_byte(fen, 0, 32) {
        Some(i) => i,
        None => {
            proof {
                lemma_find_none(fen@, 0, 32);
            }
            return None;
        },
    };
    proof {
        lemma_find_pins(fen@, 0, i1 as int, 32);
    }
    let i2 = match find_byte(fen, i1 + 1, 32) {
        Some(i) => i,
        None => {
            proof {
                lemma_find_none(fen@, i1 + 1, 32);
            }
            return None;
        },
    };
    proof {
        lemma_find_pins(fen@, i1 + 1, i2 as int, 32);
    }
    let i3 = match find_byte(fen, i2 + 1, 32) {
        Some(i) => i,
        None => {
            proof {
                lemma_find_none(fen@, i2 + 1, 32);
            }
            return None;
        },
    };
    proof {
        lemma_find_pins(fen@, i2 + 1, i3 as int, 32);
    }
    let end = match find_byte(fen, i3 + 1, 32) {
        Some(i4) => {
            proof {
                lemma_find_pins(fen@, i3 + 1, i4 as int, 32);
            }
            i4
        },
        None => {
            proof {
                lemma_find_none(fen@, i3 + 1, 32);
            }
            n
        },
    };
    let board = subvec(fen, 0, i1);
    let board2 = match find_byte(&board, 0, 91) {
        Some(p) => {
            proof {
                lemma_find_pins(board@, 0, p as int, 91);
            }
            subvec(&board, 0, p)
        },
        None => {
            proof {
                lemma_find_none(board@, 0, 91);
            }
            board
        },
    };
    let mut out = board2;
    let rest = subvec(fen, i1, end);
    push_all(&mut out, &rest);
    Some(out)
}

/// What the opening lookup returns for a FEN: the first book entry under
/// its EPD fingerprint.
pub open spec fn lookup_spec(book: &OpeningBook, fen: Seq<u8>) -> Option<(Seq<u8>, Seq<u8>)> {
    match epd_of(fen) {
        None => None,
        Some(e) => find_entry(book_view(book), e),
    }
}

/// Looks a position up in the opening book by its EPD fingerprint.
pub fn lookup_opening<'a>(book: &'a OpeningBook, fen: &Vec<u8>) -> (r: Option<&'a Opening>)
    ensures
        match r {
            Some(o) => lookup_spec(book, fen@) == Some((o.eco@, o.name@)),
            None => lookup_spec(book, fen@) is None,
        },
{
    match epd_of_fen(fen) {
        Some(e) => book.get(&e),
        None => None,
    }
}

/// What the rules engine answers for a FEN under a variant: `None` when
/// the FEN does not parse or the position is illegal for the variant,
/// otherwise the legal moves as (origin, destination) square indices,
/// with origin 64 marking a crazyhouse drop.
pub uninterp spec fn variant_moves_of(variant: u8, fen: Seq<u8>) -> Option<Seq<(u8, u8)>>;

/// Relies on shakmaty: `fen::Fen::from_ascii`,
/// `variant::VariantPosition::from_setup` (standard castling) and
/// `Position::legal_moves`. The legal moves are a function of the FEN
/// text and the variant alone; squares are indices below 64, and a drop
/// (a move with no origin square) is reported with origin 64.
#[verifier::external_body]
fn variant_legal_moves(variant: u8, fen: &Vec<u8>) -> (r: Option<Vec<(u8, u8)>>)
    ensures
        match r {
            Some(ms) => variant_moves_of(variant, fen@) == Some(ms@) && (forall|k: int|
                0 <= k < ms@.len() ==> (#[trigger] ms@[k]).0 <= 64 && ms@[k].1 < 64),
            None => variant_moves_of(variant, fen@) is None,
        },
{
    let v = match variant {
        1 => Variant::Antichess, 2 => Variant::KingOfTheHill, 3 => Variant::ThreeCheck,
        4 => Variant::Atomic, 5 => Variant::Horde, 6 => Variant::RacingKings,
        7 => Variant::Crazyhouse, _ => Variant::Chess,
    };
    let setup = match Fen::from_ascii(fen) {
        Ok(f) => f.into_setup(), Err(_) => return None,
    };
    let pos = match VariantPosition::from_setup(v, setup, CastlingMode::Standard) {
        Ok(p) => p, Err(_) => return None,
    };
    Some(pos.legal_moves().iter().map(|m| (m.from().map_or(64u8, u8::from), u8::from(m.to()))).collect())
}

/// The destinations reachable from `sq`, among the first `k` moves.
pub open spec fn targets_upto(ms: Seq<(u8, u8)>, sq: u8, k: int) -> Seq<u8>
    decreases k,
{
    if k <= 0 {
        seq![]
    } else {
        targets_upto(ms, sq, k - 1) + (if ms[k - 1].0 == sq {
            seq![ms[k - 1].1]
        } else {
            seq![]
        })
    }
}

/// Whether any move originates at `sq`.
pub open spec fn has_origin(ms: Seq<(u8, u8)>, sq: u8) -> bool {
    exists|k: int| 0 <= k < ms.len() && (#[trigger] ms[k]).0 == sq
}

/// The piotr characters of a target list.
pub open spec fn map_piotr(ts: Seq<u8>) -> Seq<u8> {
    ts.map_values(|t: u8| piotr_spec(t))
}

/// The destination string over origins below `sq`: one group per origin
/// square with at least one move — its piotr character, then one piotr
/// character per destination — groups separated by single spaces.
pub open spec fn dests_upto(ms: Seq<(u8, u8)>, sq: int) -> Seq<u8>
    decreases sq,
{
    if sq <= 0 {
        seq![]
    } else {
        let pre = dests_upto(ms, sq - 1);
        if has_origin(ms, (sq - 1) as u8) {
            let grp = seq![piotr_spec((sq - 1) as u8)] + map_piotr(
                targets_upto(ms, (sq - 1) as u8, ms.len() as int),
            );
            if pre.len() == 0 {
                grp
            } else {
                pre + seq![32u8] + grp
            }
        } else {
            pre
        }
    }
}

/// The destination string of a move list.
pub open spec fn dests_spec(ms: Seq<(u8, u8)>) -> Seq<u8> {
    dests_upto(ms, 64)
}

/// Builds the destination string of a move list.
pub fn dests_string(ms: &Vec<(u8, u8)>) -> (r: Vec<u8>)
    ensures
        r@ == dests_spec(ms@),
{
    let mut out: Vec<u8> = Vec::new();
    let n = ms.len();
    let mut sq: u8 = 0;
    while sq < 64
        invariant
            n == ms@.len(),
            0 <= sq <= 64,
            out@ == dests_upto(ms@, sq as int),
        decreases 64 - sq,
    {
        // collect this origin's targets
        let mut tgts: Vec<u8> = Vec::new();
        let mut k: usize = 0;
        while k < n
            invariant
                n == ms@.len(),
                0 <= k <= n,
                tgts@ == targets_upto(ms@, sq, k as int),
            decreases n - k,
        {
            if ms[k].0 == sq {
                tgts.push(ms[k].1);
                proof {
                    assert(tgts@ =~= targets_upto(ms@, sq, k + 1));
                }
            } else {
                proof {
                    assert(tgts@ =~= targets_upto(ms@, sq, k + 1));
                }
            }
            k += 1;
        }
        if tgts.len() > 0 {
            proof {
                assert(has_origin(ms@, sq)) by {
                    lemma_targets_origin(ms@, sq, n as int);
                }
            }
            if out.len() > 0 {
                out.push(32);
            }
            out.push(piotr(sq));
            let ghost outg = out@;
            let mut x: usize = 0;
            while x < tgts.len()
                invariant
                    0 <= x <= tgts@.len(),
                    out@ == outg + map_piotr(tgts@.subrange(0, x as int)),
                decreases tgts@.len() - x,
            {
                out.push(piotr(tgts[x]));
                proof {
                    assert(out@ =~= outg + map_piotr(tgts@.subrange(0, x + 1)));
                }
                x += 1;
            }
            proof {
                assert(tgts@.subrange(0, tgts@.len() as int) =~= tgts@);
                assert(out@ =~= dests_upto(ms@, sq + 1));
            }
        } else {
            proof {
                assert(!has_origin(ms@, sq)) by {
                    if has_origin(ms@, sq) {
                        let k0 = choose|k0: int| 0 <= k0 < ms@.len() && (#[trigger] ms@[k0]).0 == sq;
                        lemma_origin_targets(ms@, sq, k0, n as int);
                    }
                }
                assert(out@ =~= dests_upto(ms@, sq + 1));
            }
        }
        sq += 1;
    }
    proof {
        assert(out@ =~= dests_spec(ms@));
    }
    out
}

/// A nonempty target list means some move originates at `sq`.
proof fn lemma_targets_origin(ms: Seq<(u8, u8)>, sq: u8, k: int)
    requires
        0 <= k <= ms.len(),
        targets_upto(ms, sq, k).len() > 0,
    ensures
        has_origin(ms, sq),
    decreases k,
{
    if k > 0 {
        if ms[k - 1].0 == sq {
        } else {
            lemma_targets_origin(ms, sq, k - 1);
        }
    }
}

/// A move originating at `sq` puts its destination among the targets.
proof fn lemma_origin_targets(ms: Seq<(u8, u8)>, sq: u8, k0: int, k: int)
    requires
        0 <= k0 < k <= ms.len(),
        ms[k0].0 == sq,
    ensures
        targets_upto(ms, sq, k).len() > 0,
    decreases k,
{
    if k0 < k - 1 {
        lemma_origin_targets(ms, sq, k0, k - 1);
    }
}

/// The pairs a group of a destination string decodes to: its first
/// character is the origin, every later one a destination.
pub open spec fn group_pairs(g: Seq<u8>) -> Set<(u8, u8)> {
    Set::new(
        |p: (u8, u8)|
            g.len() >= 1 && p.0 == piotr_inv_spec(g[0]) && (exists|x: int|
                1 <= x < g.len() && p.1 == piotr_inv_spec(g[x])),
    )
}

/// The pairs a destination string decodes to: groups split at spaces,
/// read back from the last group.
pub open spec fn decode_dests(s: Seq<u8>) -> Set<(u8, u8)>
    decreases s.len(),
    via decode_dests_dec
{
    if s.len() == 0 {
        Set::empty()
    } else {
        match rfind(s, 32) {
            None => group_pairs(s),
            Some(i) => decode_dests(s.subrange(0, i)).union(
                group_pairs(s.subrange(i + 1, s.len() as int)),
            ),
        }
    }
}

#[via_fn]
proof fn decode_dests_dec(s: Seq<u8>) {
    if s.len() > 0 {
        lemma_rfind(s, 32);
    }
}

/// The board moves of a move list: every pair whose origin is a real
/// square, drops (marked with origin 64) left out.
pub open spec fn board_pairs(ms: Seq<(u8, u8)>) -> Set<(u8, u8)> {
    Set::new(|p: (u8, u8)| p.0 < 64 && ms.contains(p))
}

/// The targets collected for one origin: all below 64, and exactly the
/// destinations the move list pairs with that origin.
proof fn lemma_targets_props(ms: Seq<(u8, u8)>, sq: u8, k: int)
    requires
        0 <= k <= ms.len(),
        forall|j: int| 0 <= j < ms.len() ==> (#[trigger] ms[j]).0 <= 64 && ms[j].1 < 64,
    ensures
        forall|x: int|
            0 <= x < targets_upto(ms, sq, k).len() ==> #[trigger] targets_upto(ms, sq, k)[x] < 64,
        forall|y: u8| #[trigger]
            targets_upto(ms, sq, k).contains(y) <==> exists|j: int|
                0 <= j < k && #[trigger] ms[j] == (sq, y),
    decreases k,
{
    if k > 0 {
        lemma_targets_props(ms, sq, k - 1);
        let prev = targets_upto(ms, sq, k - 1);
        let cur = targets_upto(ms, sq, k);
        assert forall|y: u8| #[trigger] cur.contains(y) implies exists|j: int|
            0 <= j < k && #[trigger] ms[j] == (sq, y) by {
            let x = choose|x: int| 0 <= x < cur.len() && cur[x] == y;
            if x < prev.len() {
                assert(prev.contains(y));
            } else {
                assert(ms[k - 1] == (sq, y));
            }
        }
        assert forall|y: u8|
            (exists|j: int| 0 <= j < k && #[trigger] ms[j] == (sq, y)) implies #[trigger]
            cur.contains(y) by {
            let j = choose|j: int| 0 <= j < k && #[trigger] ms[j] == (sq, y);
            if j < k - 1 {
                assert(prev.contains(y));
                let x = choose|x: int| 0 <= x < prev.len() && prev[x] == y;
                assert(cur[x] == y);
            } else {
                assert(cur[cur.len() - 1] == y);
            }
        }
    }
}

/// Decoding the destination string over origins below `sq` yields exactly
/// the board moves from those origins.
proof fn lemma_decode_upto(ms: Seq<(u8, u8)>, sq: int)
    requires
        0 <= sq <= 64,
        forall|j: int| 0 <= j < ms.len() ==> (#[trigger] ms[j]).0 <= 64 && ms[j].1 < 64,
    ensures
        decode_dests(dests_upto(ms, sq)) =~= Set::new(
            |p: (u8, u8)| p.0 < sq && ms.contains(p),
        ),
    decreases sq,
{
    lemma_piotr_bijective();
    if sq == 0 {
        assert(decode_dests(dests_upto(ms, 0)) =~= Set::<(u8, u8)>::empty());
    } else {
        lemma_decode_upto(ms, sq - 1);
        let q: u8 = (sq - 1) as u8;
        let pre = dests_upto(ms, sq - 1);
        let lower = Set::new(|p: (u8, u8)| p.0 < sq - 1 && ms.contains(p));
        let goal = Set::new(|p: (u8, u8)| p.0 < sq && ms.contains(p));
        if has_origin(ms, q) {
            let ts = targets_upto(ms, q, ms.len() as int);
            lemma_targets_props(ms, q, ms.len() as int);
            let grp = seq![piotr_spec(q)] + map_piotr(ts);
            assert(grp[0] == piotr_spec(q));
            assert forall|x: int| 0 <= x < grp.len() implies #[trigger] grp[x] != 32 by {
                if x > 0 {
                    assert(grp[x] == piotr_spec(ts[x - 1]));
                }
            }
            // what the group decodes to
            assert(group_pairs(grp) =~= Set::new(
                |p: (u8, u8)| p.0 == q && ms.contains(p),
            )) by {
                assert forall|p: (u8, u8)| #[trigger] group_pairs(grp).contains(p) implies p.0 == q
                    && ms.contains(p) by {
                    assert(p.0 == piotr_inv_spec(piotr_spec(q)));
                    let x = choose|x: int| 1 <= x < grp.len() && p.1 == piotr_inv_spec(grp[x]);
                    assert(grp[x] == piotr_spec(ts[x - 1]));
                    assert(ts[x - 1] < 64);
                    assert(p.1 == ts[x - 1]);
                    assert(ts.contains(p.1));
                    let j = choose|j: int| 0 <= j < ms.len() && #[trigger] ms[j] == (q, p.1);
                    assert(ms.contains((q, p.1)));
                    assert((q, p.1) == p);
                }
                assert forall|p: (u8, u8)| p.0 == q && ms.contains(p) implies #[trigger]
                    group_pairs(grp).contains(p) by {
                    let j = choose|j: int| 0 <= j < ms.len() && ms[j] == p;
                    assert(ms[j] == (q, p.1));
                    assert(ts.contains(p.1));
                    let x = choose|x: int| 0 <= x < ts.len() && ts[x] == p.1;
                    assert(grp[x + 1] == piotr_spec(ts[x]));
                    assert(piotr_inv_spec(grp[x + 1]) == p.1);
                    assert(piotr_inv_spec(grp[0]) == q);
                }
            }
            if pre.len() == 0 {
                assert(dests_upto(ms, sq) == grp);
                lemma_rfind_none(grp, 32);
                assert(decode_dests(grp) =~= group_pairs(grp));
                // nothing decodes below q, so nothing moves from below q
                assert(lower =~= Set::<(u8, u8)>::empty()) by {
                    assert(decode_dests(pre) =~= Set::<(u8, u8)>::empty());
                }
                assert(decode_dests(dests_upto(ms, sq)) =~= goal) by {
                    assert forall|p: (u8, u8)| #[trigger] goal.contains(p) implies group_pairs(
                        grp,
                    ).contains(p) by {
                        if p.0 < sq - 1 {
                            assert(lower.contains(p));
                        }
                    }
                }
            } else {
                let whole = pre + seq![32u8] + grp;
                assert(dests_upto(ms, sq) == whole);
                assert(whole[pre.len() as int] == 32);
                assert(forall|x: int|
                    pre.len() < x < whole.len() ==> #[trigger] whole[x] == grp[x - pre.len() - 1]);
                lemma_rfind_pins(whole, pre.len() as int, 32);
                assert(whole.subrange(0, pre.len() as int) =~= pre);
                assert(whole.subrange(pre.len() + 1 as int, whole.len() as int) =~= grp);
                assert(decode_dests(whole) =~= decode_dests(pre).union(group_pairs(grp)));
                assert(decode_dests(whole) =~= goal) by {
                    assert forall|p: (u8, u8)| #[trigger] goal.contains(p) implies
                        decode_dests(pre).union(group_pairs(grp)).contains(p) by {
                        if p.0 < sq - 1 {
                            assert(lower.contains(p));
                            assert(decode_dests(pre).contains(p));
                        } else {
                            assert(p.0 == q);
                            assert(group_pairs(grp).contains(p));
                        }
                    }
                }
            }
        } else {
            assert(dests_upto(ms, sq) == pre);
            assert(decode_dests(pre) =~= goal) by {
                assert forall|p: (u8, u8)| #[trigger] goal.contains(p) implies lower.contains(
                    p,
                ) by {
                    if p.0 == q {
                        let j = choose|j: int| 0 <= j < ms.len() && ms[j] == p;
                        assert(ms[j].0 == q);
                        assert(has_origin(ms, q));
                        assert(false);
                    }
                }
            }
        }
    }
}

/// Law: decoding the piotr destination string of a move list yields
/// exactly the rules engine's board moves — the drops that a crazyhouse
/// position also offers have no origin square and stay out of the string.
pub proof fn lemma_dests_decode_round_trip(ms: Seq<(u8, u8)>)
    requires
        forall|j: int| 0 <= j < ms.len() ==> (#[trigger] ms[j]).0 <= 64 && ms[j].1 < 64,
    ensures
        decode_dests(dests_spec(ms)) == board_pairs(ms),
{
    lemma_decode_upto(ms, 64);
    assert(decode_dests(dests_spec(ms)) =~= board_pairs(ms));
}

/// The opening request of the `opening` tag.
pub struct GetOpening {
    pub variant: Option<VariantKey>,
    pub path: Vec<u8>,
    pub fen: Vec<u8>,
}

/// The reply to an opening request.
pub struct OpeningResponse {
    pub path: Vec<u8>,
    pub opening: Opening,
}

impl GetOpening {
    /// Answers an opening request: silent unless the variant has sensible
    /// opening theory and the position's fingerprint is in the book.
    pub fn respond(self, book: &OpeningBook) -> (r: Option<OpeningResponse>)
        ensures
            match r {
                Some(resp) => opening_sensible(effective_of_opt(self.variant)) && lookup_spec(
                    book,
                    self.fen@,
                ) == Some((resp.opening.eco@, resp.opening.name@)) && resp.path@ == self.path@,
                None => !opening_sensible(effective_of_opt(self.variant)) || lookup_spec(
                    book,
                    self.fen@,
                ) is None,
            },
    {
        let variant = EffectiveVariantKey::of_opt(&self.variant);
        if variant.is_opening_sensible() {
            match lookup_opening(book, &self.fen) {
                Some(o) => Some(OpeningResponse { path: self.path, opening: o.duplicate() }),
                None => None,
            }
        } else {
            None
        }
    }
}

/// The analysis request of the `anaDests` tag.
pub struct GetDests {
    pub variant: Option<VariantKey>,
    pub fen: Vec<u8>,
    pub path: Vec<u8>,
    pub chapter_id: Option<Vec<u8>>,
}

/// The reply to an `anaDests` request.
pub struct DestsResponse {
    pub path: Vec<u8>,
    pub dests: Vec<u8>,
    pub opening: Option<Opening>,
    pub chapter_id: Option<Vec<u8>>,
}

/// The position could not be set up for the declared variant.
#[derive(Debug)]
pub struct DestsFailure;

impl GetDests {
    /// Answers an `anaDests` request: the piotr destination string of the
    /// position's legal moves, with the opening attached when the variant
    /// has sensible opening theory and the book knows the position.
    pub fn respond(self, book: &OpeningBook) -> (r: Result<DestsResponse, DestsFailure>)
        ensures
            r is Ok <==> variant_moves_of(
                variant_code(effective_of_opt(self.variant)),
                self.fen@,
            ) is Some,
            match r {
                Ok(d) => {
                    &&& (match variant_moves_of(
                        variant_code(effective_of_opt(self.variant)),
                        self.fen@,
                    ) {
                        Some(ms) => d.dests@ == dests_spec(ms),
                        None => false,
                    })
                    &&& d.path@ == self.path@
                    &&& (match d.chapter_id {
                        Some(c) => self.chapter_id matches Some(c0) && c0@ == c@,
                        None => self.chapter_id is None,
                    })
                    &&& (match d.opening {
                        Some(o) => opening_sensible(effective_of_opt(self.variant)) && lookup_spec(
                            book,
                            self.fen@,
                        ) == Some((o.eco@, o.name@)),
                        None => !opening_sensible(effective_of_opt(self.variant)) || lookup_spec(
                            book,
                            self.fen@,
                        ) is None,
                    })
                },
                Err(_) => true,
            },
    {
        let variant = EffectiveVariantKey::of_opt(&self.variant);
        let moves = match variant_legal_moves(variant.code(), &self.fen) {
            Some(ms) => ms,
            None => {
                return Err(DestsFailure);
            },
        };
        let dests = dests_string(&moves);
        let opening = if variant.is_opening_sensible() {
            match lookup_opening(book, &self.fen) {
                Some(o) => Some(o.duplicate()),
                None => None,
            }
        } else {
            None
        };
        Ok(DestsResponse { path: self.path, dests, opening, chapter_id: self.chapter_id })
    }
}

/// The analysis request of the `anaMove` tag.
pub struct PlayMove {
    pub orig: Vec<u8>,
    pub dest: Vec<u8>,
    pub variant: Option<VariantKey>,
    pub fen: Vec<u8>,
    pub path: Vec<u8>,
    pub promotion: Option<u8>,
    pub chapter_id: Option<Vec<u8>>,
}

/// The analysis request of the `anaDrop` tag.
pub struct PlayDrop {
    /// The dropped piece, as its letter (`Q`, `N`, ...).
    pub role: u8,
    /// The target square name.
    pub pos: Vec<u8>,
    pub variant: Option<VariantKey>,
    pub fen: Vec<u8>,
    pub path: Vec<u8>,
    pub chapter_id: Option<Vec<u8>>,
}

/// The reply to a step request.
pub struct Node {
    pub node: Branch,
    pub path: Vec<u8>,
    pub chapter_id: Option<Vec<u8>>,
}

/// One analysis-tree branch.
pub struct Branch {
    pub id: Vec<u8>,
    pub ply: u32,
    pub fen: Vec<u8>,
    pub check: bool,
    pub dests: Vec<u8>,
    pub opening: Option<Opening>,
    pub drops: Vec<u8>,
    pub crazy_data: Vec<u8>,
}

/// The move could not be played.
#[derive(Debug)]
pub struct StepFailure;

/// What playing one UCI move or drop on a position yields: `None` when
/// the position cannot be set up or the move is not legal, otherwise the
/// new FEN, the check flag, the fullmove number and whether black is now
/// to move. A function of the variant, FEN text and UCI text alone.
pub uninterp spec fn step_of(variant: u8, fen: Seq<u8>, uci: Seq<u8>) -> Option<
    (Seq<u8>, bool, u32, bool),
>;

/// Relies on shakmaty: `Fen::from_ascii`, `VariantPosition::from_setup`
/// (standard castling), `UciMove::from_ascii`, `UciMove::to_move` (which
/// rejects moves that are not legal) and `Position::play`; the new
/// position is rendered back through `Fen::from_position`. The fullmove
/// number is at least one, from its non-zero type.
#[verifier::external_body]
fn play_uci(variant: u8, fen: &Vec<u8>, uci: &Vec<u8>) -> (r: Option<(Vec<u8>, bool, u32, bool)>)
    ensures
        match r {
            Some(o) => step_of(variant, fen@, uci@) == Some((o.0@, o.1, o.2, o.3)) && o.2 >= 1,
            None => step_of(variant, fen@, uci@) is None,
        },
{
    let v = match variant {
        1 => Variant::Antichess, 2 => Variant::KingOfTheHill, 3 => Variant::ThreeCheck,
        4 => Variant::Atomic, 5 => Variant::Horde, 6 => Variant::RacingKings,
        7 => Variant::Crazyhouse, _ => Variant::Chess,
    };
    let f = Fen::from_ascii(fen).ok()?;
    let pos = VariantPosition::from_setup(v, f.into_setup(), CastlingMode::Standard).ok()?;
    let m = UciMove::from_ascii(uci).ok()?.to_move(&pos).ok()?;
    let pos = pos.play(m).ok()?;
    let nf = format!("{}", Fen::from_position(&pos, EnPassantMode::Legal));
    Some((nf.into_bytes(), pos.is_check(), pos.fullmoves().get(), pos.turn() == Color::Black))
}

/// The UCI text of a move request: origin, destination, then the
/// promotion letter when present.
pub open spec fn uci_of_move(orig: Seq<u8>, dest: Seq<u8>, promo: Option<u8>) -> Seq<u8> {
    orig + dest + (match promo {
        Some(p) => seq![p],
        None => seq![],
    })
}

/// The UCI text of a drop request: piece letter, `@`, target square.
pub open spec fn uci_of_drop(role: u8, pos: Seq<u8>) -> Seq<u8> {
    seq![role, 64u8] + pos
}

/// The zero-based half-move count of a position, saturating: two per
/// completed full move, one more when black is to move.
pub open spec fn ply_of(fullmoves: u32, black: bool) -> u32 {
    let base: int = if fullmoves >= 1 {
        fullmoves - 1
    } else {
        0
    };
    let p: int = 2 * base + (if black {
        1int
    } else {
        0int
    });
    if p > u32::MAX {
        u32::MAX
    } else {
        p as u32
    }
}

fn ply_value(fullmoves: u32, black: bool) -> (r: u32)
    ensures
        r == ply_of(fullmoves, black),
{
    let base: u32 = if fullmoves >= 1 {
        fullmoves - 1
    } else {
        0
    };
    if base > (u32::MAX - 1) / 2 {
        u32::MAX
    } else {
        2 * base + (if black {
            1
        } else {
            0
        })
    }
}

/// What a successful step reply holds: the played position's new FEN,
/// check flag and ply, the move's UCI text as the branch id, the new
/// position's destination string, the opening under the sensible-variant
/// gate, and empty drop and crazyhouse fields (their wire encodings are
/// unsettled).
pub open spec fn step_result_ok(
    variant: EffectiveVariantKey,
    book: &OpeningBook,
    fen: Seq<u8>,
    uci: Seq<u8>,
    path: Seq<u8>,
    chapter: Option<Seq<u8>>,
    n: Node,
) -> bool {
    match step_of(variant_code(variant), fen, uci) {
        Some(o) => {
            &&& n.node.fen@ == o.0
            &&& n.node.check == o.1
            &&& n.node.ply == ply_of(o.2, o.3)
            &&& n.node.id@ == uci
            &&& n.path@ == path
            &&& (match n.chapter_id {
                Some(c) => chapter == Some(c@),
                None => chapter is None,
            })
            &&& n.node.dests@ == (match variant_moves_of(variant_code(variant), o.0) {
                Some(ms) => dests_spec(ms),
                None => Seq::<u8>::empty(),
            })
            &&& (match n.node.opening {
                Some(op) => opening_sensible(variant) && lookup_spec(book, o.0) == Some(
                    (op.eco@, op.name@),
                ),
                None => !opening_sensible(variant) || lookup_spec(book, o.0) is None,
            })
            &&& n.node.drops@.len() == 0
            &&& n.node.crazy_data@.len() == 0
        },
        None => false,
    }
}

/// Plays one UCI step and builds the reply node.
fn build_step(
    variant: EffectiveVariantKey,
    book: &OpeningBook,
    uci: Vec<u8>,
    fen: &Vec<u8>,
    path: Vec<u8>,
    chapter_id: Option<Vec<u8>>,
) -> (r: Result<Node, StepFailure>)
    ensures
        r is Ok <==> step_of(variant_code(variant), fen@, uci@) is Some,
        r matches Ok(n) ==> step_result_ok(
            variant,
            book,
            fen@,
            uci@,
            path@,
            match chapter_id {
                Some(c) => Some(c@),
                None => None,
            },
            n,
        ),
{
    let (newfen, check, fullmoves, black) = match play_uci(variant.code(), fen, &uci) {
        Some(o) => o,
        None => {
            return Err(StepFailure);
        },
    };
    let dests = match variant_legal_moves(variant.code(), &newfen) {
        Some(ms) => dests_string(&ms),
        None => Vec::new(),
    };
    let opening = if variant.is_opening_sensible() {
        match lookup_opening(book, &newfen) {
            Some(o) => Some(o.duplicate()),
            None => None,
        }
    } else {
        None
    };
    let ply = ply_value(fullmoves, black);
    Ok(
        Node {
            node: Branch {
                id: uci,
                ply,
                fen: newfen,
                check,
                dests,
                opening,
                drops: Vec::new(),
                crazy_data: Vec::new(),
            },
            path,
            chapter_id,
        },
    )
}

impl PlayMove {
    /// Plays the requested move: `Ok` with the new node exactly when the
    /// move is legal on the position under the declared variant, `Err`
    /// otherwise. The node's `drops` and crazyhouse fields stay empty;
    /// their wire encodings are unsettled.
    pub fn respond(self, book: &OpeningBook) -> (r: Result<Node, StepFailure>)
        ensures
            r is Ok <==> step_of(
                variant_code(effective_of_opt(self.variant)),
                self.fen@,
                uci_of_move(self.orig@, self.dest@, self.promotion),
            ) is Some,
            r matches Ok(n) ==> step_result_ok(
                effective_of_opt(self.variant),
                book,
                self.fen@,
                uci_of_move(self.orig@, self.dest@, self.promotion),
                self.path@,
                match self.chapter_id {
                    Some(c) => Some(c@),
                    None => None,
                },
                n,
            ),
    {
        let variant = EffectiveVariantKey::of_opt(&self.variant);
        let mut uci = subvec(&self.orig, 0, self.orig.len());
        push_all(&mut uci, &self.dest);
        match self.promotion {
            Some(p) => {
                uci.push(p);
            },
            None => {},
        }
        proof {
            assert(uci@ =~= uci_of_move(self.orig@, self.dest@, self.promotion));
            assert(self.orig@.subrange(0, self.orig@.len() as int) =~= self.orig@);
        }
        build_step(variant, book, uci, &self.fen, self.path, self.chapter_id)
    }
}

impl PlayDrop {
    /// Plays the requested drop: `Ok` with the new node exactly when the
    /// drop is legal on the position under the declared variant, `Err`
    /// otherwise.
    pub fn respond(self, book: &OpeningBook) -> (r: Result<Node, StepFailure>)
        ensures
            r is Ok <==> step_of(
                variant_code(effective_of_opt(self.variant)),
                self.fen@,
                uci_of_drop(self.role, self.pos@),
            ) is Some,
            r matches Ok(n) ==> step_result_ok(
                effective_of_opt(self.variant),
                book,
                self.fen@,
                uci_of_drop(self.role, self.pos@),
                self.path@,
                match self.chapter_id {
                    Some(c) => Some(c@),
                    None => None,
                },
                n,
            ),
    {
        let variant = EffectiveVariantKey::of_opt(&self.variant);
        let mut uci: Vec<u8> = Vec::new();
        uci.push(self.role);
        uci.push(64);
        push_all(&mut uci, &self.pos);
        proof {
            assert(uci@ =~= uci_of_drop(self.role, self.pos@));
        }
        build_step(variant, book, uci, &self.fen, self.path, self.chapter_id)
    }
}

} // verus!
