//! Session-cookie and query-string handling: finding the `lila2` cookie,
//! unwrapping its signed value, and reading the session id and the flag
//! parameter out of URL-encoded text.

use vstd::prelude::*;

use crate::ids::Flag;
use crate::ipc::{find_from, lemma_find_from, lemma_find_pins, lemma_find_none, word_simul, word_tournament, word_simul_vec, word_tournament_vec};
use crate::text::{bytes_eq, find_byte, subvec, starts_with, has_prefix};

verus! {

/// The cookie name prefix `lila2=`.
pub open spec fn lila2_prefix() -> Seq<u8> {
    seq![108u8, 105, 108, 97, 50, 61]
}

fn lila2_prefix_vec() -> (v: Vec<u8>)
    ensures
        v@ == lila2_prefix(),
{
    let mut v: Vec<u8> = Vec::new();
    v.push(108);
    v.push(105);
    v.push(108);
    v.push(97);
    v.push(50);
    v.push(61);
    proof {
        assert(v@ =~= lila2_prefix());
    }
    v
}

/// The form key `sessionId`.
pub open spec fn session_id_key() -> Seq<u8> {
    seq![115u8, 101, 115, 115, 105, 111, 110, 73, 100]
}

fn session_id_key_vec() -> (v: Vec<u8>)
    ensures
        v@ == session_id_key(),
{
    let mut v: Vec<u8> = Vec::new();
    v.push(115);
    v.push(101);
    v.push(115);
    v.push(115);
    v.push(105);
    v.push(111);
    v.push(110);
    v.push(73);
    v.push(100);
    proof {
        assert(v@ =~= session_id_key());
    }
    v
}

/// The query key `flag`.
pub open spec fn flag_key() -> Seq<u8> {
    seq![102u8, 108, 97, 103]
}

fn flag_key_vec() -> (v: Vec<u8>)
    ensures
        v@ == flag_key(),
{
    let mut v: Vec<u8> = Vec::new();
    v.push(102);
    v.push(108);
    v.push(97);
    v.push(103);
    proof {
        assert(v@ =~= flag_key());
    }
    v
}

/// `s` without its leading spaces.
pub open spec fn trim_front(s: Seq<u8>) -> Seq<u8>
    decreases s.len(),
{
    if s.len() > 0 && s[0] == 32 {
        trim_front(s.drop_first())
    } else {
        s
    }
}

/// `s` without its trailing spaces.
pub open spec fn trim_back(s: Seq<u8>) -> Seq<u8>
    decreases s.len(),
{
    if s.len() > 0 && s.last() == 32 {
        trim_back(s.drop_last())
    } else {
        s
    }
}

/// `s` without leading or trailing spaces.
pub open spec fn trim(s: Seq<u8>) -> Seq<u8> {
    trim_back(trim_front(s))
}

/// A copy of `v` without leading or trailing spaces.
pub fn trim_vec(v: &Vec<u8>) -> (r: Vec<u8>)
    ensures
        r@ == trim(v@),
{
    let n = v.len();
    proof {
        assert(v@.skip(0) =~= v@);
    }
    let mut a: usize = 0;
    while a < n && v[a] == 32
        invariant
            n == v@.len(),
            0 <= a <= n,
            trim_front(v@) == trim_front(v@.skip(a as int)),
        decreases n - a,
    {
        proof {
            assert(v@.skip(a as int)[0] == 32);
            assert(v@.skip(a as int).drop_first() =~= v@.skip(a + 1));
        }
        a += 1;
    }
    proof {
        assert(trim_front(v@.skip(a as int)) == v@.skip(a as int));
    }
    let mut b: usize = n;
    while b > a && v[b - 1] == 32
        invariant
            n == v@.len(),
            0 <= a <= b <= n,
            trim_front(v@) == v@.skip(a as int),
            trim_back(v@.skip(a as int)) == trim_back(v@.subrange(a as int, b as int)),
        decreases b,
    {
        proof {
            assert(v@.subrange(a as int, b as int).last() == v@[b - 1]);
            assert(v@.subrange(a as int, b as int).drop_last() =~= v@.subrange(a as int, b - 1));
        }
        b -= 1;
    }
    proof {
        assert(v@.skip(a as int) =~= v@.subrange(a as int, n as int));
        assert(trim_back(v@.subrange(a as int, b as int)) == v@.subrange(a as int, b as int));
    }
    subvec(v, a, b)
}

/// The first `;`-separated cookie part that, trimmed, starts `lila2=`.
pub open spec fn lila2_part_from(h: Seq<u8>, from: int) -> Option<Seq<u8>>
    decreases h.len() - from,
    via lila2_part_from_dec
{
    match find_from(h, from, 59) {
        None => {
            let part = trim(h.subrange(from, h.len() as int));
            if has_prefix(part, lila2_prefix()) {
                Some(part)
            } else {
                None
            }
        },
        Some(i) => {
            let part = trim(h.subrange(from, i));
            if has_prefix(part, lila2_prefix()) {
                Some(part)
            } else {
                lila2_part_from(h, i + 1)
            }
        },
    }
}

#[via_fn]
proof fn lila2_part_from_dec(h: Seq<u8>, from: int) {
    if 0 <= from <= h.len() {
        lemma_find_from(h, from, 59);
    } else {
        assert(find_from(h, from, 59) is None);
    }
}

/// Finds the trimmed `lila2=` cookie part, scanning from `from`.
fn find_lila2_part(h: &Vec<u8>, from: usize) -> (r: Option<Vec<u8>>)
    requires
        from <= h@.len(),
    ensures
        match r {
            Some(p) => lila2_part_from(h@, from as int) == Some(p@),
            None => lila2_part_from(h@, from as int) is None,
        },
    decreases h@.len() - from,
{
    let n = h.len();
    let prefix = lila2_prefix_vec();
    match find_byte(h, from, 59) {
        None => {
            proof {
                lemma_find_none(h@, from as int, 59);
            }
            let raw = subvec(h, from, n);
            let part = trim_vec(&raw);
            if starts_with(&part, &prefix) {
                Some(part)
            } else {
                None
            }
        },
        Some(i) => {
            proof {
                lemma_find_pins(h@, from as int, i as int, 59);
            }
            let raw = subvec(h, from, i);
            let part = trim_vec(&raw);
            if starts_with(&part, &prefix) {
                Some(part)
            } else {
                find_lila2_part(h, i + 1)
            }
        },
    }
}

/// What `cookie::Cookie::parse` extracts as a cookie pair's value; a
/// function of the pair's text alone.
pub uninterp spec fn cookie_value_of(part: Seq<u8>) -> Option<Seq<u8>>;

/// Relies on `cookie::Cookie::parse`: the (possibly quoted) value of one
/// `name=value` cookie pair.
#[verifier::external_body]
fn cookie_value(part: &Vec<u8>) -> (r: Option<Vec<u8>>)
    ensures
        match r {
            Some(v) => cookie_value_of(part@) == Some(v@),
            None => cookie_value_of(part@) is None,
        },
{
    let s = match core::str::from_utf8(part.as_slice()) {
        Ok(s) => s,
        Err(_) => return None,
    };
    match cookie::Cookie::parse(s) {
        Ok(c) => Some(c.value().as_bytes().to_vec()),
        Err(_) => None,
    }
}

/// What `serde_urlencoded::from_str` decodes a form body to: its
/// percent-decoded key/value pairs in order; a function of the text alone.
pub uninterp spec fn form_pairs_of(body: Seq<u8>) -> Option<Seq<(Seq<u8>, Seq<u8>)>>;

/// Relies on `serde_urlencoded::from_str`: the decoded pairs of a
/// URL-encoded form body.
#[verifier::external_body]
fn form_pairs(body: &Vec<u8>) -> (r: Option<Vec<(Vec<u8>, Vec<u8>)>>)
    ensures
        match r {
            Some(ps) => form_pairs_of(body@) == Some(
                ps@.map_values(|p: (Vec<u8>, Vec<u8>)| (p.0@, p.1@)),
            ),
            None => form_pairs_of(body@) is None,
        },
{
    let s = match core::str::from_utf8(body.as_slice()) {
        Ok(s) => s,
        Err(_) => return None,
    };
    match serde_urlencoded::from_str::<Vec<(String, String)>>(s) {
        Ok(ps) => Some(ps.into_iter().map(|(k, v)| (k.into_bytes(), v.into_bytes())).collect()),
        Err(_) => None,
    }
}

/// The first value under `key` among decoded pairs.
pub open spec fn find_pair(ps: Seq<(Seq<u8>, Seq<u8>)>, key: Seq<u8>) -> Option<Seq<u8>>
    decreases ps.len(),
{
    if ps.len() == 0 {
        None
    } else if ps[0].0 == key {
        Some(ps[0].1)
    } else {
        find_pair(ps.drop_first(), key)
    }
}

fn find_pair_vec(ps: &Vec<(Vec<u8>, Vec<u8>)>, key: &Vec<u8>) -> (r: Option<Vec<u8>>)
    ensures
        match r {
            Some(v) => find_pair(ps@.map_values(|p: (Vec<u8>, Vec<u8>)| (p.0@, p.1@)), key@)
                == Some(v@),
            None => find_pair(ps@.map_values(|p: (Vec<u8>, Vec<u8>)| (p.0@, p.1@)), key@) is None,
        },
{
    let ghost view = ps@.map_values(|p: (Vec<u8>, Vec<u8>)| (p.0@, p.1@));
    let mut j: usize = 0;
    let n = ps.len();
    proof {
        assert(view.skip(0) =~= view);
    }
    while j < n
        invariant
            n == ps@.len(),
            view == ps@.map_values(|p: (Vec<u8>, Vec<u8>)| (p.0@, p.1@)),
            0 <= j <= n,
            find_pair(view, key@) == find_pair(view.skip(j as int), key@),
        decreases n - j,
    {
        let row = &ps[j];
        if bytes_eq(&row.0, key) {
            proof {
                assert(view.skip(j as int)[0] == (row.0@, row.1@));
            }
            return Some(subvec(&ps[j].1, 0, ps[j].1.len()));
        }
        proof {
            assert(view.skip(j as int)[0].0 != key@);
            assert(view.skip(j as int).drop_first() =~= view.skip(j + 1));
        }
        j += 1;
    }
    proof {
        assert(view.skip(n as int) =~= Seq::<(Seq<u8>, Seq<u8>)>::empty());
    }
    None
}

/// What the cookie header resolves to: the value of the `lila2` cookie,
/// its opaque signature skipped up to the first `-`, form-decoded, read
/// at the `sessionId` key. Anything malformed falls through to `None`,
/// and the socket stays anonymous.
pub open spec fn session_id_spec(header: Seq<u8>) -> Option<Seq<u8>> {
    match lila2_part_from(header, 0) {
        None => None,
        Some(part) => match cookie_value_of(part) {
            None => None,
            Some(val) => {
                let start: int = match find_from(val, 0, 45) {
                    None => 0,
                    Some(i) => i + 1,
                };
                match form_pairs_of(val.subrange(start, val.len() as int)) {
                    None => None,
                    Some(ps) => find_pair(ps, session_id_key()),
                }
            },
        },
    }
}

/// Reads the session id out of a `Cookie` header.
pub fn session_id_of_header(header: &Vec<u8>) -> (r: Option<Vec<u8>>)
    ensures
        match r {
            Some(sid) => session_id_spec(header@) == Some(sid@),
            None => session_id_spec(header@) is None,
        },
{
    let part = match find_lila2_part(header, 0) {
        Some(p) => p,
        None => {
            return None;
        },
    };
    let val = match cookie_value(&part) {
        Some(v) => v,
        None => {
            return None;
        },
    };
    let vn = val.len();
    let start = match find_byte(&val, 0, 45) {
        Some(i) => {
            proof {
                lemma_find_pins(val@, 0, i as int, 45);
            }
            i + 1
        },
        None => {
            proof {
                lemma_find_none(val@, 0, 45);
            }
            0
        },
    };
    let body = subvec(&val, start, vn);
    let pairs = match form_pairs(&body) {
        Some(ps) => ps,
        None => {
            return None;
        },
    };
    let key = session_id_key_vec();
    find_pair_vec(&pairs, &key)
}

/// What the query string (without its leading `?`) selects as the flag
/// channel: the value under `flag`, when it names one; unknown values
/// leave the socket flagless.
pub open spec fn flag_of_query_spec(q: Seq<u8>) -> Option<Flag> {
    match form_pairs_of(q) {
        None => None,
        Some(ps) => match find_pair(ps, flag_key()) {
            None => None,
            Some(v) => if v == word_simul() {
                Some(Flag::Simul)
            } else if v == word_tournament() {
                Some(Flag::Tournament)
            } else {
                None
            },
        },
    }
}

/// Reads the flag parameter out of a query string.
pub fn flag_of_query(q: &Vec<u8>) -> (r: Option<Flag>)
    ensures
        r == flag_of_query_spec(q@),
{
    let pairs = match form_pairs(q) {
        Some(ps) => ps,
        None => {
            return None;
        },
    };
    let key = flag_key_vec();
    let v = match find_pair_vec(&pairs, &key) {
        Some(v) => v,
        None => {
            return None;
        },
    };
    if bytes_eq(&v, &word_simul_vec()) {
        Some(Flag::Simul)
    } else if bytes_eq(&v, &word_tournament_vec()) {
        Some(Flag::Tournament)
    } else {
        None
    }
}

} // verus!
