//! Client-bound frames: the JSON the gateway writes to sockets, framed
//! and escaped byte by byte, and the per-message discipline of the
//! socket handler.

use vstd::prelude::*;

use crate::ids::GameId;
use crate::text::{dec_digits, push_u32_decimal, push_all, bytes_eq};

verus! {

/// The literal `{"t":"fen","d":{"id":"`.
pub open spec fn lit_fen_head() -> Seq<u8> {
    seq![123u8, 34, 116, 34, 58, 34, 102, 101, 110, 34, 44, 34, 100, 34, 58, 123, 34, 105, 100, 34, 58, 34]
}

fn lit_fen_head_vec() -> (v: Vec<u8>)
    ensures
        v@ == lit_fen_head(),
{
    let mut v: Vec<u8> = Vec::new();
    v.push(123);
    v.push(34);
    v.push(116);
    v.push(34);
    v.push(58);
    v.push(34);
    v.push(102);
    v.push(101);
    v.push(110);
    v.push(34);
    v.push(44);
    v.push(34);
    v.push(100);
    v.push(34);
    v.push(58);
    v.push(123);
    v.push(34);
    v.push(105);
    v.push(100);
    v.push(34);
    v.push(58);
    v.push(34);
    proof {
        assert(v@ =~= lit_fen_head());
    }
    v
}

/// The literal `","fen":"`.
pub open spec fn lit_fen_mid() -> Seq<u8> {
    seq![34u8, 44, 34, 102, 101, 110, 34, 58, 34]
}

fn lit_fen_mid_vec() -> (v: Vec<u8>)
    ensures
        v@ == lit_fen_mid(),
{
    let mut v: Vec<u8> = Vec::new();
    v.push(34);
    v.push(44);
    v.push(34);
    v.push(102);
    v.push(101);
    v.push(110);
    v.push(34);
    v.push(58);
    v.push(34);
    proof {
        assert(v@ =~= lit_fen_mid());
    }
    v
}

/// The literal `","lm":"`.
pub open spec fn lit_lm_mid() -> Seq<u8> {
    seq![34u8, 44, 34, 108, 109, 34, 58, 34]
}

fn lit_lm_mid_vec() -> (v: Vec<u8>)
    ensures
        v@ == lit_lm_mid(),
{
    let mut v: Vec<u8> = Vec::new();
    v.push(34);
    v.push(44);
    v.push(34);
    v.push(108);
    v.push(109);
    v.push(34);
    v.push(58);
    v.push(34);
    proof {
        assert(v@ =~= lit_lm_mid());
    }
    v
}

/// The literal `"}}`.
pub open spec fn lit_obj_end() -> Seq<u8> {
    seq![34u8, 125, 125]
}

fn lit_obj_end_vec() -> (v: Vec<u8>)
    ensures
        v@ == lit_obj_end(),
{
    let mut v: Vec<u8> = Vec::new();
    v.push(34);
    v.push(125);
    v.push(125);
    proof {
        assert(v@ =~= lit_obj_end());
    }
    v
}

/// The literal `{"t":"mlat","d":`.
pub open spec fn lit_mlat_head() -> Seq<u8> {
    seq![123u8, 34, 116, 34, 58, 34, 109, 108, 97, 116, 34, 44, 34, 100, 34, 58]
}

fn lit_mlat_head_vec() -> (v: Vec<u8>)
    ensures
        v@ == lit_mlat_head(),
{
    let mut v: Vec<u8> = Vec::new();
    v.push(123);
    v.push(34);
    v.push(116);
    v.push(34);
    v.push(58);
    v.push(34);
    v.push(109);
    v.push(108);
    v.push(97);
    v.push(116);
    v.push(34);
    v.push(44);
    v.push(34);
    v.push(100);
    v.push(34);
    v.push(58);
    proof {
        assert(v@ =~= lit_mlat_head());
    }
    v
}

/// The literal `}`.
pub open spec fn lit_close_brace() -> Seq<u8> {
    seq![125u8]
}

fn lit_close_brace_vec() -> (v: Vec<u8>)
    ensures
        v@ == lit_close_brace(),
{
    let mut v: Vec<u8> = Vec::new();
    v.push(125);
    proof {
        assert(v@ =~= lit_close_brace());
    }
    v
}

/// The literal `{"t":"opening","d":{"path":"`.
pub open spec fn lit_opening_head() -> Seq<u8> {
    seq![123u8, 34, 116, 34, 58, 34, 111, 112, 101, 110, 105, 110, 103, 34, 44, 34, 100, 34, 58, 123, 34, 112, 97, 116, 104, 34, 58, 34]
}

fn lit_opening_head_vec() -> (v: Vec<u8>)
    ensures
        v@ == lit_opening_head(),
{
    let mut v: Vec<u8> = Vec::new();
    v.push(123);
    v.push(34);
    v.push(116);
    v.push(34);
    v.push(58);
    v.push(34);
    v.push(111);
    v.push(112);
    v.push(101);
    v.push(110);
    v.push(105);
    v.push(110);
    v.push(103);
    v.push(34);
    v.push(44);
    v.push(34);
    v.push(100);
    v.push(34);
    v.push(58);
    v.push(123);
    v.push(34);
    v.push(112);
    v.push(97);
    v.push(116);
    v.push(104);
    v.push(34);
    v.push(58);
    v.push(34);
    proof {
        assert(v@ =~= lit_opening_head());
    }
    v
}

/// The literal `","opening":{"eco":"`.
pub open spec fn lit_opening_mid() -> Seq<u8> {
    seq![34u8, 44, 34, 111, 112, 101, 110, 105, 110, 103, 34, 58, 123, 34, 101, 99, 111, 34, 58, 34]
}

fn lit_opening_mid_vec() -> (v: Vec<u8>)
    ensures
        v@ == lit_opening_mid(),
{
    let mut v: Vec<u8> = Vec::new();
    v.push(34);
    v.push(44);
    v.push(34);
    v.push(111);
    v.push(112);
    v.push(101);
    v.push(110);
    v.push(105);
    v.push(110);
    v.push(103);
    v.push(34);
    v.push(58);
    v.push(123);
    v.push(34);
    v.push(101);
    v.push(99);
    v.push(111);
    v.push(34);
    v.push(58);
    v.push(34);
    proof {
        assert(v@ =~= lit_opening_mid());
    }
    v
}

/// The literal `","name":"`.
pub open spec fn lit_name_mid() -> Seq<u8> {
    seq![34u8, 44, 34, 110, 97, 109, 101, 34, 58, 34]
}

fn lit_name_mid_vec() -> (v: Vec<u8>)
    ensures
        v@ == lit_name_mid(),
{
    let mut v: Vec<u8> = Vec::new();
    v.push(34);
    v.push(44);
    v.push(34);
    v.push(110);
    v.push(97);
    v.push(109);
    v.push(101);
    v.push(34);
    v.push(58);
    v.push(34);
    proof {
        assert(v@ =~= lit_name_mid());
    }
    v
}

/// The literal `"}}}`.
pub open spec fn lit_opening_end() -> Seq<u8> {
    seq![34u8, 125, 125, 125]
}

fn lit_opening_end_vec() -> (v: Vec<u8>)
    ensures
        v@ == lit_opening_end(),
{
    let mut v: Vec<u8> = Vec::new();
    v.push(34);
    v.push(125);
    v.push(125);
    v.push(125);
    proof {
        assert(v@ =~= lit_opening_end());
    }
    v
}

/// The literal `{"t":"dests","d":{"path":"`.
pub open spec fn lit_dests_head() -> Seq<u8> {
    seq![123u8, 34, 116, 34, 58, 34, 100, 101, 115, 116, 115, 34, 44, 34, 100, 34, 58, 123, 34, 112, 97, 116, 104, 34, 58, 34]
}

fn lit_dests_head_vec() -> (v: Vec<u8>)
    ensures
        v@ == lit_dests_head(),
{
    let mut v: Vec<u8> = Vec::new();
    v.push(123);
    v.push(34);
    v.push(116);
    v.push(34);
    v.push(58);
    v.push(34);
    v.push(100);
    v.push(101);
    v.push(115);
    v.push(116);
    v.push(115);
    v.push(34);
    v.push(44);
    v.push(34);
    v.push(100);
    v.push(34);
    v.push(58);
    v.push(123);
    v.push(34);
    v.push(112);
    v.push(97);
    v.push(116);
    v.push(104);
    v.push(34);
    v.push(58);
    v.push(34);
    proof {
        assert(v@ =~= lit_dests_head());
    }
    v
}

/// The literal `","dests":"`.
pub open spec fn lit_dests_mid() -> Seq<u8> {
    seq![34u8, 44, 34, 100, 101, 115, 116, 115, 34, 58, 34]
}

fn lit_dests_mid_vec() -> (v: Vec<u8>)
    ensures
        v@ == lit_dests_mid(),
{
    let mut v: Vec<u8> = Vec::new();
    v.push(34);
    v.push(44);
    v.push(34);
    v.push(100);
    v.push(101);
    v.push(115);
    v.push(116);
    v.push(115);
    v.push(34);
    v.push(58);
    v.push(34);
    proof {
        assert(v@ =~= lit_dests_mid());
    }
    v
}

/// The literal `","eco":"`.
pub open spec fn lit_eco_mid() -> Seq<u8> {
    seq![34u8, 44, 34, 101, 99, 111, 34, 58, 34]
}

fn lit_eco_mid_vec() -> (v: Vec<u8>)
    ensures
        v@ == lit_eco_mid(),
{
    let mut v: Vec<u8> = Vec::new();
    v.push(34);
    v.push(44);
    v.push(34);
    v.push(101);
    v.push(99);
    v.push(111);
    v.push(34);
    v.push(58);
    v.push(34);
    proof {
        assert(v@ =~= lit_eco_mid());
    }
    v
}

/// The literal `","ch":"`.
pub open spec fn lit_ch_mid() -> Seq<u8> {
    seq![34u8, 44, 34, 99, 104, 34, 58, 34]
}

fn lit_ch_mid_vec() -> (v: Vec<u8>)
    ensures
        v@ == lit_ch_mid(),
{
    let mut v: Vec<u8> = Vec::new();
    v.push(34);
    v.push(44);
    v.push(34);
    v.push(99);
    v.push(104);
    v.push(34);
    v.push(58);
    v.push(34);
    proof {
        assert(v@ =~= lit_ch_mid());
    }
    v
}

/// The literal `{"t":"destsFailure"}`.
pub open spec fn lit_dests_failure() -> Seq<u8> {
    seq![123u8, 34, 116, 34, 58, 34, 100, 101, 115, 116, 115, 70, 97, 105, 108, 117, 114, 101, 34, 125]
}

fn lit_dests_failure_vec() -> (v: Vec<u8>)
    ensures
        v@ == lit_dests_failure(),
{
    let mut v: Vec<u8> = Vec::new();
    v.push(123);
    v.push(34);
    v.push(116);
    v.push(34);
    v.push(58);
    v.push(34);
    v.push(100);
    v.push(101);
    v.push(115);
    v.push(116);
    v.push(115);
    v.push(70);
    v.push(97);
    v.push(105);
    v.push(108);
    v.push(117);
    v.push(114);
    v.push(101);
    v.push(34);
    v.push(125);
    proof {
        assert(v@ =~= lit_dests_failure());
    }
    v
}

/// The literal `{"t":"stepFailure"}`.
pub open spec fn lit_step_failure() -> Seq<u8> {
    seq![123u8, 34, 116, 34, 58, 34, 115, 116, 101, 112, 70, 97, 105, 108, 117, 114, 101, 34, 125]
}

fn lit_step_failure_vec() -> (v: Vec<u8>)
    ensures
        v@ == lit_step_failure(),
{
    let mut v: Vec<u8> = Vec::new();
    v.push(123);
    v.push(34);
    v.push(116);
    v.push(34);
    v.push(58);
    v.push(34);
    v.push(115);
    v.push(116);
    v.push(101);
    v.push(112);
    v.push(70);
    v.push(97);
    v.push(105);
    v.push(108);
    v.push(117);
    v.push(114);
    v.push(101);
    v.push(34);
    v.push(125);
    proof {
        assert(v@ =~= lit_step_failure());
    }
    v
}

/// The literal `null`.
pub open spec fn lit_null_word() -> Seq<u8> {
    seq![110u8, 117, 108, 108]
}

fn lit_null_word_vec() -> (v: Vec<u8>)
    ensures
        v@ == lit_null_word(),
{
    let mut v: Vec<u8> = Vec::new();
    v.push(110);
    v.push(117);
    v.push(108);
    v.push(108);
    proof {
        assert(v@ =~= lit_null_word());
    }
    v
}


/// The JSON escape of one byte: quote and backslash get a backslash,
/// control bytes become `\u00XX`, everything else passes through.
pub open spec fn escape_byte(b: u8) -> Seq<u8> {
    if b == 34 {
        seq![92u8, 34]
    } else if b == 92 {
        seq![92u8, 92]
    } else if b < 32 {
        seq![92u8, 117, 48, 48, hex_digit((b / 16) as u8), hex_digit((b % 16) as u8)]
    } else {
        seq![b]
    }
}

/// The lower-case hex digit for a value below sixteen.
pub open spec fn hex_digit(x: u8) -> u8 {
    if x < 10 {
        (48 + x) as u8
    } else {
        (87 + x) as u8
    }
}

/// The JSON escape of a byte string.
pub open spec fn json_escape_spec(s: Seq<u8>) -> Seq<u8>
    decreases s.len(),
{
    if s.len() == 0 {
        seq![]
    } else {
        json_escape_spec(s.drop_last()) + escape_byte(s.last())
    }
}

/// Appends the JSON escape of `s` to `out`.
pub fn push_json_escaped(out: &mut Vec<u8>, s: &Vec<u8>)
    ensures
        final(out)@ == old(out)@ + json_escape_spec(s@),
{
    let mut i: usize = 0;
    while i < s.len()
        invariant
            0 <= i <= s@.len(),
            out@ == old(out)@ + json_escape_spec(s@.subrange(0, i as int)),
        decreases s@.len() - i,
    {
        let b = s[i];
        if b == 34 {
            out.push(92);
            out.push(34);
        } else if b == 92 {
            out.push(92);
            out.push(92);
        } else if b < 32 {
            out.push(92);
            out.push(117);
            out.push(48);
            out.push(48);
            let hi = b / 16;
            let lo = b % 16;
            out.push(if hi < 10 { 48 + hi } else { 87 + hi });
            out.push(if lo < 10 { 48 + lo } else { 87 + lo });
        } else {
            out.push(b);
        }
        proof {
            assert(s@.subrange(0, i + 1).drop_last() =~= s@.subrange(0, i as int));
            assert(s@.subrange(0, i + 1).last() == s@[i as int]);
            assert(out@ =~= old(out)@ + json_escape_spec(s@.subrange(0, i + 1)));
        }
        i += 1;
    }
    proof {
        assert(s@.subrange(0, s@.len() as int) =~= s@);
    }
}

/// The `fen` frame a watcher receives on a board update.
pub open spec fn fen_msg_spec(game: Seq<u8>, fen: Seq<u8>, lm: Seq<u8>) -> Seq<u8> {
    lit_fen_head() + json_escape_spec(game) + lit_fen_mid() + json_escape_spec(fen) + lit_lm_mid()
        + json_escape_spec(lm) + lit_obj_end()
}

pub fn fen_msg(game: &GameId, fen: &Vec<u8>, lm: &Vec<u8>) -> (r: Vec<u8>)
    ensures
        r@ == fen_msg_spec(game@, fen@, lm@),
{
    let mut out = lit_fen_head_vec();
    push_json_escaped(&mut out, game.as_bytes());
    let m1 = lit_fen_mid_vec();
    push_all(&mut out, &m1);
    push_json_escaped(&mut out, fen);
    let m2 = lit_lm_mid_vec();
    push_all(&mut out, &m2);
    push_json_escaped(&mut out, lm);
    let m3 = lit_obj_end_vec();
    push_all(&mut out, &m3);
    proof {
        assert(out@ =~= fen_msg_spec(game@, fen@, lm@));
    }
    out
}

/// The `mlat` frame.
pub open spec fn mlat_msg_spec(n: u32) -> Seq<u8> {
    lit_mlat_head() + dec_digits(n as nat) + lit_close_brace()
}

pub fn mlat_msg(n: u32) -> (r: Vec<u8>)
    ensures
        r@ == mlat_msg_spec(n),
{
    let mut out = lit_mlat_head_vec();
    push_u32_decimal(&mut out, n);
    let m = lit_close_brace_vec();
    push_all(&mut out, &m);
    proof {
        assert(out@ =~= mlat_msg_spec(n));
    }
    out
}

/// The pong: the bare string `0`.
pub open spec fn pong_spec() -> Seq<u8> {
    seq![48u8]
}

pub fn pong_msg() -> (r: Vec<u8>)
    ensures
        r@ == pong_spec(),
{
    let mut out: Vec<u8> = Vec::new();
    out.push(48);
    proof {
        assert(out@ =~= pong_spec());
    }
    out
}

/// The `opening` frame.
pub open spec fn opening_msg_spec(path: Seq<u8>, eco: Seq<u8>, name: Seq<u8>) -> Seq<u8> {
    lit_opening_head() + json_escape_spec(path) + lit_opening_mid() + json_escape_spec(eco)
        + lit_name_mid() + json_escape_spec(name) + lit_opening_end()
}

pub fn opening_msg(path: &Vec<u8>, eco: &Vec<u8>, name: &Vec<u8>) -> (r: Vec<u8>)
    ensures
        r@ == opening_msg_spec(path@, eco@, name@),
{
    let mut out = lit_opening_head_vec();
    push_json_escaped(&mut out, path);
    let m1 = lit_opening_mid_vec();
    push_all(&mut out, &m1);
    push_json_escaped(&mut out, eco);
    let m2 = lit_name_mid_vec();
    push_all(&mut out, &m2);
    push_json_escaped(&mut out, name);
    let m3 = lit_opening_end_vec();
    push_all(&mut out, &m3);
    proof {
        assert(out@ =~= opening_msg_spec(path@, eco@, name@));
    }
    out
}

/// The `dests` frame: path and dests, then the opening fields when an
/// opening was found, then the chapter id when the request carried one.
pub open spec fn dests_msg_spec(
    path: Seq<u8>,
    dests: Seq<u8>,
    opening: Option<(Seq<u8>, Seq<u8>)>,
    chapter: Option<Seq<u8>>,
) -> Seq<u8> {
    lit_dests_head() + json_escape_spec(path) + lit_dests_mid() + json_escape_spec(dests) + (
    match opening {
        Some(o) => lit_eco_mid() + json_escape_spec(o.0) + lit_name_mid() + json_escape_spec(o.1),
        None => seq![],
    }) + (match chapter {
        Some(c) => lit_ch_mid() + json_escape_spec(c),
        None => seq![],
    }) + lit_obj_end()
}

/// Builds the `dests` frame from its parts.
pub fn dests_msg(
    path: &Vec<u8>,
    dests: &Vec<u8>,
    opening: Option<(&Vec<u8>, &Vec<u8>)>,
    chapter: Option<&Vec<u8>>,
) -> (r: Vec<u8>)
    ensures
        r@ == dests_msg_spec(
            path@,
            dests@,
            match opening {
                Some(o) => Some((o.0@, o.1@)),
                None => None,
            },
            match chapter {
                Some(c) => Some(c@),
                None => None,
            },
        ),
{
    let mut out = lit_dests_head_vec();
    push_json_escaped(&mut out, path);
    let m1 = lit_dests_mid_vec();
    push_all(&mut out, &m1);
    push_json_escaped(&mut out, dests);
    match opening {
        Some((eco, name)) => {
            let m2 = lit_eco_mid_vec();
            push_all(&mut out, &m2);
            push_json_escaped(&mut out, eco);
            let m3 = lit_name_mid_vec();
            push_all(&mut out, &m3);
            push_json_escaped(&mut out, name);
        },
        None => {},
    }
    match chapter {
        Some(c) => {
            let m4 = lit_ch_mid_vec();
            push_all(&mut out, &m4);
            push_json_escaped(&mut out, c);
        },
        None => {},
    }
    let m5 = lit_obj_end_vec();
    push_all(&mut out, &m5);
    proof {
        assert(out@ =~= dests_msg_spec(
            path@,
            dests@,
            match opening {
                Some(o) => Some((o.0@, o.1@)),
                None => None,
            },
            match chapter {
                Some(c) => Some(c@),
                None => None,
            },
        ));
    }
    out
}

/// The literal `{"t":"node","d":{"node":{"id":"`.
pub open spec fn lit_node_head() -> Seq<u8> {
    seq![123u8, 34, 116, 34, 58, 34, 110, 111, 100, 101, 34, 44, 34, 100, 34, 58, 123, 34, 110, 111, 100, 101, 34, 58, 123, 34, 105, 100, 34, 58, 34]
}

fn lit_node_head_vec() -> (v: Vec<u8>)
    ensures
        v@ == lit_node_head(),
{
    let mut v: Vec<u8> = Vec::new();
    v.push(123);
    v.push(34);
    v.push(116);
    v.push(34);
    v.push(58);
    v.push(34);
    v.push(110);
    v.push(111);
    v.push(100);
    v.push(101);
    v.push(34);
    v.push(44);
    v.push(34);
    v.push(100);
    v.push(34);
    v.push(58);
    v.push(123);
    v.push(34);
    v.push(110);
    v.push(111);
    v.push(100);
    v.push(101);
    v.push(34);
    v.push(58);
    v.push(123);
    v.push(34);
    v.push(105);
    v.push(100);
    v.push(34);
    v.push(58);
    v.push(34);
    proof {
        assert(v@ =~= lit_node_head());
    }
    v
}

/// The literal `","ply":`.
pub open spec fn lit_ply_mid() -> Seq<u8> {
    seq![34u8, 44, 34, 112, 108, 121, 34, 58]
}

fn lit_ply_mid_vec() -> (v: Vec<u8>)
    ensures
        v@ == lit_ply_mid(),
{
    let mut v: Vec<u8> = Vec::new();
    v.push(34);
    v.push(44);
    v.push(34);
    v.push(112);
    v.push(108);
    v.push(121);
    v.push(34);
    v.push(58);
    proof {
        assert(v@ =~= lit_ply_mid());
    }
    v
}

/// The literal `,"fen":"`.
pub open spec fn lit_fen_field() -> Seq<u8> {
    seq![44u8, 34, 102, 101, 110, 34, 58, 34]
}

fn lit_fen_field_vec() -> (v: Vec<u8>)
    ensures
        v@ == lit_fen_field(),
{
    let mut v: Vec<u8> = Vec::new();
    v.push(44);
    v.push(34);
    v.push(102);
    v.push(101);
    v.push(110);
    v.push(34);
    v.push(58);
    v.push(34);
    proof {
        assert(v@ =~= lit_fen_field());
    }
    v
}

/// The literal `","check":`.
pub open spec fn lit_check_mid() -> Seq<u8> {
    seq![34u8, 44, 34, 99, 104, 101, 99, 107, 34, 58]
}

fn lit_check_mid_vec() -> (v: Vec<u8>)
    ensures
        v@ == lit_check_mid(),
{
    let mut v: Vec<u8> = Vec::new();
    v.push(34);
    v.push(44);
    v.push(34);
    v.push(99);
    v.push(104);
    v.push(101);
    v.push(99);
    v.push(107);
    v.push(34);
    v.push(58);
    proof {
        assert(v@ =~= lit_check_mid());
    }
    v
}

/// The literal `true`.
pub open spec fn lit_word_true() -> Seq<u8> {
    seq![116u8, 114, 117, 101]
}

fn lit_word_true_vec() -> (v: Vec<u8>)
    ensures
        v@ == lit_word_true(),
{
    let mut v: Vec<u8> = Vec::new();
    v.push(116);
    v.push(114);
    v.push(117);
    v.push(101);
    proof {
        assert(v@ =~= lit_word_true());
    }
    v
}

/// The literal `false`.
pub open spec fn lit_word_false() -> Seq<u8> {
    seq![102u8, 97, 108, 115, 101]
}

fn lit_word_false_vec() -> (v: Vec<u8>)
    ensures
        v@ == lit_word_false(),
{
    let mut v: Vec<u8> = Vec::new();
    v.push(102);
    v.push(97);
    v.push(108);
    v.push(115);
    v.push(101);
    proof {
        assert(v@ =~= lit_word_false());
    }
    v
}

/// The literal `,"dests":"`.
pub open spec fn lit_dests_field() -> Seq<u8> {
    seq![44u8, 34, 100, 101, 115, 116, 115, 34, 58, 34]
}

fn lit_dests_field_vec() -> (v: Vec<u8>)
    ensures
        v@ == lit_dests_field(),
{
    let mut v: Vec<u8> = Vec::new();
    v.push(44);
    v.push(34);
    v.push(100);
    v.push(101);
    v.push(115);
    v.push(116);
    v.push(115);
    v.push(34);
    v.push(58);
    v.push(34);
    proof {
        assert(v@ =~= lit_dests_field());
    }
    v
}

/// The literal `","drops":"`.
pub open spec fn lit_drops_mid() -> Seq<u8> {
    seq![34u8, 44, 34, 100, 114, 111, 112, 115, 34, 58, 34]
}

fn lit_drops_mid_vec() -> (v: Vec<u8>)
    ensures
        v@ == lit_drops_mid(),
{
    let mut v: Vec<u8> = Vec::new();
    v.push(34);
    v.push(44);
    v.push(34);
    v.push(100);
    v.push(114);
    v.push(111);
    v.push(112);
    v.push(115);
    v.push(34);
    v.push(58);
    v.push(34);
    proof {
        assert(v@ =~= lit_drops_mid());
    }
    v
}

/// The literal `","crazyData":"`.
pub open spec fn lit_crazy_mid() -> Seq<u8> {
    seq![34u8, 44, 34, 99, 114, 97, 122, 121, 68, 97, 116, 97, 34, 58, 34]
}

fn lit_crazy_mid_vec() -> (v: Vec<u8>)
    ensures
        v@ == lit_crazy_mid(),
{
    let mut v: Vec<u8> = Vec::new();
    v.push(34);
    v.push(44);
    v.push(34);
    v.push(99);
    v.push(114);
    v.push(97);
    v.push(122);
    v.push(121);
    v.push(68);
    v.push(97);
    v.push(116);
    v.push(97);
    v.push(34);
    v.push(58);
    v.push(34);
    proof {
        assert(v@ =~= lit_crazy_mid());
    }
    v
}

/// The literal `"},"path":"`.
pub open spec fn lit_node_path() -> Seq<u8> {
    seq![34u8, 125, 44, 34, 112, 97, 116, 104, 34, 58, 34]
}

fn lit_node_path_vec() -> (v: Vec<u8>)
    ensures
        v@ == lit_node_path(),
{
    let mut v: Vec<u8> = Vec::new();
    v.push(34);
    v.push(125);
    v.push(44);
    v.push(34);
    v.push(112);
    v.push(97);
    v.push(116);
    v.push(104);
    v.push(34);
    v.push(58);
    v.push(34);
    proof {
        assert(v@ =~= lit_node_path());
    }
    v
}

/// The JSON word of a boolean.
pub open spec fn bool_word(b: bool) -> Seq<u8> {
    if b {
        lit_word_true()
    } else {
        lit_word_false()
    }
}

/// The `node` frame answering a successful analysis step. The opening
/// fields appear only when an opening was found; the chapter id only
/// when the request carried one.
pub open spec fn node_msg_spec(
    id: Seq<u8>,
    ply: u32,
    fen: Seq<u8>,
    check: bool,
    dests: Seq<u8>,
    opening: Option<(Seq<u8>, Seq<u8>)>,
    drops: Seq<u8>,
    crazy: Seq<u8>,
    path: Seq<u8>,
    chapter: Option<Seq<u8>>,
) -> Seq<u8> {
    lit_node_head() + json_escape_spec(id) + lit_ply_mid() + dec_digits(ply as nat)
        + lit_fen_field() + json_escape_spec(fen) + lit_check_mid() + bool_word(check)
        + lit_dests_field() + json_escape_spec(dests) + (match opening {
        Some(o) => lit_eco_mid() + json_escape_spec(o.0) + lit_name_mid() + json_escape_spec(o.1),
        None => seq![],
    }) + lit_drops_mid() + json_escape_spec(drops) + lit_crazy_mid() + json_escape_spec(crazy)
        + lit_node_path() + json_escape_spec(path) + (match chapter {
        Some(c) => lit_ch_mid() + json_escape_spec(c),
        None => seq![],
    }) + lit_obj_end()
}

/// Builds the `node` frame from its parts.
pub fn node_msg(
    id: &Vec<u8>,
    ply: u32,
    fen: &Vec<u8>,
    check: bool,
    dests: &Vec<u8>,
    opening: Option<(&Vec<u8>, &Vec<u8>)>,
    drops: &Vec<u8>,
    crazy: &Vec<u8>,
    path: &Vec<u8>,
    chapter: Option<&Vec<u8>>,
) -> (r: Vec<u8>)
    ensures
        r@ == node_msg_spec(
            id@,
            ply,
            fen@,
            check,
            dests@,
            match opening {
                Some(o) => Some((o.0@, o.1@)),
                None => None,
            },
            drops@,
            crazy@,
            path@,
            match chapter {
                Some(c) => Some(c@),
                None => None,
            },
        ),
{
    let mut out = lit_node_head_vec();
    push_json_escaped(&mut out, id);
    let m1 = lit_ply_mid_vec();
    push_all(&mut out, &m1);
    push_u32_decimal(&mut out, ply);
    let m2 = lit_fen_field_vec();
    push_all(&mut out, &m2);
    push_json_escaped(&mut out, fen);
    let m3 = lit_check_mid_vec();
    push_all(&mut out, &m3);
    let word = if check {
        lit_word_true_vec()
    } else {
        lit_word_false_vec()
    };
    push_all(&mut out, &word);
    let m4 = lit_dests_field_vec();
    push_all(&mut out, &m4);
    push_json_escaped(&mut out, dests);
    match opening {
        Some((eco, name)) => {
            let m5 = lit_eco_mid_vec();
            push_all(&mut out, &m5);
            push_json_escaped(&mut out, eco);
            let m6 = lit_name_mid_vec();
            push_all(&mut out, &m6);
            push_json_escaped(&mut out, name);
        },
        None => {},
    }
    let m7 = lit_drops_mid_vec();
    push_all(&mut out, &m7);
    push_json_escaped(&mut out, drops);
    let m8 = lit_crazy_mid_vec();
    push_all(&mut out, &m8);
    push_json_escaped(&mut out, crazy);
    let m9 = lit_node_path_vec();
    push_all(&mut out, &m9);
    push_json_escaped(&mut out, path);
    match chapter {
        Some(c) => {
            let m10 = lit_ch_mid_vec();
            push_all(&mut out, &m10);
            push_json_escaped(&mut out, c);
        },
        None => {},
    }
    let m11 = lit_obj_end_vec();
    push_all(&mut out, &m11);
    proof {
        assert(out@ =~= node_msg_spec(
            id@,
            ply,
            fen@,
            check,
            dests@,
            match opening {
                Some(o) => Some((o.0@, o.1@)),
                None => None,
            },
            drops@,
            crazy@,
            path@,
            match chapter {
                Some(c) => Some(c@),
                None => None,
            },
        ));
    }
    out
}

/// The `destsFailure` frame.
pub open spec fn dests_failure_spec() -> Seq<u8> {
    lit_dests_failure()
}

pub fn dests_failure_msg() -> (r: Vec<u8>)
    ensures
        r@ == dests_failure_spec(),
{
    lit_dests_failure_vec()
}

/// The `stepFailure` frame.
pub open spec fn step_failure_spec() -> Seq<u8> {
    lit_step_failure()
}

pub fn step_failure_msg() -> (r: Vec<u8>)
    ensures
        r@ == step_failure_spec(),
{
    lit_step_failure_vec()
}

/// What the per-message discipline does with a raw frame before any
/// parsing: the `null` ping shortcut is answered with the pong, a frame
/// over 1024 bytes closes the socket with code 1009, anything else is
/// handed to the JSON layer.
pub enum FrameClass {
    /// The literal `null`: reply `0` and stop.
    PingShortcut,
    /// Over 1024 bytes: close with code 1009.
    Oversized,
    /// To be parsed as a tagged JSON envelope.
    Payload,
}

pub open spec fn classify_frame_spec(msg: Seq<u8>) -> FrameClass {
    if msg == lit_null_word() {
        FrameClass::PingShortcut
    } else if msg.len() > 1024 {
        FrameClass::Oversized
    } else {
        FrameClass::Payload
    }
}

pub fn classify_frame(msg: &Vec<u8>) -> (r: FrameClass)
    ensures
        r == classify_frame_spec(msg@),
{
    let null_word = lit_null_word_vec();
    if bytes_eq(msg, &null_word) {
        FrameClass::PingShortcut
    } else if msg.len() > 1024 {
        FrameClass::Oversized
    } else {
        FrameClass::Payload
    }
}

/// The idle timer: fifteen seconds of silence close the socket.
pub open spec fn idle_timeout_ms() -> u64 {
    15000
}

/// The deadline set when a frame arrives or the socket opens.
pub fn idle_deadline_after(now_ms: u64) -> (r: u64)
    ensures
        r == (if now_ms + idle_timeout_ms() <= u64::MAX {
            (now_ms + idle_timeout_ms()) as u64
        } else {
            u64::MAX
        }),
{
    if now_ms <= u64::MAX - 15000 {
        now_ms + 15000
    } else {
        u64::MAX
    }
}

/// Whether the idle deadline has passed.
pub fn idle_expired(deadline: u64, now_ms: u64) -> (r: bool)
    ensures
        r == (now_ms >= deadline),
{
    now_ms >= deadline
}

/// The WebSocket close codes the gateway uses.
pub open spec fn close_protocol_error() -> u16 {
    1002
}

pub open spec fn close_oversized() -> u16 {
    1009
}

pub open spec fn close_idle() -> u16 {
    1001
}

} // verus!
