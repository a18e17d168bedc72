//! Byte-string utilities shared by the wire codec and the message handlers.

use vstd::prelude::*;

verus! {

/// Byte-exact equality of two byte strings.
pub fn bytes_eq(a: &Vec<u8>, b: &Vec<u8>) -> (r: bool)
    ensures
        r <==> a@ == b@,
{
    if a.len() != b.len() {
        proof {
            assert(a@.len() != b@.len());
        }
        return false;
    }
    let mut i: usize = 0;
    while i < a.len()
        invariant
            0 <= i <= a@.len(),
            a@.len() == b@.len(),
            forall|j: int| 0 <= j < i ==> a@[j] == b@[j],
        decreases a@.len() - i,
    {
        if a[i] != b[i] {
            return false;
        }
        i += 1;
    }
    proof {
        assert(a@ =~= b@);
    }
    true
}

/// Whether `p` is a prefix of `v`.
pub open spec fn has_prefix(v: Seq<u8>, p: Seq<u8>) -> bool {
    p.len() <= v.len() && v.subrange(0, p.len() as int) == p
}

pub fn starts_with(v: &Vec<u8>, p: &Vec<u8>) -> (r: bool)
    ensures
        r <==> has_prefix(v@, p@),
{
    if v.len() < p.len() {
        return false;
    }
    let mut i: usize = 0;
    while i < p.len()
        invariant
            0 <= i <= p@.len(),
            p@.len() <= v@.len(),
            forall|j: int| 0 <= j < i ==> v@[j] == p@[j],
        decreases p@.len() - i,
    {
        if v[i] != p[i] {
            proof {
                assert(v@.subrange(0, p@.len() as int)[i as int] != p@[i as int]);
            }
            return false;
        }
        i += 1;
    }
    proof {
        assert(v@.subrange(0, p@.len() as int) =~= p@);
    }
    true
}

/// The first position of `b` in `v` at or after `from`, if any.
pub fn find_byte(v: &Vec<u8>, from: usize, b: u8) -> (r: Option<usize>)
    requires
        from <= v@.len(),
    ensures
        match r {
            Some(i) => from <= i < v@.len() && v@[i as int] == b && (forall|j: int|
                from <= j < i ==> v@[j] != b),
            None => forall|j: int| from <= j < v@.len() ==> v@[j] != b,
        },
{
    let mut i: usize = from;
    while i < v.len()
        invariant
            from <= i <= v@.len(),
            forall|j: int| from <= j < i ==> v@[j] != b,
        decreases v@.len() - i,
    {
        if v[i] == b {
            return Some(i);
        }
        i += 1;
    }
    None
}

/// The last position of `b` in `v`, if any.
pub fn rfind_byte(v: &Vec<u8>, b: u8) -> (r: Option<usize>)
    ensures
        match r {
            Some(i) => i < v@.len() && v@[i as int] == b && (forall|j: int|
                i < j < v@.len() ==> v@[j] != b),
            None => forall|j: int| 0 <= j < v@.len() ==> v@[j] != b,
        },
{
    let mut i: usize = v.len();
    while i > 0
        invariant
            0 <= i <= v@.len(),
            forall|j: int| i <= j < v@.len() ==> v@[j] != b,
        decreases i,
    {
        i -= 1;
        if v[i] == b {
            return Some(i);
        }
    }
    None
}

/// A copy of the byte range `i..j` of `v`.
pub fn subvec(v: &Vec<u8>, i: usize, j: usize) -> (r: Vec<u8>)
    requires
        i <= j <= v@.len(),
    ensures
        r@ == v@.subrange(i as int, j as int),
{
    let mut out: Vec<u8> = Vec::new();
    let mut k: usize = i;
    while k < j
        invariant
            i <= k <= j <= v@.len(),
            out@ == v@.subrange(i as int, k as int),
        decreases j - k,
    {
        out.push(v[k]);
        proof {
            assert(out@ =~= v@.subrange(i as int, k + 1));
        }
        k += 1;
    }
    out
}

/// Appends all of `src` to `dst`.
pub fn push_all(dst: &mut Vec<u8>, src: &Vec<u8>)
    ensures
        final(dst)@ == old(dst)@ + src@,
{
    let mut k: usize = 0;
    while k < src.len()
        invariant
            0 <= k <= src@.len(),
            dst@ == old(dst)@ + src@.subrange(0, k as int),
        decreases src@.len() - k,
    {
        dst.push(src[k]);
        proof {
            assert(dst@ =~= old(dst)@ + src@.subrange(0, k + 1));
        }
        k += 1;
    }
    proof {
        assert(src@.subrange(0, src@.len() as int) =~= src@);
    }
}

/// Whether `b` is an ASCII decimal digit.
pub open spec fn is_digit(b: u8) -> bool {
    48 <= b && b <= 57
}

/// Whether `s` is one or more ASCII decimal digits.
pub open spec fn all_digits(s: Seq<u8>) -> bool {
    s.len() > 0 && (forall|i: int| 0 <= i < s.len() ==> is_digit(#[trigger] s[i]))
}

/// The value of a digit string read as a decimal number.
pub open spec fn dec_value(s: Seq<u8>) -> nat
    decreases s.len(),
{
    if s.len() == 0 {
        0
    } else {
        dec_value(s.drop_last()) * 10 + (s.last() - 48) as nat
    }
}

/// The canonical decimal digits of `n` (no leading zeros).
pub open spec fn dec_digits(n: nat) -> Seq<u8>
    decreases n,
{
    if n < 10 {
        seq![(48 + n) as u8]
    } else {
        dec_digits(n / 10).push((48 + n % 10) as u8)
    }
}

pub proof fn lemma_dec_digits_all_digits(n: nat)
    ensures
        all_digits(dec_digits(n)),
    decreases n,
{
    if n >= 10 {
        lemma_dec_digits_all_digits(n / 10);
        assert forall|i: int| 0 <= i < dec_digits(n).len() implies is_digit(
            #[trigger] dec_digits(n)[i],
        ) by {
            if i < dec_digits(n / 10).len() {
                assert(dec_digits(n)[i] == dec_digits(n / 10)[i]);
            }
        }
    }
}

/// Reading back the canonical digits of `n` yields `n`.
pub proof fn lemma_dec_round_trip(n: nat)
    ensures
        dec_value(dec_digits(n)) == n,
    decreases n,
{
    if n < 10 {
        assert(dec_digits(n).drop_last() =~= Seq::<u8>::empty());
        assert(dec_digits(n).last() == (48 + n) as u8);
        assert(((48 + n) as u8 - 48) as nat == n);
        assert(dec_value(dec_digits(n)) == dec_value(Seq::<u8>::empty()) * 10 + n);
    } else {
        lemma_dec_round_trip(n / 10);
        assert(dec_digits(n).drop_last() =~= dec_digits(n / 10));
        assert(dec_digits(n).last() == (48 + n % 10) as u8);
        assert(((48 + n % 10) as u8 - 48) as nat == n % 10);
        assert(dec_value(dec_digits(n)) == (n / 10) * 10 + n % 10);
        assert((n / 10) * 10 + n % 10 == n) by (nonlinear_arith);
    }
}

/// Appending digits to a digit string never decreases its value.
proof fn lemma_dec_value_prefix_le(s: Seq<u8>, i: int)
    requires
        0 <= i <= s.len(),
    ensures
        dec_value(s.subrange(0, i)) <= dec_value(s),
    decreases s.len() - i,
{
    if i < s.len() {
        lemma_dec_value_prefix_le(s, i + 1);
        assert(s.subrange(0, i + 1).drop_last() =~= s.subrange(0, i));
        assert(s.subrange(0, i + 1).last() == s[i]);
    } else {
        assert(s.subrange(0, i) =~= s);
    }
}

/// Parses a decimal `u32`; `None` when `s` is not all digits, is empty, or
/// overflows 32 bits.
pub fn parse_u32(s: &Vec<u8>) -> (r: Option<u32>)
    ensures
        match r {
            Some(n) => all_digits(s@) && n as nat == dec_value(s@),
            None => !(all_digits(s@) && dec_value(s@) <= u32::MAX),
        },
{
    if s.len() == 0 {
        return None;
    }
    let mut acc: u32 = 0;
    let mut i: usize = 0;
    while i < s.len()
        invariant
            0 < s@.len(),
            0 <= i <= s@.len(),
            forall|j: int| 0 <= j < i ==> is_digit(#[trigger] s@[j]),
            acc as nat == dec_value(s@.subrange(0, i as int)),
        decreases s@.len() - i,
    {
        let b = s[i];
        if !(48 <= b && b <= 57) {
            return None;
        }
        let d: u32 = (b - 48) as u32;
        if acc > (u32::MAX - d) / 10 {
            // the value of the whole string can only grow from here
            proof {
                assert(s@.subrange(0, i + 1).drop_last() =~= s@.subrange(0, i as int));
                assert(s@.subrange(0, i + 1).last() == s@[i as int]);
                assert(dec_value(s@.subrange(0, i + 1)) > u32::MAX) by {
                    assert(acc * 10 + d > u32::MAX) by (nonlinear_arith)
                        requires
                            acc > (u32::MAX - d) / 10,
                            d <= 9,
                    ;
                };
                lemma_dec_value_prefix_le(s@, i + 1);
            }
            return None;
        }
        proof {
            assert(s@.subrange(0, i + 1).drop_last() =~= s@.subrange(0, i as int));
            assert(s@.subrange(0, i + 1).last() == s@[i as int]);
            assert(acc * 10 + d <= u32::MAX) by (nonlinear_arith)
                requires
                    acc <= (u32::MAX - d) / 10,
                    d <= 9,
            ;
        }
        acc = acc * 10 + d;
        i += 1;
    }
    proof {
        assert(s@.subrange(0, s@.len() as int) =~= s@);
    }
    Some(acc)
}

/// Appends the canonical decimal digits of `n` to `out`.
pub fn push_u32_decimal(out: &mut Vec<u8>, n: u32)
    ensures
        final(out)@ == old(out)@ + dec_digits(n as nat),
    decreases n,
{
    if n < 10 {
        out.push(48 + n as u8);
        proof {
            assert(out@ =~= old(out)@ + dec_digits(n as nat));
        }
    } else {
        push_u32_decimal(out, n / 10);
        out.push(48 + (n % 10) as u8);
        proof {
            assert(out@ =~= old(out)@ + dec_digits(n as nat));
        }
    }
}

} // verus!
