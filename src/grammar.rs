use vstd::prelude::*;

use crate::frame::{FrameV, RespError};
use crate::lex::lemma_key_cmp_zero;

verus! {

pub const CR: u8 = 13;
pub const LF: u8 = 10;
pub const PLUS: u8 = 43;
pub const MINUS: u8 = 45;
pub const COLON: u8 = 58;
pub const DOLLAR: u8 = 36;
pub const STAR: u8 = 42;
pub const UNDERSCORE: u8 = 95;
pub const HASH: u8 = 35;
pub const COMMA: u8 = 44;
pub const PERCENT: u8 = 37;

/// The prefix bytes that open a frame.
pub open spec fn known_prefix(b: u8) -> bool {
    b == PLUS || b == MINUS || b == COLON || b == DOLLAR || b == STAR || b == UNDERSCORE
        || b == HASH || b == COMMA || b == PERCENT
}

/// A CRLF pair starts at index `i`.
pub open spec fn crlf_at(s: Seq<u8>, i: int) -> bool {
    0 <= i && i + 1 < s.len() && s[i] == CR && s[i + 1] == LF
}

/// The index of the first CRLF at or after `i`, if there is one.
pub open spec fn line_end(s: Seq<u8>, i: int) -> Option<int>
    decreases s.len() - i,
{
    if i < 0 || i + 1 >= s.len() {
        None
    } else if crlf_at(s, i) {
        Some(i)
    } else {
        line_end(s, i + 1)
    }
}

/// The text holds no CRLF pair.
pub open spec fn no_crlf(t: Seq<u8>) -> bool {
    forall|i: int| 0 <= i < t.len() - 1 ==> !(#[trigger] t[i] == CR && t[i + 1] == LF)
}

pub open spec fn is_digit(b: u8) -> bool {
    48 <= b <= 57
}

pub open spec fn all_digits(t: Seq<u8>) -> bool {
    forall|i: int| 0 <= i < t.len() ==> is_digit(#[trigger] t[i])
}

/// The number that a run of decimal digits denotes.
pub open spec fn digits_val(t: Seq<u8>) -> nat
    decreases t.len(),
{
    if t.len() == 0 {
        0
    } else {
        digits_val(t.drop_last()) * 10 + (t.last() as int - 48) as nat
    }
}

/// Where the sign of an integer literal ends.
pub open spec fn sign_len(t: Seq<u8>) -> int {
    if t.len() > 0 && (t[0] == PLUS || t[0] == MINUS) {
        1
    } else {
        0
    }
}

/// An integer literal: an optional sign, then one or more digits, in the range of `i64`.
pub open spec fn parse_int(t: Seq<u8>) -> Option<int> {
    let d = t.subrange(sign_len(t), t.len() as int);
    if d.len() == 0 || !all_digits(d) {
        None
    } else {
        let v = if t[0] == MINUS {
            -digits_val(d)
        } else {
            digits_val(d) as int
        };
        if i64::MIN <= v <= i64::MAX {
            Some(v)
        } else {
            None
        }
    }
}

/// The index after the run of digits that starts at `i`.
pub open spec fn digit_run(t: Seq<u8>, i: int) -> int
    decreases t.len() - i,
{
    if 0 <= i < t.len() && is_digit(t[i]) {
        digit_run(t, i + 1)
    } else {
        i
    }
}

/// The end of an exponent part `[eE][+-]?digits` that starts at `d`, or `d`
/// itself where none starts there.
pub open spec fn exponent_end(t: Seq<u8>, d: int) -> int {
    if 0 <= d < t.len() && (t[d] == 101 || t[d] == 69) {
        let g = if d + 1 < t.len() && (t[d + 1] == PLUS || t[d + 1] == MINUS) {
            d + 2
        } else {
            d + 1
        };
        let h = digit_run(t, g);
        if h > g {
            h
        } else {
            d
        }
    } else {
        d
    }
}

/// ASCII lower case of a byte.
pub open spec fn ascii_lower(b: u8) -> u8 {
    if 65 <= b <= 90 {
        (b + 32) as u8
    } else {
        b
    }
}

/// The bytes in ASCII lower case.
pub open spec fn ascii_lowered(r: Seq<u8>) -> Seq<u8> {
    Seq::new(r.len(), |i: int| ascii_lower(r[i]))
}

/// `inf`, `infinity` or `nan`, in any case.
pub open spec fn is_special_float(r: Seq<u8>) -> bool {
    let l = ascii_lowered(r);
    l == seq![105u8, 110u8, 102u8] || l == seq![105u8, 110u8, 102u8, 105u8, 110u8, 105u8, 116u8, 121u8]
        || l == seq![110u8, 97u8, 110u8]
}

/// A floating literal: an optional sign, then `inf`, `infinity` or `nan` in
/// any case, or digits with an
/// optional fraction (at least one digit in all) and an optional exponent.
pub open spec fn is_float_literal(t: Seq<u8>) -> bool {
    let a = sign_len(t);
    let r = t.subrange(a, t.len() as int);
    if is_special_float(r) {
        true
    } else {
        let b = digit_run(t, a);
        let c = if b < t.len() && t[b] == 46 {
            b + 1
        } else {
            b
        };
        let d = if c > b {
            digit_run(t, c)
        } else {
            c
        };
        (b - a) + (d - c) > 0 && exponent_end(t, d) == t.len()
    }
}

/// Byte-wise lexicographic comparison: negative, zero or positive.
pub open spec fn key_cmp(a: Seq<u8>, b: Seq<u8>) -> int
    decreases a.len(),
{
    if a.len() == 0 {
        if b.len() == 0 {
            0
        } else {
            -1
        }
    } else if b.len() == 0 {
        1
    } else if a[0] < b[0] {
        -1
    } else if a[0] > b[0] {
        1
    } else {
        key_cmp(a.drop_first(), b.drop_first())
    }
}

/// Inserts a pair into a map held in ascending key order; a pair with an equal
/// key is replaced.
pub open spec fn ins(m: Seq<(Seq<u8>, FrameV)>, k: Seq<u8>, v: FrameV) -> Seq<(Seq<u8>, FrameV)>
    decreases m.len(),
{
    if m.len() == 0 {
        seq![(k, v)]
    } else if key_cmp(m.last().0, k) == 0 {
        m.drop_last().push((k, v))
    } else if key_cmp(m.last().0, k) < 0 {
        m.push((k, v))
    } else {
        ins(m.drop_last(), k, v).push(m.last())
    }
}

/// The frame that starts at position `p` of `s`, with the position just after it.
pub open spec fn parse_at(s: Seq<u8>, p: int) -> Result<(FrameV, int), RespError>
    decreases s.len() - p, 0int, 0int,
{
    if p < 0 || p >= s.len() {
        Err(RespError::NotComplete)
    } else if !known_prefix(s[p]) {
        Err(RespError::InvalidFrame)
    } else {
        match line_end(s, p + 1) {
            None => Err(RespError::NotComplete),
            Some(e) => {
                let t = s.subrange(p + 1, e);
                let h = e + 2;
                if !(p < e && h <= s.len()) {
                    Err(RespError::NotComplete)
                } else if s[p] == PLUS {
                    Ok((FrameV::Simple(t), h))
                } else if s[p] == MINUS {
                    Ok((FrameV::Error(t), h))
                } else if s[p] == UNDERSCORE {
                    if t.len() == 0 {
                        Ok((FrameV::Null, h))
                    } else {
                        Err(RespError::InvalidFrame)
                    }
                } else if s[p] == HASH {
                    if t == seq![116u8] {
                        Ok((FrameV::Boolean(true), h))
                    } else if t == seq![102u8] {
                        Ok((FrameV::Boolean(false), h))
                    } else {
                        Err(RespError::InvalidFrame)
                    }
                } else if s[p] == COMMA {
                    if is_float_literal(t) {
                        Ok((FrameV::Double(t), h))
                    } else {
                        Err(RespError::InvalidFrame)
                    }
                } else {
                    match parse_int(t) {
                        None => Err(RespError::InvalidFrame),
                        Some(n) => {
                            if s[p] == COLON {
                                Ok((FrameV::Integer(n), h))
                            } else if s[p] == DOLLAR {
                                if n == -1 {
                                    Ok((FrameV::Bulk(None), h))
                                } else if n < -1 {
                                    Err(RespError::InvalidFrame)
                                } else if s.len() < h + n + 2 {
                                    Err(RespError::NotComplete)
                                } else if !crlf_at(s, h + n) {
                                    Err(RespError::InvalidFrame)
                                } else {
                                    Ok((FrameV::Bulk(Some(s.subrange(h, h + n))), h + n + 2))
                                }
                            } else if s[p] == STAR {
                                if n == -1 {
                                    Ok((FrameV::Array(None), h))
                                } else if n < -1 {
                                    Err(RespError::InvalidFrame)
                                } else {
                                    match parse_items(s, h, n as nat) {
                                        Ok((items, q)) => Ok((FrameV::Array(Some(items)), q)),
                                        Err(x) => Err(x),
                                    }
                                }
                            } else {
                                if n <= 0 || n % 2 != 0 {
                                    Err(RespError::InvalidFrame)
                                } else {
                                    match parse_pairs(s, h, (n / 2) as nat, Seq::empty()) {
                                        Ok((m, q)) => Ok((FrameV::Dict(m), q)),
                                        Err(x) => Err(x),
                                    }
                                }
                            }
                        },
                    }
                }
            },
        }
    }
}

/// `k` frames one after another from position `q`.
pub open spec fn parse_items(s: Seq<u8>, q: int, k: nat) -> Result<(Seq<FrameV>, int), RespError>
    decreases s.len() - q, 1int, k,
{
    if k == 0 {
        Ok((Seq::empty(), q))
    } else {
        match parse_at(s, q) {
            Err(x) => Err(x),
            Ok((f, q2)) => {
                if q < q2 && q2 <= s.len() {
                    match parse_items(s, q2, (k - 1) as nat) {
                        Ok((fs, q3)) => Ok((seq![f] + fs, q3)),
                        Err(x) => Err(x),
                    }
                } else {
                    Err(RespError::InvalidFrame)
                }
            },
        }
    }
}

/// `k` key/value pairs from position `q`, each key a `+` line, inserted into `acc`.
pub open spec fn parse_pairs(s: Seq<u8>, q: int, k: nat, acc: Seq<(Seq<u8>, FrameV)>) -> Result<
    (Seq<(Seq<u8>, FrameV)>, int),
    RespError,
>
    decreases s.len() - q, 1int, k,
{
    if k == 0 {
        Ok((acc, q))
    } else if q < 0 || q >= s.len() {
        Err(RespError::NotComplete)
    } else if s[q] != PLUS {
        Err(RespError::InvalidFrame)
    } else {
        match line_end(s, q + 1) {
            None => Err(RespError::NotComplete),
            Some(e) => {
                if !(q < e && e + 2 <= s.len()) {
                    Err(RespError::NotComplete)
                } else {
                    match parse_at(s, e + 2) {
                        Err(x) => Err(x),
                        Ok((f, q2)) => {
                            if e + 2 < q2 && q2 <= s.len() {
                                parse_pairs(s, q2, (k - 1) as nat, ins(acc, s.subrange(q + 1, e), f))
                            } else {
                                Err(RespError::InvalidFrame)
                            }
                        },
                    }
                }
            },
        }
    }
}

/// The frame at the start of `s`.
pub open spec fn parse(s: Seq<u8>) -> Result<(FrameV, int), RespError> {
    parse_at(s, 0)
}

/// The length of the frame at the start of `s`, as the scan reports it.
pub open spec fn frame_length(s: Seq<u8>) -> Result<int, RespError> {
    match parse(s) {
        Ok((_, n)) => Ok(n),
        Err(x) => Err(x),
    }
}

} // verus!

verus! {

pub proof fn lemma_parse_items_bounds(s: Seq<u8>, q: int, k: nat)
    requires
        0 <= q <= s.len(),
    ensures
        parse_items(s, q, k) is Ok ==> q <= parse_items(s, q, k)->Ok_0.1 <= s.len(),
    decreases k,
{
    if k > 0 {
        match parse_at(s, q) {
            Ok((f, q2)) => {
                if q < q2 && q2 <= s.len() {
                    lemma_parse_items_bounds(s, q2, (k - 1) as nat);
                }
            },
            Err(_) => {},
        }
    }
}

pub proof fn lemma_parse_pairs_bounds(s: Seq<u8>, q: int, k: nat, acc: Seq<(Seq<u8>, FrameV)>)
    requires
        0 <= q <= s.len(),
    ensures
        parse_pairs(s, q, k, acc) is Ok ==> q <= parse_pairs(s, q, k, acc)->Ok_0.1 <= s.len(),
    decreases k,
{
    if k > 0 && 0 <= q < s.len() && s[q] == PLUS {
        match line_end(s, q + 1) {
            Some(e) => {
                if q < e && e + 2 <= s.len() {
                    match parse_at(s, e + 2) {
                        Ok((f, q2)) => {
                            if e + 2 < q2 && q2 <= s.len() {
                                lemma_parse_pairs_bounds(
                                    s,
                                    q2,
                                    (k - 1) as nat,
                                    ins(acc, s.subrange(q + 1, e), f),
                                );
                            }
                        },
                        Err(_) => {},
                    }
                }
            },
            None => {},
        }
    }
}

/// A frame that parses ends after its start and within the bytes.
pub proof fn lemma_parse_at_bounds(s: Seq<u8>, p: int)
    ensures
        parse_at(s, p) is Ok ==> p < parse_at(s, p)->Ok_0.1 <= s.len(),
{
    if 0 <= p < s.len() && known_prefix(s[p]) {
        match line_end(s, p + 1) {
            Some(e) => {
                let h = e + 2;
                if p < e && h <= s.len() {
                    match parse_int(s.subrange(p + 1, e)) {
                        Some(n) => {
                            if n >= 0 {
                                lemma_parse_items_bounds(s, h, n as nat);
                            }
                            if n > 0 {
                                lemma_parse_pairs_bounds(s, h, (n / 2) as nat, Seq::empty());
                            }
                        },
                        None => {},
                    }
                }
            },
            None => {},
        }
    }
}

} // verus!

verus! {

/// Keys strictly ascend from each pair to the next.
pub open spec fn keys_ascending(m: Seq<(Seq<u8>, FrameV)>) -> bool {
    forall|i: int| 0 <= i < m.len() - 1 ==> key_cmp((#[trigger] m[i]).0, m[i + 1].0) < 0
}

pub proof fn lemma_key_cmp_flip(a: Seq<u8>, b: Seq<u8>)
    ensures
        key_cmp(a, b) > 0 ==> key_cmp(b, a) < 0,
    decreases a.len(),
{
    if a.len() > 0 && b.len() > 0 && a[0] == b[0] {
        lemma_key_cmp_flip(a.drop_first(), b.drop_first());
    }
}

/// Inserting into a map with ascending keys keeps them ascending.
pub proof fn lemma_ins_ascending(m: Seq<(Seq<u8>, FrameV)>, k: Seq<u8>, v: FrameV)
    requires
        keys_ascending(m),
    ensures
        keys_ascending(ins(m, k, v)),
        ins(m, k, v).len() > 0,
        ins(m, k, v).last().0 == k || (m.len() > 0 && ins(m, k, v).last() == m.last()),
    decreases m.len(),
{
    let r = ins(m, k, v);
    if m.len() == 0 {
    } else if key_cmp(m.last().0, k) == 0 {
        lemma_key_cmp_zero(m.last().0, k);
        assert forall|i: int| 0 <= i < r.len() - 1 implies key_cmp((#[trigger] r[i]).0, r[i + 1].0) < 0 by {
            assert(r[i] == m[i]);
            if i + 1 < r.len() - 1 {
                assert(r[i + 1] == m[i + 1]);
            }
        }
    } else if key_cmp(m.last().0, k) < 0 {
        assert forall|i: int| 0 <= i < r.len() - 1 implies key_cmp((#[trigger] r[i]).0, r[i + 1].0) < 0 by {
            assert(r[i] == m[i]);
            if i + 1 < r.len() - 1 {
                assert(r[i + 1] == m[i + 1]);
            }
        }
    } else {
        let d = m.drop_last();
        assert(keys_ascending(d)) by {
            assert forall|i: int| 0 <= i < d.len() - 1 implies key_cmp((#[trigger] d[i]).0, d[i + 1].0) < 0 by {
                assert(d[i] == m[i]);
                assert(d[i + 1] == m[i + 1]);
            }
        }
        lemma_ins_ascending(d, k, v);
        let r2 = ins(d, k, v);
        lemma_key_cmp_flip(m.last().0, k);
        if r2.last().0 != k {
            assert(d.last() == m[m.len() - 2]);
        }
        assert(key_cmp(r2.last().0, m.last().0) < 0);
        assert forall|i: int| 0 <= i < r.len() - 1 implies key_cmp((#[trigger] r[i]).0, r[i + 1].0) < 0 by {
            assert(r[i] == r2[i]);
            if i + 1 < r.len() - 1 {
                assert(r[i + 1] == r2[i + 1]);
            }
        }
    }
}

} // verus!
