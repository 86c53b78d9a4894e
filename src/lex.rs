use vstd::prelude::*;

use crate::grammar::{ascii_lower, ascii_lowered, all_digits, digit_run, digits_val, exponent_end, is_digit, is_float_literal, key_cmp, line_end, parse_int, sign_len, CR, LF, MINUS, PLUS};

verus! {

/// Finds the first CRLF at or after `from`.
pub fn find_line_end(s: &[u8], from: usize) -> (r: Option<usize>)
    ensures
        match r {
            Some(e) => line_end(s@, from as int) == Some(e as int) && from <= e && e + 1 < s.len(),
            None => line_end(s@, from as int) is None,
        },
{
    let mut i: usize = from;
    while i < s.len() && i + 1 < s.len()
        invariant
            from <= i,
            line_end(s@, from as int) == line_end(s@, i as int),
        decreases s.len() - i,
    {
        if s[i] == CR && s[i + 1] == LF {
            return Some(i);
        }
        i = i + 1;
    }
    None
}

/// A prefix of a run of digits never denotes more than the whole run.
proof fn lemma_digits_val_prefix(t: Seq<u8>, k: int)
    requires
        0 <= k <= t.len(),
        all_digits(t),
    ensures
        digits_val(t.subrange(0, k)) <= digits_val(t),
    decreases t.len(),
{
    if k < t.len() {
        let u = t.drop_last();
        assert(all_digits(u)) by {
            assert forall|i: int| 0 <= i < u.len() implies is_digit(#[trigger] u[i]) by {
                assert(u[i] == t[i]);
            }
        }
        assert(u.subrange(0, k) =~= t.subrange(0, k));
        lemma_digits_val_prefix(u, k);
        assert(is_digit(t[t.len() - 1]));
    } else {
        assert(t.subrange(0, k) =~= t);
    }
}

/// Reads an integer literal: an optional sign, then decimal digits, in the range of `i64`.
pub fn parse_int_bytes(t: &[u8]) -> (r: Option<i64>)
    ensures
        match r {
            Some(v) => parse_int(t@) == Some(v as int),
            None => parse_int(t@) is None,
        },
{
    let start: usize = if t.len() > 0 && (t[0] == PLUS || t[0] == MINUS) {
        1
    } else {
        0
    };
    let ghost d = t@.subrange(start as int, t@.len() as int);
    if start == t.len() {
        return None;
    }
    let mut acc: u64 = 0;
    let mut i: usize = start;
    while i < t.len()
        invariant
            start <= i <= t.len(),
            start == sign_len(t@),
            d == t@.subrange(start as int, t@.len() as int),
            all_digits(t@.subrange(start as int, i as int)),
            acc as nat == digits_val(t@.subrange(start as int, i as int)),
            acc <= 9223372036854775808,
        decreases t.len() - i,
    {
        let c = t[i];
        if !(48 <= c && c <= 57) {
            assert(!is_digit(d[i - start]));
            return None;
        }
        let v = (c - 48) as u64;
        let ghost prev = t@.subrange(start as int, i as int);
        let ghost next = t@.subrange(start as int, i + 1);
        assert(next.drop_last() =~= prev);
        assert(all_digits(next)) by {
            assert forall|j: int| 0 <= j < next.len() implies is_digit(#[trigger] next[j]) by {
                if j < prev.len() {
                    assert(next[j] == prev[j]);
                }
            }
        }
        if acc > 922337203685477580 || (acc == 922337203685477580 && v > 8) {
            proof {
                assert(digits_val(next) > 9223372036854775808);
                if all_digits(d) {
                    assert(d.subrange(0, next.len() as int) =~= next);
                    lemma_digits_val_prefix(d, next.len() as int);
                }
            }
            return None;
        }
        acc = acc * 10 + v;
        i = i + 1;
    }
    assert(t@.subrange(start as int, i as int) =~= d);
    if t[0] == MINUS {
        if acc == 9223372036854775808 {
            Some(i64::MIN)
        } else {
            Some(-(acc as i64))
        }
    } else {
        if acc > 9223372036854775807 {
            None
        } else {
            Some(acc as i64)
        }
    }
}

/// The index after the run of digits that starts at `i`.
fn skip_digits(t: &[u8], i: usize) -> (r: usize)
    requires
        i <= t.len(),
    ensures
        r as int == digit_run(t@, i as int),
        i <= r <= t.len(),
{
    let mut j: usize = i;
    while j < t.len() && 48 <= t[j] && t[j] <= 57
        invariant
            i <= j <= t.len(),
            digit_run(t@, i as int) == digit_run(t@, j as int),
        decreases t.len() - j,
    {
        j = j + 1;
    }
    j
}

/// Tells whether the bytes of `t` from `a` on, in ASCII lower case, are `word`.
pub fn lower_matches(t: &[u8], a: usize, word: &[u8]) -> (r: bool)
    requires
        a <= t.len(),
    ensures
        r == (ascii_lowered(t@.subrange(a as int, t@.len() as int)) == word@),
{
    let ghost r = t@.subrange(a as int, t@.len() as int);
    if t.len() - a != word.len() {
        assert(ascii_lowered(r).len() != word@.len());
        return false;
    }
    let mut i: usize = 0;
    while i < word.len()
        invariant
            i <= word@.len(),
            a <= t.len(),
            t.len() - a == word.len(),
            r == t@.subrange(a as int, t@.len() as int),
            forall|j: int| 0 <= j < i ==> ascii_lower(r[j]) == word@[j],
        decreases word.len() - i,
    {
        let c = t[a + i];
        let l = if 65 <= c && c <= 90 {
            c + 32
        } else {
            c
        };
        if l != word[i] {
            assert(ascii_lowered(r)[i as int] != word@[i as int]);
            return false;
        }
        i = i + 1;
    }
    assert(ascii_lowered(r) =~= word@);
    true
}

/// Tells whether `t` is a floating literal.
pub fn is_float_bytes(t: &[u8]) -> (r: bool)
    ensures
        r == is_float_literal(t@),
{
    let a: usize = if t.len() > 0 && (t[0] == PLUS || t[0] == MINUS) {
        1
    } else {
        0
    };
    let n = t.len();
    let inf: [u8; 3] = [105, 110, 102];
    let infinity: [u8; 8] = [105, 110, 102, 105, 110, 105, 116, 121];
    let nan: [u8; 3] = [110, 97, 110];
    assert(inf@ =~= seq![105u8, 110u8, 102u8]);
    assert(infinity@ =~= seq![105u8, 110u8, 102u8, 105u8, 110u8, 105u8, 116u8, 121u8]);
    assert(nan@ =~= seq![110u8, 97u8, 110u8]);
    if lower_matches(t, a, &inf) || lower_matches(t, a, &infinity) || lower_matches(t, a, &nan) {
        return true;
    }
    let b = skip_digits(t, a);
    let c = if b < n && t[b] == 46 {
        b + 1
    } else {
        b
    };
    let d = if c > b {
        skip_digits(t, c)
    } else {
        c
    };
    if (b - a) + (d - c) == 0 {
        return false;
    }
    let mut end = d;
    if d < n && (t[d] == 101 || t[d] == 69) {
        let g = if d + 1 < n && (t[d + 1] == PLUS || t[d + 1] == MINUS) {
            d + 2
        } else {
            d + 1
        };
        let h = skip_digits(t, g);
        if h > g {
            end = h;
        }
    }
    assert(end as int == exponent_end(t@, d as int));
    end == n
}

/// Compares two byte strings lexicographically: -1, 0 or 1.
pub fn compare_keys(a: &[u8], b: &[u8]) -> (r: i8)
    ensures
        r as int == key_cmp(a@, b@),
{
    let mut i: usize = 0;
    assert(a@.subrange(0, a@.len() as int) =~= a@);
    assert(b@.subrange(0, b@.len() as int) =~= b@);
    while i < a.len() && i < b.len() && a[i] == b[i]
        invariant
            i <= a.len(),
            i <= b.len(),
            key_cmp(a@, b@) == key_cmp(
                a@.subrange(i as int, a@.len() as int),
                b@.subrange(i as int, b@.len() as int),
            ),
        decreases a.len() - i,
    {
        assert(a@.subrange(i as int, a@.len() as int).drop_first() =~= a@.subrange(
            i + 1,
            a@.len() as int,
        ));
        assert(b@.subrange(i as int, b@.len() as int).drop_first() =~= b@.subrange(
            i + 1,
            b@.len() as int,
        ));
        i = i + 1;
    }
    if i == a.len() {
        if i == b.len() {
            0
        } else {
            -1
        }
    } else if i == b.len() {
        1
    } else if a[i] < b[i] {
        -1
    } else {
        1
    }
}

/// Keys that compare equal are equal.
pub proof fn lemma_key_cmp_zero(a: Seq<u8>, b: Seq<u8>)
    requires
        key_cmp(a, b) == 0,
    ensures
        a == b,
    decreases a.len(),
{
    if a.len() > 0 {
        lemma_key_cmp_zero(a.drop_first(), b.drop_first());
        assert(a =~= seq![a[0]] + a.drop_first());
        assert(b =~= seq![b[0]] + b.drop_first());
    }
}

} // verus!
