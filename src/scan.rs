use vstd::prelude::*;
use vstd::slice::slice_subrange;

use crate::frame::{BulkString, FrameV, RespArray, RespError};
use crate::grammar::{
    frame_length, ins, parse_at, parse_items, parse_pairs, COLON, COMMA, CR, DOLLAR, HASH, LF,
    MINUS, PERCENT, PLUS, STAR, UNDERSCORE,
};
use crate::lex::{find_line_end, is_float_bytes, parse_int_bytes};

verus! {

/// Where a parse result ends, or its error.
pub open spec fn end_of<A>(r: Result<(A, int), RespError>) -> Result<int, RespError> {
    match r {
        Ok((_, q)) => Ok(q),
        Err(x) => Err(x),
    }
}

pub open spec fn as_int_result(r: Result<usize, RespError>) -> Result<int, RespError> {
    match r {
        Ok(q) => Ok(q as int),
        Err(x) => Err(x),
    }
}

/// Finds where the frame that starts at `p` ends, without building it.
pub fn scan_at(s: &[u8], p: usize) -> (r: Result<usize, RespError>)
    ensures
        as_int_result(r) == end_of(parse_at(s@, p as int)),
    decreases s.len() - p,
{
    if p >= s.len() {
        return Err(RespError::NotComplete);
    }
    let c = s[p];
    if !(c == PLUS || c == MINUS || c == COLON || c == DOLLAR || c == STAR || c == UNDERSCORE
        || c == HASH || c == COMMA || c == PERCENT) {
        return Err(RespError::InvalidFrame);
    }
    let e = match find_line_end(s, p + 1) {
        None => return Err(RespError::NotComplete),
        Some(e) => e,
    };
    let h = e + 2;
    if c == PLUS || c == MINUS {
        return Ok(h);
    }
    let t = slice_subrange(s, p + 1, e);
    if c == UNDERSCORE {
        if t.len() == 0 {
            return Ok(h);
        } else {
            return Err(RespError::InvalidFrame);
        }
    }
    if c == HASH {
        if t.len() == 1 && (t[0] == 116 || t[0] == 102) {
            assert(t@ =~= seq![116u8] || t@ =~= seq![102u8]);
            return Ok(h);
        } else {
            assert(t@ != seq![116u8] && t@ != seq![102u8]) by {
                assert(seq![116u8].len() == 1 && seq![116u8][0] == 116);
                assert(seq![102u8].len() == 1 && seq![102u8][0] == 102);
            }
            return Err(RespError::InvalidFrame);
        }
    }
    if c == COMMA {
        if is_float_bytes(t) {
            return Ok(h);
        } else {
            return Err(RespError::InvalidFrame);
        }
    }
    let n = match parse_int_bytes(t) {
        None => return Err(RespError::InvalidFrame),
        Some(n) => n,
    };
    if c == COLON {
        return Ok(h);
    }
    if c == DOLLAR {
        if n == -1 {
            return Ok(h);
        }
        if n < -1 {
            return Err(RespError::InvalidFrame);
        }
        if s.len() - h < 2 || n as u64 > (s.len() - h - 2) as u64 {
            return Err(RespError::NotComplete);
        }
        let n = n as usize;
        if !(s[h + n] == CR && s[h + n + 1] == LF) {
            return Err(RespError::InvalidFrame);
        }
        return Ok(h + n + 2);
    }
    if c == STAR {
        if n == -1 {
            return Ok(h);
        }
        if n < -1 {
            return Err(RespError::InvalidFrame);
        }
        assert(end_of(parse_at(s@, p as int)) == end_of(parse_items(s@, h as int, n as nat)));
        let mut q = h;
        let mut i: u64 = 0;
        while i < n as u64
            invariant
                p < h <= q <= s.len(),
                0 <= n,
                i <= n,
                end_of(parse_at(s@, p as int)) == end_of(parse_items(s@, h as int, n as nat)),
                end_of(parse_items(s@, h as int, n as nat)) == end_of(
                    parse_items(s@, q as int, (n - i) as nat),
                ),
            decreases n - i,
        {
            let ghost rest = parse_items(s@, q as int, (n - i) as nat);
            assert(end_of(rest) == match parse_at(s@, q as int) {
                Err(x) => Err(x),
                Ok((f, q2)) => if q < q2 && q2 <= s.len() {
                    end_of(parse_items(s@, q2, (n - i - 1) as nat))
                } else {
                    Err(RespError::InvalidFrame)
                },
            });
            match scan_at(s, q) {
                Err(x) => return Err(x),
                Ok(q2) => {
                    if !(q < q2 && q2 <= s.len()) {
                        return Err(RespError::InvalidFrame);
                    }
                    q = q2;
                    i = i + 1;
                },
            }
        }
        return Ok(q);
    }
    if n <= 0 || n % 2 != 0 {
        return Err(RespError::InvalidFrame);
    }
    let k = (n / 2) as u64;
    assert(end_of(parse_at(s@, p as int)) == end_of(
        parse_pairs(s@, h as int, k as nat, Seq::empty()),
    ));
    let ghost mut acc: Seq<(Seq<u8>, FrameV)> = Seq::empty();
    let mut q = h;
    let mut i: u64 = 0;
    while i < k
        invariant
            p < h <= q <= s.len(),
            i <= k,
            k == n / 2,
            end_of(parse_at(s@, p as int)) == end_of(
                parse_pairs(s@, h as int, k as nat, Seq::empty()),
            ),
            end_of(parse_pairs(s@, h as int, k as nat, Seq::empty())) == end_of(
                parse_pairs(s@, q as int, (k - i) as nat, acc),
            ),
        decreases k - i,
    {
        if q >= s.len() {
            return Err(RespError::NotComplete);
        }
        if s[q] != PLUS {
            return Err(RespError::InvalidFrame);
        }
        let e2 = match find_line_end(s, q + 1) {
            None => return Err(RespError::NotComplete),
            Some(e2) => e2,
        };
        match scan_at(s, e2 + 2) {
            Err(x) => return Err(x),
            Ok(q2) => {
                if !(e2 + 2 < q2 && q2 <= s.len()) {
                    return Err(RespError::InvalidFrame);
                }
                proof {
                    acc = ins(acc, s@.subrange(q + 1, e2 as int), parse_at(s@, e2 + 2)->Ok_0.0);
                }
                q = q2;
                i = i + 1;
            },
        }
    }
    Ok(q)
}

/// The number of bytes that the next complete frame at the start of `input`
/// occupies, or why it cannot be told yet.
pub fn parse_frame_length(input: &[u8]) -> (r: Result<usize, RespError>)
    ensures
        as_int_result(r) == frame_length(input@),
{
    scan_at(input, 0)
}

} // verus!

verus! {

impl BulkString {
    /// The length of the bulk string at the start of `buf`; a frame of
    /// another type there is an invalid frame.
    pub fn expect_length(buf: &[u8]) -> (r: Result<usize, RespError>)
        ensures
            buf@.len() > 0 && buf@[0] != DOLLAR ==> r == Err::<usize, RespError>(
                RespError::InvalidFrame,
            ),
            !(buf@.len() > 0 && buf@[0] != DOLLAR) ==> as_int_result(r) == frame_length(buf@),
    {
        if buf.len() > 0 && buf[0] != DOLLAR {
            return Err(RespError::InvalidFrame);
        }
        scan_at(buf, 0)
    }
}

impl RespArray {
    /// The length of the array at the start of `buf`; a frame of another
    /// type there is an invalid frame.
    pub fn expect_length(buf: &[u8]) -> (r: Result<usize, RespError>)
        ensures
            buf@.len() > 0 && buf@[0] != STAR ==> r == Err::<usize, RespError>(
                RespError::InvalidFrame,
            ),
            !(buf@.len() > 0 && buf@[0] != STAR) ==> as_int_result(r) == frame_length(buf@),
    {
        if buf.len() > 0 && buf[0] != STAR {
            return Err(RespError::InvalidFrame);
        }
        scan_at(buf, 0)
    }
}

} // verus!
