use vstd::prelude::*;
use vstd::slice::{slice_subrange, slice_to_vec};

use crate::frame::{
    frame_view, frames_view, lemma_pairs_view, pairs_view, BulkString, FrameV,
    RespArray, RespDouble, RespError, RespFrame, RespMap, RespNull, SimpleError, SimpleString,
};
use crate::grammar::{
    keys_ascending, lemma_ins_ascending,
    ins, key_cmp, parse_at, parse_items, parse_pairs, COLON, COMMA, CR, DOLLAR, HASH, LF, MINUS,
    PERCENT, PLUS, STAR, UNDERSCORE,
};
use crate::lex::{compare_keys, find_line_end, is_float_bytes, parse_int_bytes};

verus! {

/// A parse result with its built frame seen through its view.
pub open spec fn built(r: Result<(RespFrame, usize), RespError>) -> Result<(FrameV, int), RespError> {
    match r {
        Ok((f, q)) => Ok((frame_view(f), q as int)),
        Err(x) => Err(x),
    }
}

/// Puts `pre` in front of the frames of a parse result.
pub open spec fn prepend(pre: Seq<FrameV>, r: Result<(Seq<FrameV>, int), RespError>) -> Result<
    (Seq<FrameV>, int),
    RespError,
> {
    match r {
        Ok((fs, q)) => Ok((pre + fs, q)),
        Err(x) => Err(x),
    }
}

proof fn lemma_prepend_step(
    pre: Seq<FrameV>,
    f: FrameV,
    r: Result<(Seq<FrameV>, int), RespError>,
)
    ensures
        prepend(
            pre,
            match r {
                Ok((fs, q3)) => Ok((seq![f] + fs, q3)),
                Err(x) => Err(x),
            },
        ) == prepend(pre.push(f), r),
{
    match r {
        Ok((fs, q3)) => {
            assert(pre + (seq![f] + fs) =~= pre.push(f) + fs);
        },
        Err(_) => {},
    }
}

/// Inserts a pair into a map held in ascending key order, replacing the pair
/// with an equal key.
pub fn insert_pair(m: &mut Vec<(Vec<u8>, RespFrame)>, k: Vec<u8>, v: RespFrame)
    ensures
        pairs_view(final(m)@) == ins(pairs_view(old(m)@), k@, frame_view(v)),
{
    let ghost pv = pairs_view(m@);
    let ghost kv = (k@, frame_view(v));
    proof {
        lemma_pairs_view(m@);
    }
    let mut j: usize = m.len();
    assert(pv.subrange(0, j as int) =~= pv);
    assert(pv.subrange(j as int, pv.len() as int) =~= Seq::<(Seq<u8>, FrameV)>::empty());
    while j > 0 && compare_keys(m[j - 1].0.as_slice(), k.as_slice()) > 0
        invariant
            j <= m.len(),
            m@ == old(m)@,
            pv == pairs_view(m@),
            pv.len() == m@.len(),
            forall|i: int| 0 <= i < m@.len() ==> #[trigger] pv[i] == (m@[i].0@, frame_view(m@[i].1)),
            ins(pv, k@, frame_view(v)) == ins(pv.subrange(0, j as int), k@, frame_view(v)) + pv.subrange(
                j as int,
                pv.len() as int,
            ),
        decreases j,
    {
        let ghost pre = pv.subrange(0, j as int);
        assert(pre.drop_last() =~= pv.subrange(0, j - 1));
        assert(pre.last() == pv[j - 1]);
        assert(pv.subrange(j - 1, pv.len() as int) =~= seq![pv[j - 1]] + pv.subrange(
            j as int,
            pv.len() as int,
        ));
        assert(ins(pre, k@, frame_view(v)) + pv.subrange(j as int, pv.len() as int)
            =~= ins(pv.subrange(0, j - 1), k@, frame_view(v)) + pv.subrange(j - 1, pv.len() as int));
        j = j - 1;
    }
    let ghost pre = pv.subrange(0, j as int);
    let ghost post = pv.subrange(j as int, pv.len() as int);
    if j > 0 && compare_keys(m[j - 1].0.as_slice(), k.as_slice()) == 0 {
        assert(pre.drop_last() =~= pv.subrange(0, j - 1));
        m.set(j - 1, (k, v));
        proof {
            lemma_pairs_view(m@);
            assert(pairs_view(m@) =~= pre.drop_last().push(kv) + post);
        }
    } else {
        m.insert(j, (k, v));
        proof {
            lemma_pairs_view(m@);
            if j > 0 {
                assert(pre.last() == pv[j - 1]);
                assert(key_cmp(pre.last().0, k@) < 0);
            }
            assert(pairs_view(m@) =~= pre.push(kv) + post);
        }
    }
}

/// Builds the frame that starts at `p`, with the position just after it.
pub fn decode_at(s: &[u8], p: usize) -> (r: Result<(RespFrame, usize), RespError>)
    ensures
        built(r) == parse_at(s@, p as int),
    decreases s.len() - p,
{
    if p >= s.len() {
        return Err(RespError::NotComplete);
    }
    let c = s[p];
    if !(c == PLUS || c == MINUS || c == COLON || c == DOLLAR || c == STAR || c == UNDERSCORE
        || c == HASH || c == COMMA || c == PERCENT) {
        return Err(RespError::InvalidFrame);
    }
    let e = match find_line_end(s, p + 1) {
        None => return Err(RespError::NotComplete),
        Some(e) => e,
    };
    let h = e + 2;
    let t = slice_subrange(s, p + 1, e);
    if c == PLUS {
        return Ok((RespFrame::SimpleString(SimpleString(slice_to_vec(t))), h));
    }
    if c == MINUS {
        return Ok((RespFrame::Error(SimpleError(slice_to_vec(t))), h));
    }
    if c == UNDERSCORE {
        if t.len() == 0 {
            return Ok((RespFrame::Null(RespNull), h));
        } else {
            return Err(RespError::InvalidFrame);
        }
    }
    if c == HASH {
        if t.len() == 1 && (t[0] == 116 || t[0] == 102) {
            assert(t@ =~= seq![116u8] || t@ =~= seq![102u8]);
            if t[0] == 116 {
                assert(t@ =~= seq![116u8]);
            } else {
                assert(t@ != seq![116u8]) by {
                    assert(seq![116u8][0] == 116);
                }
            }
            return Ok((RespFrame::Boolean(t[0] == 116), h));
        } else {
            assert(t@ != seq![116u8] && t@ != seq![102u8]) by {
                assert(seq![116u8].len() == 1 && seq![116u8][0] == 116);
                assert(seq![102u8].len() == 1 && seq![102u8][0] == 102);
            }
            return Err(RespError::InvalidFrame);
        }
    }
    if c == COMMA {
        if is_float_bytes(t) {
            return Ok((RespFrame::Double(RespDouble(slice_to_vec(t))), h));
        } else {
            return Err(RespError::InvalidFrame);
        }
    }
    let n = match parse_int_bytes(t) {
        None => return Err(RespError::InvalidFrame),
        Some(n) => n,
    };
    if c == COLON {
        return Ok((RespFrame::Integer(n), h));
    }
    if c == DOLLAR {
        if n == -1 {
            return Ok((RespFrame::BulkString(BulkString(None)), h));
        }
        if n < -1 {
            return Err(RespError::InvalidFrame);
        }
        if s.len() - h < 2 || n as u64 > (s.len() - h - 2) as u64 {
            return Err(RespError::NotComplete);
        }
        let n = n as usize;
        if !(s[h + n] == CR && s[h + n + 1] == LF) {
            return Err(RespError::InvalidFrame);
        }
        let data = slice_to_vec(slice_subrange(s, h, h + n));
        return Ok((RespFrame::BulkString(BulkString(Some(data))), h + n + 2));
    }
    if c == STAR {
        if n == -1 {
            return Ok((RespFrame::Array(RespArray(None)), h));
        }
        if n < -1 {
            return Err(RespError::InvalidFrame);
        }
        let mut items: Vec<RespFrame> = Vec::new();
        let mut q = h;
        let mut i: u64 = 0;
        while i < n as u64
            invariant
                p < h <= q <= s.len(),
                0 <= n,
                i <= n,
                parse_at(s@, p as int) == match parse_items(s@, h as int, n as nat) {
                    Ok((fs, q)) => Ok((FrameV::Array(Some(fs)), q)),
                    Err(x) => Err(x),
                },
                parse_items(s@, h as int, n as nat) == prepend(
                    frames_view(items@),
                    parse_items(s@, q as int, (n - i) as nat),
                ),
            decreases n - i,
        {
            let ghost k = (n - i) as nat;
            let ghost pre = frames_view(items@);
            match decode_at(s, q) {
                Err(x) => {
                    return Err(x);
                },
                Ok((f, q2)) => {
                    if !(q < q2 && q2 <= s.len()) {
                        return Err(RespError::InvalidFrame);
                    }
                    proof {
                        lemma_prepend_step(pre, frame_view(f), parse_items(s@, q2 as int, (k - 1) as nat));
                    }
                    let ghost before = items@;
                    let ghost fv = frame_view(f);
                    items.push(f);
                    assert(items@.drop_last() =~= before);
                    assert(frames_view(items@) == pre.push(fv));
                    q = q2;
                    i = i + 1;
                },
            }
        }
        let ghost fs = frames_view(items@);
        assert(fs + Seq::<FrameV>::empty() =~= fs);
        return Ok((RespFrame::Array(RespArray(Some(items))), q));
    }
    if n <= 0 || n % 2 != 0 {
        return Err(RespError::InvalidFrame);
    }
    let k = (n / 2) as u64;
    let mut m = RespMap::new();
    let mut q = h;
    let mut i: u64 = 0;
    while i < k
        invariant
            p < h <= q <= s.len(),
            i <= k,
            k == n / 2,
            parse_at(s@, p as int) == match parse_pairs(s@, h as int, k as nat, Seq::empty()) {
                Ok((m, q)) => Ok((FrameV::Dict(m), q)),
                Err(x) => Err(x),
            },
            parse_pairs(s@, h as int, k as nat, Seq::empty()) == parse_pairs(
                s@,
                q as int,
                (k - i) as nat,
                m.view(),
            ),
            m.wf(),
        decreases k - i,
    {
        if q >= s.len() {
            return Err(RespError::NotComplete);
        }
        if s[q] != PLUS {
            return Err(RespError::InvalidFrame);
        }
        let e2 = match find_line_end(s, q + 1) {
            None => return Err(RespError::NotComplete),
            Some(e2) => e2,
        };
        match decode_at(s, e2 + 2) {
            Err(x) => return Err(x),
            Ok((f, q2)) => {
                if !(e2 + 2 < q2 && q2 <= s.len()) {
                    return Err(RespError::InvalidFrame);
                }
                let key = slice_to_vec(slice_subrange(s, q + 1, e2));
                m.insert(key, f);
                q = q2;
                i = i + 1;
            },
        }
    }
    Ok((RespFrame::Dict(m), q))
}

} // verus!

verus! {

/// Reads the frame at the start of `input`, with the number of bytes it takes.
pub fn parse_frame(input: &[u8]) -> (r: Result<(RespFrame, usize), RespError>)
    ensures
        built(r) == crate::grammar::parse(input@),
{
    decode_at(input, 0)
}

} // verus!

verus! {

impl RespMap {
    /// The pairs of the map, seen through their views.
    pub open spec fn view(&self) -> Seq<(Seq<u8>, FrameV)> {
        pairs_view(self.0@)
    }

    /// The keys strictly ascend, so each key appears once.
    pub open spec fn wf(&self) -> bool {
        keys_ascending(self.view())
    }

    /// The empty map.
    pub fn new() -> (r: RespMap)
        ensures
            r.wf(),
            r.view() == Seq::<(Seq<u8>, FrameV)>::empty(),
    {
        let r = RespMap(Vec::new());
        assert(r.view() =~= Seq::<(Seq<u8>, FrameV)>::empty());
        r
    }

    /// Sets the value of a key: an existing key takes the new value, a new key
    /// goes to its place in ascending order.
    pub fn insert(&mut self, k: Vec<u8>, v: RespFrame)
        requires
            old(self).wf(),
        ensures
            final(self).wf(),
            final(self).view() == ins(old(self).view(), k@, frame_view(v)),
    {
        proof {
            lemma_ins_ascending(self.view(), k@, frame_view(v));
        }
        insert_pair(&mut self.0, k, v);
    }
}

} // verus!
