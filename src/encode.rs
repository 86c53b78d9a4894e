use vstd::prelude::*;

use crate::frame::{
    frames_view, lemma_frames_view, lemma_pairs_view, pairs_view, FrameV, RespFrame,
};
use crate::grammar::{
    COLON, COMMA, CR, DOLLAR, HASH, LF, MINUS, PERCENT, PLUS, STAR, UNDERSCORE,
};

verus! {

/// The decimal digits of a natural number, without leading zeros.
pub open spec fn nat_digits(m: nat) -> Seq<u8>
    decreases m,
{
    if m < 10 {
        seq![(48 + m) as u8]
    } else {
        nat_digits(m / 10).push((48 + m % 10) as u8)
    }
}

/// The decimal text of an integer, with `-` when it is negative.
pub open spec fn int_text(n: int) -> Seq<u8> {
    if n < 0 {
        seq![MINUS] + nat_digits((-n) as nat)
    } else {
        nat_digits(n as nat)
    }
}

pub open spec fn crlf() -> Seq<u8> {
    seq![CR, LF]
}

/// A prefix byte, a text and CRLF.
pub open spec fn line(prefix: u8, t: Seq<u8>) -> Seq<u8> {
    seq![prefix] + t + crlf()
}

/// The canonical bytes of a frame.
pub open spec fn encode_frame(v: FrameV) -> Seq<u8>
    decreases v,
{
    match v {
        FrameV::Simple(t) => line(PLUS, t),
        FrameV::Error(t) => line(MINUS, t),
        FrameV::Integer(n) => line(COLON, int_text(n)),
        FrameV::Bulk(None) => line(DOLLAR, int_text(-1)),
        FrameV::Bulk(Some(b)) => line(DOLLAR, nat_digits(b.len())) + b + crlf(),
        FrameV::Array(None) => line(STAR, int_text(-1)),
        FrameV::Array(Some(fs)) => line(STAR, nat_digits(fs.len())) + encode_all(fs),
        FrameV::Null => line(UNDERSCORE, Seq::empty()),
        FrameV::Boolean(b) => line(HASH, if b { seq![116u8] } else { seq![102u8] }),
        FrameV::Double(t) => line(COMMA, t),
        FrameV::Dict(m) => line(PERCENT, nat_digits(2 * m.len())) + encode_pairs(m),
    }
}

/// The frames one after another.
pub open spec fn encode_all(fs: Seq<FrameV>) -> Seq<u8>
    decreases fs,
{
    if fs.len() == 0 {
        Seq::empty()
    } else {
        encode_all(fs.drop_last()) + encode_frame(fs.last())
    }
}

/// Each pair as a `+` key line followed by its value.
pub open spec fn encode_pairs(m: Seq<(Seq<u8>, FrameV)>) -> Seq<u8>
    decreases m,
{
    if m.len() == 0 {
        Seq::empty()
    } else {
        encode_pairs(m.drop_last()) + line(PLUS, m.last().0) + encode_frame(m.last().1)
    }
}

/// Appends the decimal digits of `m`.
fn push_digits(out: &mut Vec<u8>, m: u128)
    ensures
        final(out)@ == old(out)@ + nat_digits(m as nat),
    decreases m,
{
    if m < 10 {
        out.push((48 + m) as u8);
    } else {
        push_digits(out, m / 10);
        out.push((48 + m % 10) as u8);
    }
}

fn push_crlf(out: &mut Vec<u8>)
    ensures
        final(out)@ == old(out)@ + crlf(),
{
    out.push(CR);
    out.push(LF);
}

fn push_bytes(out: &mut Vec<u8>, b: &[u8])
    ensures
        final(out)@ == old(out)@ + b@,
{
    let mut i: usize = 0;
    let ghost start = out@;
    while i < b.len()
        invariant
            i <= b.len(),
            out@ == start + b@.subrange(0, i as int),
        decreases b.len() - i,
    {
        out.push(b[i]);
        i = i + 1;
        assert(out@ =~= start + b@.subrange(0, i as int));
    }
    assert(b@.subrange(0, i as int) =~= b@);
}

/// Appends `prefix`, the decimal text of `n` and CRLF.
fn push_int_line(out: &mut Vec<u8>, prefix: u8, n: i64)
    ensures
        final(out)@ == old(out)@ + line(prefix, int_text(n as int)),
{
    let ghost start = out@;
    out.push(prefix);
    if n < 0 {
        out.push(MINUS);
        let m: u64 = if n == i64::MIN {
            9223372036854775808
        } else {
            (-n) as u64
        };
        push_digits(out, m as u128);
    } else {
        push_digits(out, n as u128);
    }
    push_crlf(out);
    assert(out@ =~= start + line(prefix, int_text(n as int)));
}

/// Appends `prefix`, the decimal digits of `m` and CRLF.
fn push_len_line(out: &mut Vec<u8>, prefix: u8, m: u128)
    ensures
        final(out)@ == old(out)@ + line(prefix, nat_digits(m as nat)),
{
    let ghost start = out@;
    out.push(prefix);
    push_digits(out, m);
    push_crlf(out);
    assert(out@ =~= start + line(prefix, nat_digits(m as nat)));
}

/// Appends `prefix`, the text and CRLF.
fn push_text_line(out: &mut Vec<u8>, prefix: u8, t: &[u8])
    ensures
        final(out)@ == old(out)@ + line(prefix, t@),
{
    let ghost start = out@;
    out.push(prefix);
    push_bytes(out, t);
    push_crlf(out);
    assert(out@ =~= start + line(prefix, t@));
}

impl RespFrame {
    /// Appends the canonical bytes of the frame.
    pub fn encode_into(&self, out: &mut Vec<u8>)
        ensures
            final(out)@ == old(out)@ + encode_frame(self@),
        decreases self,
    {
        let ghost start = out@;
        match self {
            RespFrame::SimpleString(s) => push_text_line(out, PLUS, s.0.as_slice()),
            RespFrame::Error(e) => push_text_line(out, MINUS, e.0.as_slice()),
            RespFrame::Integer(n) => push_int_line(out, COLON, *n),
            RespFrame::BulkString(b) => match &b.0 {
                None => push_int_line(out, DOLLAR, -1),
                Some(data) => {
                    push_len_line(out, DOLLAR, data.len() as u128);
                    push_bytes(out, data.as_slice());
                    push_crlf(out);
                    assert(out@ =~= start + encode_frame(self@));
                },
            },
            RespFrame::Array(a) => match &a.0 {
                None => push_int_line(out, STAR, -1),
                Some(items) => {
                    push_len_line(out, STAR, items.len() as u128);
                    let ghost head = out@;
                    let mut i: usize = 0;
                    assert(frames_view(items@.subrange(0, 0)) =~= Seq::<FrameV>::empty());
                    while i < items.len()
                        invariant
                            *self == RespFrame::Array(*a),
                            a.0 == Some(*items),
                            i <= items.len(),
                            out@ == head + encode_all(frames_view(items@.subrange(0, i as int))),
                        decreases items.len() - i,
                    {
                        proof {
                            assert(decreases_to!(*self => (*self)->Array_0));
                            assert(decreases_to!((*self)->Array_0 => (*self)->Array_0.0));
                            assert(decreases_to!((*self)->Array_0.0 => (*self)->Array_0.0->Some_0));
                            assert(decreases_to!(*items => items[i as int]));
                        }
                        items[i].encode_into(out);
                        proof {
                            let sub = items@.subrange(0, i + 1);
                            assert(sub.drop_last() =~= items@.subrange(0, i as int));
                            lemma_frames_view(sub);
                            assert(frames_view(sub).drop_last() =~= frames_view(
                                items@.subrange(0, i as int),
                            ));
                        }
                        i = i + 1;
                        assert(out@ =~= head + encode_all(frames_view(items@.subrange(0, i as int))));
                    }
                    assert(items@.subrange(0, i as int) =~= items@);
                    proof {
                        lemma_frames_view(items@);
                    }
                    assert(out@ =~= start + encode_frame(self@));
                },
            },
            RespFrame::Null(_) => {
                out.push(UNDERSCORE);
                push_crlf(out);
                assert(out@ =~= start + encode_frame(self@));
            },
            RespFrame::Boolean(b) => {
                out.push(HASH);
                out.push(if *b { 116u8 } else { 102u8 });
                push_crlf(out);
                assert(out@ =~= start + encode_frame(self@));
            },
            RespFrame::Double(d) => push_text_line(out, COMMA, d.0.as_slice()),
            RespFrame::Dict(m) => {
                let n = m.0.len();
                proof {
                    lemma_pairs_view(m.0@);
                }
                push_len_line(out, PERCENT, 2 * (n as u128));
                let ghost head = out@;
                let mut i: usize = 0;
                assert(pairs_view(m.0@.subrange(0, 0)) =~= Seq::<(Seq<u8>, FrameV)>::empty());
                while i < n
                    invariant
                        *self == RespFrame::Dict(*m),
                        n == m.0.len(),
                        i <= n,
                        out@ == head + encode_pairs(pairs_view(m.0@.subrange(0, i as int))),
                    decreases n - i,
                {
                    push_text_line(out, PLUS, m.0[i].0.as_slice());
                    proof {
                        assert(decreases_to!(*self => (*self)->Dict_0));
                        assert(decreases_to!((*self)->Dict_0 => (*self)->Dict_0.0));
                        assert(decreases_to!(m.0 => m.0[i as int]));
                        assert(decreases_to!(m.0[i as int] => m.0[i as int].1));
                    }
                    m.0[i].1.encode_into(out);
                    proof {
                        let sub = m.0@.subrange(0, i + 1);
                        assert(sub.drop_last() =~= m.0@.subrange(0, i as int));
                        assert(pairs_view(sub).drop_last() =~= pairs_view(m.0@.subrange(0, i as int)));
                    }
                    i = i + 1;
                    assert(out@ =~= head + encode_pairs(pairs_view(m.0@.subrange(0, i as int))));
                }
                assert(m.0@.subrange(0, i as int) =~= m.0@);
                assert(out@ =~= start + encode_frame(self@));
            },
        }
    }

    /// The canonical bytes of the frame.
    pub fn encode(self) -> (r: Vec<u8>)
        ensures
            r@ == encode_frame(self@),
    {
        let mut out: Vec<u8> = Vec::new();
        self.encode_into(&mut out);
        assert(out@ =~= encode_frame(self@));
        out
    }
}

} // verus!
