use vstd::prelude::*;

verus! {

/// The abstract value of a frame: what the wire format carries, with bytes as
/// sequences and nested frames as sequences of values.
pub enum FrameV {
    Simple(Seq<u8>),
    Error(Seq<u8>),
    Integer(int),
    Bulk(Option<Seq<u8>>),
    Array(Option<Seq<FrameV>>),
    Null,
    Boolean(bool),
    Double(Seq<u8>),
    Dict(Seq<(Seq<u8>, FrameV)>),
}

/// Errors of the frame layer.
#[derive(Debug, Clone, Copy, PartialEq, Eq, Structural)]
pub enum RespError {
    /// The bytes are not a frame of the protocol.
    InvalidFrame,
    /// More bytes are needed before the frame can be read.
    NotComplete,
}

/// A simple string: text without an embedded CRLF.
#[derive(Debug, Clone, PartialEq, Eq)]
pub struct SimpleString(pub Vec<u8>);

/// An error message carried by an error frame.
#[derive(Debug, Clone, PartialEq, Eq)]
pub struct SimpleError(pub Vec<u8>);

/// The null frame, distinct from a null bulk string and a null array.
#[derive(Debug, Clone, Copy, PartialEq, Eq)]
pub struct RespNull;

/// A bulk string: `None` is the null bulk string, `Some` holds the bytes.
#[derive(Debug, Clone, PartialEq, Eq)]
pub struct BulkString(pub Option<Vec<u8>>);

/// An array of frames: `None` is the null array.
#[derive(Debug, PartialEq)]
pub struct RespArray(pub Option<Vec<RespFrame>>);

/// A map from text keys to frames, held as pairs with strictly ascending keys.
#[derive(Debug, PartialEq)]
pub struct RespMap(pub Vec<(Vec<u8>, RespFrame)>);

/// A double, held as the decimal literal that denotes it.
#[derive(Debug, Clone, PartialEq, Eq)]
pub struct RespDouble(pub Vec<u8>);

/// One frame of the wire protocol.
#[derive(Debug, PartialEq)]
pub enum RespFrame {
    SimpleString(SimpleString),
    Error(SimpleError),
    Integer(i64),
    BulkString(BulkString),
    Array(RespArray),
    Null(RespNull),
    Boolean(bool),
    Double(RespDouble),
    Dict(RespMap),
}

/// The abstract value of a frame.
pub open spec fn frame_view(f: RespFrame) -> FrameV
    decreases f,
{
    match f {
        RespFrame::SimpleString(s) => FrameV::Simple(s.0@),
        RespFrame::Error(e) => FrameV::Error(e.0@),
        RespFrame::Integer(n) => FrameV::Integer(n as int),
        RespFrame::BulkString(b) => match b.0 {
            Some(v) => FrameV::Bulk(Some(v@)),
            None => FrameV::Bulk(None),
        },
        RespFrame::Array(a) => match a.0 {
            Some(v) => FrameV::Array(Some(frames_view(v@))),
            None => FrameV::Array(None),
        },
        RespFrame::Null(_) => FrameV::Null,
        RespFrame::Boolean(b) => FrameV::Boolean(b),
        RespFrame::Double(d) => FrameV::Double(d.0@),
        RespFrame::Dict(m) => FrameV::Dict(pairs_view(m.0@)),
    }
}

/// The abstract values of frames, in order.
pub open spec fn frames_view(s: Seq<RespFrame>) -> Seq<FrameV>
    decreases s,
{
    if s.len() == 0 {
        Seq::empty()
    } else {
        frames_view(s.drop_last()).push(frame_view(s.last()))
    }
}

/// The abstract values of key/frame pairs, in order.
pub open spec fn pairs_view(s: Seq<(Vec<u8>, RespFrame)>) -> Seq<(Seq<u8>, FrameV)>
    decreases s,
{
    if s.len() == 0 {
        Seq::empty()
    } else {
        pairs_view(s.drop_last()).push((s.last().0@, frame_view(s.last().1)))
    }
}

impl View for RespFrame {
    type V = FrameV;

    open spec fn view(&self) -> FrameV {
        frame_view(*self)
    }
}

} // verus!

verus! {

/// The views of frames line up with the frames.
pub proof fn lemma_frames_view(s: Seq<RespFrame>)
    ensures
        frames_view(s).len() == s.len(),
        forall|i: int| 0 <= i < s.len() ==> #[trigger] frames_view(s)[i] == frame_view(s[i]),
    decreases s.len(),
{
    if s.len() > 0 {
        lemma_frames_view(s.drop_last());
    }
}

/// The views of pairs line up with the pairs.
pub proof fn lemma_pairs_view(s: Seq<(Vec<u8>, RespFrame)>)
    ensures
        pairs_view(s).len() == s.len(),
        forall|i: int|
            0 <= i < s.len() ==> #[trigger] pairs_view(s)[i] == (s[i].0@, frame_view(s[i].1)),
    decreases s.len(),
{
    if s.len() > 0 {
        lemma_pairs_view(s.drop_last());
    }
}

} // verus!

verus! {

impl BulkString {
    pub fn new(s: Vec<u8>) -> (r: Self)
        ensures
            r.0 == Some(s),
    {
        BulkString(Some(s))
    }

    pub fn null() -> (r: Self)
        ensures
            r.0 is None,
    {
        BulkString(None)
    }

    /// A copy of the bytes; the null bulk string has none.
    pub fn get_data(&self) -> (r: Result<Vec<u8>, RespError>)
        ensures
            match self.0 {
                Some(d) => r is Ok && r->Ok_0@ == d@,
                None => r == Err::<Vec<u8>, RespError>(RespError::InvalidFrame),
            },
    {
        match &self.0 {
            Some(data) => Ok(vstd::slice::slice_to_vec(data.as_slice())),
            None => Err(RespError::InvalidFrame),
        }
    }
}

impl RespArray {
    pub fn new(s: Vec<RespFrame>) -> (r: Self)
        ensures
            r.0 == Some(s),
    {
        RespArray(Some(s))
    }

    pub fn null() -> (r: Self)
        ensures
            r.0 is None,
    {
        RespArray(None)
    }

    /// The number of frames; the null array has none.
    pub fn len(&self) -> (r: usize)
        ensures
            r == match self.0 {
                Some(v) => v@.len(),
                None => 0,
            },
    {
        match &self.0 {
            Some(v) => v.len(),
            None => 0,
        }
    }
}

impl SimpleString {
    pub fn new(s: Vec<u8>) -> (r: Self)
        ensures
            r.0 == s,
    {
        SimpleString(s)
    }
}

/// A copy of a run of bytes.
pub fn copy_bytes(v: &Vec<u8>) -> (r: Vec<u8>)
    ensures
        r@ == v@,
{
    vstd::slice::slice_to_vec(v.as_slice())
}

impl RespFrame {
    /// A copy of the frame, equal to it in every part.
    pub fn copy(&self) -> (r: RespFrame)
        ensures
            r@ == self@,
        decreases self,
    {
        match self {
            RespFrame::SimpleString(s) => RespFrame::SimpleString(SimpleString(copy_bytes(&s.0))),
            RespFrame::Error(e) => RespFrame::Error(SimpleError(copy_bytes(&e.0))),
            RespFrame::Integer(n) => RespFrame::Integer(*n),
            RespFrame::BulkString(b) => match &b.0 {
                Some(d) => RespFrame::BulkString(BulkString(Some(copy_bytes(d)))),
                None => RespFrame::BulkString(BulkString(None)),
            },
            RespFrame::Array(a) => match &a.0 {
                None => RespFrame::Array(RespArray(None)),
                Some(items) => {
                    let mut out: Vec<RespFrame> = Vec::new();
                    let mut i: usize = 0;
                    while i < items.len()
                        invariant
                            *self == RespFrame::Array(*a),
                            a.0 == Some(*items),
                            i <= items.len(),
                            frames_view(out@) == frames_view(items@.subrange(0, i as int)),
                        decreases items.len() - i,
                    {
                        proof {
                            assert(decreases_to!(*self => (*self)->Array_0));
                            assert(decreases_to!((*self)->Array_0 => (*self)->Array_0.0));
                            assert(decreases_to!((*self)->Array_0.0 => (*self)->Array_0.0->Some_0));
                            assert(decreases_to!(*items => items[i as int]));
                        }
                        let f = items[i].copy();
                        let ghost before = out@;
                        out.push(f);
                        proof {
                            assert(out@.drop_last() =~= before);
                            assert(items@.subrange(0, i + 1).drop_last() =~= items@.subrange(0, i as int));
                        }
                        i = i + 1;
                    }
                    assert(items@.subrange(0, i as int) =~= items@);
                    RespFrame::Array(RespArray(Some(out)))
                },
            },
            RespFrame::Null(_) => RespFrame::Null(RespNull),
            RespFrame::Boolean(b) => RespFrame::Boolean(*b),
            RespFrame::Double(d) => RespFrame::Double(RespDouble(copy_bytes(&d.0))),
            RespFrame::Dict(m) => {
                let mut out: Vec<(Vec<u8>, RespFrame)> = Vec::new();
                let mut i: usize = 0;
                while i < m.0.len()
                    invariant
                        *self == RespFrame::Dict(*m),
                        i <= m.0.len(),
                        pairs_view(out@) == pairs_view(m.0@.subrange(0, i as int)),
                    decreases m.0.len() - i,
                {
                    proof {
                        assert(decreases_to!(*self => (*self)->Dict_0));
                        assert(decreases_to!((*self)->Dict_0 => (*self)->Dict_0.0));
                        assert(decreases_to!(m.0 => m.0[i as int]));
                        assert(decreases_to!(m.0[i as int] => m.0[i as int].1));
                    }
                    let k = copy_bytes(&m.0[i].0);
                    let f = m.0[i].1.copy();
                    let ghost before = out@;
                    out.push((k, f));
                    proof {
                        assert(out@.drop_last() =~= before);
                        assert(m.0@.subrange(0, i + 1).drop_last() =~= m.0@.subrange(0, i as int));
                    }
                    i = i + 1;
                }
                assert(m.0@.subrange(0, i as int) =~= m.0@);
                RespFrame::Dict(RespMap(out))
            },
        }
    }
}

} // verus!
