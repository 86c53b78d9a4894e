use vstd::prelude::*;

use bytes::BytesMut;

use crate::decode::decode_at;
use crate::frame::{frame_view, BulkString, FrameV, RespArray, RespError, RespFrame};
use crate::grammar::{lemma_parse_at_bounds, parse, DOLLAR, STAR};

verus! {

#[verifier::external_type_specification]
#[verifier::external_body]
pub struct ExBytesMut(BytesMut);

/// The bytes that a buffer holds, front first.
pub uninterp spec fn buffered(b: BytesMut) -> Seq<u8>;

/// Relies on `<BytesMut as AsRef<[u8]>>::as_ref`: the slice is the buffered bytes.
#[verifier::external_body]
fn buffer_bytes(b: &BytesMut) -> (r: &[u8])
    ensures
        r@ == buffered(*b),
{
    b.as_ref()
}

/// Relies on `<BytesMut as Buf>::advance`: drops the first `n` bytes; it panics
/// when `n` exceeds the length.
#[verifier::external_body]
fn buffer_advance(b: &mut BytesMut, n: usize)
    requires
        n <= buffered(*old(b)).len(),
    ensures
        buffered(*final(b)) == buffered(*old(b)).subrange(n as int, buffered(*old(b)).len() as int),
{
    bytes::Buf::advance(b, n)
}

/// What a decode of one frame does to `before`, the buffered bytes, given the
/// value `r` it returned (seen through `view`) and the bytes `after` it left.
pub open spec fn decoded<A>(
    before: Seq<u8>,
    r: Result<A, RespError>,
    view: spec_fn(A) -> FrameV,
    after: Seq<u8>,
) -> bool {
    match parse(before) {
        Ok((v, n)) => r is Ok && view(r->Ok_0) == v && after == before.subrange(n, before.len() as int),
        Err(x) => r == Err::<A, RespError>(x) && after == before,
    }
}

pub open spec fn bulk_view(b: BulkString) -> FrameV {
    frame_view(RespFrame::BulkString(b))
}

pub open spec fn array_view(a: RespArray) -> FrameV {
    frame_view(RespFrame::Array(a))
}

impl RespFrame {
    /// Decodes the frame at the front of the buffer and consumes its bytes; on
    /// an error the buffer is left as it was.
    pub fn decode(buf: &mut BytesMut) -> (r: Result<RespFrame, RespError>)
        ensures
            decoded(buffered(*old(buf)), r, |f: RespFrame| frame_view(f), buffered(*final(buf))),
    {
        let s = buffer_bytes(buf);
        proof {
            lemma_parse_at_bounds(s@, 0);
        }
        match decode_at(s, 0) {
            Err(x) => Err(x),
            Ok((f, n)) => {
                buffer_advance(buf, n);
                Ok(f)
            },
        }
    }
}

impl BulkString {
    /// Decodes a bulk string at the front of the buffer; a frame of another
    /// type there is an invalid frame, and the buffer is left as it was.
    pub fn decode(buf: &mut BytesMut) -> (r: Result<BulkString, RespError>)
        ensures
            buffered(*old(buf)).len() > 0 && buffered(*old(buf))[0] != DOLLAR ==> r == Err::<
                BulkString,
                RespError,
            >(RespError::InvalidFrame) && buffered(*final(buf)) == buffered(*old(buf)),
            !(buffered(*old(buf)).len() > 0 && buffered(*old(buf))[0] != DOLLAR) ==> decoded(
                buffered(*old(buf)),
                r,
                |b: BulkString| bulk_view(b),
                buffered(*final(buf)),
            ),
    {
        let s = buffer_bytes(buf);
        proof {
            lemma_parse_at_bounds(s@, 0);
        }
        if s.len() > 0 && s[0] != DOLLAR {
            return Err(RespError::InvalidFrame);
        }
        match decode_at(s, 0) {
            Err(x) => Err(x),
            Ok((f, n)) => {
                buffer_advance(buf, n);
                match f {
                    RespFrame::BulkString(b) => Ok(b),
                    _ => {
                        assert(false);
                        Err(RespError::InvalidFrame)
                    },
                }
            },
        }
    }
}

impl RespArray {
    /// Decodes an array at the front of the buffer; a frame of another type
    /// there is an invalid frame, and the buffer is left as it was.
    pub fn decode(buf: &mut BytesMut) -> (r: Result<RespArray, RespError>)
        ensures
            buffered(*old(buf)).len() > 0 && buffered(*old(buf))[0] != STAR ==> r == Err::<
                RespArray,
                RespError,
            >(RespError::InvalidFrame) && buffered(*final(buf)) == buffered(*old(buf)),
            !(buffered(*old(buf)).len() > 0 && buffered(*old(buf))[0] != STAR) ==> decoded(
                buffered(*old(buf)),
                r,
                |a: RespArray| array_view(a),
                buffered(*final(buf)),
            ),
    {
        let s = buffer_bytes(buf);
        proof {
            lemma_parse_at_bounds(s@, 0);
        }
        if s.len() > 0 && s[0] != STAR {
            return Err(RespError::InvalidFrame);
        }
        match decode_at(s, 0) {
            Err(x) => Err(x),
            Ok((f, n)) => {
                buffer_advance(buf, n);
                match f {
                    RespFrame::Array(a) => Ok(a),
                    _ => {
                        assert(false);
                        Err(RespError::InvalidFrame)
                    },
                }
            },
        }
    }
}

} // verus!
