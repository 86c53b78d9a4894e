use vstd::prelude::*;
use vstd::string::StringSliceAdditionalSpecFns;

use bytes::BytesMut;

use crate::buffer::buffered;
use crate::cmd::{command_spec, kind_of, Command, CommandError, CommandV, ErrKind};
use crate::encode::encode_frame;
use crate::exec::{next_hashes, next_sets, next_strings, reply};
use crate::frame::{FrameV, RespError, RespFrame, SimpleError};
use crate::grammar::parse;
use crate::store::Backend;

verus! {

/// The command that a decoded request frame spells; only an array can spell one.
pub open spec fn request_command(v: FrameV) -> Result<CommandV, ErrKind> {
    match v {
        FrameV::Array(Some(items)) => command_spec(items),
        _ => Err(ErrKind::Command),
    }
}

/// The text of the error reply for each kind of command error.
pub open spec fn error_text(k: ErrKind) -> Seq<u8> {
    match k {
        ErrKind::Command => "ERR invalid command".spec_bytes(),
        ErrKind::Argument => "ERR invalid argument".spec_bytes(),
        ErrKind::Frame => "ERR invalid frame".spec_bytes(),
        ErrKind::Utf8 => "ERR invalid utf-8".spec_bytes(),
    }
}

/// The error reply to a request that is no valid command.
fn error_reply(e: CommandError) -> (r: RespFrame)
    ensures
        r@ == FrameV::Error(error_text(kind_of(e))),
{
    let text: &str = match e {
        CommandError::InvalidCommand(_) => "ERR invalid command",
        CommandError::InvalidArgument(_) => "ERR invalid argument",
        CommandError::RespError(_) => "ERR invalid frame",
        CommandError::Utf8Error => "ERR invalid utf-8",
    };
    RespFrame::Error(SimpleError(vstd::slice::slice_to_vec(text.as_bytes())))
}

/// Serves one request: decodes the frame at the front of the buffer, builds
/// the command it spells, runs it and gives the encoded reply. A request that
/// is no valid command gets an error reply and leaves the store as it was.
/// Where no frame can be decoded yet, or the bytes are no frame, the error is
/// returned and the buffer and the store are left as they were.
pub fn handle_request(buf: &mut BytesMut, backend: &mut Backend) -> (r: Result<Vec<u8>, RespError>)
    requires
        old(backend).wf(),
    ensures
        final(backend).wf(),
        match parse(buffered(*old(buf))) {
            Err(x) => r == Err::<Vec<u8>, RespError>(x) && buffered(*final(buf)) == buffered(
                *old(buf),
            ) && final(backend).strings() == old(backend).strings() && final(backend).hashes()
                == old(backend).hashes() && final(backend).sets() == old(backend).sets(),
            Ok((v, n)) => {
                &&& buffered(*final(buf)) == buffered(*old(buf)).subrange(
                    n,
                    buffered(*old(buf)).len() as int,
                )
                &&& r is Ok
                &&& match request_command(v) {
                    Ok(c) => {
                        &&& r->Ok_0@ == encode_frame(
                            reply(c, old(backend).strings(), old(backend).hashes(), old(backend).sets()),
                        )
                        &&& final(backend).strings() == next_strings(c, old(backend).strings())
                        &&& final(backend).hashes() == next_hashes(c, old(backend).hashes())
                        &&& final(backend).sets() == next_sets(c, old(backend).sets())
                    },
                    Err(k) => {
                        &&& r->Ok_0@ == encode_frame(FrameV::Error(error_text(k)))
                        &&& final(backend).strings() == old(backend).strings()
                        &&& final(backend).hashes() == old(backend).hashes()
                        &&& final(backend).sets() == old(backend).sets()
                    },
                }
            },
        },
{
    let frame = match RespFrame::decode(buf) {
        Err(x) => return Err(x),
        Ok(f) => f,
    };
    let reply_frame = match Command::try_from_frame(frame) {
        Ok(cmd) => cmd.execute(backend),
        Err(e) => error_reply(e),
    };
    Ok(reply_frame.encode())
}

} // verus!
